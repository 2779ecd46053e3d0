//! Building strings character by character.

use vstd::prelude::*;

verus! {

/// `String::push` appends one character to the end of the string.
pub assume_specification[ String::push ](buf: &mut String, ch: char)
    ensures
        final(buf)@ == old(buf)@.push(ch),
;

/// `n` copies of `c`.
pub open spec fn repeated(c: char, n: int) -> Seq<char> {
    Seq::new(n as nat, |i: int| c)
}

/// Appends `n` copies of `c` to `buf`.
pub fn push_repeated(buf: &mut String, c: char, n: usize)
    ensures
        final(buf)@ == old(buf)@ + repeated(c, n as int),
{
    let mut i: usize = 0;
    proof {
        assert(buf@ =~= old(buf)@ + repeated(c, 0));
    }
    while i < n
        invariant
            i <= n,
            buf@ == old(buf)@ + repeated(c, i as int),
        decreases n - i,
    {
        buf.push(c);
        i += 1;
        proof {
            assert(buf@ =~= old(buf)@ + repeated(c, i as int));
        }
    }
}

} // verus!
