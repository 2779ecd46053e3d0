//! Searching a collection of strings, and drawing a progress bar into a string.

use crate::text::{push_repeated, repeated};
use vstd::prelude::*;

verus! {

/// `needle` stands somewhere in `text`, as a run of adjacent characters.
pub open spec fn occurs_in(needle: Seq<char>, text: Seq<char>) -> bool {
    exists|at: int|
        0 <= at && at + needle.len() <= text.len() && #[trigger] text.subrange(
            at,
            at + needle.len(),
        ) == needle
}

/// `str::contains` with a string as the pattern: whether the pattern matches a
/// part of the text. Two strings hold the same characters in the same order
/// exactly where they hold the same bytes, so the match is stated over characters.
#[verifier::external_body]
fn text_contains(text: &str, needle: &str) -> (found: bool)
    ensures
        found == occurs_in(needle@, text@),
{
    text.contains(needle)
}

/// Returns the positions of the strings in `haystack` that contain `needle`, in
/// ascending order.
pub fn find_contains(haystack: &[String], needle: &str) -> (hits: Vec<usize>)
    ensures
        forall|k: int|
            0 <= k < hits@.len() ==> hits@[k] < haystack@.len() && occurs_in(
                needle@,
                haystack@[#[trigger] hits@[k] as int]@,
            ),
        forall|i: int|
            0 <= i < haystack@.len() && occurs_in(needle@, (#[trigger] haystack@[i])@)
                ==> hits@.contains(i as usize),
        forall|j: int, k: int| 0 <= j < k < hits@.len() ==> hits@[j] < hits@[k],
{
    let mut hits: Vec<usize> = Vec::new();
    let mut i: usize = 0;
    while i < haystack.len()
        invariant
            i <= haystack@.len(),
            forall|k: int|
                0 <= k < hits@.len() ==> hits@[k] < i && occurs_in(
                    needle@,
                    haystack@[#[trigger] hits@[k] as int]@,
                ),
            forall|j: int|
                0 <= j < i && occurs_in(needle@, (#[trigger] haystack@[j])@) ==> hits@.contains(
                    j as usize,
                ),
            forall|j: int, k: int| 0 <= j < k < hits@.len() ==> hits@[j] < hits@[k],
        decreases haystack@.len() - i,
    {
        if text_contains(haystack[i].as_str(), needle) {
            let ghost earlier = hits@;
            hits.push(i);
            proof {
                assert forall|j: int|
                    0 <= j < i + 1 && occurs_in(
                        needle@,
                        (#[trigger] haystack@[j])@,
                    ) implies hits@.contains(j as usize) by {
                    if j < i {
                        let k = choose|k: int| 0 <= k < earlier.len() && earlier[k] == j as usize;
                        assert(hits@[k] == j as usize);
                    } else {
                        assert(hits@[hits@.len() - 1] == j as usize);
                    }
                }
            }
        }
        i += 1;
    }
    hits
}

/// Number of cells between the delimiters of a progress bar.
pub const BAR_CELLS: usize = 10;

/// A progress bar of ten cells between `delims`, the first `filled` of them drawn
/// as `=` and the others left blank; more than ten count as ten.
pub open spec fn progress_bar(delims: (char, char), filled: int) -> Seq<char> {
    let n = if filled > 10 {
        10
    } else {
        filled
    };
    seq![delims.0] + repeated('=', n) + repeated(' ', 10 - n) + seq![delims.1]
}

/// Appends to `buf` a progress bar of ten cells between the two delimiters, of
/// which `filled` are drawn as `=`; more than ten count as ten. With two of ten
/// and brackets the bar is `[==        ]`.
pub fn fill_progress_bar(buf: &mut String, delims: (char, char), filled: usize)
    ensures
        final(buf)@ == old(buf)@ + progress_bar(delims, filled as int),
{
    let n: usize = if filled > BAR_CELLS {
        BAR_CELLS
    } else {
        filled
    };
    buf.push(delims.0);
    push_repeated(buf, '=', n);
    push_repeated(buf, ' ', BAR_CELLS - n);
    buf.push(delims.1);
    proof {
        assert(buf@ =~= old(buf)@ + progress_bar(delims, filled as int));
    }
}

} // verus!
