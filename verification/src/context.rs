//! A context variable: a value that is set for the length of a scope and falls
//! back to what it was before when the scope ends.

use vstd::prelude::*;

verus! {

/// The values of a context variable, the one of the innermost scope last.
pub struct Context<T> {
    values: Vec<T>,
}

impl<T: Copy> View for Context<T> {
    type V = Seq<T>;

    /// The values that were set and not given up yet, the latest last.
    closed spec fn view(&self) -> Seq<T> {
        self.values@
    }
}

impl<T: Copy> Context<T> {
    /// A context without a value.
    pub fn new() -> (ctx: Self)
        ensures
            ctx@ == Seq::<T>::empty(),
    {
        Context { values: Vec::new() }
    }

    /// Enters a scope in which the context holds `t`.
    pub fn set(&mut self, t: T)
        ensures
            final(self)@ == old(self)@.push(t),
    {
        self.values.push(t);
    }

    /// The value of the innermost scope, if the context was set at all.
    pub fn get(&self) -> (latest: Option<T>)
        ensures
            latest == (if self@.len() == 0 {
                None
            } else {
                Some(self@.last())
            }),
    {
        let n = self.values.len();
        if n == 0 {
            None
        } else {
            Some(self.values[n - 1])
        }
    }

    /// Leaves the innermost scope: the context holds again what it held before
    /// the latest `set`. A context without a value stays as it is.
    pub fn reset(&mut self)
        ensures
            final(self)@ == (if old(self)@.len() == 0 {
                old(self)@
            } else {
                old(self)@.drop_last()
            }),
    {
        let _ = self.values.pop();
    }
}

/// After a scope was entered and left, the context holds what it held before.
pub proof fn lemma_scope_restores<T>(before: Seq<T>, t: T)
    ensures
        before.push(t).drop_last() == before,
        before.push(t).last() == t,
{
    assert(before.push(t).drop_last() =~= before);
}

} // verus!
