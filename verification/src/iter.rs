//! The cartesian product of two collections, handed out pair by pair.
//!
//! The product of `[1, 2]` and `[3, 4]` is `(1, 3), (1, 4), (2, 3), (2, 4)`: every
//! item of the left collection in turn, paired with each item of the right one.

use vstd::prelude::*;

verus! {

/// A walk through all pairs of an item on the left with an item on the right.
pub struct CartesianProduct<L, R> {
    l: Vec<L>,
    r: Vec<R>,
    i: usize,
    j: usize,
}

impl<L, R> CartesianProduct<L, R> {
    /// The items on the left.
    pub closed spec fn left(&self) -> Seq<L> {
        self.l@
    }

    /// The items on the right.
    pub closed spec fn right(&self) -> Seq<R> {
        self.r@
    }

    /// Position on the left of the pair that comes next.
    pub closed spec fn row(&self) -> int {
        self.i as int
    }

    /// Position on the right of the pair that comes next.
    pub closed spec fn column(&self) -> int {
        self.j as int
    }

    /// The walk has ended, or the pair that comes next exists.
    pub open spec fn wf(&self) -> bool {
        &&& 0 <= self.row() <= self.left().len()
        &&& 0 <= self.column()
        &&& self.row() < self.left().len() ==> self.column() < self.right().len()
    }

    /// How many pairs have been handed out.
    pub open spec fn position(&self) -> int {
        self.row() * self.right().len() + self.column()
    }

    /// A walk at its start. With nothing on the right there is no pair to start
    /// with, so then the left must be empty too.
    pub fn new(l: Vec<L>, r: Vec<R>) -> (product: Self)
        requires
            l@.len() == 0 || r@.len() > 0,
        ensures
            product.wf(),
            product.left() == l@,
            product.right() == r@,
            product.row() == 0,
            product.column() == 0,
    {
        CartesianProduct { l, r, i: 0, j: 0 }
    }
}

impl<L: Clone, R: Clone> CartesianProduct<L, R> {
    /// Hands out the next pair, or `None` once every item on the left has been
    /// paired with every item on the right.
    pub fn next(&mut self) -> (pair: Option<(L, R)>)
        requires
            old(self).wf(),
        ensures
            final(self).wf(),
            final(self).left() == old(self).left(),
            final(self).right() == old(self).right(),
            match pair {
                None => old(self).row() == old(self).left().len() && final(self).row() == old(
                    self,
                ).row() && final(self).column() == old(self).column(),
                Some((a, b)) => {
                    &&& old(self).row() < old(self).left().len()
                    &&& cloned::<L>(old(self).left()[old(self).row()], a)
                    &&& cloned::<R>(old(self).right()[old(self).column()], b)
                    &&& final(self).position() == old(self).position() + 1
                    &&& if old(self).column() + 1 == old(self).right().len() {
                        final(self).row() == old(self).row() + 1 && final(self).column() == 0
                    } else {
                        final(self).row() == old(self).row() && final(self).column() == old(
                            self,
                        ).column() + 1
                    }
                },
            },
    {
        if self.i == self.l.len() {
            return None;
        }
        let pair = (self.l[self.i].clone(), self.r[self.j].clone());
        if self.j == self.r.len() - 1 {
            proof {
                let n = self.r@.len() as int;
                let i = self.i as int;
                assert((i + 1) * n == i * n + n) by (nonlinear_arith);
            }
            self.j = 0;
            self.i += 1;
        } else {
            self.j += 1;
        }
        Some(pair)
    }
}

/// The pair at a position of the walk: positions count through the right
/// collection once for each item on the left.
pub proof fn lemma_position_names_pair<L, R>(product: CartesianProduct<L, R>)
    requires
        product.wf(),
        product.row() < product.left().len(),
    ensures
        product.position() / (product.right().len() as int) == product.row(),
        product.position() % (product.right().len() as int) == product.column(),
        0 <= product.position() < product.left().len() * product.right().len(),
{
    let n = product.right().len() as int;
    let i = product.row();
    let j = product.column();
    vstd::arithmetic::div_mod::lemma_fundamental_div_mod_converse(i * n + j, n, i, j);
    assert(i * n + j < product.left().len() * n) by (nonlinear_arith)
        requires
            0 <= j < n,
            0 <= i < product.left().len(),
    ;
    assert(0 <= i * n) by (nonlinear_arith)
        requires
            0 <= i,
            0 <= n,
    ;
}

} // verus!
