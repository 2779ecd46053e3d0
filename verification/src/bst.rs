//! A binary search tree without balancing, and one step of rebalancing.
//!
//! Smaller elements hang to the left of a node, elements that are not smaller to
//! its right. All statements about the order are made over the comparison that
//! the element type specifies, and hold for types that obey it.

use std::cmp::Ordering;
use vstd::prelude::*;
use vstd::std_specs::cmp::PartialOrdSpec;

verus! {

/// A binary tree with a datum in every node.
#[derive(PartialEq, Eq, Debug)]
pub enum BST<T> {
    /// The bottom of the tree; it holds nothing.
    Leaf,
    /// A datum with the subtrees left and right of it.
    Node(T, Box<BST<T>>, Box<BST<T>>),
}

/// `a >= b` in the order of `T`.
pub open spec fn at_least<T: PartialOrd>(a: T, b: T) -> bool {
    a.partial_cmp_spec(&b) matches Some(Ordering::Greater | Ordering::Equal)
}

/// `a > b` in the order of `T`.
pub open spec fn above<T: PartialOrd>(a: T, b: T) -> bool {
    a.partial_cmp_spec(&b) == Some(Ordering::Greater)
}

impl<T> BST<T> {
    /// Number of nodes.
    pub open spec fn size(self) -> nat
        decreases self,
    {
        match self {
            BST::Leaf => 0,
            BST::Node(_, l, r) => 1 + l.size() + r.size(),
        }
    }

    /// The data from left to right.
    pub open spec fn in_order(self) -> Seq<T>
        decreases self,
    {
        match self {
            BST::Leaf => Seq::empty(),
            BST::Node(t, l, r) => l.in_order().push(t) + r.in_order(),
        }
    }

    /// The datum of the rightmost node.
    pub open spec fn rightmost(self) -> Option<T>
        decreases self,
    {
        match self {
            BST::Leaf => None,
            BST::Node(t, _, r) => match r.rightmost() {
                Some(deeper) => Some(deeper),
                None => Some(t),
            },
        }
    }

    /// The tree without its rightmost node, whose left subtree takes its place.
    pub open spec fn without_rightmost(self) -> BST<T>
        decreases self,
    {
        match self {
            BST::Leaf => BST::Leaf,
            BST::Node(t, l, r) => if *r is Leaf {
                *l
            } else {
                BST::Node(t, l, Box::new(r.without_rightmost()))
            },
        }
    }

    /// The datum of the leftmost node.
    pub open spec fn leftmost(self) -> Option<T>
        decreases self,
    {
        match self {
            BST::Leaf => None,
            BST::Node(t, l, _) => match l.leftmost() {
                Some(deeper) => Some(deeper),
                None => Some(t),
            },
        }
    }

    /// The tree without its leftmost node, whose right subtree takes its place.
    pub open spec fn without_leftmost(self) -> BST<T>
        decreases self,
    {
        match self {
            BST::Leaf => BST::Leaf,
            BST::Node(t, l, r) => if *l is Leaf {
                *r
            } else {
                BST::Node(t, Box::new(l.without_leftmost()), r)
            },
        }
    }

    /// The tree after one step of rebalancing. Where one subtree of the root has at
    /// least two nodes more than the other, the node of the larger subtree that is
    /// closest to the root in order becomes the new root, and the old root moves
    /// to the top of the smaller subtree. Any other tree stays as it is.
    pub open spec fn rebalanced(self) -> BST<T> {
        match self {
            BST::Leaf => BST::Leaf,
            BST::Node(t, l, r) => if l.size() > r.size() + 1 {
                BST::Node(
                    l.rightmost().unwrap(),
                    Box::new(l.without_rightmost()),
                    Box::new(BST::Node(t, Box::new(BST::Leaf), r)),
                )
            } else if r.size() > l.size() + 1 {
                BST::Node(
                    r.leftmost().unwrap(),
                    Box::new(BST::Node(t, l, Box::new(BST::Leaf))),
                    Box::new(r.without_leftmost()),
                )
            } else {
                self
            },
        }
    }
}

impl<T> BST<T> {
    /// Takes the leftmost datum out of the tree; the right subtree of its node
    /// takes its place.
    fn left_spine(&mut self) -> (taken: Option<T>)
        ensures
            taken == old(self).leftmost(),
            *final(self) == old(self).without_leftmost(),
            taken is None <==> *old(self) is Leaf,
        decreases *old(self),
    {
        match self {
            BST::Leaf => None,
            BST::Node(_, l, r) => match l.left_spine() {
                Some(t) => Some(t),
                None => {
                    let mut lifted: BST<T> = BST::Leaf;
                    std::mem::swap(&mut **r, &mut lifted);
                    std::mem::swap(self, &mut lifted);
                    match lifted {
                        BST::Node(s, _, _) => Some(s),
                        BST::Leaf => None,
                    }
                },
            },
        }
    }

    /// Takes the rightmost datum out of the tree; the left subtree of its node
    /// takes its place.
    fn right_spine(&mut self) -> (taken: Option<T>)
        ensures
            taken == old(self).rightmost(),
            *final(self) == old(self).without_rightmost(),
            taken is None <==> *old(self) is Leaf,
        decreases *old(self),
    {
        match self {
            BST::Leaf => None,
            BST::Node(_, l, r) => match r.right_spine() {
                Some(t) => Some(t),
                None => {
                    let mut lifted: BST<T> = BST::Leaf;
                    std::mem::swap(&mut **l, &mut lifted);
                    std::mem::swap(self, &mut lifted);
                    match lifted {
                        BST::Node(s, _, _) => Some(s),
                        BST::Leaf => None,
                    }
                },
            },
        }
    }
}

impl<T: PartialOrd> BST<T> {
    /// The tree with `t` in a new node at the bottom: from the root down, `t` goes
    /// right of every datum that it is not smaller than, and left of the others.
    pub open spec fn inserted(self, t: T) -> BST<T>
        decreases self,
    {
        match self {
            BST::Leaf => BST::Node(t, Box::new(BST::Leaf), Box::new(BST::Leaf)),
            BST::Node(s, l, r) => if at_least(t, s) {
                BST::Node(s, l, Box::new(r.inserted(t)))
            } else {
                BST::Node(s, Box::new(l.inserted(t)), r)
            },
        }
    }

    /// What a search for `query` finds on its way down: right of every datum
    /// smaller than `query`, and left of the others, the last of which is the result.
    pub open spec fn found(self, query: T) -> Option<T>
        decreases self,
    {
        match self {
            BST::Leaf => None,
            BST::Node(s, l, r) => if above(query, s) {
                r.found(query)
            } else {
                match l.found(query) {
                    Some(closer) => Some(closer),
                    None => Some(s),
                }
            },
        }
    }

    /// Computes the number of nodes in the tree.
    pub fn len(&self) -> (n: i32)
        requires
            self.size() <= i32::MAX,
        ensures
            n == self.size(),
        decreases self,
    {
        match self {
            BST::Leaf => 0,
            BST::Node(_, l, r) => 1 + l.len() + r.len(),
        }
    }

    /// Inserts `t` at the bottom of the tree, right of every datum on its way that
    /// it is not smaller than.
    pub fn insert(&mut self, t: T)
        ensures
            T::obeys_partial_cmp_spec() ==> *final(self) == old(self).inserted(t),
            final(self).size() == old(self).size() + 1,
        decreases *old(self),
    {
        match self {
            BST::Leaf => *self = BST::Node(t, Box::new(BST::Leaf), Box::new(BST::Leaf)),
            BST::Node(t2, l, r) => {
                if t >= *t2 {
                    r.insert(t);
                } else {
                    l.insert(t);
                }
            },
        }
    }
}

impl<T: PartialOrd> BST<T> {
    /// Returns the datum at which a search for `query` ends: in a search tree the
    /// smallest datum that is not smaller than `query`, if there is one.
    pub fn search(&self, query: &T) -> (hit: Option<&T>)
        ensures
            T::obeys_partial_cmp_spec() ==> match hit {
                Some(t) => self.found(*query) == Some(*t),
                None => self.found(*query) is None,
            },
            *self is Leaf ==> hit is None,
        decreases self,
    {
        match self {
            BST::Leaf => None,
            BST::Node(s, l, r) => {
                if query > s {
                    r.search(query)
                } else {
                    match l.search(query) {
                        Some(closer) => Some(closer),
                        None => Some(s),
                    }
                }
            },
        }
    }

    /// Performs one step of rebalancing in place. Where one subtree of the root
    /// has at least two nodes more than the other, the datum of the larger one
    /// that is next to the root in order moves up to the root, and the old root
    /// becomes the top of the smaller subtree.
    pub fn rebalance(&mut self)
        requires
            old(self).size() <= i32::MAX,
        ensures
            *final(self) == old(self).rebalanced(),
    {
        match self {
            BST::Leaf => {},
            BST::Node(_, l, r) => {
                if l.len() > r.len() + 1 {
                    match l.right_spine() {
                        Some(s2) => {
                            let mut low: BST<T> = BST::Leaf;
                            std::mem::swap(&mut **l, &mut low);
                            let mut high: BST<T> = BST::Leaf;
                            std::mem::swap(self, &mut high);
                            *self = BST::Node(s2, Box::new(low), Box::new(high));
                        },
                        None => {},
                    }
                } else if r.len() > l.len() + 1 {
                    match r.left_spine() {
                        Some(s2) => {
                            let mut high: BST<T> = BST::Leaf;
                            std::mem::swap(&mut **r, &mut high);
                            let mut low: BST<T> = BST::Leaf;
                            std::mem::swap(self, &mut low);
                            *self = BST::Node(s2, Box::new(low), Box::new(high));
                        },
                        None => {},
                    }
                }
            },
        }
    }
}

impl<T: Clone> BST<T> {
    /// Whether `other` has the shape of this tree, with a clone of each datum in
    /// the place of the datum.
    pub open spec fn cloned_as(self, other: BST<T>) -> bool
        decreases self,
    {
        match self {
            BST::Leaf => other is Leaf,
            BST::Node(t, l, r) => match other {
                BST::Leaf => false,
                BST::Node(t2, l2, r2) => cloned::<T>(t, t2) && l.cloned_as(*l2) && r.cloned_as(
                    *r2,
                ),
            },
        }
    }
}

impl<T: Clone> Clone for BST<T> {
    /// A tree of the same shape with a clone of every datum.
    fn clone(&self) -> (copy: Self)
        ensures
            self.cloned_as(copy),
        decreases self,
    {
        match self {
            BST::Leaf => BST::Leaf,
            BST::Node(t, l, r) => BST::Node(
                t.clone(),
                Box::new((&**l).clone()),
                Box::new((&**r).clone()),
            ),
        }
    }
}

/// A tree with a rightmost datum is put together again by hanging that datum
/// behind what is left without it.
pub proof fn lemma_rightmost_is_last<T>(tree: BST<T>)
    requires
        !(tree is Leaf),
    ensures
        tree.rightmost() is Some,
        tree.without_rightmost().in_order().push(tree.rightmost().unwrap()) == tree.in_order(),
        tree.without_rightmost().size() + 1 == tree.size(),
    decreases tree,
{
    match tree {
        BST::Leaf => {},
        BST::Node(t, l, r) => {
            if *r is Leaf {
                assert(r.size() == 0);
                assert(tree.without_rightmost() == *l);
                assert(r.in_order() =~= Seq::<T>::empty());
                assert(l.in_order().push(t) + r.in_order() =~= l.in_order().push(t));
            } else {
                lemma_rightmost_is_last(*r);
                let rest = r.without_rightmost();
                let last = r.rightmost().unwrap();
                assert(tree.without_rightmost() == BST::Node(t, l, Box::new(rest)));
                assert(tree.without_rightmost().size() == 1 + l.size() + rest.size());
                assert((l.in_order().push(t) + rest.in_order()).push(last) =~= l.in_order().push(t)
                    + rest.in_order().push(last));
            }
        },
    }
}

/// A tree with a leftmost datum is put together again by hanging what is left
/// without it behind that datum.
pub proof fn lemma_leftmost_is_first<T>(tree: BST<T>)
    requires
        !(tree is Leaf),
    ensures
        tree.leftmost() is Some,
        seq![tree.leftmost().unwrap()] + tree.without_leftmost().in_order() == tree.in_order(),
        tree.without_leftmost().size() + 1 == tree.size(),
    decreases tree,
{
    match tree {
        BST::Leaf => {},
        BST::Node(t, l, r) => {
            if *l is Leaf {
                assert(l.size() == 0);
                assert(tree.without_leftmost() == *r);
                assert(l.in_order() =~= Seq::<T>::empty());
                assert(seq![t] + r.in_order() =~= l.in_order().push(t) + r.in_order());
            } else {
                lemma_leftmost_is_first(*l);
                let rest = l.without_leftmost();
                let first = l.leftmost().unwrap();
                assert(tree.without_leftmost() == BST::Node(t, Box::new(rest), r));
                assert(tree.without_leftmost().size() == 1 + rest.size() + r.size());
                assert(seq![first] + (rest.in_order().push(t) + r.in_order()) =~= (seq![first]
                    + rest.in_order()).push(t) + r.in_order());
            }
        },
    }
}

/// Rebalancing keeps every datum, and keeps the data in their order from left to
/// right.
pub proof fn lemma_rebalanced_keeps_order<T>(tree: BST<T>)
    ensures
        tree.rebalanced().in_order() == tree.in_order(),
        tree.rebalanced().size() == tree.size(),
{
    match tree {
        BST::Leaf => {},
        BST::Node(t, l, r) => {
            let none = BST::<T>::Leaf;
            assert(none.in_order() =~= Seq::<T>::empty());
            assert(none.size() == 0);
            if l.size() > r.size() + 1 {
                lemma_rightmost_is_last(*l);
                let top = l.rightmost().unwrap();
                let low = l.without_rightmost();
                let high = BST::Node(t, Box::new(none), r);
                assert(high.size() == r.size() + 1);
                assert(high.in_order() =~= seq![t] + r.in_order());
                assert(low.in_order().push(top) + high.in_order() =~= l.in_order().push(t)
                    + r.in_order());
            } else if r.size() > l.size() + 1 {
                lemma_leftmost_is_first(*r);
                let top = r.leftmost().unwrap();
                let high = r.without_leftmost();
                let low = BST::Node(t, l, Box::new(none));
                assert(low.size() == l.size() + 1);
                assert(low.in_order() =~= l.in_order().push(t));
                assert(low.in_order().push(top) + high.in_order() =~= l.in_order().push(t)
                    + r.in_order());
            }
        },
    }
}

/// Rebalancing moves one node from the larger subtree of the root to the
/// smaller one, where they were at least two nodes apart.
pub proof fn lemma_rebalanced_evens_out<T>(tree: BST<T>)
    ensures
        match (tree, tree.rebalanced()) {
            (BST::Node(_, l, r), BST::Node(_, l2, r2)) => if l.size() > r.size() + 1 {
                l2.size() == l.size() - 1 && r2.size() == r.size() + 1
            } else if r.size() > l.size() + 1 {
                l2.size() == l.size() + 1 && r2.size() == r.size() - 1
            } else {
                l2 == l && r2 == r
            },
            (BST::Leaf, after) => after is Leaf,
            (BST::Node(_, _, _), BST::Leaf) => false,
        },
{
    match tree {
        BST::Leaf => {},
        BST::Node(t, l, r) => {
            let none = BST::<T>::Leaf;
            assert(none.size() == 0);
            if l.size() > r.size() + 1 {
                lemma_rightmost_is_last(*l);
                assert(BST::Node(t, Box::new(none), r).size() == r.size() + 1);
            } else if r.size() > l.size() + 1 {
                lemma_leftmost_is_first(*r);
                assert(BST::Node(t, l, Box::new(none)).size() == l.size() + 1);
            }
        },
    }
}

/// Inserting adds one datum and keeps the others in their order from left to
/// right.
pub proof fn lemma_inserted_keeps_order<T: PartialOrd>(tree: BST<T>, t: T) -> (at: int)
    ensures
        0 <= at <= tree.in_order().len(),
        tree.inserted(t).in_order() == tree.in_order().insert(at, t),
        tree.inserted(t).size() == tree.size() + 1,
    decreases tree,
{
    match tree {
        BST::Leaf => {
            let none = BST::<T>::Leaf;
            assert(none.in_order() =~= Seq::<T>::empty());
            assert(tree.inserted(t).in_order() =~= tree.in_order().insert(0, t));
            0
        },
        BST::Node(s, l, r) => {
            if at_least(t, s) {
                let at = lemma_inserted_keeps_order(*r, t);
                let shifted = l.in_order().len() + 1 + at;
                assert(tree.inserted(t).in_order() =~= tree.in_order().insert(shifted, t));
                shifted
            } else {
                let at = lemma_inserted_keeps_order(*l, t);
                assert(tree.inserted(t).in_order() =~= tree.in_order().insert(at, t));
                at
            }
        },
    }
}

/// The order of `T` is total: of two values one is at least the other, being
/// above excludes being at most, and being at least carries over a value between.
pub open spec fn total_order<T: PartialOrd>() -> bool {
    &&& forall|a: T, b: T| #[trigger] at_least(a, b) || above(b, a)
    &&& forall|a: T, b: T| #[trigger] above(a, b) ==> !at_least(b, a)
    &&& forall|a: T, b: T, c: T|
        #[trigger] at_least(a, b) && #[trigger] at_least(b, c) ==> at_least(a, c)
}

/// The order of the 32-bit integers is total.
pub proof fn lemma_i32_total_order()
    ensures
        total_order::<i32>(),
        i32::obeys_partial_cmp_spec(),
{
    assert forall|a: i32, b: i32| #[trigger] at_least(a, b) <==> a >= b by {}
    assert forall|a: i32, b: i32| #[trigger] above(a, b) <==> a > b by {}
}

/// The order of the 64-bit unsigned integers is total.
pub proof fn lemma_u64_total_order()
    ensures
        total_order::<u64>(),
        u64::obeys_partial_cmp_spec(),
{
    assert forall|a: u64, b: u64| #[trigger] at_least(a, b) <==> a >= b by {}
    assert forall|a: u64, b: u64| #[trigger] above(a, b) <==> a > b by {}
}

impl<T: PartialOrd> BST<T> {
    /// Whether `x` is a datum of the tree.
    pub open spec fn holds(self, x: T) -> bool
        decreases self,
    {
        match self {
            BST::Leaf => false,
            BST::Node(s, l, r) => x == s || l.holds(x) || r.holds(x),
        }
    }

    /// The search tree invariant: no datum in the left subtree of a node is above
    /// the node, and no datum in its right subtree is below it.
    pub open spec fn is_search_tree(self) -> bool
        decreases self,
    {
        match self {
            BST::Leaf => true,
            BST::Node(s, l, r) => {
                &&& l.is_search_tree()
                &&& r.is_search_tree()
                &&& forall|x: T| l.holds(x) ==> at_least(s, x)
                &&& forall|x: T| r.holds(x) ==> at_least(x, s)
            },
        }
    }
}

/// After an insertion the tree holds the new datum and what it held before.
pub proof fn lemma_inserted_holds<T: PartialOrd>(tree: BST<T>, t: T, x: T)
    ensures
        tree.inserted(t).holds(x) <==> x == t || tree.holds(x),
    decreases tree,
{
    match tree {
        BST::Leaf => {
            let none = BST::<T>::Leaf;
            assert(!none.holds(x));
        },
        BST::Node(s, l, r) => {
            lemma_inserted_holds(*l, t, x);
            lemma_inserted_holds(*r, t, x);
        },
    }
}

/// A tree holds its rightmost datum and what is left without it, and nothing
/// else; likewise on the left.
pub proof fn lemma_spines_hold<T: PartialOrd>(tree: BST<T>, x: T)
    requires
        !(tree is Leaf),
    ensures
        tree.holds(x) <==> tree.rightmost() == Some(x) || tree.without_rightmost().holds(x),
        tree.holds(x) <==> tree.leftmost() == Some(x) || tree.without_leftmost().holds(x),
        tree.rightmost() is Some,
        tree.leftmost() is Some,
    decreases tree,
{
    match tree {
        BST::Leaf => {},
        BST::Node(s, l, r) => {
            let none = BST::<T>::Leaf;
            assert(!none.holds(x));
            if !(*r is Leaf) {
                lemma_spines_hold(*r, x);
            }
            if !(*l is Leaf) {
                lemma_spines_hold(*l, x);
            }
        },
    }
}

/// In a total order, inserting into a search tree gives a search tree.
pub proof fn lemma_inserted_is_search_tree<T: PartialOrd>(tree: BST<T>, t: T)
    requires
        total_order::<T>(),
        tree.is_search_tree(),
    ensures
        tree.inserted(t).is_search_tree(),
    decreases tree,
{
    match tree {
        BST::Leaf => {
            let none = BST::<T>::Leaf;
            assert(none.is_search_tree());
            assert(forall|x: T| !none.holds(x));
        },
        BST::Node(s, l, r) => {
            if at_least(t, s) {
                lemma_inserted_is_search_tree(*r, t);
                assert forall|x: T| r.inserted(t).holds(x) implies at_least(x, s) by {
                    lemma_inserted_holds(*r, t, x);
                }
            } else {
                lemma_inserted_is_search_tree(*l, t);
                assert forall|x: T| l.inserted(t).holds(x) implies at_least(s, x) by {
                    lemma_inserted_holds(*l, t, x);
                    assert(at_least(t, s) || above(s, t));
                }
            }
        },
    }
}

/// In a total order, a search in a search tree finds the smallest datum that is
/// not smaller than the query, and finds nothing where every datum is smaller.
pub proof fn lemma_search_finds_least<T: PartialOrd>(tree: BST<T>, query: T)
    requires
        total_order::<T>(),
        tree.is_search_tree(),
    ensures
        match tree.found(query) {
            Some(m) => {
                &&& tree.holds(m)
                &&& at_least(m, query)
                &&& forall|x: T| tree.holds(x) && at_least(x, query) ==> at_least(x, m)
            },
            None => forall|x: T| tree.holds(x) ==> !at_least(x, query),
        },
    decreases tree,
{
    match tree {
        BST::Leaf => {},
        BST::Node(s, l, r) => {
            assert(at_least(s, s) || above(s, s));
            if above(query, s) {
                lemma_search_finds_least(*r, query);
                assert(!at_least(s, query));
                assert forall|x: T| l.holds(x) || x == s implies !at_least(x, query) by {
                    if at_least(x, query) && l.holds(x) {
                        assert(at_least(s, x));
                        assert(at_least(s, query));
                    }
                }
            } else {
                lemma_search_finds_least(*l, query);
                assert(at_least(s, query) || above(query, s));
                match l.found(query) {
                    Some(m) => {
                        assert(at_least(s, m));
                        assert forall|x: T| tree.holds(x) && at_least(x, query) implies at_least(
                            x,
                            m,
                        ) by {
                            if r.holds(x) {
                                assert(at_least(x, s));
                            }
                        }
                    },
                    None => {
                        assert forall|x: T| tree.holds(x) && at_least(x, query) implies at_least(
                            x,
                            s,
                        ) by {
                            if l.holds(x) {
                                assert(!at_least(x, query));
                            }
                        }
                    },
                }
            }
        },
    }
}

/// Without its rightmost datum a search tree is a search tree, and that datum is
/// at least everything that is left.
pub proof fn lemma_without_rightmost_is_search_tree<T: PartialOrd>(tree: BST<T>)
    requires
        total_order::<T>(),
        tree.is_search_tree(),
        !(tree is Leaf),
    ensures
        tree.without_rightmost().is_search_tree(),
        forall|x: T|
            tree.without_rightmost().holds(x) ==> at_least(tree.rightmost().unwrap(), x),
    decreases tree,
{
    match tree {
        BST::Leaf => {},
        BST::Node(s, l, r) => {
            if !(*r is Leaf) {
                lemma_without_rightmost_is_search_tree(*r);
                let top = r.rightmost().unwrap();
                lemma_spines_hold(*r, top);
                assert(at_least(top, s));
                assert forall|x: T| r.without_rightmost().holds(x) implies at_least(x, s) by {
                    lemma_spines_hold(*r, x);
                }
                assert forall|x: T| tree.without_rightmost().holds(x) implies at_least(top, x) by {
                    assert(x == s || l.holds(x) || r.without_rightmost().holds(x));
                    if x == s {
                        assert(at_least(top, x));
                    } else if l.holds(x) {
                        assert(at_least(s, x));
                        assert(at_least(top, x));
                    } else {
                        assert(at_least(top, x));
                    }
                }
            }
        },
    }
}

/// Without its leftmost datum a search tree is a search tree, and everything
/// that is left is at least that datum.
pub proof fn lemma_without_leftmost_is_search_tree<T: PartialOrd>(tree: BST<T>)
    requires
        total_order::<T>(),
        tree.is_search_tree(),
        !(tree is Leaf),
    ensures
        tree.without_leftmost().is_search_tree(),
        forall|x: T| tree.without_leftmost().holds(x) ==> at_least(x, tree.leftmost().unwrap()),
    decreases tree,
{
    match tree {
        BST::Leaf => {},
        BST::Node(s, l, r) => {
            if !(*l is Leaf) {
                lemma_without_leftmost_is_search_tree(*l);
                let top = l.leftmost().unwrap();
                lemma_spines_hold(*l, top);
                assert(at_least(s, top));
                assert forall|x: T| l.without_leftmost().holds(x) implies at_least(s, x) by {
                    lemma_spines_hold(*l, x);
                }
                assert forall|x: T| tree.without_leftmost().holds(x) implies at_least(x, top) by {
                    assert(x == s || l.without_leftmost().holds(x) || r.holds(x));
                    if x == s {
                        assert(at_least(x, top));
                    } else if r.holds(x) {
                        assert(at_least(x, s));
                        assert(at_least(x, top));
                    } else {
                        assert(at_least(x, top));
                    }
                }
            }
        },
    }
}

/// In a total order, rebalancing a search tree gives a search tree.
pub proof fn lemma_rebalanced_is_search_tree<T: PartialOrd>(tree: BST<T>)
    requires
        total_order::<T>(),
        tree.is_search_tree(),
    ensures
        tree.rebalanced().is_search_tree(),
{
    match tree {
        BST::Leaf => {},
        BST::Node(t, l, r) => {
            let none = BST::<T>::Leaf;
            assert(none.is_search_tree());
            assert(forall|x: T| !none.holds(x));
            if l.size() > r.size() + 1 {
                assert(!(*l is Leaf));
                let top = l.rightmost().unwrap();
                let low = l.without_rightmost();
                let high = BST::Node(t, Box::new(none), r);
                lemma_without_rightmost_is_search_tree(*l);
                lemma_spines_hold(*l, top);
                assert(at_least(t, top));
                assert(high.is_search_tree());
                assert forall|x: T| high.holds(x) implies at_least(x, top) by {
                    assert(!none.holds(x));
                    assert(x == t || r.holds(x));
                    if r.holds(x) {
                        assert(at_least(x, t));
                        assert(at_least(x, top));
                    }
                }
            } else if r.size() > l.size() + 1 {
                assert(!(*r is Leaf));
                let top = r.leftmost().unwrap();
                let high = r.without_leftmost();
                let low = BST::Node(t, l, Box::new(none));
                lemma_without_leftmost_is_search_tree(*r);
                lemma_spines_hold(*r, top);
                assert(at_least(top, t));
                assert(low.is_search_tree());
                assert forall|x: T| low.holds(x) implies at_least(top, x) by {
                    assert(!none.holds(x));
                    assert(x == t || l.holds(x));
                    if l.holds(x) {
                        assert(at_least(t, x));
                        assert(at_least(top, x));
                    }
                }
            }
        },
    }
}

} // verus!
