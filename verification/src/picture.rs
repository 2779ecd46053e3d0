//! A picture of a tree: one datum per line, with the branches drawn in front.
//!
//! ```text
//!  B
//!  ├─ A
//!  │  ├─
//!  │  └─
//!  └─ C
//!     ├─
//!     └─
//! ```

use crate::bst::BST;
use std::fmt::Display;
use vstd::prelude::*;
use vstd::string::to_string_from_display_ensures;
use vstd::string::StringExecFns;

verus! {

/// What stands in front of a line for one tree above it: the branch to the line
/// itself in the last place, and in the places before it a bar where the tree
/// above goes on below the line, and blanks where it does not.
pub open spec fn stroke(last_child: bool, last_place: bool) -> Seq<char> {
    if last_child {
        if last_place {
            seq![' ', '\u{2514}', '\u{2500}']
        } else {
            seq![' ', ' ', ' ']
        }
    } else {
        if last_place {
            seq![' ', '\u{251c}', '\u{2500}']
        } else {
            seq![' ', '\u{2502}', ' ']
        }
    }
}

/// The strokes for the first `n` places of `level`, which says for every tree
/// above the line whether the line is in its first subtree (2) or its last (1).
pub open spec fn strokes(level: Seq<usize>, n: int) -> Seq<char>
    decreases n,
{
    if n <= 0 {
        Seq::empty()
    } else {
        strokes(level, n - 1) + stroke(level[n - 1] == 1, n == level.len())
    }
}

/// The picture of `tree` below the trees that `level` tells of: the strokes and
/// the label of the root on one line, then the pictures of the left and of the
/// right subtree; for a leaf the strokes alone.
pub open spec fn drawn(tree: BST<String>, level: Seq<usize>) -> Seq<char>
    decreases tree,
{
    strokes(level, level.len() as int) + match tree {
        BST::Leaf => seq!['\n'],
        BST::Node(s, l, r) => seq![' '] + s@ + seq!['\n'] + drawn(*l, level.push(2)) + drawn(
            *r,
            level.push(1),
        ),
    }
}

impl<T: Display> BST<T> {
    /// Whether `labels` has the shape of this tree, with each datum as it is
    /// displayed in the place of the datum.
    pub open spec fn labelled_as(self, labels: BST<String>) -> bool
        decreases self,
    {
        match self {
            BST::Leaf => labels is Leaf,
            BST::Node(t, l, r) => match labels {
                BST::Leaf => false,
                BST::Node(s, l2, r2) => to_string_from_display_ensures::<T>(&t, s)
                    && l.labelled_as(*l2) && r.labelled_as(*r2),
            },
        }
    }

    /// The tree of the data as they are displayed.
    pub fn labelled(&self) -> (labels: BST<String>)
        ensures
            self.labelled_as(labels),
        decreases self,
    {
        match self {
            BST::Leaf => BST::Leaf,
            BST::Node(t, l, r) => BST::Node(
                t.to_string(),
                Box::new(l.labelled()),
                Box::new(r.labelled()),
            ),
        }
    }

    /// The picture of the tree with its data as they are displayed.
    pub fn picture(&self) -> (out: String)
        ensures
            exists|labels: BST<String>| #[trigger]
                self.labelled_as(labels) && out@ == drawn(labels, Seq::empty()),
    {
        let labels = self.labelled();
        let mut out = String::new();
        labels.fmt_levels(&mut out, Vec::new());
        proof {
            assert(out@ =~= drawn(labels, Seq::empty()));
        }
        out
    }
}

/// Appends the stroke for one place.
fn push_stroke(out: &mut String, last_child: bool, last_place: bool)
    ensures
        final(out)@ == old(out)@ + stroke(last_child, last_place),
{
    out.push(' ');
    if last_child {
        if last_place {
            out.push('\u{2514}');
            out.push('\u{2500}');
        } else {
            out.push(' ');
            out.push(' ');
        }
    } else {
        if last_place {
            out.push('\u{251c}');
            out.push('\u{2500}');
        } else {
            out.push('\u{2502}');
            out.push(' ');
        }
    }
    proof {
        assert(out@ =~= old(out)@ + stroke(last_child, last_place));
    }
}

impl BST<String> {
    /// Appends to `out` the picture of the tree below the trees that `level`
    /// tells of.
    pub fn fmt_levels(&self, out: &mut String, level: Vec<usize>)
        ensures
            final(out)@ == old(out)@ + drawn(*self, level@),
        decreases self,
    {
        let maxpos = level.len();
        let mut pos: usize = 0;
        proof {
            assert(out@ =~= old(out)@ + strokes(level@, 0));
        }
        while pos < maxpos
            invariant
                maxpos == level@.len(),
                pos <= maxpos,
                out@ == old(out)@ + strokes(level@, pos as int),
            decreases maxpos - pos,
        {
            push_stroke(out, level[pos] == 1, pos == maxpos - 1);
            pos += 1;
            proof {
                assert(out@ =~= old(out)@ + strokes(level@, pos as int));
            }
        }
        let ghost front = out@;
        match self {
            BST::Node(s, l, r) => {
                out.push(' ');
                out.append(s.as_str());
                out.push('\n');
                let ghost line = out@;
                let mut lnext = level.clone();
                lnext.push(2);
                l.fmt_levels(out, lnext);
                let mut rnext = level.clone();
                rnext.push(1);
                r.fmt_levels(out, rnext);
                proof {
                    assert(lnext@ =~= level@.push(2));
                    assert(rnext@ =~= level@.push(1));
                    assert(line =~= front + (seq![' '] + s@ + seq!['\n']));
                    assert(out@ =~= old(out)@ + drawn(*self, level@));
                }
            },
            BST::Leaf => {
                out.push('\n');
                proof {
                    assert(out@ =~= old(out)@ + drawn(*self, level@));
                }
            },
        }
    }
}

} // verus!
