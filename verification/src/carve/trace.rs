//! Tracing the cheapest vertical seam back from the bottom row.

use crate::carve::grid::{cell, lemma_cell_in_range, Image};
use vstd::prelude::*;

verus! {

/// A seam of a grid `w` wide and `h` high: one column per row, listed from the top
/// row down, with columns of adjacent rows at most one apart.
pub open spec fn is_seam(s: Seq<usize>, w: int, h: int) -> bool {
    &&& s.len() == h
    &&& forall|y: int| 0 <= y < h ==> 0 <= #[trigger] s[y] < w
    &&& forall|y: int| 0 <= y < h - 1 ==> -1 <= #[trigger] s[y] - s[y + 1] <= 1
}

/// Among the first `n` columns of row `y`, the one of least cost; the leftmost
/// where several cost the same.
pub open spec fn argmin_row(c: Seq<int>, w: int, y: int, n: int) -> int
    decreases n,
{
    if n <= 1 {
        0
    } else {
        let best = argmin_row(c, w, y, n - 1);
        if c[cell(w, n - 1, y)] < c[cell(w, best, y)] {
            n - 1
        } else {
            best
        }
    }
}

/// The column in row `y - 1` through which a seam through `(x, y)` goes on: the
/// cheapest of the cells above left, above and above right that exist; the
/// leftmost where several cost the same.
pub open spec fn step_up(c: Seq<int>, w: int, x: int, y: int) -> int {
    let best = if x >= 1 && c[cell(w, x - 1, y - 1)] <= c[cell(w, x, y - 1)] {
        x - 1
    } else {
        x
    };
    if x + 1 < w && c[cell(w, x + 1, y - 1)] < c[cell(w, best, y - 1)] {
        x + 1
    } else {
        best
    }
}

/// Column of the traced seam in row `y`: the cheapest cell in the bottom row, and
/// from each row the cheapest step up into the row above.
pub open spec fn seam_column(c: Seq<int>, w: int, h: int, y: int) -> int
    decreases h - y,
{
    if y >= h - 1 {
        argmin_row(c, w, h - 1, w)
    } else {
        step_up(c, w, seam_column(c, w, h, y + 1), y + 1)
    }
}

/// The traced seam, listed from the top row down.
pub open spec fn seam_of(c: Seq<int>, w: int, h: int) -> Seq<usize> {
    Seq::new(h as nat, |y: int| seam_column(c, w, h, y) as usize)
}

/// `argmin_row` picks a column of least cost, and no column left of it costs as little.
pub proof fn lemma_argmin_row(c: Seq<int>, w: int, y: int, n: int)
    requires
        1 <= n,
    ensures
        0 <= argmin_row(c, w, y, n) < n,
        forall|x: int|
            0 <= x < n ==> c[cell(w, argmin_row(c, w, y, n), y)] <= #[trigger] c[cell(w, x, y)],
        forall|x: int|
            0 <= x < argmin_row(c, w, y, n) ==> c[cell(w, argmin_row(c, w, y, n), y)]
                < #[trigger] c[cell(w, x, y)],
    decreases n,
{
    if n > 1 {
        lemma_argmin_row(c, w, y, n - 1);
    }
}

/// `step_up` stays inside the grid and at most one column away, picks a cell of
/// least cost among the cells above that exist, and none of those left of its
/// pick costs as little.
pub proof fn lemma_step_up(c: Seq<int>, w: int, x: int, y: int)
    requires
        0 <= x < w,
    ensures
        0 <= step_up(c, w, x, y) < w,
        x - 1 <= step_up(c, w, x, y) <= x + 1,
        forall|k: int|
            x - 1 <= k <= x + 1 && 0 <= k < w ==> c[cell(w, step_up(c, w, x, y), y - 1)]
                <= #[trigger] c[cell(w, k, y - 1)],
        forall|k: int|
            x - 1 <= k < step_up(c, w, x, y) && 0 <= k ==> c[cell(w, step_up(c, w, x, y), y - 1)]
                < #[trigger] c[cell(w, k, y - 1)],
{
}

/// The traced seam stays inside the grid.
pub proof fn lemma_seam_column_in_grid(c: Seq<int>, w: int, h: int, y: int)
    requires
        0 < w,
        0 <= y < h,
    ensures
        0 <= seam_column(c, w, h, y) < w,
    decreases h - y,
{
    if y >= h - 1 {
        lemma_argmin_row(c, w, h - 1, w);
    } else {
        lemma_seam_column_in_grid(c, w, h, y + 1);
    }
}

/// Each row of a traced seam is at most one column away from the row below it.
pub proof fn lemma_traced_seam_is_seam(c: Seq<int>, w: int, h: int)
    requires
        0 < w <= usize::MAX,
        0 < h,
    ensures
        is_seam(seam_of(c, w, h), w, h),
{
    let s = seam_of(c, w, h);
    assert forall|y: int| 0 <= y < h implies 0 <= #[trigger] s[y] < w by {
        lemma_seam_column_in_grid(c, w, h, y);
    }
    assert forall|y: int| 0 <= y < h - 1 implies -1 <= #[trigger] s[y] - s[y + 1] <= 1 by {
        lemma_seam_column_in_grid(c, w, h, y);
        lemma_seam_column_in_grid(c, w, h, y + 1);
        assert(seam_column(c, w, h, y) == step_up(c, w, seam_column(c, w, h, y + 1), y + 1));
    }
}

/// The costs in a buffer of machine words, as numbers.
pub open spec fn ints(c: Seq<usize>) -> Seq<int> {
    Seq::new(c.len(), |i: int| c[i] as int)
}

/// The costs in a buffer of 128-bit words, as numbers.
pub open spec fn wide_ints(c: Seq<u128>) -> Seq<int> {
    Seq::new(c.len(), |i: int| c[i] as int)
}

/// A buffer of costs, one for each cell, that tells which of two cells is cheaper.
pub trait Costs {
    /// The costs as numbers, in row-major order.
    spec fn amounts(&self) -> Seq<int>;

    /// Whether the cell at position `i` costs less than the cell at position `j`.
    fn cheaper(&self, i: usize, j: usize) -> (yes: bool)
        requires
            i < self.amounts().len(),
            j < self.amounts().len(),
        ensures
            yes == (self.amounts()[i as int] < self.amounts()[j as int]),
    ;
}

impl Costs for Vec<usize> {
    open spec fn amounts(&self) -> Seq<int> {
        ints(self@)
    }

    fn cheaper(&self, i: usize, j: usize) -> (yes: bool) {
        self[i] < self[j]
    }
}

impl Costs for Vec<u128> {
    open spec fn amounts(&self) -> Seq<int> {
        wide_ints(self@)
    }

    fn cheaper(&self, i: usize, j: usize) -> (yes: bool) {
        self[i] < self[j]
    }
}

/// Traces the cheapest vertical seam through the cumulative costs `costs` of a
/// grid `width` wide and `height` high, from the bottom row up.
///
/// The result lists one column per row from the top row down. Where several
/// cells cost the same the leftmost is taken, in the bottom row and at every
/// step up.
pub fn trace_seam<C: Costs>(costs: &C, width: usize, height: usize) -> (seam: Vec<usize>)
    requires
        width > 0,
        height > 0,
        costs.amounts().len() == width * height,
        width * height <= usize::MAX,
    ensures
        seam@ == seam_of(costs.amounts(), width as int, height as int),
        is_seam(seam@, width as int, height as int),
{
    let ghost c = costs.amounts();
    let ghost w = width as int;
    let ghost h = height as int;
    proof {
        lemma_cell_in_range(w, h, 0, h - 1);
    }
    let last: usize = (height - 1) * width;
    let mut best: usize = 0;
    let mut x: usize = 1;
    while x < width
        invariant
            w == width,
            h == height,
            0 < h,
            c == costs.amounts(),
            c.len() == w * h,
            w * h <= usize::MAX,
            last == (h - 1) * w,
            1 <= x <= width,
            best == argmin_row(c, w, h - 1, x as int),
            best < x,
        decreases width - x,
    {
        proof {
            lemma_cell_in_range(w, h, x as int, h - 1);
            lemma_cell_in_range(w, h, best as int, h - 1);
        }
        if costs.cheaper(last + x, last + best) {
            best = x;
        }
        x += 1;
    }
    let mut seam: Vec<usize> = Vec::with_capacity(height);
    while seam.len() < height
        invariant
            seam@.len() <= height,
        decreases height - seam@.len(),
    {
        seam.push(0);
    }
    let mut y: usize = height - 1;
    let mut column: usize = best;
    seam.set(y, column);
    while y > 0
        invariant
            w == width,
            h == height,
            0 < w,
            c == costs.amounts(),
            c.len() == w * h,
            w * h <= usize::MAX,
            y < height,
            seam@.len() == height,
            column == seam_column(c, w, h, y as int),
            column < width,
            forall|j: int| y <= j < h ==> seam@[j] == seam_column(c, w, h, j),
        decreases y,
    {
        proof {
            lemma_cell_in_range(w, h, column as int, y - 1);
        }
        let above: usize = (y - 1) * width;
        let mut next: usize = column;
        if column >= 1 {
            if !costs.cheaper(above + column, above + column - 1) {
                next = column - 1;
            }
        }
        if column + 1 < width {
            proof {
                lemma_cell_in_range(w, h, column + 1, y - 1);
            }
            if costs.cheaper(above + column + 1, above + next) {
                next = column + 1;
            }
        }
        assert(next == step_up(c, w, column as int, y as int));
        y -= 1;
        column = next;
        seam.set(y, column);
    }
    proof {
        lemma_traced_seam_is_seam(c, w, h);
        assert(seam@ =~= seam_of(c, w, h));
    }
    seam
}

impl Image {
    /// Traces the cheapest vertical seam through the cumulative costs `energies`.
    ///
    /// The result lists one column per row from the top row down. Where several
    /// cells cost the same the leftmost is taken, in the bottom row and at every
    /// step up.
    pub fn find_seam(&self, energies: &Vec<usize>) -> (seam: Vec<usize>)
        requires
            self.wf(),
            energies@.len() == self.spec_width() * self.spec_height(),
        ensures
            seam@ == seam_of(
                ints(energies@),
                self.spec_width() as int,
                self.spec_height() as int,
            ),
            is_seam(seam@, self.spec_width() as int, self.spec_height() as int),
    {
        proof {
            assert(energies@.len() == energies.len());
        }
        trace_seam(energies, self.width(), self.height())
    }
}

} // verus!
