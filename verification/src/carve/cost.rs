//! Cheapest cumulative cost of reaching each cell from the top row.

use crate::carve::grid::{cell, in_grid, lemma_cell_column_row, lemma_cell_in_range, Image};
use crate::carve::trace::{ints, wide_ints};
use vstd::prelude::*;

verus! {

/// The least of three numbers.
pub open spec fn min3(a: int, b: int, c: int) -> int {
    if a <= b && a <= c {
        a
    } else if b <= c {
        b
    } else {
        c
    }
}

/// Least total energy of a path that starts anywhere in row 0, moves down one row
/// at a time while shifting by at most one column, and ends at `(x, y)`.
///
/// Row 0 costs its own energy. Below it a cell costs its energy plus the cheapest
/// of the cells above it, above left and above right, as far as they exist.
pub open spec fn min_cost(e: Seq<usize>, w: int, x: int, y: int) -> int
    decreases y,
{
    if y <= 0 {
        e[cell(w, x, y)] as int
    } else {
        let middle = min_cost(e, w, x, y - 1);
        let left = if x >= 1 {
            min_cost(e, w, x - 1, y - 1)
        } else {
            middle
        };
        let right = if x + 1 < w {
            min_cost(e, w, x + 1, y - 1)
        } else {
            middle
        };
        e[cell(w, x, y)] + min3(left, middle, right)
    }
}

/// The cumulative costs of all cells, in row-major order.
pub open spec fn cost_field(e: Seq<usize>, w: int, h: int) -> Seq<usize> {
    Seq::new((w * h) as nat, |i: int| min_cost(e, w, i % w, i / w) as usize)
}

/// The cumulative costs of all cells as numbers, in row-major order.
pub open spec fn exact_costs(e: Seq<usize>, w: int, h: int) -> Seq<int> {
    Seq::new((w * h) as nat, |i: int| min_cost(e, w, i % w, i / w))
}

/// Every cumulative cost over the energies `e` fits a machine word.
pub open spec fn costs_fit(e: Seq<usize>, w: int, h: int) -> bool {
    forall|x: int, y: int| in_grid(w, h, x, y) ==> #[trigger] min_cost(e, w, x, y) <= usize::MAX
}

/// Every energy in `e` is at most `top`.
pub open spec fn energies_within(e: Seq<usize>, top: int) -> bool {
    forall|i: int| 0 <= i < e.len() ==> #[trigger] e[i] <= top
}

/// Over energies of at most `top`, a cell of row `y` costs at most `top * (y + 1)`.
pub proof fn lemma_min_cost_bounded(e: Seq<usize>, w: int, h: int, x: int, y: int, top: int)
    requires
        e.len() == w * h,
        in_grid(w, h, x, y),
        energies_within(e, top),
    ensures
        0 <= min_cost(e, w, x, y) <= top * (y + 1),
    decreases y,
{
    lemma_cell_in_range(w, h, x, y);
    assert(e[cell(w, x, y)] <= top);
    if y > 0 {
        lemma_min_cost_bounded(e, w, h, x, y - 1, top);
        if x >= 1 {
            lemma_min_cost_bounded(e, w, h, x - 1, y - 1, top);
        }
        if x + 1 < w {
            lemma_min_cost_bounded(e, w, h, x + 1, y - 1, top);
        }
        assert(top * (y + 1) == top * y + top) by (nonlinear_arith);
    } else {
        assert(top * (y + 1) == top) by (nonlinear_arith)
            requires
                y == 0,
        ;
    }
}

/// Energies of at most `top` have cumulative costs that fit a machine word as
/// soon as `top * h` does.
pub proof fn lemma_bounded_energies_fit(e: Seq<usize>, w: int, h: int, top: int)
    requires
        e.len() == w * h,
        energies_within(e, top),
        0 <= top,
        top * h <= usize::MAX,
    ensures
        costs_fit(e, w, h),
{
    assert forall|x: int, y: int| in_grid(w, h, x, y) implies #[trigger] min_cost(e, w, x, y)
        <= usize::MAX by {
        lemma_min_cost_bounded(e, w, h, x, y, top);
        assert(top * (y + 1) <= top * h) by (nonlinear_arith)
            requires
                y + 1 <= h,
                0 <= top,
        ;
    }
}

/// Cumulative costs are sums of energies, so none is negative.
pub proof fn lemma_min_cost_not_negative(e: Seq<usize>, w: int, x: int, y: int)
    ensures
        0 <= min_cost(e, w, x, y),
    decreases y,
{
    if y > 0 {
        lemma_min_cost_not_negative(e, w, x, y - 1);
        lemma_min_cost_not_negative(e, w, x - 1, y - 1);
        lemma_min_cost_not_negative(e, w, x + 1, y - 1);
    }
}

/// Where the cumulative costs fit machine words, the words hold them exactly.
pub proof fn lemma_cost_field_exact(e: Seq<usize>, w: int, h: int)
    requires
        0 < w,
        0 <= h,
        costs_fit(e, w, h),
    ensures
        ints(cost_field(e, w, h)) == exact_costs(e, w, h),
{
    let words = ints(cost_field(e, w, h));
    let exact = exact_costs(e, w, h);
    assert(0 <= w * h) by (nonlinear_arith)
        requires
            0 < w,
            0 <= h,
    ;
    assert forall|i: int| 0 <= i < exact.len() implies words[i] == exact[i] by {
        crate::carve::grid::lemma_position_in_grid(w, h, i);
        lemma_min_cost_not_negative(e, w, i % w, i / w);
    }
    assert(words =~= exact);
}

impl Image {
    /// The cumulative costs of the energies of this image in 128-bit words, which
    /// hold them however high the image is.
    pub fn propagate_energy_wide(&self, energies: &Vec<usize>) -> (costs: Vec<u128>)
        requires
            self.spec_width() > 0,
            energies@.len() == self.spec_width() * self.spec_height(),
            energies_within(energies@, 255),
        ensures
            wide_ints(costs@) == exact_costs(
                energies@,
                self.spec_width() as int,
                self.spec_height() as int,
            ),
    {
        let width = self.width();
        let height = self.height();
        let ghost e = energies@;
        let ghost w = width as int;
        let ghost h = height as int;
        proof {
            assert(energies@.len() == energies.len());
        }
        let mut costs: Vec<u128> = Vec::with_capacity(energies.len());
        let mut y: usize = 0;
        while y < height
            invariant
                width > 0,
                w == width,
                h == height,
                y <= height,
                e == energies@,
                e.len() == w * h,
                w * h <= usize::MAX,
                energies_within(e, 255),
                costs@.len() == y * w,
                forall|i: int| 0 <= i < y * w ==> costs@[i] == min_cost(e, w, i % w, i / w),
            decreases height - y,
        {
            let mut x: usize = 0;
            while x < width
                invariant
                    width > 0,
                    w == width,
                    h == height,
                    y < height,
                    x <= width,
                    e == energies@,
                    e.len() == w * h,
                    w * h <= usize::MAX,
                    energies_within(e, 255),
                    costs@.len() == y * w + x,
                    forall|i: int|
                        0 <= i < y * w + x ==> costs@[i] == min_cost(e, w, i % w, i / w),
                decreases width - x,
            {
                proof {
                    lemma_cell_in_range(w, h, x as int, y as int);
                    lemma_cell_column_row(w, x as int, y as int);
                    lemma_min_cost_bounded(e, w, h, x as int, y as int, 255);
                    assert(255 * (y + 1) <= 255 * usize::MAX) by (nonlinear_arith)
                        requires
                            y + 1 <= usize::MAX,
                    ;
                }
                let here: usize = y * width + x;
                let own: u128 = energies[here] as u128;
                let total: u128 = if y == 0 {
                    own
                } else {
                    proof {
                        lemma_cell_in_range(w, h, x as int, y - 1);
                        lemma_cell_column_row(w, x as int, y - 1);
                        assert((y - 1) * w + w == y * w) by (nonlinear_arith);
                    }
                    let above: usize = (y - 1) * width;
                    let mut least: u128 = costs[above + x];
                    if x >= 1 {
                        proof {
                            lemma_cell_column_row(w, x - 1, y - 1);
                        }
                        let left = costs[above + x - 1];
                        if left < least {
                            least = left;
                        }
                    }
                    if x + 1 < width {
                        proof {
                            lemma_cell_column_row(w, x + 1, y - 1);
                        }
                        let right = costs[above + x + 1];
                        if right < least {
                            least = right;
                        }
                    }
                    assert(own + least == min_cost(e, w, x as int, y as int));
                    own + least
                };
                costs.push(total);
                x += 1;
            }
            assert((y + 1) * w == y * w + w) by (nonlinear_arith);
            y += 1;
        }
        proof {
            assert(costs@.len() == w * h) by (nonlinear_arith)
                requires
                    costs@.len() == h * w,
            ;
            assert(wide_ints(costs@) =~= exact_costs(e, w, h));
        }
        costs
    }

    /// Turns the energies of this image into cumulative costs, in place and row by
    /// row from the top.
    pub fn propagate_energy(&self, energies: &mut Vec<usize>)
        requires
            old(energies)@.len() == self.spec_width() * self.spec_height(),
            costs_fit(old(energies)@, self.spec_width() as int, self.spec_height() as int),
        ensures
            final(energies)@ == cost_field(
                old(energies)@,
                self.spec_width() as int,
                self.spec_height() as int,
            ),
    {
        let width = self.width();
        let height = self.height();
        let ghost start = energies@;
        let ghost w = width as int;
        let ghost h = height as int;
        if height == 0 || width == 0 {
            assert(w * h == 0) by (nonlinear_arith)
                requires
                    w == 0 || h == 0,
            ;
            assert(energies@ =~= cost_field(start, w, h));
            return ;
        }
        proof {
            assert forall|i: int| 0 <= i < w implies energies@[i] == min_cost(
                start,
                w,
                i % w,
                i / w,
            ) by {
                lemma_cell_column_row(w, i, 0);
            }
        }
        let mut y: usize = 1;
        while y < height
            invariant
                width > 0,
                w == width,
                h == height,
                1 <= y <= height,
                start.len() == w * h,
                energies@.len() == start.len(),
                costs_fit(start, w, h),
                forall|i: int|
                    0 <= i < y * w ==> energies@[i] == min_cost(start, w, i % w, i / w),
                forall|i: int| y * w <= i < start.len() ==> energies@[i] == start[i],
            decreases height - y,
        {
            let mut x: usize = 0;
            while x < width
                invariant
                    width > 0,
                    w == width,
                    h == height,
                    1 <= y < height,
                    x <= width,
                    start.len() == w * h,
                    energies@.len() == start.len(),
                    costs_fit(start, w, h),
                    forall|i: int|
                        0 <= i < y * w + x ==> energies@[i] == min_cost(start, w, i % w, i / w),
                    forall|i: int| y * w + x <= i < start.len() ==> energies@[i] == start[i],
                decreases width - x,
            {
                proof {
                    lemma_cell_in_range(w, h, x as int, y as int);
                    lemma_cell_in_range(w, h, x as int, y - 1);
                    lemma_cell_column_row(w, x as int, y as int);
                    lemma_cell_column_row(w, x as int, y - 1);
                    assert(energies@.len() == energies.len());
                    assert((y - 1) * w + w == y * w) by (nonlinear_arith);
                }
                let above: usize = (y - 1) * width;
                let here: usize = y * width + x;
                let mut least: usize = energies[above + x];
                if x >= 1 {
                    proof {
                        lemma_cell_column_row(w, x - 1, y - 1);
                    }
                    let left = energies[above + x - 1];
                    if left < least {
                        least = left;
                    }
                }
                if x + 1 < width {
                    proof {
                        lemma_cell_column_row(w, x + 1, y - 1);
                    }
                    let right = energies[above + x + 1];
                    if right < least {
                        least = right;
                    }
                }
                assert(start[here as int] + least == min_cost(start, w, x as int, y as int));
                assert(in_grid(w, h, x as int, y as int));
                let total: usize = energies[here] + least;
                energies.set(here, total);
                x += 1;
            }
            assert((y + 1) * w == y * w + w) by (nonlinear_arith);
            y += 1;
        }
        assert(energies@.len() == w * h);
        assert(energies@ =~= cost_field(start, w, h));
    }
}

} // verus!
