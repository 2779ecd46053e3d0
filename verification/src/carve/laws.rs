//! What holds of every carving step and of every narrowing.

use crate::carve::carver::{carve_once, carve_outcome, carved, narrowed};
use crate::carve::cost::{exact_costs, min_cost};
use crate::carve::energy::{contrast, energy_at, energy_field, neighbor_count};
use crate::carve::excise::excised;
use crate::carve::grid::{
    cell,
    in_grid,
    lemma_cell_column_row,
    lemma_cell_in_range,
    lemma_position_in_grid,
    valid_dimensions,
    CarveError,
};
use crate::carve::trace::{
    is_seam,
    lemma_argmin_row,
    lemma_seam_column_in_grid,
    lemma_traced_seam_is_seam,
    seam_column,
    seam_of,
    step_up,
};
use vstd::prelude::*;

verus! {

/// A pixel without neighbours has energy zero: the only pixel of a one by one
/// image, whatever its intensity.
pub proof fn law_single_pixel_energy(p: Seq<u8>)
    ensures
        neighbor_count(1, 1, 0, 0) == 0,
        energy_at(p, 1, 1, 0, 0) == 0,
        p.len() == 1 ==> energy_field(p, 1, 1) == seq![0usize],
{
    if p.len() == 1 {
        assert(energy_field(p, 1, 1) =~= seq![0usize]);
    }
}

/// One carving step on an image with at least one column leaves `(w - 1) * h` pixels.
pub proof fn law_carve_once_len(p: Seq<u8>, w: int, h: int)
    requires
        w >= 1,
        h >= 0,
    ensures
        carve_once(p, w, h).len() == (w - 1) * h,
{
    assert(0 <= (w - 1) * h) by (nonlinear_arith)
        requires
            w >= 1,
            h >= 0,
    ;
}

/// One carving step on a valid image with at least two columns gives an image one
/// column narrower and of the same height, filled with that many pixels.
pub proof fn law_carve_dimensions(p: Seq<u8>, w: int, h: int)
    requires
        valid_dimensions(p.len() as int, w, h),
        w >= 2,
    ensures
        carve_outcome(p, w, h) matches Ok((out, width, height)) && width == w - 1 && height == h
            && out.len() == width * height && valid_dimensions(out.len() as int, width, height),
{
    law_carve_once_len(p, w, h);
}

/// A carving step is turned down for invalid dimensions first, and else where
/// the image has a single column; no other image is turned down.
pub proof fn law_carve_errors(p: Seq<u8>, w: int, h: int)
    ensures
        carve_outcome(p, w, h) == Err::<(Seq<u8>, int, int), CarveError>(
            CarveError::InvalidDimensions,
        ) <==> !valid_dimensions(p.len() as int, w, h),
        carve_outcome(p, w, h) == Err::<(Seq<u8>, int, int), CarveError>(
            CarveError::WidthExhausted,
        ) <==> valid_dimensions(p.len() as int, w, h) && w == 1,
        carve_outcome(p, w, h) is Ok <==> valid_dimensions(p.len() as int, w, h) && w >= 2,
{
}

/// A carving step is a function of the image: on equal pixels and dimensions two
/// steps end alike, in the same image or in the same error.
pub proof fn law_carve_repeatable(
    p: Seq<u8>,
    w: int,
    h: int,
    first: Result<(Seq<u8>, int, int), CarveError>,
    second: Result<(Seq<u8>, int, int), CarveError>,
)
    requires
        first == carve_outcome(p, w, h),
        second == carve_outcome(p, w, h),
    ensures
        first == second,
{
}

/// Narrowing by `k` seams is `k` carving steps, one after the other: each step
/// starts from what the steps before it left.
pub proof fn law_narrow_is_repeated_carving(p: Seq<u8>, w: int, h: int, k: int)
    requires
        valid_dimensions(p.len() as int, w, h),
        1 <= k < w,
    ensures
        narrowed(p, w, h, k - 1) matches Ok((before, width, height)) && narrowed(p, w, h, k)
            == carve_outcome(before, width, height),
{
    law_carved_len(p, w, h, (k - 1) as nat);
}

/// After `k` carving steps on a valid image with more than `k` columns,
/// `(w - k) * h` pixels are left.
pub proof fn law_carved_len(p: Seq<u8>, w: int, h: int, k: nat)
    requires
        valid_dimensions(p.len() as int, w, h),
        k < w,
    ensures
        carved(p, w, h, k).len() == (w - k) * h,
    decreases k,
{
    if k > 0 {
        law_carved_len(p, w, h, (k - 1) as nat);
        law_carve_once_len(carved(p, w, h, (k - 1) as nat), w - (k - 1), h);
    }
}

/// Narrowing a valid image by `k` seams, with `k` below its width, gives an image
/// of width `w - k` and of the same height, filled with that many pixels.
pub proof fn law_narrow_dimensions(p: Seq<u8>, w: int, h: int, k: int)
    requires
        valid_dimensions(p.len() as int, w, h),
        0 <= k < w,
    ensures
        narrowed(p, w, h, k) matches Ok((out, width, height)) && width == w - k && height == h
            && out.len() == width * height,
{
    law_carved_len(p, w, h, k as nat);
}

/// Narrowing by no seam at all returns the input unchanged.
pub proof fn law_narrow_nothing(p: Seq<u8>, w: int, h: int)
    requires
        valid_dimensions(p.len() as int, w, h),
    ensures
        narrowed(p, w, h, 0) == Ok::<(Seq<u8>, int, int), CarveError>((p, w, h)),
{
}

/// Narrowing is a function of its input: two runs on the same pixels, dimensions
/// and number of seams end alike, in the same pixels or in the same error.
pub proof fn law_narrow_repeatable(
    p: Seq<u8>,
    w: int,
    h: int,
    k: int,
    first: Result<(Seq<u8>, int, int), CarveError>,
    second: Result<(Seq<u8>, int, int), CarveError>,
)
    requires
        first == narrowed(p, w, h, k),
        second == narrowed(p, w, h, k),
    ensures
        first == second,
{
}

/// Narrowing is turned down for invalid dimensions first, and else for a number
/// of seams that would leave no column.
pub proof fn law_narrow_errors(p: Seq<u8>, w: int, h: int, k: int)
    ensures
        narrowed(p, w, h, k) == Err::<(Seq<u8>, int, int), CarveError>(
            CarveError::InvalidDimensions,
        ) <==> !valid_dimensions(p.len() as int, w, h),
        narrowed(p, w, h, k) == Err::<(Seq<u8>, int, int), CarveError>(
            CarveError::WidthExhausted,
        ) <==> valid_dimensions(p.len() as int, w, h) && k >= w,
{
}

/// Every pixel has the intensity `v`.
pub open spec fn is_flat(p: Seq<u8>, v: u8) -> bool {
    forall|i: int| 0 <= i < p.len() ==> #[trigger] p[i] == v
}

/// In a flat image every pixel has energy zero.
pub proof fn law_flat_energy(p: Seq<u8>, w: int, h: int, v: u8, x: int, y: int)
    requires
        p.len() == w * h,
        is_flat(p, v),
        in_grid(w, h, x, y),
    ensures
        energy_at(p, w, h, x, y) == 0,
{
    lemma_cell_in_range(w, h, x, y);
    assert forall|dx: int, dy: int| #[trigger] contrast(p, w, h, x, y, dx, dy) == 0 by {
        if in_grid(w, h, x + dx, y + dy) {
            lemma_cell_in_range(w, h, x + dx, y + dy);
        }
    }
    let n = neighbor_count(w, h, x, y);
    if n != 0 {
        assert(0int / n == 0) by (nonlinear_arith)
            requires
                n != 0,
        ;
    }
}

/// Cutting any seam out of a flat image leaves a flat image of the same intensity.
pub proof fn law_flat_excised(p: Seq<u8>, w: int, h: int, v: u8, s: Seq<usize>)
    requires
        p.len() == w * h,
        w >= 1,
        h >= 0,
        is_flat(p, v),
    ensures
        is_flat(excised(p, w, h, s), v),
        excised(p, w, h, s).len() == (w - 1) * h,
{
    let out = excised(p, w, h, s);
    assert(0 <= (w - 1) * h) by (nonlinear_arith)
        requires
            w >= 1,
            h >= 0,
    ;
    assert forall|i: int| 0 <= i < out.len() implies #[trigger] out[i] == v by {
        assert(w - 1 > 0) by (nonlinear_arith)
            requires
                0 <= i < (w - 1) * h,
                w >= 1,
                h >= 0,
        ;
        lemma_position_in_grid(w - 1, h, i);
        let x = i % (w - 1);
        let y = i / (w - 1);
        lemma_cell_in_range(w, h, x, y);
        lemma_cell_in_range(w, h, x + 1, y);
    }
}

/// One carving step on a flat image leaves a flat image of the same intensity,
/// one column narrower.
pub proof fn law_flat_carve(p: Seq<u8>, w: int, h: int, v: u8)
    requires
        valid_dimensions(p.len() as int, w, h),
        is_flat(p, v),
    ensures
        is_flat(carve_once(p, w, h), v),
        carve_once(p, w, h).len() == (w - 1) * h,
{
    law_flat_excised(p, w, h, v, seam_of(exact_costs(energy_field(p, w, h), w, h), w, h));
}

/// In a flat image every seam costs nothing, so every seam is a cheapest one.
pub proof fn law_flat_seams_cost_nothing(
    p: Seq<u8>,
    w: int,
    h: int,
    v: u8,
    s: Seq<usize>,
    n: int,
)
    requires
        p.len() == w * h,
        is_flat(p, v),
        is_seam(s, w, h),
        0 <= n <= h,
    ensures
        seam_energy(energy_field(p, w, h), w, s, n) == 0,
    decreases n,
{
    if n > 0 {
        let x = s[n - 1] as int;
        law_flat_seams_cost_nothing(p, w, h, v, s, n - 1);
        law_flat_energy(p, w, h, v, x, n - 1);
        lemma_cell_in_range(w, h, x, n - 1);
        lemma_cell_column_row(w, x, n - 1);
    }
}

/// Total energy of the first `n` rows of the seam `s` over the energies `e`.
pub open spec fn seam_energy(e: Seq<usize>, w: int, s: Seq<usize>, n: int) -> int
    decreases n,
{
    if n <= 0 {
        0
    } else {
        seam_energy(e, w, s, n - 1) + e[cell(w, s[n - 1] as int, n - 1)]
    }
}

/// No seam reaches a cell for less than the cumulative cost of that cell.
pub proof fn lemma_seam_costs_at_least(e: Seq<usize>, w: int, h: int, s: Seq<usize>, y: int)
    requires
        is_seam(s, w, h),
        0 <= y < h,
    ensures
        min_cost(e, w, s[y] as int, y) <= seam_energy(e, w, s, y + 1),
    decreases y,
{
    if y > 0 {
        lemma_seam_costs_at_least(e, w, h, s, y - 1);
        assert(-1 <= s[y - 1] - s[y - 1 + 1] <= 1);
    } else {
        assert(seam_energy(e, w, s, 0) == 0);
    }
}

/// The cumulative costs hold, at the position of a cell inside the grid, the
/// least cost of a path to that cell.
pub proof fn lemma_exact_costs_at(e: Seq<usize>, w: int, h: int, x: int, y: int)
    requires
        in_grid(w, h, x, y),
    ensures
        exact_costs(e, w, h)[cell(w, x, y)] == min_cost(e, w, x, y),
        0 <= cell(w, x, y) < exact_costs(e, w, h).len(),
{
    lemma_cell_in_range(w, h, x, y);
    lemma_cell_column_row(w, x, y);
}

/// Down to each of its rows, the traced seam costs exactly the cumulative cost of
/// the cell it passes through.
pub proof fn lemma_traced_seam_cost(e: Seq<usize>, w: int, h: int, y: int)
    requires
        0 < w <= usize::MAX,
        0 <= y < h,
    ensures
        seam_energy(e, w, seam_of(exact_costs(e, w, h), w, h), y + 1) == min_cost(
            e,
            w,
            seam_column(exact_costs(e, w, h), w, h, y),
            y,
        ),
    decreases y,
{
    let c = exact_costs(e, w, h);
    let t = seam_of(c, w, h);
    let x = seam_column(c, w, h, y);
    lemma_seam_column_in_grid(c, w, h, y);
    assert(t[y] == x);
    if y > 0 {
        let above = seam_column(c, w, h, y - 1);
        lemma_traced_seam_cost(e, w, h, y - 1);
        lemma_seam_column_in_grid(c, w, h, y - 1);
        assert(above == step_up(c, w, seam_column(c, w, h, y - 1 + 1), y - 1 + 1));
        lemma_exact_costs_at(e, w, h, x, y - 1);
        if x >= 1 {
            lemma_exact_costs_at(e, w, h, x - 1, y - 1);
        }
        if x + 1 < w {
            lemma_exact_costs_at(e, w, h, x + 1, y - 1);
        }
        assert(min_cost(e, w, x, y) == e[cell(w, x, y)] + min_cost(e, w, above, y - 1));
    } else {
        assert(seam_energy(e, w, t, 0) == 0);
    }
}

/// The traced seam is a cheapest one: no seam of the grid has less total energy
/// than the seam traced through the cumulative costs of the energies.
pub proof fn law_traced_seam_is_cheapest(e: Seq<usize>, w: int, h: int, s: Seq<usize>)
    requires
        0 < w <= usize::MAX,
        0 < h,
        is_seam(s, w, h),
    ensures
        is_seam(seam_of(exact_costs(e, w, h), w, h), w, h),
        seam_energy(e, w, seam_of(exact_costs(e, w, h), w, h), h) <= seam_energy(e, w, s, h),
{
    let c = exact_costs(e, w, h);
    let seed = seam_column(c, w, h, h - 1);
    lemma_traced_seam_is_seam(c, w, h);
    lemma_traced_seam_cost(e, w, h, h - 1);
    lemma_seam_costs_at_least(e, w, h, s, h - 1);
    lemma_argmin_row(c, w, h - 1, w);
    lemma_seam_column_in_grid(c, w, h, h - 1);
    lemma_exact_costs_at(e, w, h, seed, h - 1);
    lemma_exact_costs_at(e, w, h, s[h - 1] as int, h - 1);
    assert(c[cell(w, seed, h - 1)] <= c[cell(w, s[h - 1] as int, h - 1)]);
}

} // verus!
