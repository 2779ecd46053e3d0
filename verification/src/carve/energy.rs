//! Local contrast: how much a pixel differs from the pixels around it.

use crate::carve::grid::{cell, in_grid, lemma_cell_column_row, Image};
use vstd::prelude::*;

verus! {

/// Absolute intensity difference between `(x, y)` and the cell `dx` columns and
/// `dy` rows away; zero where the grid has no such cell.
pub open spec fn contrast(p: Seq<u8>, w: int, h: int, x: int, y: int, dx: int, dy: int) -> int {
    if in_grid(w, h, x + dx, y + dy) {
        vstd::math::abs(p[cell(w, x, y)] - p[cell(w, x + dx, y + dy)]) as int
    } else {
        0
    }
}

/// One where the grid has a cell `dx` columns and `dy` rows away from `(x, y)`, else zero.
pub open spec fn present(w: int, h: int, x: int, y: int, dx: int, dy: int) -> int {
    if in_grid(w, h, x + dx, y + dy) {
        1
    } else {
        0
    }
}

/// Sum of the contrasts between `(x, y)` and its neighbours in the surrounding
/// three by three block, the centre left out.
pub open spec fn contrast_sum(p: Seq<u8>, w: int, h: int, x: int, y: int) -> int {
    contrast(p, w, h, x, y, -1, -1) + contrast(p, w, h, x, y, 0, -1)
        + contrast(p, w, h, x, y, 1, -1) + contrast(p, w, h, x, y, -1, 0)
        + contrast(p, w, h, x, y, 1, 0) + contrast(p, w, h, x, y, -1, 1)
        + contrast(p, w, h, x, y, 0, 1) + contrast(p, w, h, x, y, 1, 1)
}

/// How many of the eight neighbours of `(x, y)` the grid has.
pub open spec fn neighbor_count(w: int, h: int, x: int, y: int) -> int {
    present(w, h, x, y, -1, -1) + present(w, h, x, y, 0, -1) + present(w, h, x, y, 1, -1)
        + present(w, h, x, y, -1, 0) + present(w, h, x, y, 1, 0) + present(w, h, x, y, -1, 1)
        + present(w, h, x, y, 0, 1) + present(w, h, x, y, 1, 1)
}

/// Energy of `(x, y)`: the mean contrast with the neighbours that exist, rounded
/// down; zero for a pixel without neighbours.
pub open spec fn energy_at(p: Seq<u8>, w: int, h: int, x: int, y: int) -> int {
    let n = neighbor_count(w, h, x, y);
    if n == 0 {
        0
    } else {
        contrast_sum(p, w, h, x, y) / n
    }
}

/// The energies of all pixels, in row-major order.
pub open spec fn energy_field(p: Seq<u8>, w: int, h: int) -> Seq<usize> {
    Seq::new((w * h) as nat, |i: int| energy_at(p, w, h, i % w, i / w) as usize)
}

/// A contrast is at most 255, and zero where the neighbour is missing.
pub proof fn lemma_contrast_bounded(p: Seq<u8>, w: int, h: int, x: int, y: int, dx: int, dy: int)
    ensures
        0 <= contrast(p, w, h, x, y, dx, dy) <= 255 * present(w, h, x, y, dx, dy),
        0 <= present(w, h, x, y, dx, dy) <= 1,
{
}

/// An energy is a mean of differences between intensities, so it lies in `0..=255`.
pub proof fn lemma_energy_bounded(p: Seq<u8>, w: int, h: int, x: int, y: int)
    ensures
        0 <= energy_at(p, w, h, x, y) <= 255,
{
    let n = neighbor_count(w, h, x, y);
    let s = contrast_sum(p, w, h, x, y);
    lemma_contrast_bounded(p, w, h, x, y, -1, -1);
    lemma_contrast_bounded(p, w, h, x, y, 0, -1);
    lemma_contrast_bounded(p, w, h, x, y, 1, -1);
    lemma_contrast_bounded(p, w, h, x, y, -1, 0);
    lemma_contrast_bounded(p, w, h, x, y, 1, 0);
    lemma_contrast_bounded(p, w, h, x, y, -1, 1);
    lemma_contrast_bounded(p, w, h, x, y, 0, 1);
    lemma_contrast_bounded(p, w, h, x, y, 1, 1);
    if n != 0 {
        assert(0 <= s / n <= 255) by (nonlinear_arith)
            requires
                0 <= s <= 255 * n,
                0 < n,
        ;
    }
}

impl Image {
    /// Contrast with one neighbour, and whether that neighbour exists.
    fn probe(&self, x: usize, y: usize, dx: isize, dy: isize) -> (r: (usize, usize))
        requires
            self.wf(),
            in_grid(self.spec_width() as int, self.spec_height() as int, x as int, y as int),
        ensures
            r.0 == contrast(
                self@,
                self.spec_width() as int,
                self.spec_height() as int,
                x as int,
                y as int,
                dx as int,
                dy as int,
            ),
            r.1 == present(
                self.spec_width() as int,
                self.spec_height() as int,
                x as int,
                y as int,
                dx as int,
                dy as int,
            ),
            r.0 <= 255,
            r.1 <= 1,
    {
        match self.offset(x, y, dx, dy) {
            Some((x2, y2)) => {
                let here = self.get(x, y);
                let there = self.get(x2, y2);
                                let diff = if here >= there {
                    here - there
                } else {
                    there - here
                };
                (diff as usize, 1)
            },
            None => (0, 0),
        }
    }

    /// Energy of the pixel at column `x` of row `y`.
    pub fn energy(&self, x: usize, y: usize) -> (e: usize)
        requires
            self.wf(),
            in_grid(self.spec_width() as int, self.spec_height() as int, x as int, y as int),
        ensures
            e == energy_at(
                self@,
                self.spec_width() as int,
                self.spec_height() as int,
                x as int,
                y as int,
            ),
    {
        let mut sum: usize = 0;
        let mut count: usize = 0;
        let (d, n) = self.probe(x, y, -1, -1);
        sum += d;
        count += n;
        let (d, n) = self.probe(x, y, 0, -1);
        sum += d;
        count += n;
        let (d, n) = self.probe(x, y, 1, -1);
        sum += d;
        count += n;
        let (d, n) = self.probe(x, y, -1, 0);
        sum += d;
        count += n;
        let (d, n) = self.probe(x, y, 1, 0);
        sum += d;
        count += n;
        let (d, n) = self.probe(x, y, -1, 1);
        sum += d;
        count += n;
        let (d, n) = self.probe(x, y, 0, 1);
        sum += d;
        count += n;
        let (d, n) = self.probe(x, y, 1, 1);
        sum += d;
        count += n;
        if count == 0 {
            0
        } else {
            sum / count
        }
    }

    /// Energy of every pixel, in row-major order.
    pub fn compute_initial_energy(&self) -> (energies: Vec<usize>)
        requires
            self.wf(),
        ensures
            energies@ == energy_field(self@, self.spec_width() as int, self.spec_height() as int),
    {
        let mut energies: Vec<usize> = Vec::with_capacity(self.pixels().len());
        self.fill_energy(&mut energies);
        energies
    }

    /// Replaces what `energies` holds by the energy of every pixel, in row-major
    /// order. The buffer keeps what it has allocated, so one buffer serves a
    /// whole run of carving steps.
    pub fn fill_energy(&self, energies: &mut Vec<usize>)
        requires
            self.wf(),
        ensures
            final(energies)@ == energy_field(
                self@,
                self.spec_width() as int,
                self.spec_height() as int,
            ),
    {
        let width = self.width();
        let height = self.height();
        energies.clear();
        let mut y: usize = 0;
        while y < height
            invariant
                self.wf(),
                width == self.spec_width(),
                height == self.spec_height(),
                y <= height,
                energies@.len() == y * width,
                forall|i: int|
                    0 <= i < energies@.len() ==> energies@[i] == energy_at(
                        self@,
                        width as int,
                        height as int,
                        i % (width as int),
                        i / (width as int),
                    ),
            decreases height - y,
        {
            let mut x: usize = 0;
            while x < width
                invariant
                    self.wf(),
                    width == self.spec_width(),
                    height == self.spec_height(),
                    y < height,
                    x <= width,
                    energies@.len() == y * width + x,
                    forall|i: int|
                        0 <= i < energies@.len() ==> energies@[i] == energy_at(
                            self@,
                            width as int,
                            height as int,
                            i % (width as int),
                            i / (width as int),
                        ),
                decreases width - x,
            {
                let e = self.energy(x, y);
                proof {
                    lemma_cell_column_row(width as int, x as int, y as int);
                }
                energies.push(e);
                x += 1;
            }
            assert((y + 1) * width == y * width + width) by (nonlinear_arith);
            y += 1;
        }
        assert(energies@.len() == width * height) by (nonlinear_arith)
            requires
                energies@.len() == height * width,
        ;
        assert(energies@ =~= energy_field(self@, width as int, height as int));
    }
}

} // verus!
