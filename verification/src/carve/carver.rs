//! Narrowing an image by carving out one seam after another.

use crate::carve::cost::{exact_costs, lemma_bounded_energies_fit, lemma_cost_field_exact};
use crate::carve::energy::{energy_field, lemma_energy_bounded};
use crate::carve::excise::excised;
use crate::carve::grid::{valid_dimensions, CarveError, Image};
use crate::carve::trace::{seam_of, trace_seam};
use vstd::prelude::*;
use vstd::slice::slice_to_vec;

verus! {

/// The pixels left after one carving step: the image without the cheapest seam
/// through the cumulative costs of its energies.
pub open spec fn carve_once(p: Seq<u8>, w: int, h: int) -> Seq<u8> {
    excised(p, w, h, seam_of(exact_costs(energy_field(p, w, h), w, h), w, h))
}

/// The pixels left after `k` carving steps on an image `w` wide and `h` high.
pub open spec fn carved(p: Seq<u8>, w: int, h: int, k: nat) -> Seq<u8>
    decreases k,
{
    if k == 0 {
        p
    } else {
        carve_once(carved(p, w, h, (k - 1) as nat), w - (k - 1), h)
    }
}

/// What narrowing by `k` seams gives: the carved pixels with their width and
/// height, or the reason why the input is turned down.
pub open spec fn narrowed(p: Seq<u8>, w: int, h: int, k: int) -> Result<
    (Seq<u8>, int, int),
    CarveError,
> {
    if !valid_dimensions(p.len() as int, w, h) {
        Err(CarveError::InvalidDimensions)
    } else if k >= w {
        Err(CarveError::WidthExhausted)
    } else {
        Ok((carved(p, w, h, k as nat), w - k, h))
    }
}

/// A result of narrowing, its buffer taken by its contents.
pub open spec fn outcome(r: Result<(Vec<u8>, usize, usize), CarveError>) -> Result<
    (Seq<u8>, int, int),
    CarveError,
> {
    match r {
        Ok((pixels, w, h)) => Ok((pixels@, w as int, h as int)),
        Err(e) => Err(e),
    }
}

/// What one carving step gives on an image: the pixels without the cheapest seam
/// with their width and height, or the reason why there is no such image.
pub open spec fn carve_outcome(p: Seq<u8>, w: int, h: int) -> Result<
    (Seq<u8>, int, int),
    CarveError,
> {
    if !valid_dimensions(p.len() as int, w, h) {
        Err(CarveError::InvalidDimensions)
    } else if w == 1 {
        Err(CarveError::WidthExhausted)
    } else {
        Ok((carve_once(p, w, h), w - 1, h))
    }
}

/// A result of a carving step, the image taken by its pixels, width and height.
pub open spec fn step_outcome(r: Result<Image, CarveError>) -> Result<
    (Seq<u8>, int, int),
    CarveError,
> {
    match r {
        Ok(img) => Ok((img@, img.spec_width() as int, img.spec_height() as int)),
        Err(e) => Err(e),
    }
}

impl Image {
    /// Carves out the single lowest-energy seam and returns the image without it.
    ///
    /// An image of one column has no seam to lose: that is `WidthExhausted`, and
    /// no image is returned. Costs are summed up in machine words where the height
    /// lets them fit, and in 128-bit words where it does not.
    pub fn carve(&self) -> (r: Result<Self, CarveError>)
        ensures
            step_outcome(r) == carve_outcome(
                self@,
                self.spec_width() as int,
                self.spec_height() as int,
            ),
            r is Err <==> !self.wf() || self.spec_width() == 1,
            r matches Err(e) ==> (e == CarveError::InvalidDimensions <==> !self.wf()) && (e
                == CarveError::WidthExhausted <==> self.wf()),
            r matches Ok(out) ==> {
                &&& out.wf()
                &&& out.spec_width() == self.spec_width() - 1
                &&& out.spec_height() == self.spec_height()
                &&& out@ == carve_once(self@, self.spec_width() as int, self.spec_height() as int)
            },
    {
        let mut energies: Vec<usize> = Vec::with_capacity(self.pixels().len());
        self.carve_reusing(&mut energies)
    }

    /// Carves out the single lowest-energy seam as `carve` does, with `scratch` as
    /// the buffer for the energies and their cumulative costs. What the buffer
    /// held before does not matter.
    pub fn carve_reusing(&self, scratch: &mut Vec<usize>) -> (r: Result<Self, CarveError>)
        ensures
            step_outcome(r) == carve_outcome(
                self@,
                self.spec_width() as int,
                self.spec_height() as int,
            ),
            r is Err <==> !self.wf() || self.spec_width() == 1,
            r matches Err(e) ==> (e == CarveError::InvalidDimensions <==> !self.wf()) && (e
                == CarveError::WidthExhausted <==> self.wf()),
            r matches Ok(out) ==> {
                &&& out.wf()
                &&& out.spec_width() == self.spec_width() - 1
                &&& out.spec_height() == self.spec_height()
                &&& out@ == carve_once(self@, self.spec_width() as int, self.spec_height() as int)
            },
    {
        if !self.is_valid() {
            return Err(CarveError::InvalidDimensions);
        }
        if self.width() == 1 {
            return Err(CarveError::WidthExhausted);
        }
        let energies = scratch;
        self.fill_energy(energies);
        let ghost w = self.spec_width() as int;
        let ghost h = self.spec_height() as int;
        let ghost field = energies@;
        proof {
            assert forall|i: int| 0 <= i < field.len() implies #[trigger] field[i] <= 255 by {
                lemma_energy_bounded(self@, w, h, i % w, i / w);
            }
            assert(energies.len() == energies@.len());
        }
        let min_seam = match self.height().checked_mul(255) {
            Some(_) => {
                proof {
                    lemma_bounded_energies_fit(field, w, h, 255);
                    lemma_cost_field_exact(field, w, h);
                }
                self.propagate_energy(energies);
                self.find_seam(energies)
            },
            None => {
                let costs = self.propagate_energy_wide(energies);
                trace_seam(&costs, self.width(), self.height())
            },
        };
        self.remove_seam(min_seam.as_slice())
    }
}

/// Whether `len` pixels fill `width` columns and `height` rows, neither of them empty.
pub fn dimensions_are_valid(len: usize, width: usize, height: usize) -> (ok: bool)
    ensures
        ok == valid_dimensions(len as int, width as int, height as int),
{
    if width == 0 || height == 0 {
        return false;
    }
    match width.checked_mul(height) {
        Some(n) => n == len,
        None => false,
    }
}

/// Removes `iterations` seams from the `width` by `height` image in `pixels`, one
/// carving step after the other, and returns the pixels that are left with their
/// width and height.
///
/// Nothing is carved unless the dimensions are valid and at least one column
/// would be left.
pub fn narrow(pixels: &[u8], width: usize, height: usize, iterations: usize) -> (r: Result<
    (Vec<u8>, usize, usize),
    CarveError,
>)
    ensures
        outcome(r) == narrowed(pixels@, width as int, height as int, iterations as int),
        r is Ok <==> valid_dimensions(pixels@.len() as int, width as int, height as int)
            && iterations < width,
        r matches Ok((out, w, h)) ==> w == width - iterations && h == height && out@.len() == w
            * h,
        r matches Ok((out, _, _)) ==> iterations == 0 ==> out@ == pixels@,
{
    if !dimensions_are_valid(pixels.len(), width, height) {
        return Err(CarveError::InvalidDimensions);
    }
    if iterations >= width {
        return Err(CarveError::WidthExhausted);
    }
    let mut img = Image::assemble(slice_to_vec(pixels), width, height);
    let mut scratch: Vec<usize> = Vec::with_capacity(pixels.len());
    let mut done: usize = 0;
    while done < iterations
        invariant
            done <= iterations < width,
            height > 0,
            img.wf(),
            img.spec_width() == width - done,
            img.spec_height() == height,
            img@ == carved(pixels@, width as int, height as int, done as nat),
        decreases iterations - done,
    {
        match img.carve_reusing(&mut scratch) {
            Ok(carved) => {
                img = carved;
            },
            Err(e) => {
                return Err(e);
            },
        }
        done += 1;
    }
    let left = img.width();
    Ok((img.into_pixels(), left, height))
}

} // verus!
