//! A dense grayscale raster with bounds-checked access.

use vstd::prelude::*;

verus! {

/// Whether column `x` of row `y` lies inside a grid `w` cells wide and `h` cells high.
pub open spec fn in_grid(w: int, h: int, x: int, y: int) -> bool {
    0 <= x < w && 0 <= y < h
}

/// Row-major position of column `x` of row `y` in a grid `w` cells wide.
pub open spec fn cell(w: int, x: int, y: int) -> int {
    y * w + x
}

/// Whether `len` values fill a grid of `w` columns and `h` rows, neither of them empty.
pub open spec fn valid_dimensions(len: int, w: int, h: int) -> bool {
    w > 0 && h > 0 && len == w * h
}

/// Why an image cannot be built or narrowed.
#[derive(Clone, Copy, Debug, PartialEq, Eq, Structural)]
pub enum CarveError {
    /// The width or the height is zero, or the buffer does not hold `width * height` pixels.
    InvalidDimensions,
    /// More seams were asked for than the image can lose while keeping a column.
    WidthExhausted,
}

/// A grayscale image: `width * height` intensities in row-major order.
#[derive(Debug)]
pub struct Image {
    pixels: Vec<u8>,
    width: usize,
    height: usize,
}

impl View for Image {
    type V = Seq<u8>;

    /// The intensities in row-major order.
    closed spec fn view(&self) -> Seq<u8> {
        self.pixels@
    }
}

impl Clone for Image {
    /// A copy with the same pixels and dimensions.
    fn clone(&self) -> (r: Self)
        ensures
            r@ == self@,
            r.spec_width() == self.spec_width(),
            r.spec_height() == self.spec_height(),
    {
        Image { pixels: self.pixels.clone(), width: self.width, height: self.height }
    }
}

/// `v + d` where that lies in `0..limit`.
fn shifted(v: usize, d: isize, limit: usize) -> (r: Option<usize>)
    ensures
        r == (if 0 <= v + d < limit {
            Some((v + d) as usize)
        } else {
            None
        }),
{
    if d >= 0 {
        match v.checked_add(d as usize) {
            Some(s) => if s < limit {
                Some(s)
            } else {
                None
            },
            None => None,
        }
    } else {
        let back: usize = (-(d + 1)) as usize + 1;
        if v >= back && v - back < limit {
            Some(v - back)
        } else {
            None
        }
    }
}

impl Image {
    /// The image has at least one column and one row, and its buffer holds
    /// exactly `width * height` pixels.
    pub open spec fn wf(&self) -> bool {
        valid_dimensions(self@.len() as int, self.spec_width() as int, self.spec_height() as int)
    }

    /// Number of columns.
    pub closed spec fn spec_width(&self) -> usize {
        self.width
    }

    /// Number of rows.
    pub closed spec fn spec_height(&self) -> usize {
        self.height
    }

    /// Builds an image from a row-major buffer, which must hold `width * height`
    /// pixels with neither dimension zero.
    pub fn new(pixels: Vec<u8>, width: usize, height: usize) -> (r: Result<Image, CarveError>)
        ensures
            match r {
                Ok(img) => valid_dimensions(pixels@.len() as int, width as int, height as int)
                    && img.wf() && img@ == pixels@ && img.spec_width() == width && img.spec_height()
                    == height,
                Err(e) => e == CarveError::InvalidDimensions && !valid_dimensions(
                    pixels@.len() as int,
                    width as int,
                    height as int,
                ),
            },
    {
        if width == 0 || height == 0 {
            return Err(CarveError::InvalidDimensions);
        }
        match width.checked_mul(height) {
            Some(n) => if pixels.len() == n {
                Ok(Image { pixels, width, height })
            } else {
                Err(CarveError::InvalidDimensions)
            },
            None => {
                assert(pixels.len() == pixels@.len());
                Err(CarveError::InvalidDimensions)
            },
        }
    }

    /// An image over a buffer that is known to hold `width * height` pixels, with
    /// neither dimension zero.
    pub(crate) fn assemble(pixels: Vec<u8>, width: usize, height: usize) -> (img: Image)
        requires
            valid_dimensions(pixels@.len() as int, width as int, height as int),
        ensures
            img.wf(),
            img@ == pixels@,
            img.spec_width() == width,
            img.spec_height() == height,
    {
        Image { pixels, width, height }
    }

    /// Whether the image has at least one column and one row, and a buffer of
    /// exactly `width * height` pixels. Every image that this library hands out
    /// has.
    pub fn is_valid(&self) -> (ok: bool)
        ensures
            ok == self.wf(),
    {
        if self.width == 0 || self.height == 0 {
            return false;
        }
        match self.width.checked_mul(self.height) {
            Some(n) => n == self.pixels.len(),
            None => {
                assert(self.pixels.len() == self.pixels@.len());
                false
            },
        }
    }

    /// Number of columns.
    pub fn width(&self) -> (w: usize)
        ensures
            w == self.spec_width(),
    {
        self.width
    }

    /// Number of rows.
    pub fn height(&self) -> (h: usize)
        ensures
            h == self.spec_height(),
    {
        self.height
    }

    /// The intensities in row-major order.
    pub fn pixels(&self) -> (p: &Vec<u8>)
        ensures
            p@ == self@,
    {
        &self.pixels
    }

    /// Gives up the image for its row-major buffer.
    pub fn into_pixels(self) -> (p: Vec<u8>)
        ensures
            p@ == self@,
    {
        self.pixels
    }

    /// The intensity at column `x` of row `y`.
    pub fn get(&self, x: usize, y: usize) -> (v: u8)
        requires
            self.wf(),
            in_grid(self.spec_width() as int, self.spec_height() as int, x as int, y as int),
        ensures
            v == self@[cell(self.spec_width() as int, x as int, y as int)],
    {
        proof {
            lemma_cell_in_range(self.width as int, self.height as int, x as int, y as int);
            assert(self.pixels.len() == self@.len());
        }
        self.pixels[x + y * self.width]
    }

    /// Overwrites the intensity at column `x` of row `y`.
    pub fn set(&mut self, x: usize, y: usize, pixel: u8)
        requires
            old(self).wf(),
            in_grid(
                old(self).spec_width() as int,
                old(self).spec_height() as int,
                x as int,
                y as int,
            ),
        ensures
            final(self).wf(),
            final(self)@ == old(self)@.update(
                cell(old(self).spec_width() as int, x as int, y as int),
                pixel,
            ),
            final(self).spec_width() == old(self).spec_width(),
            final(self).spec_height() == old(self).spec_height(),
    {
        proof {
            lemma_cell_in_range(self.width as int, self.height as int, x as int, y as int);
            assert(self.pixels.len() == self@.len());
        }
        let i: usize = x + y * self.width;
        self.pixels.set(i, pixel);
    }

    /// The cell `dx` columns and `dy` rows away from `(x, y)`, where the image has one.
    pub fn offset(&self, x: usize, y: usize, dx: isize, dy: isize) -> (r: Option<(usize, usize)>)
        ensures
            r == (if in_grid(self.spec_width() as int, self.spec_height() as int, x + dx, y + dy) {
                Some(((x + dx) as usize, (y + dy) as usize))
            } else {
                None
            }),
    {
        match shifted(x, dx, self.width) {
            Some(x2) => match shifted(y, dy, self.height) {
                Some(y2) => Some((x2, y2)),
                None => None,
            },
            None => None,
        }
    }
}

/// A cell inside the grid has a position below `w * h`, and so do all cells of its row.
pub proof fn lemma_cell_in_range(w: int, h: int, x: int, y: int)
    requires
        in_grid(w, h, x, y),
    ensures
        0 <= y * w <= cell(w, x, y) < (y + 1) * w <= w * h,
        (y + 1) * w == y * w + w,
{
    assert(0 <= y * w) by (nonlinear_arith)
        requires
            0 <= y,
            0 <= w,
    ;
    assert((y + 1) * w == y * w + w) by (nonlinear_arith);
    assert((y + 1) * w <= w * h) by (nonlinear_arith)
        requires
            y + 1 <= h,
            0 <= w,
    ;
}

/// A position determines its column and its row.
pub proof fn lemma_cell_column_row(w: int, x: int, y: int)
    requires
        0 <= x < w,
    ensures
        cell(w, x, y) % w == x,
        cell(w, x, y) / w == y,
{
    vstd::arithmetic::div_mod::lemma_fundamental_div_mod_converse(cell(w, x, y), w, y, x);
}

/// Every position below `w * h` is the position of a cell inside the grid.
pub proof fn lemma_position_in_grid(w: int, h: int, i: int)
    requires
        0 <= i < w * h,
        0 < w,
    ensures
        in_grid(w, h, i % w, i / w),
        cell(w, i % w, i / w) == i,
{
    vstd::arithmetic::div_mod::lemma_fundamental_div_mod(i, w);
    vstd::arithmetic::div_mod::lemma_mod_bound(i, w);
    let q = i / w;
    assert(w * q == q * w) by (nonlinear_arith);
    assert(0 <= q < h) by (nonlinear_arith)
        requires
            0 <= i < w * h,
            0 < w,
            i == q * w + i % w,
            0 <= i % w < w,
    ;
}

} // verus!
