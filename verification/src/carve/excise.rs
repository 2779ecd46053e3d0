//! Cutting a seam out of an image.

use crate::carve::grid::{cell, lemma_cell_column_row, lemma_cell_in_range, CarveError, Image};
use vstd::prelude::*;
use vstd::slice::slice_subrange;

verus! {

/// One column of the grid for each of its rows.
pub open spec fn columns_in_grid(s: Seq<usize>, w: int, h: int) -> bool {
    &&& s.len() == h
    &&& forall|y: int| 0 <= y < h ==> 0 <= #[trigger] s[y] < w
}

/// The pixels that are left when row `y` loses column `s[y]`, for every row: in each
/// row the pixels left of the seam stay where they are and those right of it move
/// one column to the left.
pub open spec fn excised(p: Seq<u8>, w: int, h: int, s: Seq<usize>) -> Seq<u8> {
    Seq::new(
        ((w - 1) * h) as nat,
        |i: int|
            {
                let x = i % (w - 1);
                let y = i / (w - 1);
                if x < s[y] {
                    p[cell(w, x, y)]
                } else {
                    p[cell(w, x + 1, y)]
                }
            },
    )
}

impl Image {
    /// Takes a vertical seam, one column per row from the top row down, and builds
    /// the image without it: one column narrower, of the same height.
    ///
    /// An image of one column has no column to lose: that is `WidthExhausted`, and
    /// no image is built.
    pub fn remove_seam(&self, seam: &[usize]) -> (r: Result<Image, CarveError>)
        requires
            self.wf(),
            columns_in_grid(seam@, self.spec_width() as int, self.spec_height() as int),
        ensures
            r is Err <==> self.spec_width() == 1,
            r matches Err(e) ==> e == CarveError::WidthExhausted,
            r matches Ok(out) ==> {
                &&& out.wf()
                &&& out.spec_width() == self.spec_width() - 1
                &&& out.spec_height() == self.spec_height()
                &&& out@ == excised(
                    self@,
                    self.spec_width() as int,
                    self.spec_height() as int,
                    seam@,
                )
            },
    {
        let width = self.width();
        let height = self.height();
        if width == 1 {
            return Err(CarveError::WidthExhausted);
        }
        let narrow: usize = width - 1;
        let source = self.pixels().as_slice();
        let ghost p = self@;
        let ghost s = seam@;
        let ghost w = width as int;
        let ghost h = height as int;
        let ghost n = narrow as int;
        proof {
            assert(source@.len() == source.len());
            assert(n * h <= w * h) by (nonlinear_arith)
                requires
                    0 <= n <= w,
                    0 <= h,
            ;
        }
        let mut pixels: Vec<u8> = Vec::with_capacity(narrow * height);
        let mut y: usize = 0;
        while y < height
            invariant
                w == width,
                h == height,
                n == w - 1,
                0 <= n,
                y <= height,
                p == source@,
                p.len() == w * h,
                w * h <= usize::MAX,
                s == seam@,
                columns_in_grid(s, w, h),
                pixels@.len() == y * n,
                forall|i: int|
                    0 <= i < pixels@.len() ==> pixels@[i] == excised(p, w, h, s)[i],
                n * h <= w * h,
            decreases height - y,
        {
            let cut: usize = seam[y];
            proof {
                lemma_cell_in_range(w, h, cut as int, y as int);
                assert((y + 1) * n == y * n + n) by (nonlinear_arith);
                assert((y + 1) * n <= n * h) by (nonlinear_arith)
                    requires
                        y + 1 <= h,
                        0 <= n,
                ;
            }
            let row: usize = y * width;
            let ghost before = pixels@;
            pixels.extend_from_slice(slice_subrange(source, row, row + cut));
            let ghost left = pixels@;
            pixels.extend_from_slice(slice_subrange(source, row + cut + 1, row + width));
            proof {
                assert forall|i: int| 0 <= i < pixels@.len() implies pixels@[i] == excised(
                    p,
                    w,
                    h,
                    s,
                )[i] by {
                    if i >= before.len() {
                        let x = i - y * n;
                        lemma_cell_column_row(n, x, y as int);
                        if x < cut {
                            assert(pixels@[i] == left[i]);
                            assert(left[i] == p.subrange(row as int, row + cut)[x]);
                        } else {
                            assert(pixels@[i] == p.subrange(row + cut + 1, row + width)[x - cut]);
                        }
                    } else {
                        assert(pixels@[i] == left[i]);
                        assert(left[i] == before[i]);
                    }
                }
            }
            y += 1;
        }
        proof {
            assert(pixels@.len() == n * h) by (nonlinear_arith)
                requires
                    pixels@.len() == h * n,
            ;
            assert(pixels@ =~= excised(p, w, h, s));
        }
        Ok(Image::assemble(pixels, narrow, height))
    }
}

} // verus!
