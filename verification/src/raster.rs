//! A plain RGB raster: the pixel buffer that encode produces and decode
//! consumes.  Pixels are stored row-major, one `(r, g, b)` triple each.

use vstd::prelude::*;

verus! {

/// One pixel: red, green and blue channels.
pub type Rgb = (u8, u8, u8);

/// Flat row-major index of the element at column `x`, row `y` of a grid with
/// `ele_per_row` elements per row.
pub fn ix2d(ele_per_row: u32, x: u32, y: u32) -> (i: usize)
    requires
        y as int * ele_per_row as int + x as int <= usize::MAX as int,
    ensures
        i as int == y as int * ele_per_row as int + x as int,
{
    (y as usize) * (ele_per_row as usize) + (x as usize)
}

/// A `width × height` RGB image held as a flat row-major pixel buffer.
pub struct Raster {
    pub width: u32,
    pub height: u32,
    pub pixels: Vec<Rgb>,
}

impl Raster {
    /// The pixel buffer holds exactly one pixel per coordinate.
    pub open spec fn wf(self) -> bool {
        self.pixels@.len() == self.width as int * self.height as int
    }

    /// The pixel at column `x`, row `y`.
    pub open spec fn spec_pixel(self, x: int, y: int) -> Rgb {
        self.pixels@[y * self.width as int + x]
    }

    /// A raster of the given size with every pixel set to `fill`.
    pub fn new_filled(width: u32, height: u32, fill: Rgb) -> (r: Raster)
        requires
            width as int * height as int <= usize::MAX as int,
        ensures
            r.wf(),
            r.width == width,
            r.height == height,
            forall|x: int, y: int|
                0 <= x < width && 0 <= y < height ==> r.spec_pixel(x, y) == fill,
    {
        let n: usize = (width as usize) * (height as usize);
        let mut pixels: Vec<Rgb> = Vec::new();
        while pixels.len() < n
            invariant
                pixels@.len() <= n,
                forall|i: int| 0 <= i < pixels@.len() ==> pixels@[i] == fill,
            decreases n - pixels@.len(),
        {
            pixels.push(fill);
        }
        let r = Raster { width, height, pixels };
        proof {
            assert forall|x: int, y: int|
                0 <= x < width && 0 <= y < height implies r.spec_pixel(x, y) == fill by {
                lemma_row_major_in_range(width as int, height as int, x, y);
            }
        }
        r
    }

    pub fn get_pixel(&self, x: u32, y: u32) -> (p: Rgb)
        requires
            self.wf(),
            x < self.width,
            y < self.height,
        ensures
            p == self.spec_pixel(x as int, y as int),
    {
        proof {
            lemma_row_major_in_range(self.width as int, self.height as int, x as int, y as int);
        }
        let n: usize = self.pixels.len();
        let i: usize = ix2d(self.width, x, y);
        self.pixels[i]
    }

    pub fn put_pixel(&mut self, x: u32, y: u32, p: Rgb)
        requires
            old(self).wf(),
            x < old(self).width,
            y < old(self).height,
        ensures
            final(self).wf(),
            final(self).width == old(self).width,
            final(self).height == old(self).height,
            final(self).pixels@ == old(self).pixels@.update(
                y as int * old(self).width as int + x as int,
                p,
            ),
    {
        proof {
            lemma_row_major_in_range(self.width as int, self.height as int, x as int, y as int);
        }
        let n: usize = self.pixels.len();
        let i: usize = ix2d(self.width, x, y);
        self.pixels[i] = p;
    }
}

/// A row-major index lies inside the buffer of a `w × h` grid.
pub proof fn lemma_row_major_in_range(w: int, h: int, x: int, y: int)
    by (nonlinear_arith)
    requires
        0 <= x < w,
        0 <= y < h,
    ensures
        0 <= y * w + x < w * h,
{
}

/// Distinct coordinates of a `w × h` grid have distinct row-major indices.
pub proof fn lemma_row_major_injective(w: int, x1: int, y1: int, x2: int, y2: int)
    by (nonlinear_arith)
    requires
        0 <= x1 < w,
        0 <= x2 < w,
        0 <= y1,
        0 <= y2,
        (x1, y1) != (x2, y2),
    ensures
        y1 * w + x1 != y2 * w + x2,
{
}

} // verus!
