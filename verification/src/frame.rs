use vstd::prelude::*;

verus! {

/// A single-channel 8-bit image stored row by row.
pub struct GrayFrame {
    pub width: u32,
    pub height: u32,
    pub pixels: Vec<u8>,
}

impl GrayFrame {
    /// The buffer holds exactly one byte per pixel.
    pub open spec fn wf(&self) -> bool {
        self.pixels@.len() == self.width as int * self.height as int
    }

    /// The value of the pixel in column `x` and row `y`.
    pub open spec fn spec_pixel(&self, x: int, y: int) -> u8 {
        self.pixels@[y * self.width as int + x]
    }

    /// Builds a frame from its dimensions and row-major bytes; `None` when the byte
    /// count is not `width * height`.
    pub fn new(width: u32, height: u32, pixels: Vec<u8>) -> (res: Option<GrayFrame>)
        ensures
            res.is_some() <==> pixels@.len() == width as int * height as int,
            res matches Some(f) ==> f.wf() && f.width == width && f.height == height
                && f.pixels@ == pixels@,
    {
        let w: u64 = width as u64;
        let h: u64 = height as u64;
        proof {
            vstd::arithmetic::mul::lemma_mul_upper_bound(w as int, 0xffff_ffff, h as int, 0xffff_ffff);
        }
        let expected: u64 = w * h;
        if pixels.len() as u64 == expected {
            Some(GrayFrame { width, height, pixels })
        } else {
            None
        }
    }

    /// Reads the pixel in column `x` and row `y`.
    pub fn pixel(&self, x: u32, y: u32) -> (v: u8)
        requires
            self.wf(),
            x < self.width,
            y < self.height,
        ensures
            v == self.spec_pixel(x as int, y as int),
            v == self.pixels@[y * self.width + x],
    {
        let len: usize = self.pixels.len();
        proof {
            // the buffer length is a `usize`, so every index below it fits one too
            assert(len == self.width as int * self.height as int);
            lemma_pixel_index_in_bounds(self.width as int, self.height as int, x as int, y as int);
            assert(y as int * self.width as int <= y as int * self.width as int + x as int);
        }
        let idx: usize = (y as usize) * (self.width as usize) + (x as usize);
        self.pixels[idx]
    }
}

/// A pixel inside a `width` by `height` raster has a row-major index below
/// `width * height`.
pub proof fn lemma_pixel_index_in_bounds(width: int, height: int, x: int, y: int)
    requires
        0 <= x < width,
        0 <= y < height,
    ensures
        0 <= y * width + x < width * height,
{
    assert(y * width + x < width * height) by (nonlinear_arith)
        requires 0 <= x < width, 0 <= y < height;
    assert(0 <= y * width) by (nonlinear_arith) requires 0 <= y, 0 <= width;
}

/// Every pixel of a rectangle that lies inside a `width` by `height` raster has a
/// row-major index inside the raster, computed row start plus column.
pub proof fn lemma_region_index_in_image(
    width: int,
    height: int,
    x: int,
    w: int,
    y: int,
    h: int,
    row: int,
    col: int,
)
    requires
        0 <= x,
        0 <= y,
        x + w <= width,
        y + h <= height,
        0 <= row < h,
        0 <= col < w,
    ensures
        0 <= (y + row) * width + x + col < width * height,
{
    lemma_pixel_index_in_bounds(width, height, x + col, y + row);
}

} // verus!
