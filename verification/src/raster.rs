//! A decoded raster image: 8-bit RGBA pixels in row-major order. Dimensions
//! are capped at 65535 on each side so that every pixel index fits the
//! machine word even on 32-bit targets.

use vstd::prelude::*;
use crate::color::Color8;

verus! {

/// Greatest width or height of an [`Image`].
pub const MAX_DIM: u32 = 0xFFFF;

/// An 8-bit RGBA image, row-major.
#[derive(Clone, Debug)]
pub struct Image {
    pub width: u32,
    pub height: u32,
    pub pixels: Vec<Color8>,
}

impl Image {
    /// The pixel buffer holds exactly one pixel per coordinate and the
    /// dimensions are within the machine limit.
    pub open spec fn wf(&self) -> bool {
        self.pixels@.len() == self.width * self.height && self.width <= MAX_DIM && self.height
            <= MAX_DIM
    }

    /// Index of coordinate (x, y) in the row-major buffer.
    pub open spec fn idx(&self, x: int, y: int) -> int {
        y * self.width + x
    }

    /// The pixel at coordinate (x, y).
    pub open spec fn pix(&self, x: int, y: int) -> Color8 {
        self.pixels@[self.idx(x, y)]
    }

    /// Row-major indices of distinct in-range coordinates are in range and
    /// distinct.
    pub proof fn lemma_idx_bounds(&self, x: int, y: int)
        requires
            self.wf(),
            0 <= x < self.width,
            0 <= y < self.height,
        ensures
            0 <= self.idx(x, y) < self.pixels@.len(),
            self.idx(x, y) == y * self.width + x,
    {
        let w = self.width as int;
        let h = self.height as int;
        assert(y * w + x < h * w) by (nonlinear_arith)
            requires
                0 <= x < w,
                0 <= y < h,
        ;
        assert(y * w + x >= 0) by (nonlinear_arith)
            requires
                0 <= x,
                0 <= y,
                w > 0,
        ;
        assert(h * w == w * h) by (nonlinear_arith);
    }

    /// A fresh image of the given dimensions with every pixel set to `fill`.
    pub fn new_filled(width: u32, height: u32, fill: Color8) -> (img: Image)
        requires
            width <= MAX_DIM,
            height <= MAX_DIM,
        ensures
            img.wf(),
            img.width == width,
            img.height == height,
            forall|i: int| 0 <= i < img.pixels@.len() ==> img.pixels@[i] == fill,
    {
        proof {
            assert(width * height <= 0xFFFF * 0xFFFF) by (nonlinear_arith)
                requires
                    width <= 0xFFFF,
                    height <= 0xFFFF,
            ;
        }
        let n: usize = (width as usize) * (height as usize);
        let mut pixels: Vec<Color8> = Vec::new();
        let mut i: usize = 0;
        while i < n
            invariant
                i <= n,
                n == width * height,
                pixels@.len() == i,
                forall|j: int| 0 <= j < i ==> pixels@[j] == fill,
            decreases n - i,
        {
            pixels.push(fill);
            i = i + 1;
        }
        Image { width, height, pixels }
    }

    /// Reads the pixel at (x, y).
    pub fn get_pixel(&self, x: u32, y: u32) -> (c: Color8)
        requires
            self.wf(),
            x < self.width,
            y < self.height,
        ensures
            c == self.pix(x as int, y as int),
    {
        proof {
            self.lemma_idx_bounds(x as int, y as int);
            assert(y * self.width <= 0xFFFE * 0xFFFF) by (nonlinear_arith)
                requires
                    y <= 0xFFFE,
                    self.width <= 0xFFFF,
            ;
        }
        self.pixels[(y as usize) * (self.width as usize) + (x as usize)]
    }

    /// Overwrites the pixel at (x, y); no other pixel and no dimension
    /// changes.
    pub fn set_pixel(&mut self, x: u32, y: u32, c: Color8)
        requires
            old(self).wf(),
            x < old(self).width,
            y < old(self).height,
        ensures
            final(self).wf(),
            final(self).width == old(self).width,
            final(self).height == old(self).height,
            final(self).pixels@ == old(self).pixels@.update(old(self).idx(x as int, y as int), c),
    {
        proof {
            self.lemma_idx_bounds(x as int, y as int);
            assert(y * self.width <= 0xFFFE * 0xFFFF) by (nonlinear_arith)
                requires
                    y <= 0xFFFE,
                    self.width <= 0xFFFF,
            ;
        }
        let i: usize = (y as usize) * (self.width as usize) + (x as usize);
        self.pixels.set(i, c);
    }
}

} // verus!
