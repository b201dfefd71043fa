//! An in-memory RGB pixel buffer, addressed by x/y coordinates.
use vstd::pervasive::VecAdditionalExecFns;
use vstd::prelude::*;

verus! {

/// A single pixel: three eight-bit channels.
#[derive(Clone, Copy, Debug, PartialEq, Eq, Structural)]
pub struct Pixel {
    pub r: u8,
    pub g: u8,
    pub b: u8,
}

/// A raster of `width * height` pixels, stored row-major: the pixel at
/// `(x, y)` sits at index `y * width + x`.
#[derive(Clone, Debug)]
pub struct RgbImage {
    pub width: u32,
    pub height: u32,
    pub pixels: Vec<Pixel>,
}

impl RgbImage {
    /// The width, in pixels.
    pub open spec fn spec_width(self) -> int {
        self.width as int
    }

    /// The height, in pixels.
    pub open spec fn spec_height(self) -> int {
        self.height as int
    }

    /// The backing row-major pixel sequence.
    pub open spec fn spec_pixels(self) -> Seq<Pixel> {
        self.pixels@
    }

    /// The backing store holds exactly one pixel per coordinate pair.
    pub open spec fn wf(self) -> bool {
        self.pixels@.len() == self.spec_width() * self.spec_height()
    }

    /// The pixel at `(x, y)`.
    pub open spec fn spec_pix(self, x: int, y: int) -> Pixel {
        self.pixels@[y * self.spec_width() + x]
    }

    /// A flat row-major index is in range and no two coordinate pairs share
    /// one.
    proof fn lemma_flat_index(self, x: int, y: int)
        requires
            self.wf(),
            0 <= x < self.spec_width(),
            0 <= y < self.spec_height(),
        ensures
            0 <= y * self.spec_width() + x < self.spec_pixels().len(),
    {
        let w = self.spec_width();
        let h = self.spec_height();
        assert(0 <= y * w + x < w * h) by (nonlinear_arith)
            requires
                0 <= x < w,
                0 <= y < h,
        ;
    }

    /// Wraps a pixel vector holding one pixel per coordinate pair of a
    /// `width` by `height` raster, in row-major order.
    pub fn new(width: u32, height: u32, pixels: Vec<Pixel>) -> (img: RgbImage)
        requires
            pixels@.len() == width as int * height as int,
        ensures
            img.wf(),
            img.spec_width() == width as int,
            img.spec_height() == height as int,
            img.spec_pixels() == pixels@,
    {
        RgbImage { width, height, pixels }
    }

    /// The width, in pixels.
    pub fn width(&self) -> (w: u32)
        ensures
            w as int == self.spec_width(),
    {
        self.width
    }

    /// The height, in pixels.
    pub fn height(&self) -> (h: u32)
        ensures
            h as int == self.spec_height(),
    {
        self.height
    }

    /// The backing row-major pixel vector.
    pub fn pixels(&self) -> (pixels: &Vec<Pixel>)
        ensures
            pixels@ == self.spec_pixels(),
    {
        &self.pixels
    }

    /// Reads the pixel at `(x, y)`.
    pub fn get_pixel(&self, x: u32, y: u32) -> (p: Pixel)
        requires
            self.wf(),
            (x as int) < self.spec_width(),
            (y as int) < self.spec_height(),
        ensures
            p == self.spec_pix(x as int, y as int),
    {
        let total = self.pixels.len();
        proof {
            self.lemma_flat_index(x as int, y as int);
        }
        let index = (y as usize) * (self.width as usize) + (x as usize);
        self.pixels[index]
    }

    /// Overwrites the pixel at `(x, y)`.
    pub fn put_pixel(&mut self, x: u32, y: u32, p: Pixel)
        requires
            old(self).wf(),
            (x as int) < old(self).spec_width(),
            (y as int) < old(self).spec_height(),
        ensures
            final(self).wf(),
            final(self).spec_width() == old(self).spec_width(),
            final(self).spec_height() == old(self).spec_height(),
            final(self).spec_pixels() == old(self).spec_pixels().update(
                y as int * old(self).spec_width() + x as int,
                p,
            ),
    {
        let total = self.pixels.len();
        proof {
            self.lemma_flat_index(x as int, y as int);
        }
        let index = (y as usize) * (self.width as usize) + (x as usize);
        self.pixels.set(index, p);
    }

    /// After an update at `(x, y)`, that coordinate reads the new pixel and
    /// every other coordinate reads as before.
    pub proof fn lemma_put_pixel_frame(pre: RgbImage, post: RgbImage, x: int, y: int, p: Pixel)
        requires
            pre.wf(),
            0 <= x < pre.spec_width(),
            0 <= y < pre.spec_height(),
            post.spec_width() == pre.spec_width(),
            post.spec_height() == pre.spec_height(),
            post.spec_pixels() == pre.spec_pixels().update(y * pre.spec_width() + x, p),
        ensures
            post.wf(),
            post.spec_pix(x, y) == p,
            forall|x2: int, y2: int|
                0 <= x2 < pre.spec_width() && 0 <= y2 < pre.spec_height() && !(x2 == x && y2 == y)
                    ==> post.spec_pix(x2, y2) == pre.spec_pix(x2, y2),
    {
        let w = pre.spec_width();
        pre.lemma_flat_index(x, y);
        assert forall|x2: int, y2: int|
            0 <= x2 < pre.spec_width() && 0 <= y2 < pre.spec_height() && !(x2 == x && y2 == y)
                implies post.spec_pix(x2, y2) == pre.spec_pix(x2, y2) by {
            pre.lemma_flat_index(x2, y2);
            assert(y2 * w + x2 != y * w + x) by (nonlinear_arith)
                requires
                    0 <= x2 < w,
                    0 <= x < w,
                    0 <= y2,
                    0 <= y,
                    !(x2 == x && y2 == y),
            ;
        }
    }
}

} // verus!
