//! Grayscale images as plain values: a width, a height, and one byte per
//! pixel in row-major order.

use vstd::prelude::*;

verus! {

/// What a grayscale image holds.
pub struct GrayView {
    pub width: int,
    pub height: int,
    pub pixels: Seq<u8>,
}

/// A grayscale image with one byte per pixel, 0 for black and 255 for white.
/// It always holds exactly `width * height` pixels.
#[derive(Debug)]
pub struct GrayRaster {
    width: u32,
    height: u32,
    pixels: Vec<u8>,
}

impl View for GrayRaster {
    type V = GrayView;

    closed spec fn view(&self) -> GrayView {
        GrayView { width: self.width as int, height: self.height as int, pixels: self.pixels@ }
    }
}

impl GrayRaster {
    #[verifier::type_invariant]
    spec fn well_formed(self) -> bool {
        self.pixels@.len() == self.width * self.height
    }

    /// An image of `width` by `height` pixels from its bytes in row-major
    /// order; `None` where their number is not `width * height`.
    pub fn new(width: u32, height: u32, pixels: Vec<u8>) -> (image: Option<GrayRaster>)
        ensures
            pixels@.len() == width * height ==> image is Some && image->0@ == (GrayView {
                width: width as int,
                height: height as int,
                pixels: pixels@,
            }),
            pixels@.len() != width * height ==> image is None,
    {
        assert(width * height <= 0xffff_ffff * 0xffff_ffff) by (nonlinear_arith)
            requires
                0 <= width <= 0xffff_ffff,
                0 <= height <= 0xffff_ffff,
        ;
        let cells: u64 = (width as u64) * (height as u64);
        if pixels.len() as u64 == cells {
            Some(GrayRaster { width, height, pixels })
        } else {
            None
        }
    }

    /// An image of `width` by `height` pixels that all hold `value`; `None`
    /// where that many pixels cannot be held in memory.
    pub fn from_pixel(width: u32, height: u32, value: u8) -> (image: Option<GrayRaster>)
        ensures
            width * height <= usize::MAX ==> image is Some && image->0@ == (GrayView {
                width: width as int,
                height: height as int,
                pixels: Seq::new((width * height) as nat, |i: int| value),
            }),
            width * height > usize::MAX ==> image is None,
    {
        assert(width * height <= 0xffff_ffff * 0xffff_ffff) by (nonlinear_arith)
            requires
                0 <= width <= 0xffff_ffff,
                0 <= height <= 0xffff_ffff,
        ;
        let cells: u64 = (width as u64) * (height as u64);
        if cells > usize::MAX as u64 {
            return None;
        }
        let pixels: Vec<u8> = vec![value; cells as usize];
        assert(pixels@ =~= Seq::new((width * height) as nat, |i: int| value));
        Some(GrayRaster { width, height, pixels })
    }

    /// The width in pixels.
    pub fn width(&self) -> (w: u32)
        ensures
            w == self@.width,
    {
        self.width
    }

    /// The height in pixels.
    pub fn height(&self) -> (h: u32)
        ensures
            h == self@.height,
    {
        self.height
    }

    /// The pixels in row-major order: `width * height` of them.
    pub fn as_raw(&self) -> (pixels: &Vec<u8>)
        ensures
            pixels@ == self@.pixels,
            pixels@.len() == self@.width * self@.height,
    {
        proof {
            use_type_invariant(self);
        }
        &self.pixels
    }

    /// The pixel at `(x, y)`.
    pub fn get_pixel(&self, x: u32, y: u32) -> (value: u8)
        requires
            x < self@.width,
            y < self@.height,
        ensures
            0 <= y * self@.width + x < self@.pixels.len(),
            value == self@.pixels[y * self@.width + x],
    {
        proof {
            use_type_invariant(self);
            crate::raster::lemma_cell_index(
                self.width as int,
                self.height as int,
                x as int,
                y as int,
            );
        }
        let n: usize = self.pixels.len();
        let index: usize = (y as usize) * (self.width as usize) + (x as usize);
        self.pixels[index]
    }
}

} // verus!
