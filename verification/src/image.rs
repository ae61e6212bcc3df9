//! Grey-scale raster pages.
use crate::single::{whole, Single};
use vstd::prelude::*;

verus! {

/// The weight of red in a grey value, 0.299.
pub const RED_WEIGHT: u32 = 0x3e99_1687;

/// The weight of green in a grey value, 0.587.
pub const GREEN_WEIGHT: u32 = 0x3f16_45a2;

/// The weight of blue in a grey value, 0.114.
pub const BLUE_WEIGHT: u32 = 0x3de9_78d5;

/// A grey-scale image, row by row from the top; 0 is black.
pub struct GrayImage {
    pub width: u32,
    pub height: u32,
    pub pixels: Vec<u8>,
}

impl GrayImage {
    /// One byte for each pixel.
    pub open spec fn wf(&self) -> bool {
        self.pixels@.len() == self.width * self.height
    }

    /// The grey value in column `x` of row `y`.
    pub open spec fn pixel(&self, x: int, y: int) -> u8 {
        self.pixels@[y * self.width + x]
    }

    /// The grey value in column `x` of row `y`.
    pub fn get(&self, x: u32, y: u32) -> (p: u8)
        requires
            self.wf(),
            x < self.width,
            y < self.height,
        ensures
            p == self.pixel(x as int, y as int),
    {
        proof {
            lemma_offset(x as int, y as int, self.width as int, self.height as int);
            assert(self.pixels.len() == self.pixels@.len());
        }
        self.pixels[(y as usize) * (self.width as usize) + (x as usize)]
    }
}

/// A pixel inside the image has a place among its bytes.
pub proof fn lemma_offset(x: int, y: int, w: int, h: int)
    requires
        0 <= x < w,
        0 <= y < h,
    ensures
        0 <= y * w,
        y * w + x < w * h,
        y * w + w <= w * h,
{
    assert(y * w + w <= w * h) by (nonlinear_arith)
        requires
            y + 1 <= h,
            w > 0,
    ;
    assert(0 <= y * w) by (nonlinear_arith)
        requires
            y >= 0,
            w > 0,
    ;
}

/// The grey value of a colour: the weighted sum of its parts, cut to a
/// whole number.
pub open spec fn spec_luma(r: u8, g: u8, b: u8) -> int {
    Single { bits: RED_WEIGHT }.times(whole(r as int)).plus(
        Single { bits: GREEN_WEIGHT }.times(whole(g as int)),
    ).plus(Single { bits: BLUE_WEIGHT }.times(whole(b as int))).truncated(0, 255)
}

/// The grey value of a colour.
pub fn luma(r: u8, g: u8, b: u8) -> (v: u8)
    ensures
        v == spec_luma(r, g, b),
{
    let red = Single { bits: RED_WEIGHT }.times(Single::from_u32(r as u32));
    let green = Single { bits: GREEN_WEIGHT }.times(Single::from_u32(g as u32));
    let blue = Single { bits: BLUE_WEIGHT }.times(Single::from_u32(b as u32));
    red.plus(green).plus(blue).to_u8()
}

/// Turns a colour image, three bytes a pixel, into grey.
pub fn gray_from_rgb(width: u32, height: u32, rgb: &Vec<u8>) -> (img: GrayImage)
    requires
        rgb@.len() == 3 * (width * height),
    ensures
        img.wf(),
        img.width == width,
        img.height == height,
        forall|i: int|
            0 <= i < width * height ==> #[trigger] img.pixels@[i] == spec_luma(
                rgb@[3 * i],
                rgb@[3 * i + 1],
                rgb@[3 * i + 2],
            ),
{
    let total: usize = rgb.len() / 3;
    let mut pixels: Vec<u8> = Vec::new();
    let mut i: usize = 0;
    while i < total
        invariant
            total * 3 == rgb@.len() == rgb.len(),
            i <= total,
            pixels@.len() == i,
            forall|j: int|
                0 <= j < i ==> #[trigger] pixels@[j] == spec_luma(
                    rgb@[3 * j],
                    rgb@[3 * j + 1],
                    rgb@[3 * j + 2],
                ),
        decreases total - i,
    {
        pixels.push(luma(rgb[3 * i], rgb[3 * i + 1], rgb[3 * i + 2]));
        i = i + 1;
    }
    GrayImage { width, height, pixels }
}

} // verus!
