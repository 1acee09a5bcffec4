//! Pictures as plain bytes, and their resampling.

use image::imageops::FilterType;
use image::{RgbImage, RgbaImage};
use vstd::prelude::*;

verus! {

/// A picture of red, green and blue bytes, row by row from the top.
#[derive(Clone, Debug)]
pub struct RgbPicture {
    pub width: u32,
    pub height: u32,
    pub data: Vec<u8>,
}

impl RgbPicture {
    /// Three bytes for each pixel.
    pub open spec fn wf(&self) -> bool {
        self.data@.len() == 3 * self.width * self.height
    }
}

/// A picture of red, green, blue and alpha bytes, row by row from the top.
#[derive(Clone, Debug)]
pub struct RgbaPicture {
    pub width: u32,
    pub height: u32,
    pub data: Vec<u8>,
}

impl RgbaPicture {
    /// Four bytes for each pixel.
    pub open spec fn wf(&self) -> bool {
        self.data@.len() == 4 * self.width * self.height
    }
}

/// The bytes of what [`resize_rgb`] returns.
pub uninterp spec fn resized_rgb(
    data: Seq<u8>,
    width: u32,
    height: u32,
    new_width: u32,
    new_height: u32,
) -> Seq<u8>;

/// The bytes of what [`resize_rgba`] returns.
pub uninterp spec fn resized_rgba(
    data: Seq<u8>,
    width: u32,
    height: u32,
    new_width: u32,
    new_height: u32,
) -> Seq<u8>;

/// `image::imageops::resize` with the triangle filter, on a picture without alpha:
/// a picture of the new size, determined by the arguments. The filter places the middle of
/// a new pixel in single precision. Up to `2^20` new pixels a side it is off by less than a
/// quarter of the width that a pixel draws from, so that every pixel keeps a sample; beyond
/// `2^23` one can lose all of them, and the call panics.
#[verifier::external_body]
pub(crate) fn resize_rgb(img: &RgbPicture, new_width: u32, new_height: u32) -> (r: RgbPicture)
    requires
        img.wf(),
        img.width > 0,
        img.height > 0,
        0 < new_width <= 0x10_0000,
        0 < new_height <= 0x10_0000,
    ensures
        r.wf(),
        r.width == new_width,
        r.height == new_height,
        r.data@ == resized_rgb(img.data@, img.width, img.height, new_width, new_height),
{
    let buffer = RgbImage::from_raw(img.width, img.height, img.data.clone()).unwrap();
    let out = image::imageops::resize(&buffer, new_width, new_height, FilterType::Triangle);
    RgbPicture { width: out.width(), height: out.height(), data: out.into_raw() }
}

/// `image::imageops::resize` with the triangle filter, on a picture with alpha: a
/// picture of the new size, determined by the arguments, under the bounds of
/// [`resize_rgb`].
#[verifier::external_body]
pub(crate) fn resize_rgba(img: &RgbaPicture, new_width: u32, new_height: u32) -> (r: RgbaPicture)
    requires
        img.wf(),
        0 < new_width <= 0x10_0000,
        0 < new_height <= 0x10_0000,
    ensures
        r.wf(),
        r.width == new_width,
        r.height == new_height,
        r.data@ == resized_rgba(img.data@, img.width, img.height, new_width, new_height),
{
    let buffer = RgbaImage::from_raw(img.width, img.height, img.data.clone()).unwrap();
    let out = image::imageops::resize(&buffer, new_width, new_height, FilterType::Triangle);
    RgbaPicture { width: out.width(), height: out.height(), data: out.into_raw() }
}

} // verus!
