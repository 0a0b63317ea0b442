//! Resampling a raster to a new size, done by the `image` crate.

use vstd::prelude::*;
use crate::raster::{PixelFormat, Raster};
use image::imageops::FilterType;
use image::DynamicImage as Dyn;
use image::ImageBuffer as Buf;

verus! {

/// The buffers that resampling `img` to `new_width` by `new_height` allocates
/// can be addressed.
pub open spec fn can_resample(img: Raster, new_width: nat, new_height: nat) -> bool {
    &&& new_width * new_height * img.format.channel_count() <= usize::MAX
    &&& img.width as nat * new_height * 4 <= usize::MAX
}

/// Relies on image's `DynamicImage::resize_exact` with `FilterType::Gaussian`:
/// it returns an image of exactly `new_width` by `new_height` pixels of the
/// same pixel type, and a plain copy where the size is unchanged. Its other
/// bytes come from floating-point arithmetic whose last bits may differ from
/// one platform to another, so nothing more is stated of them. It allocates
/// a `new_width` by `new_height` buffer and, on the way, one of four floats per
/// pixel for `img.width` by `new_height` pixels.
#[verifier::external_body]
pub(crate) fn resize_exact(img: &Raster, new_width: u32, new_height: u32) -> (r: Raster)
    requires
        img.wf(),
        can_resample(*img, new_width as nat, new_height as nat),
    ensures
        r.wf(),
        r.width == new_width,
        r.height == new_height,
        r.format == img.format,
        new_width == img.width && new_height == img.height ==> r.data@ == img.data@,
{
    let (w, h, d) = (img.width, img.height, img.data.clone());
    let src = match img.format {
        PixelFormat::Luma => Buf::from_raw(w, h, d).map(Dyn::ImageLuma8),
        PixelFormat::LumaAlpha => Buf::from_raw(w, h, d).map(Dyn::ImageLumaA8),
        PixelFormat::Rgb => Buf::from_raw(w, h, d).map(Dyn::ImageRgb8),
        PixelFormat::Rgba => Buf::from_raw(w, h, d).map(Dyn::ImageRgba8),
    };
    let out = src.unwrap().resize_exact(new_width, new_height, FilterType::Gaussian);
    Raster { width: new_width, height: new_height, format: img.format, data: out.into_bytes() }
}

} // verus!
