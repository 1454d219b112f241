//! Pixel-level operations delegated to the `image` crate: "over" alpha
//! compositing, sRGB luminance, and the bi-level palette used for
//! luminance thresholding.

use vstd::prelude::*;
use crate::raster::Pixel;
use image::Pixel as ImagePixelOps;
use image::imageops::ColorMap;

verus! {

/// What `image::Rgba::<u8>::blend` returns: "over" alpha compositing of the
/// `src` pixel onto the `dst` pixel, channel tuples in (r, g, b, a) order.
/// The result depends on the two channel tuples alone.
pub uninterp spec fn blend_of(dst: (u8, u8, u8, u8), src: (u8, u8, u8, u8)) -> (u8, u8, u8, u8);

/// Relies on `image::Rgba::<u8>::blend`, which composites `src` "over"
/// `dst`: a fully opaque source replaces the destination outright, and a
/// fully transparent source leaves the destination unchanged.
#[verifier::external_body]
pub(crate) fn blend_px(dst: Pixel, src: Pixel) -> (out: Pixel)
    ensures
        out.rgba() == blend_of(dst.rgba(), src.rgba()),
        src.a == 255 ==> out == src,
        src.a == 0 ==> out == dst,
{
    let mut px = image::Rgba([dst.r, dst.g, dst.b, dst.a]);
    px.blend(&image::Rgba([src.r, src.g, src.b, src.a]));
    Pixel { r: px.0[0], g: px.0[1], b: px.0[2], a: px.0[3] }
}

/// The integer sRGB luminance of a colour, as the `image` crate computes it.
pub open spec fn luma_of(r: u8, g: u8, b: u8) -> int {
    (2126 * r + 7152 * g + 722 * b) / 10000
}

/// Relies on `image::Rgba::<u8>::to_luma`: the sRGB-weighted integer
/// luminance `(2126*r + 7152*g + 722*b) / 10000` of the colour channels;
/// the alpha channel plays no part.
#[verifier::external_body]
pub(crate) fn luma_px(p: Pixel) -> (l: u8)
    ensures
        l as int == luma_of(p.r, p.g, p.b),
{
    let px = image::Rgba([p.r, p.g, p.b, p.a]);
    px.to_luma().0[0]
}

/// Relies on `image::imageops::BiLevel::index_of`: luminance above 127
/// falls in the light palette bucket (index 1), anything else in the dark
/// bucket (index 0).
#[verifier::external_body]
pub(crate) fn bilevel_index(l: u8) -> (idx: u8)
    ensures
        idx == (if l > 127 { 1u8 } else { 0u8 }),
{
    let cmap = image::imageops::BiLevel;
    cmap.index_of(&image::Luma([l])) as u8
}

/// Relies on `image::imageops::BiLevel::lookup`: palette index 0 is black
/// (luminance 0), index 1 is white (luminance 255), anything else is out
/// of the palette's range.
#[verifier::external_body]
pub(crate) fn bilevel_lookup(idx: u8) -> (l: Option<u8>)
    ensures
        l == (if idx == 0 {
            Some(0u8)
        } else if idx == 1 {
            Some(255u8)
        } else {
            None::<u8>
        }),
{
    let cmap = image::imageops::BiLevel;
    match cmap.lookup(idx as usize) {
        Some(c) => Some(c.0[0]),
        None => None,
    }
}

} // verus!
