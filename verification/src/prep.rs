//! Image preparation around the OCR backend: the scale-up of small crops
//! to a workable resolution, and the encoding of thumbnail bytes as a data
//! URL. The pixel work itself is the image crate's; this module states
//! and verifies the dimension arithmetic around it.

use vstd::prelude::*;

verus! {

/// A loaded image as the application lists it: its id, file name and
/// path, a thumbnail as a base64 data URL, its pixel size, and its
/// rotation in degrees.
pub struct ImageFile {
    pub id: String,
    pub name: String,
    pub path: String,
    pub thumbnail: String,
    pub width: u32,
    pub height: u32,
    pub rotation: u32,
}

#[verifier::external_type_specification]
#[verifier::external_body]
pub struct ExDynamicImage(image::DynamicImage);

/// Relies on the image crate's `GenericImageView::dimensions` for
/// `DynamicImage`: the width and height of the image in pixels.
#[verifier::external_body]
fn image_dims(img: &image::DynamicImage) -> (u32, u32) {
    image::GenericImageView::dimensions(img)
}

/// Relies on the image crate's `DynamicImage::resize`: a new image scaled
/// to the largest size that fits within the given bounds, aspect ratio
/// kept, with the Lanczos filter.
#[verifier::external_body]
fn resize_lanczos(img: &image::DynamicImage, nw: u32, nh: u32) -> image::DynamicImage {
    img.resize(nw, nh, image::imageops::FilterType::Lanczos3)
}

/// Relies on `DynamicImage`'s `Clone`: an identical copy of the image.
#[verifier::external_body]
fn clone_image(img: &image::DynamicImage) -> image::DynamicImage {
    img.clone()
}

/// The bounds an image is scaled to before recognition: an image shorter
/// than 1000 pixels grows to 1000 pixels of height with its width scaled
/// by the same factor, saturated at the `u32` range; a taller image, or a
/// degenerate one with no height, keeps its size.
pub fn scaled_dimensions(w: u32, h: u32) -> (r: (u32, u32))
    ensures
        h == 0 || h >= 1000 ==> r == (w, h),
        0 < h < 1000 ==> r.0 == vstd::math::min(w as int * 1000 / h as int, u32::MAX as int)
            && r.1 == 1000,
{
    if h == 0 || h >= 1000 {
        (w, h)
    } else {
        let nw64: u64 = w as u64 * 1000 / h as u64;
        let nw: u32 = if nw64 > u32::MAX as u64 {
            u32::MAX
        } else {
            nw64 as u32
        };
        (nw, 1000)
    }
}

/// Scales a cropped region up before recognition when it is shorter than
/// 1000 pixels — the backend works best near that height for photographed
/// documents — and otherwise hands back a copy.
pub fn preprocess(img: &image::DynamicImage) -> image::DynamicImage {
    let (w, h) = image_dims(img);
    if h > 0 && h < 1000 {
        let (nw, nh) = scaled_dimensions(w, h);
        resize_lanczos(img, nw, nh)
    } else {
        clone_image(img)
    }
}

/// The base64 encoding of a byte sequence under the standard alphabet
/// with padding.
pub uninterp spec fn b64_of(bytes: Seq<u8>) -> Seq<char>;

/// Relies on base64's `Engine::encode` with the `STANDARD` engine: the
/// encoding is a function of the input bytes alone, and an empty input
/// encodes to the empty string.
#[verifier::external_body]
fn encode_base64(bytes: &Vec<u8>) -> (r: String)
    ensures
        r@ == b64_of(bytes@),
        bytes@.len() == 0 ==> r@.len() == 0,
{
    base64::Engine::encode(&base64::engine::general_purpose::STANDARD, bytes)
}

/// The data URL of PNG bytes: the PNG data-URL header followed by the
/// base64 encoding of the bytes.
pub fn png_data_url(bytes: &Vec<u8>) -> (r: String)
    ensures
        r@ == "data:image/png;base64,"@ + b64_of(bytes@),
{
    let mut s = String::from_str("data:image/png;base64,");
    let enc = encode_base64(bytes);
    s.append(enc.as_str());
    s
}

} // verus!
