//! Decoding of drawings and encoding of reference images. Both are the work
//! of the `image` crate; this module turns its values into plain ones and
//! its errors into the library's own.
//!
//! Encoding is a function of the image alone, and its result has a name that
//! contracts can speak of. Decoding is not: the `image` crate lets any code
//! in the process register further decoders, so the same bytes may be read
//! differently at different times.

use vstd::prelude::*;
use crate::error::ScoreError;
use crate::gray::GrayRaster;

verus! {

/// The error type of the `image` crate. Values of it are only passed on.
#[verifier::external_type_specification]
#[verifier::external_body]
pub struct ExImageError(image::ImageError);

/// The PNG file that the encoder makes of a grayscale image of `width` by
/// `height` pixels, or `None` where it refuses the image.
pub uninterp spec fn png_bytes(pixels: Seq<u8>, width: u32, height: u32) -> Option<Seq<u8>>;

/// The eight bytes that every PNG file begins with.
pub open spec fn png_signature() -> Seq<u8> {
    seq![137u8, 80u8, 78u8, 71u8, 13u8, 10u8, 26u8, 10u8]
}

/// Whether `bytes` begin with the PNG signature.
pub open spec fn has_png_signature(bytes: Seq<u8>) -> bool {
    bytes.len() >= 8 && bytes.subrange(0, 8) == png_signature()
}

/// Calls `PngEncoder::new` and `write_image` of the `image` crate, with the
/// colour type `L8`, on a fresh buffer. The call panics unless the number of
/// pixels is `width * height`, so that is required. The contract names the
/// bytes that come out, as a function of the pixels and the two sides. It
/// adds two facts from the encoder's source: a side of 0 is refused, and the
/// first thing written is the PNG signature.
#[verifier::external_body]
fn png_encode(pixels: &[u8], width: u32, height: u32) -> (encoded: Result<
    Vec<u8>,
    image::ImageError,
>)
    requires
        pixels@.len() == width * height,
    ensures
        match encoded {
            Ok(bytes) => png_bytes(pixels@, width, height) == Some(bytes@) && has_png_signature(
                bytes@,
            ) && width > 0 && height > 0,
            Err(_) => png_bytes(pixels@, width, height) is None,
        },
{
    let mut buffer: Vec<u8> = Vec::new();
    let encoder = image::codecs::png::PngEncoder::new(&mut buffer);
    image::ImageEncoder::write_image(encoder, pixels, width, height, image::ExtendedColorType::L8)?;
    Ok(buffer)
}

/// Calls `load_from_memory` of the `image` crate and, on the image that it
/// returns, `to_luma8`, `width`, `height` and `pixels`. Which formats are
/// read, and how, depends on the decoders that are registered in the running
/// process, so nothing is claimed of what the bytes decode to. The contract
/// states the one thing that holds of every image that comes out, by the
/// source of `pixels`: it holds `width * height` of them.
#[verifier::external_body]
fn decode_luma8(bytes: &[u8]) -> (decoded: Result<(u32, u32, Vec<u8>), image::ImageError>)
    ensures
        decoded matches Ok(gray) ==> gray.2@.len() == gray.0 * gray.1,
{
    let gray = image::load_from_memory(bytes)?.to_luma8();
    let pixels: Vec<u8> = gray.pixels().map(|p| p.0[0]).collect();
    Ok((gray.width(), gray.height(), pixels))
}

/// Calls `to_string` on an error of the `image` crate. Nothing is claimed of
/// the text.
#[verifier::external_body]
fn describe(error: &image::ImageError) -> (text: String) {
    error.to_string()
}

/// Encodes a grayscale image as a PNG file. A file that comes out begins
/// with the PNG signature. An image with a side of 0 is refused.
pub fn encode_grayscale_to_png(img: &GrayRaster) -> (encoded: Result<Vec<u8>, ScoreError>)
    ensures
        match encoded {
            Ok(bytes) => png_bytes(img@.pixels, img@.width as u32, img@.height as u32) == Some(
                bytes@,
            ) && has_png_signature(bytes@),
            Err(error) => error is Encode && png_bytes(
                img@.pixels,
                img@.width as u32,
                img@.height as u32,
            ) is None,
        },
        img@.width == 0 || img@.height == 0 ==> encoded is Err,
{
    let pixels: &Vec<u8> = img.as_raw();
    match png_encode(pixels.as_slice(), img.width(), img.height()) {
        Ok(bytes) => Ok(bytes),
        Err(error) => Err(ScoreError::Encode(describe(&error))),
    }
}

/// Decodes a drawing and turns it into a grayscale image. Whether the bytes
/// are accepted, and as which image, is the decoder's answer; a refusal is
/// always reported as a decode error. What is measured of the image that
/// comes out is stated by the functions that take it.
pub fn decode_drawing(image_data: &[u8]) -> (decoded: Result<GrayRaster, ScoreError>)
    ensures
        match decoded {
            Ok(img) => img@.pixels.len() == img@.width * img@.height,
            Err(error) => error is Decode,
        },
{
    match decode_luma8(image_data) {
        Ok((width, height, pixels)) => {
            let raster: Option<GrayRaster> = GrayRaster::new(width, height, pixels);
            Ok(raster.unwrap())
        },
        Err(error) => Err(ScoreError::Decode(describe(&error))),
    }
}

} // verus!
