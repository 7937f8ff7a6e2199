//! The JPEG reference that is encoded in process, and decoding any JPEG reference.

use crate::amount::Amount;
use crate::jpeg_frame::{decodable_frame, is_decodable_frame};
use crate::series::{jpeg_quality_from_distance, raw_jpeg_quality, whole_quality};
use vstd::prelude::*;

verus! {

/// A decoded picture: three bytes for each pixel.
pub struct Picture {
    pub width: u32,
    pub height: u32,
    pub pixels: Vec<u8>,
}

/// Why there is no JPEG reference.
#[derive(Clone, Copy, Debug, PartialEq, Eq, Structural)]
pub enum JpegFault {
    /// A side is none, or too long for the format.
    Unencodable,
    /// The file cannot be decoded.
    Undecodable,
    /// The decoded picture has another size.
    SizeMismatch,
}

/// The file that the `image` crate's JPEG encoder writes for a picture.
pub uninterp spec fn image_jpeg_file(rgb: Seq<u8>, width: u32, height: u32, quality: u8) -> Seq<u8>;

/// Calls `image::codecs::jpeg::JpegEncoder::new_with_quality` and its `write_image`
/// with three 8-bit channels. Claimed of them: they fail exactly where a side is zero
/// or above 65535, and what they write depends on nothing but the arguments. They
/// panic where the number of bytes does not fit the size, which is left out.
#[verifier::external_body]
fn image_encode(rgb: &[u8], width: u32, height: u32, quality: u8) -> (r: Option<Vec<u8>>)
    requires
        rgb@.len() == width * height * 3,
    ensures
        r.is_some() == (1 <= width <= 65535 && 1 <= height <= 65535),
        r.is_some() ==> r.unwrap()@ == image_jpeg_file(rgb@, width, height, quality),
{
    let mut file = Vec::new();
    let encoder = image::codecs::jpeg::JpegEncoder::new_with_quality(
        std::io::Cursor::new(&mut file),
        quality,
    );
    let color = image::ExtendedColorType::Rgb8;
    match image::ImageEncoder::write_image(encoder, rgb, width, height, color) {
        Ok(()) => Some(file),
        Err(_) => None,
    }
}

/// The picture that the `image` crate's JPEG decoder makes of a file: width, height,
/// and three bytes for each pixel, or nothing where it gives an error.
pub uninterp spec fn image_jpeg_picture(file: Seq<u8>) -> Option<(u32, u32, Seq<u8>)>;

/// Calls `image::load_from_memory_with_format` for a JPEG file and turns the picture
/// into three 8-bit channels with `to_rgb8`. Claimed of it, for the files that
/// `decodable_frame` admits: it does not panic; whether there is a picture, its size and
/// its samples depend on nothing but the file; a picture has three bytes for each pixel,
/// and no side above 65535. The decoder picks its kernels for the inverse transform, the
/// upsampling and the colours by the machine; they compute the same integer formulas in
/// every form, and decide neither acceptance nor size.
///
/// What `decodable_frame` leaves out, and why: a component that is sampled more finely
/// than the first, for which rows are made too short; factors other than one and two, a
/// second frame, scans of some components in a sequential file, and segments that do not
/// follow one another, of which nothing is claimed; and sequential files of which neither
/// the head nor the coded data shows that the sums of the DC differences times a quantizer
/// stay within 32 bits, since the decoder multiplies without a check of its own. Every
/// other fault of a file comes back as an error, and so as `None`.
#[verifier::external_body]
fn image_decode(file: &[u8]) -> (r: Option<Picture>)
    requires
        decodable_frame(file@),
    ensures
        r.is_some() == image_jpeg_picture(file@).is_some(),
        r.is_some() ==> image_jpeg_picture(file@) == Some(
            (r.unwrap().width, r.unwrap().height, r.unwrap().pixels@),
        ),
        r.is_some() ==> r.unwrap().width <= 65535 && r.unwrap().height <= 65535,
        r.is_some() ==> r.unwrap().pixels@.len() == r.unwrap().width * r.unwrap().height * 3,
{
    match image::load_from_memory_with_format(file, image::ImageFormat::Jpeg) {
        Ok(picture) => {
            let rgb = picture.to_rgb8();
            Some(Picture { width: rgb.width(), height: rgb.height(), pixels: rgb.into_raw() })
        },
        Err(_) => None,
    }
}

/// Encodes a picture as JPEG at the quality that corresponds to a distance.
pub fn builtin_jpeg<A: Amount>(rgb: &[u8], width: u32, height: u32, distance: A) -> (r: Result<
    Vec<u8>,
    JpegFault,
>)
    requires
        rgb@.len() == width * height * 3,
    ensures
        r is Ok <==> 1 <= width <= 65535 && 1 <= height <= 65535,
        r matches Ok(file) ==> file@ == image_jpeg_file(
            rgb@,
            width,
            height,
            whole_quality(raw_jpeg_quality(distance)),
        ),
        r matches Err(fault) ==> fault == JpegFault::Unencodable,
{
    match image_encode(rgb, width, height, jpeg_quality_from_distance(distance)) {
        Some(file) => Ok(file),
        None => Err(JpegFault::Unencodable),
    }
}

/// What a decoded picture is worth as a reference: its pixels if it has the right
/// size.
pub fn accept_decoded(decoded: Option<Picture>, width: u32, height: u32) -> (r: Result<
    Vec<u8>,
    JpegFault,
>)
    ensures
        match decoded {
            None => r matches Err(fault) && fault == JpegFault::Undecodable,
            Some(p) => if p.width == width && p.height == height {
                r matches Ok(pixels) && pixels == p.pixels
            } else {
                r matches Err(fault) && fault == JpegFault::SizeMismatch
            },
        },
{
    match decoded {
        None => Err(JpegFault::Undecodable),
        Some(p) => {
            if p.width != width || p.height != height {
                Err(JpegFault::SizeMismatch)
            } else {
                Ok(p.pixels)
            }
        },
    }
}

/// Decodes a JPEG reference of a known size: the pixels of the picture that the file
/// holds, if it holds one of that size. Files that the decoder might not get through
/// count as undecodable.
pub fn decode_reference(file: &[u8], width: u32, height: u32) -> (r: Result<Vec<u8>, JpegFault>)
    ensures
        !decodable_frame(file@) ==> (r matches Err(fault) && fault == JpegFault::Undecodable),
        decodable_frame(file@) ==> match image_jpeg_picture(file@) {
            None => r matches Err(fault) && fault == JpegFault::Undecodable,
            Some((w, h, samples)) => if w == width && h == height {
                r matches Ok(pixels) && pixels@ == samples && samples.len() == width * height * 3
            } else {
                r matches Err(fault) && fault == JpegFault::SizeMismatch
            },
        },
        r is Ok ==> width <= 65535 && height <= 65535,
{
    if !is_decodable_frame(file) {
        return Err(JpegFault::Undecodable);
    }
    accept_decoded(image_decode(file), width, height)
}

} // verus!
