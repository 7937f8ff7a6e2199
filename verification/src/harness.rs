//! Encoding requests derived from arbitrary bytes.

use vstd::prelude::*;

verus! {

pub const HEADER_LEN: usize = 4;

pub const MAX_DIMENSION: usize = 128;

/// The payload repeated cyclically up to a length; zeros if it is empty.
pub open spec fn is_cycled(payload: Seq<u8>, len: int, pixels: Seq<u8>) -> bool {
    &&& pixels.len() == len
    &&& forall|i: int|
        0 <= i < len ==> #[trigger] pixels[i] == (if payload.len() == 0 {
            0
        } else {
            payload[i % payload.len() as int]
        })
}

/// Exactly `len` pixel bytes made from a payload of any length.
pub fn exact_size_pixels(payload: &[u8], len: usize) -> (r: Vec<u8>)
    ensures
        is_cycled(payload@, len as int, r@),
{
    let mut pixels: Vec<u8> = vec![0; len];
    if payload.len() == 0 {
        return pixels;
    }
    let mut index: usize = 0;
    while index < len
        invariant
            index <= len,
            pixels@.len() == len,
            payload@.len() > 0,
            forall|i: int|
                0 <= i < index ==> #[trigger] pixels@[i] == payload@[i % payload@.len() as int],
        decreases len - index,
    {
        pixels[index] = payload[index % payload.len()];
        index += 1;
    }
    pixels
}

/// Pixel formats that can be asked for.
#[derive(Clone, Copy, Debug, PartialEq, Eq, Structural)]
pub enum PixelFormat {
    Rgb,
    Rgba,
    Gray,
    GrayAlpha,
}

impl PixelFormat {
    /// Samples per pixel.
    pub open spec fn channels_spec(self) -> int {
        match self {
            PixelFormat::Rgb => 3,
            PixelFormat::Rgba => 4,
            PixelFormat::Gray => 1,
            PixelFormat::GrayAlpha => 2,
        }
    }

    pub fn channels(self) -> (r: usize)
        ensures
            r == self.channels_spec(),
    {
        match self {
            PixelFormat::Rgb => 3,
            PixelFormat::Rgba => 4,
            PixelFormat::Gray => 1,
            PixelFormat::GrayAlpha => 2,
        }
    }
}

/// An image to encode and how to encode it.
pub struct EncodeRequest {
    pub format: PixelFormat,
    pub width: usize,
    pub height: usize,
    /// Quality in steps of a thirty-first of the full scale.
    pub quality_step: u8,
    pub lossless: bool,
    pub progressive: bool,
    pub slow: bool,
    pub pixels: Vec<u8>,
}

/// The format that the low bits of a byte stand for.
pub open spec fn format_of(byte: u8) -> PixelFormat {
    if byte % 4 == 0 {
        PixelFormat::Rgb
    } else if byte % 4 == 1 {
        PixelFormat::Rgba
    } else if byte % 4 == 2 {
        PixelFormat::Gray
    } else {
        PixelFormat::GrayAlpha
    }
}

/// Reads a request: format, width, height and control byte, then the payload
/// from which the pixels are made. Data without a whole header asks for nothing.
pub fn read_request(data: &[u8]) -> (r: Option<EncodeRequest>)
    ensures
        r is Some <==> data@.len() >= HEADER_LEN,
        r matches Some(q) ==> {
            &&& q.format == format_of(data@[0])
            &&& q.width == data@[1] % 128 + 1
            &&& q.height == data@[2] % 128 + 1
            &&& q.quality_step == data@[3] / 8
            &&& q.lossless == (data@[3] % 2 == 1)
            &&& q.progressive == (data@[3] / 2 % 2 == 1)
            &&& q.slow == (data@[3] / 4 % 2 == 1)
            &&& is_cycled(
                data@.skip(HEADER_LEN as int),
                q.width * q.height * q.format.channels_spec(),
                q.pixels@,
            )
        },
{
    if data.len() < HEADER_LEN {
        return None;
    }
    let format: PixelFormat = match data[0] % 4 {
        0 => PixelFormat::Rgb,
        1 => PixelFormat::Rgba,
        2 => PixelFormat::Gray,
        _ => PixelFormat::GrayAlpha,
    };
    let width: usize = data[1] as usize % MAX_DIMENSION + 1;
    let height: usize = data[2] as usize % MAX_DIMENSION + 1;
    let control: u8 = data[3];
    let channels: usize = format.channels();
    assert(width * height <= 128 * 128) by (nonlinear_arith)
        requires
            width <= 128,
            height <= 128,
    ;
    assert(width * height * channels <= 128 * 128 * 4) by (nonlinear_arith)
        requires
            width * height <= 128 * 128,
            channels <= 4,
    ;
    let payload: &[u8] = vstd::slice::slice_subrange(data, HEADER_LEN, data.len());
    assert(payload@ =~= data@.skip(HEADER_LEN as int));
    let pixels: Vec<u8> = exact_size_pixels(payload, width * height * channels);
    Some(
        EncodeRequest {
            format,
            width,
            height,
            quality_step: control / 8,
            lossless: control % 2 == 1,
            progressive: control / 2 % 2 == 1,
            slow: control / 4 % 2 == 1,
            pixels,
        },
    )
}

} // verus!
