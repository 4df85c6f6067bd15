//! JPEG streams, in and out: the headers, the resizer and the encoder behind
//! thumbnails and full-resolution frames.
//!
//! The coded data itself goes to a decoder that the caller hands over. On
//! hostile data it can panic: a later scan names a table that was never
//! defined, or coefficients overflow where overflow is checked. Nothing short
//! of decoding tells such data apart, so no condition on the bytes could
//! stand before the call, and what contains a panic is the caller's to have.
use vstd::prelude::*;
use vstd::string::*;

verus! {

/// The longest side that the decoder takes where it is not told otherwise.
pub const USUAL_MAX_SIDE: usize = 16384;

/// The longest stream that is looked at: the decoder counts the bytes that
/// it passes over in 32 bits, with a sign.
pub const MAX_STREAM: usize = 0x7fff_ffff;

/// What the decoder says of a stream's headers, where no side may be longer
/// than `max_side`: the width and the height, or why it refuses them.
pub uninterp spec fn jpeg_header(bytes: Seq<u8>, max_side: usize) -> Result<
    Option<(usize, usize)>,
    Seq<char>,
>;

/// The sides of a stream, where it is not too long and its headers are taken.
pub open spec fn sides_of(bytes: Seq<u8>) -> Option<(usize, usize)> {
    if bytes.len() > MAX_STREAM {
        None
    } else {
        match jpeg_header(bytes, USUAL_MAX_SIDE) {
            Ok(sides) => sides,
            Err(_) => None,
        }
    }
}

/// `zune_jpeg::JpegDecoder::decode_headers`, and `dimensions` behind it: the
/// two sides that the frame header claims, or the text of the decoder's
/// error. The answer is a function of the bytes and of the limit. Where the
/// headers are taken there are sides: the two 16-bit numbers of the frame
/// header, which are within the limit and not zero.
#[verifier::external_body]
pub(crate) fn read_header(bytes: &[u8], max_side: usize) -> (r: Result<
    Option<(usize, usize)>,
    String,
>)
    requires
        bytes@.len() <= MAX_STREAM,
    ensures
        match r {
            Ok(sides) => jpeg_header(bytes@, max_side) == Ok::<Option<(usize, usize)>, Seq<char>>(
                sides,
            ) && sides is Some && 1 <= (sides->0).0 <= u16::MAX && 1 <= (sides->0).1 <= u16::MAX
                && (sides->0).0 <= max_side && (sides->0).1 <= max_side,
            Err(e) => jpeg_header(bytes@, max_side) == Err::<Option<(usize, usize)>, Seq<char>>(
                e@,
            ),
        },
{
    let options = zune_jpeg::zune_core::options::DecoderOptions::default()
        .jpeg_set_out_colorspace(zune_jpeg::zune_core::colorspace::ColorSpace::RGB)
        .set_max_width(max_side)
        .set_max_height(max_side);
    let mut decoder = zune_jpeg::JpegDecoder::new_with_options(bytes, options);
    match decoder.decode_headers() {
        Ok(()) => Ok(decoder.dimensions()),
        Err(e) => Err(e.to_string()),
    }
}

/// The resizer can give `out` for these RGB pixels of `w` by `h`, asked for
/// `new_w` by `new_h`. Its weights are floating-point sines, which machines
/// round differently, so that there may be more than one such `out`.
pub uninterp spec fn is_resized(
    pixels: Seq<u8>,
    w: u32,
    h: u32,
    new_w: u32,
    new_h: u32,
    out: Seq<u8>,
) -> bool;

/// Where the resizer refuses.
pub enum Refusal {
    /// It does not take the source: the text of its error.
    Source(String),
    /// It does not resize: the text of its error.
    Resize(String),
}

/// `fast_image_resize::images::Image::from_vec_u8` and
/// `fast_image_resize::Resizer::resize`, for RGB pixels: the source is
/// refused exactly where there are fewer bytes than its size needs, and
/// nothing else is. The result is one that the resizer can give for these
/// pixels and these sizes; it has three bytes for each pixel of the new
/// size, and is the source itself where the size stays.
#[verifier::external_body]
pub(crate) fn resize_rgb(pixels: Vec<u8>, w: u32, h: u32, new_w: u32, new_h: u32) -> (r: Result<
    Vec<u8>,
    Refusal,
>)
    requires
        3 * (w * h) <= isize::MAX,
        3 * (new_w * new_h) <= isize::MAX,
    ensures
        match r {
            Ok(out) => pixels@.len() >= 3 * (w * h) && out@.len() == 3 * (new_w * new_h)
                && is_resized(pixels@, w, h, new_w, new_h, out@) && (w == new_w && h == new_h
                ==> out@ == pixels@.take(3 * (w * h))),
            Err(Refusal::Source(e)) => pixels@.len() < 3 * (w * h) && e@
                == "Size of buffer is smaller than required"@,
            Err(Refusal::Resize(_)) => false,
        },
{
    let kind = fast_image_resize::PixelType::U8x3;
    let source = match fast_image_resize::images::Image::from_vec_u8(w, h, pixels, kind) {
        Ok(image) => image,
        Err(e) => return Err(Refusal::Source(e.to_string())),
    };
    let mut out = fast_image_resize::images::Image::new(new_w, new_h, kind);
    match fast_image_resize::Resizer::new().resize(&source, &mut out, None) {
        Ok(()) => Ok(out.into_vec()),
        Err(e) => Err(Refusal::Resize(e.to_string())),
    }
}

/// The JPEG stream of some RGB pixels.
pub uninterp spec fn jpeg_encoded(
    rgb: Seq<u8>,
    width: u16,
    height: u16,
    quality: u8,
) -> Result<Seq<u8>, Seq<char>>;

/// `jpeg_encoder::Encoder::encode` into memory: the stream is a function of
/// the pixels, the size and the quality. There is one exactly where no side
/// is zero and there are three bytes to each pixel, and it begins with the
/// start-of-image marker and ends with the end-of-image marker.
#[verifier::external_body]
pub(crate) fn encode_rgb(rgb: &[u8], width: u16, height: u16, quality: u8) -> (r: Result<
    Vec<u8>,
    String,
>)
    requires
        1 <= quality <= 100,
        3 * (width * height) <= usize::MAX,
    ensures
        match r {
            Ok(out) => jpeg_encoded(rgb@, width, height, quality) == Ok::<Seq<u8>, Seq<char>>(out@)
                && out@.len() >= 4 && out@[0] == 0xff && out@[1] == 0xd8 && out@[out@.len() - 2]
                == 0xff && out@[out@.len() - 1] == 0xd9,
            Err(e) => jpeg_encoded(rgb@, width, height, quality) == Err::<Seq<u8>, Seq<char>>(e@),
        },
        (r is Ok) == (width > 0 && height > 0 && rgb@.len() >= 3 * (width * height)),
{
    let mut out = Vec::new();
    match jpeg_encoder::Encoder::new(&mut out, quality)
        .encode(rgb, width, height, jpeg_encoder::ColorType::Rgb)
    {
        Ok(()) => Ok(out),
        Err(e) => Err(e.to_string()),
    }
}

} // verus!
