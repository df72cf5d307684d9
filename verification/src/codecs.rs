//! The outside codecs: PNG decoding and SIXEL encoding.

use crate::pixels::DecodedRgba;
use vstd::prelude::*;

verus! {

/// Width, height and RGBA pixels of a PNG stream, or nothing where it cannot be
/// decoded.
pub uninterp spec fn png_pixels(png: Seq<u8>) -> Option<(u32, u32, Seq<u8>)>;

/// Calls `image::load_from_memory_with_format` for PNG and converts the picture
/// to eight-bit RGBA with `DynamicImage::into_rgba8`.
///
/// Trusted: the outcome depends on the bytes alone, an empty stream cannot be
/// decoded, and a decoded picture comes with exactly four bytes for each of its
/// pixels. Which other streams can be decoded, and to which pixels, is left to the
/// name.
#[verifier::external_body]
pub(crate) fn decode_png_rgba(png: &[u8]) -> (decoded: Option<DecodedRgba>)
    ensures
        (match decoded {
            Some(pixels) => Some((pixels.width, pixels.height, pixels.data@)),
            None => None,
        }) == png_pixels(png@),
        decoded is Some ==> png@.len() > 0,
        decoded matches Some(pixels) ==> pixels@.wf(),
{
    match image::load_from_memory_with_format(png, image::ImageFormat::Png) {
        Ok(picture) => {
            let pixels = picture.into_rgba8();
            let (width, height) = pixels.dimensions();
            Some(DecodedRgba { width, height, data: pixels.into_raw() })
        },
        Err(_) => None,
    }
}

/// The SIXEL stream of `width` by `height` RGBA pixels.
pub uninterp spec fn sixel_stream(rgba: Seq<u8>, width: usize, height: usize) -> Seq<u8>;

/// `height` rounded up to complete bands of six pixel rows.
pub open spec fn band_height(height: int) -> int {
    (height + 5) / 6 * 6
}

/// Whether the encoder takes a raster of this size. These are the limits of
/// `icy_sixel` 0.7.0.
pub open spec fn encodable(width: int, height: int) -> bool {
    &&& 0 < width <= 1_000_000
    &&& 0 < height
    &&& band_height(height) <= 1_000_000
    &&& width * band_height(height) <= 67_108_864
}

/// Whether the encoder takes `rgba` as a raster of this size.
pub open spec fn encoder_takes(rgba: Seq<u8>, width: int, height: int) -> bool {
    encodable(width, height) && rgba.len() == width * height * 4
}

/// What a SIXEL stream starts with: `ESC P 9 ; 1 ; 0 q`, for square pixels on a
/// transparent background.
pub open spec fn sixel_introducer() -> Seq<u8> {
    seq![0x1bu8, 0x50, 0x39, 0x3b, 0x31, 0x3b, 0x30, 0x71]
}

/// `stream` is one device control string of SIXEL data: it starts with the
/// introducer and ends with the string terminator `ESC \`.
pub open spec fn is_control_string(stream: Seq<u8>) -> bool {
    &&& stream.len() >= sixel_introducer().len() + 2
    &&& sixel_introducer().is_prefix_of(stream)
    &&& stream[stream.len() - 2] == 0x1b
    &&& stream[stream.len() - 1] == 0x5c
}

/// Calls `icy_sixel::sixel_encode` with the default options.
///
/// Trusted: the encoder takes exactly the rasters of an [`encodable`] size whose
/// data holds four bytes per pixel; the stream depends on the arguments alone; and
/// it is one device control string, with the SIXEL introducer for the default
/// options. Which palette and which sixels stand in it is left to the name.
#[verifier::external_body]
pub(crate) fn sixel_encode(rgba: &[u8], width: usize, height: usize) -> (stream: Option<Vec<u8>>)
    ensures
        stream is Some <==> encoder_takes(rgba@, width as int, height as int),
        stream matches Some(bytes) ==> bytes@ == sixel_stream(rgba@, width, height),
        stream matches Some(bytes) ==> is_control_string(bytes@),
{
    let options = icy_sixel::EncodeOptions::default();
    match icy_sixel::sixel_encode(rgba, width, height, &options) {
        Ok(text) => Some(text.into_bytes()),
        Err(_) => None,
    }
}

} // verus!
