//! WebP tiles, always lossless: a lossy channel value would be an elevation wrong by thousands of
//! metres.

use super::{EncodeError, TILE_BYTES, TILE_SIDE};
use crate::text::{number, tenths};
use vstd::prelude::*;

verus! {

/// The RGB samples that `image_webp::WebPDecoder::read_image` reads from a still image without
/// alpha.
pub uninterp spec fn webp_pixels(file: Seq<u8>) -> Seq<u8>;

/// The width and the height that `image_webp::WebPDecoder::dimensions` gives of a file.
pub uninterp spec fn webp_dimensions(file: Seq<u8>) -> (u32, u32);

/// The bytes of the WebP file that the `image-webp` crate writes for the RGB samples `rgb` of an
/// image.
pub uninterp spec fn webp_file(rgb: Seq<u8>, width: u32, height: u32) -> Seq<u8>;

/// Whether libwebp, asked to encode the RGB samples `rgb` of an image losslessly at the given
/// quality, may write `file`. It weighs its choices in floating point, so its bytes can differ
/// from machine to machine.
pub uninterp spec fn libwebp_writes(
    rgb: Seq<u8>,
    width: u32,
    height: u32,
    quality: Seq<char>,
    file: Seq<u8>,
) -> bool;

/// `image_webp::WebPEncoder::encode` of `width` by `height` pixels of 8-bit RGB into a `Vec`. It
/// panics unless the samples fill the image.
///
/// Claimed, of the size of a tile: it succeeds, as the dimensions are valid and writing to a `Vec`
/// does not fail; the file is a function of the samples and the size; it holds the size; and the
/// encoder writes lossless WebP only, so the samples can be read back from the file.
#[verifier::external_body]
fn write_webp(rgb: &[u8], width: u32, height: u32) -> (res: Result<
    Vec<u8>,
    ::image_webp::EncodingError,
>)
    requires
        width == TILE_SIDE,
        height == TILE_SIDE,
        rgb@.len() == 3 * width * height,
    ensures
        res is Ok,
        res matches Ok(file) ==> {
            &&& file@ == webp_file(rgb@, width, height)
            &&& webp_pixels(file@) == rgb@
            &&& webp_dimensions(file@) == (width, height)
        },
{
    let mut buf = Vec::new();
    let encoder = ::image_webp::WebPEncoder::new(&mut buf);
    encoder.encode(rgb, width, height, ::image_webp::ColorType::Rgb8)?;
    Ok(buf)
}

/// `webp::Encoder::encode_simple` of `width` by `height` pixels of 8-bit RGB with lossless
/// compression. It panics unless the samples fill the image. The quality, which lossless
/// compression takes as its effort, is handed over in decimal. With such samples and a quality of
/// 0 to 100 libwebp fails only for want of memory; that ends in a panic here, as it ends the
/// program where a `Vec` grows.
///
/// Claimed, of the size of a tile: the file is one that libwebp may write for the samples at that
/// size and quality; it holds the size; and as the compression is lossless and the image opaque,
/// the samples can be read back from it. Which of the files it may write it is, is left unsaid.
#[verifier::external_body]
fn write_libwebp(rgb: &[u8], width: u32, height: u32, quality: &str) -> (file: Vec<u8>)
    requires
        width == TILE_SIDE,
        height == TILE_SIDE,
        rgb@.len() == 3 * width * height,
        exists|level: u8| 1 <= level <= 9 && quality@ == #[trigger] lossless_quality(level),
    ensures
        libwebp_writes(rgb@, width, height, quality@, file@),
        webp_pixels(file@) == rgb@,
        webp_dimensions(file@) == (width, height),
{
    let encoder = ::webp::Encoder::from_rgb(rgb, width, height);
    encoder.encode_simple(true, quality.parse().unwrap()).unwrap().to_vec()
}

/// The libwebp quality of a compression level, in decimal: `(level - 1) · 12.5`.
pub open spec fn lossless_quality(level: u8) -> Seq<char> {
    if level == 1 {
        "0"@
    } else if level == 2 {
        "12.5"@
    } else if level == 3 {
        "25"@
    } else if level == 4 {
        "37.5"@
    } else if level == 5 {
        "50"@
    } else if level == 6 {
        "62.5"@
    } else if level == 7 {
        "75"@
    } else if level == 8 {
        "87.5"@
    } else {
        "100"@
    }
}

fn quality_text(level: u8) -> (text: &'static str)
    requires
        1 <= level <= 9,
    ensures
        text@ == lossless_quality(level),
{
    match level {
        1 => "0",
        2 => "12.5",
        3 => "25",
        4 => "37.5",
        5 => "50",
        6 => "62.5",
        7 => "75",
        8 => "87.5",
        _ => "100",
    }
}

/// What encoding the RGB samples `rgb` of a tile as WebP comes to: without a level the file that
/// the pure-Rust encoder writes, with a level a file that libwebp writes at the effort of that
/// level. The samples can be read back from either.
pub open spec fn encodes(
    rgb: Seq<u8>,
    compress: Option<u8>,
    res: Result<Vec<u8>, EncodeError>,
) -> bool {
    match res {
        Ok(file) => {
            &&& webp_pixels(file@) == rgb
            &&& webp_dimensions(file@) == (TILE_SIDE, TILE_SIDE)
            &&& match compress {
                None => file@ == webp_file(rgb, TILE_SIDE, TILE_SIDE),
                Some(level) => libwebp_writes(
                    rgb,
                    TILE_SIDE,
                    TILE_SIDE,
                    lossless_quality(level),
                    file@,
                ),
            }
        },
        Err(_) => false,
    }
}

/// Encodes a 512×512 RGB tile as WebP.
///
/// Without `compress` the pure-Rust encoder is used, the fastest path; `compress` 1-9 maps to
/// libwebp's effort 0-100.
pub fn encode_tile(rgb: &[u8], compress: Option<u8>) -> (res: Result<Vec<u8>, EncodeError>)
    requires
        rgb@.len() == TILE_BYTES,
        compress matches Some(level) ==> 1 <= level <= 9,
    ensures
        encodes(rgb@, compress, res),
{
    match compress {
        None => match write_webp(rgb, TILE_SIDE, TILE_SIDE) {
            Ok(file) => Ok(file),
            Err(e) => Err(EncodeError::Webp(e)),
        },
        Some(level) => Ok(write_libwebp(rgb, TILE_SIDE, TILE_SIDE, quality_text(level))),
    }
}

/// The quality of a level stands for `(level - 1) · 12.5`.
pub(crate) proof fn lemma_quality_number(level: u8)
    requires
        1 <= level <= 9,
    ensures
        tenths(lossless_quality(level)) == 125 * (level - 1),
{
    reveal_strlit("0");
    reveal_strlit("12.5");
    reveal_strlit("25");
    reveal_strlit("37.5");
    reveal_strlit("50");
    reveal_strlit("62.5");
    reveal_strlit("75");
    reveal_strlit("87.5");
    reveal_strlit("100");
    reveal_with_fuel(number, 4);
    let q = lossless_quality(level);
    if level % 2 == 0 {
        let whole = q.take(q.len() - 2);
        assert(whole.len() == 2);
        assert(whole.drop_last().drop_last().len() == 0);
    } else {
        assert(1 <= q.len() <= 3);
    }
}

/// Whatever `encode_tile` gives for the samples of a tile, it is a file of 512 by 512 pixels from
/// which the samples are read back: without a level the one that the pure-Rust encoder writes, with
/// a level one that libwebp writes at the quality `(level - 1) · 12.5`.
pub proof fn law_webp_tile(
    rgb: &[u8],
    compress: Option<u8>,
    res: Result<Vec<u8>, EncodeError>,
)
    requires
        call_ensures(encode_tile, (rgb, compress), res),
        compress matches Some(level) ==> 1 <= level <= 9,
    ensures
        res is Ok,
        res matches Ok(file) ==> {
            &&& webp_pixels(file@) == rgb@
            &&& webp_dimensions(file@) == (512u32, 512u32)
            &&& compress is None ==> file@ == webp_file(rgb@, 512, 512)
            &&& compress matches Some(level) ==> exists|quality: Seq<char>| #[trigger]
                libwebp_writes(rgb@, 512, 512, quality, file@) && tenths(quality) == 125 * (level
                    - 1)
        },
{
    if let Some(level) = compress {
        lemma_quality_number(level);
    }
}

} // verus!
