//! PNG tiles.

use super::{EncodeError, TILE_BYTES, TILE_SIDE};
use vstd::prelude::*;

verus! {

/// The strength of PNG compression.
#[derive(Debug, Clone, Copy, PartialEq, Eq, Structural)]
pub enum Level {
    Fast,
    Default,
    Best,
}

/// The strength that a compression setting asks for: 1-3 ask for the default strength, every
/// other setting for the best one; no setting asks for speed.
pub open spec fn level_for(compress: Option<u8>) -> Level {
    match compress {
        None => Level::Fast,
        Some(n) => if 1 <= n <= 3 {
            Level::Default
        } else {
            Level::Best
        },
    }
}

/// The bytes of the PNG file that the `png` crate writes for the RGB samples `rgb` of an image.
pub uninterp spec fn png_file(rgb: Seq<u8>, width: u32, height: u32, level: Level) -> Seq<u8>;

/// The RGB samples that `png::Reader::next_frame` reads from an 8-bit RGB file.
pub uninterp spec fn png_pixels(file: Seq<u8>) -> Seq<u8>;

/// The width and the height that `png::Reader::info` gives of a file.
pub uninterp spec fn png_dimensions(file: Seq<u8>) -> (u32, u32);

/// `png::Encoder`, set to `width` by `height` pixels of 8-bit RGB and the given compression,
/// writing a header and `rgb` as image data into a `Vec`.
///
/// Claimed, of the size of a tile: it succeeds exactly on samples that fill the image, as writing
/// to a `Vec` does not fail; the file is a function of the samples, the size and the compression;
/// the header holds the size; and PNG loses nothing, so the samples can be read back from the file.
#[verifier::external_body]
fn write_png(rgb: &[u8], width: u32, height: u32, level: Level) -> (res: Result<
    Vec<u8>,
    ::png::EncodingError,
>)
    requires
        width == TILE_SIDE,
        height == TILE_SIDE,
    ensures
        res is Ok <==> rgb@.len() == 3 * width * height,
        res matches Ok(file) ==> {
            &&& file@ == png_file(rgb@, width, height, level)
            &&& png_pixels(file@) == rgb@
            &&& png_dimensions(file@) == (width, height)
        },
{
    let mut buf = Vec::new();
    let mut encoder = ::png::Encoder::new(&mut buf, width, height);
    encoder.set_color(::png::ColorType::Rgb);
    encoder.set_depth(::png::BitDepth::Eight);
    encoder.set_compression(match level {
        Level::Fast => ::png::Compression::Fast,
        Level::Default => ::png::Compression::Default,
        Level::Best => ::png::Compression::Best,
    });
    encoder.write_header()?.write_image_data(rgb)?;
    Ok(buf)
}

/// What encoding the RGB samples `rgb` as PNG comes to: the file that the encoder writes for them
/// at the compression asked for, from which they can be read back, or its error where they do not
/// fill the tile.
pub open spec fn encodes(
    rgb: Seq<u8>,
    compress: Option<u8>,
    res: Result<Vec<u8>, EncodeError>,
) -> bool {
    match res {
        Ok(file) => {
            &&& rgb.len() == TILE_BYTES
            &&& file@ == png_file(rgb, TILE_SIDE, TILE_SIDE, level_for(compress))
            &&& png_pixels(file@) == rgb
            &&& png_dimensions(file@) == (TILE_SIDE, TILE_SIDE)
        },
        Err(e) => e is Png && rgb.len() != TILE_BYTES,
    }
}

/// Encodes a 512×512 RGB tile as PNG.
///
/// `compress` 1-3 uses the default compression, a higher setting the best one; omitting it
/// prioritises speed.
pub fn encode_tile(rgb: &[u8], compress: Option<u8>) -> (res: Result<Vec<u8>, EncodeError>)
    ensures
        encodes(rgb@, compress, res),
{
    let level = match compress {
        None => Level::Fast,
        Some(n) => if 1 <= n && n <= 3 {
            Level::Default
        } else {
            Level::Best
        },
    };
    match write_png(rgb, TILE_SIDE, TILE_SIDE, level) {
        Ok(file) => Ok(file),
        Err(e) => Err(EncodeError::Png(e)),
    }
}

/// Whatever `encode_tile` gives, it is a file exactly for samples that fill 512 by 512 pixels; they
/// are read back from it, and it is the one that the encoder writes at its fast strength without a
/// setting, at its default strength for the settings 1 to 3 and at its best for every other.
pub proof fn law_png_tile(rgb: &[u8], compress: Option<u8>, res: Result<Vec<u8>, EncodeError>)
    requires
        call_ensures(encode_tile, (rgb, compress), res),
    ensures
        res is Ok <==> rgb@.len() == 3 * 512 * 512,
        res matches Err(e) ==> e is Png,
        res matches Ok(file) ==> {
            &&& png_pixels(file@) == rgb@
            &&& png_dimensions(file@) == (512u32, 512u32)
            &&& compress is None ==> file@ == png_file(rgb@, 512, 512, Level::Fast)
            &&& compress matches Some(n) ==> {
                &&& n == 1 || n == 2 || n == 3 ==> file@ == png_file(
                    rgb@,
                    512,
                    512,
                    Level::Default,
                )
                &&& n == 0 || n > 3 ==> file@ == png_file(rgb@, 512, 512, Level::Best)
            }
        },
{
}

} // verus!
