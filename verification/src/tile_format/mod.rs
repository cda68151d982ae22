//! Tile image formats.

pub mod png;
pub mod webp;

use vstd::prelude::*;

verus! {

/// The image format of the tiles.
#[derive(Debug, Clone, Copy, PartialEq, Eq, Structural)]
pub enum Format {
    Webp,
    Png,
}

/// The number of pixels along a side of a tile.
pub const TILE_SIDE: u32 = 512;

/// The number of pixels of a tile.
pub const TILE_PIXELS: usize = 262_144;

/// The number of bytes of the RGB samples of a tile.
pub const TILE_BYTES: usize = 786_432;

/// The `png` crate's encoding error.
#[verifier::external_type_specification]
#[verifier::external_body]
pub struct ExPngError(::png::EncodingError);

/// The `image-webp` crate's encoding error.
#[verifier::external_type_specification]
#[verifier::external_body]
pub struct ExWebpError(::image_webp::EncodingError);

/// Why a tile could not be encoded.
#[derive(Debug)]
pub enum EncodeError {
    /// The PNG encoder failed.
    Png(::png::EncodingError),
    /// The pure-Rust WebP encoder failed.
    Webp(::image_webp::EncodingError),
}

/// What encoding the RGB samples `rgb` of a tile comes to.
pub open spec fn encodes(
    format: Format,
    rgb: Seq<u8>,
    compress: Option<u8>,
    res: Result<Vec<u8>, EncodeError>,
) -> bool {
    match format {
        Format::Webp => webp::encodes(rgb, compress, res),
        Format::Png => png::encodes(rgb, compress, res),
    }
}

/// The RGB samples that can be read from a tile image.
pub open spec fn pixels(format: Format, file: Seq<u8>) -> Seq<u8> {
    match format {
        Format::Webp => webp::webp_pixels(file),
        Format::Png => png::png_pixels(file),
    }
}

/// The width and the height of a tile image.
pub open spec fn dimensions(format: Format, file: Seq<u8>) -> (u32, u32) {
    match format {
        Format::Webp => webp::webp_dimensions(file),
        Format::Png => png::png_dimensions(file),
    }
}

/// Tile images are lossless: the samples that were encoded can be read back from the image, in
/// rows of the side of a tile.
pub proof fn law_images_lossless(
    format: Format,
    rgb: Seq<u8>,
    compress: Option<u8>,
    file: Vec<u8>,
)
    requires
        encodes(format, rgb, compress, Ok(file)),
    ensures
        pixels(format, file@) == rgb,
        dimensions(format, file@) == (TILE_SIDE, TILE_SIDE),
{
}

/// Whether there is but one file that encoding the RGB samples `rgb` of a tile can come to.
pub open spec fn single_file(format: Format, rgb: Seq<u8>, compress: Option<u8>) -> bool {
    forall|a: Vec<u8>, b: Vec<u8>| #[trigger]
        encodes(format, rgb, compress, Ok(a)) && #[trigger] encodes(format, rgb, compress, Ok(b))
            ==> a@ == b@
}

/// The samples and the settings alone decide on the bytes of an image, except where libwebp writes
/// it: there they do wherever libwebp has but one file to write for the samples at that effort.
pub proof fn law_single_file(format: Format, rgb: Seq<u8>, compress: Option<u8>)
    requires
        format is Webp ==> (compress matches Some(level) ==> forall|a: Seq<u8>, b: Seq<u8>|
            #[trigger] webp::libwebp_writes(
                rgb,
                TILE_SIDE,
                TILE_SIDE,
                webp::lossless_quality(level),
                a,
            ) && #[trigger] webp::libwebp_writes(
                rgb,
                TILE_SIDE,
                TILE_SIDE,
                webp::lossless_quality(level),
                b,
            ) ==> a == b),
    ensures
        single_file(format, rgb, compress),
{
}

/// A tile has 512 by 512 pixels of three bytes each.
pub proof fn law_tile_size()
    ensures
        TILE_SIDE == 512,
        TILE_PIXELS == 512 * 512,
        TILE_BYTES == 3 * 512 * 512,
{
}

} // verus!
