use massif::tile_format::{png as png_tile, webp as webp_tile, EncodeError};

const BYTES: usize = 512 * 512 * 3;

fn noise() -> Vec<u8> {
    let mut state = 12345u32;
    (0..BYTES)
        .map(|i| {
            state = state.wrapping_mul(1_664_525).wrapping_add(1_013_904_223);
            if i % 3 == 2 { (state >> 24) as u8 & 0xF8 } else { (i / 4096) as u8 }
        })
        .collect()
}

fn read_png(file: &[u8]) -> Vec<u8> {
    let decoder = png::Decoder::new(std::io::Cursor::new(file));
    let mut reader = decoder.read_info().unwrap();
    let mut rgb = vec![0u8; reader.output_buffer_size()];
    let info = reader.next_frame(&mut rgb).unwrap();
    assert_eq!((info.width, info.height), (512, 512));
    assert_eq!(info.color_type, png::ColorType::Rgb);
    assert_eq!(info.bit_depth, png::BitDepth::Eight);
    rgb
}

fn read_webp(file: &[u8]) -> Vec<u8> {
    let mut decoder = image_webp::WebPDecoder::new(std::io::Cursor::new(file)).unwrap();
    assert_eq!(decoder.dimensions(), (512, 512));
    assert!(!decoder.has_alpha());
    let mut rgb = vec![0u8; BYTES];
    decoder.read_image(&mut rgb).unwrap();
    rgb
}

#[test]
fn png_tiles_are_lossless_at_every_setting() {
    let rgb = noise();
    for compress in [None, Some(0), Some(1), Some(3), Some(4), Some(6), Some(9), Some(10)] {
        let file = png_tile::encode_tile(&rgb, compress).unwrap();
        assert_eq!(read_png(&file), rgb);
    }
}

#[test]
fn png_settings_map_to_three_strengths() {
    let rgb = noise();
    let of = |compress| png_tile::encode_tile(&rgb, compress).unwrap();
    let fast = of(None);
    let default = of(Some(1));
    let best = of(Some(4));
    assert_eq!(of(Some(2)), default);
    assert_eq!(of(Some(3)), default);
    assert_eq!(of(Some(6)), best);
    assert_eq!(of(Some(7)), best);
    assert_eq!(of(Some(9)), best);
    assert_eq!(of(Some(0)), best);
    assert!(fast != default && default != best && fast != best);
    assert!(best.len() <= default.len() && default.len() < fast.len());
}

#[test]
fn png_refuses_samples_that_do_not_fill_the_tile() {
    for len in [0, BYTES - 1, BYTES + 1] {
        let res = png_tile::encode_tile(&vec![0u8; len], None);
        assert!(matches!(res, Err(EncodeError::Png(_))));
    }
}

#[test]
fn webp_tiles_are_lossless_at_every_setting() {
    let rgb = noise();
    let file = webp_tile::encode_tile(&rgb, None).unwrap();
    assert_eq!(read_webp(&file), rgb);
    for level in 1..=9u8 {
        let file = webp_tile::encode_tile(&rgb, Some(level)).unwrap();
        assert_eq!(read_webp(&file), rgb);
        // One machine writes one file.
        assert_eq!(webp_tile::encode_tile(&rgb, Some(level)).unwrap(), file);
    }
}

#[test]
fn webp_levels_are_libwebp_efforts() {
    let rgb = noise();
    for level in [1u8, 2, 4] {
        let effort = (level - 1) as f32 * 100.0 / 8.0;
        let expected =
            webp::Encoder::from_rgb(&rgb, 512, 512).encode_simple(true, effort).unwrap().to_vec();
        assert_eq!(webp_tile::encode_tile(&rgb, Some(level)).unwrap(), expected);
    }
}
