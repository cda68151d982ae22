use massif::encoder::Encoding;
use massif::raster::{
    encode_pixels, eval_tile, is_all_nodata, is_wgs84, process_tile, read_window, sample_bilinear,
    ReadWindow, Sample, SourceExtent, TileEval,
};
use massif::tile_format::Format;

fn extent(px_min: i64, py_min: i64, px_max: i64, py_max: i64) -> SourceExtent {
    SourceExtent { px_min, py_min, px_max, py_max }
}

#[test]
fn windows_have_a_border() {
    assert_eq!(
        read_window(extent(10, 20, 30, 50), 100, 200),
        ReadWindow { x0: 9, y0: 19, width: 23, height: 33, buf_width: 23, buf_height: 33 }
    );
}

#[test]
fn windows_stay_within_the_source() {
    assert_eq!(
        read_window(extent(-5, 95, 3, 120), 100, 100),
        ReadWindow { x0: 0, y0: 94, width: 5, height: 6, buf_width: 5, buf_height: 6 }
    );
    // A tile beside the source still reads one pixel.
    assert_eq!(
        read_window(extent(500, -900, 600, -800), 100, 100),
        ReadWindow { x0: 99, y0: 0, width: 1, height: 1, buf_width: 1, buf_height: 1 }
    );
}

#[test]
fn large_windows_are_resampled() {
    let w = read_window(extent(1, 1, 5000, 2044), 10_000, 10_000);
    assert_eq!((w.width, w.buf_width), (5002, 2048));
    assert_eq!((w.height, w.buf_height), (2046, 2046));
}

fn window_by_clamp(e: SourceExtent, w: usize, h: usize) -> ReadWindow {
    let rx0 = (e.px_min - 1).clamp(0, w as i64 - 1) as usize;
    let ry0 = (e.py_min - 1).clamp(0, h as i64 - 1) as usize;
    let rx1 = (e.px_max + 2).clamp(rx0 as i64 + 1, w as i64) as usize;
    let ry1 = (e.py_max + 2).clamp(ry0 as i64 + 1, h as i64) as usize;
    let (rw, rh) = (rx1 - rx0, ry1 - ry0);
    ReadWindow {
        x0: rx0,
        y0: ry0,
        width: rw,
        height: rh,
        buf_width: rw.min(2048),
        buf_height: rh.min(2048),
    }
}

#[test]
fn windows_of_tiles_nest() {
    let outer = read_window(extent(-3, 4, 40, 60), 50, 50);
    for a in -3..40i64 {
        for b in a..=40 {
            let e = extent(a, 4, b, 60);
            let w = read_window(e, 50, 50);
            assert_eq!(w, window_by_clamp(e, 50, 50));
            assert!(outer.x0 <= w.x0 && w.x0 + w.width <= outer.x0 + outer.width);
            assert!(outer.y0 <= w.y0 && w.y0 + w.height <= outer.y0 + outer.height);
        }
    }
}

#[test]
fn samples_are_blended_or_nearest() {
    let mut nodata = vec![false; 12];
    // 4 columns, 3 rows
    assert_eq!(sample_bilinear(&nodata, 4, 3, 1, 1, false, false), Sample::Blend(5, 6, 9, 10));
    assert_eq!(sample_bilinear(&nodata, 4, 3, 3, 2, true, true), Sample::Blend(11, 11, 11, 11));
    assert_eq!(sample_bilinear(&nodata, 4, 3, 3, 0, true, true), Sample::Blend(3, 3, 7, 7));
    nodata[10] = true;
    assert_eq!(sample_bilinear(&nodata, 4, 3, 1, 1, false, false), Sample::Nearest(5));
    assert_eq!(sample_bilinear(&nodata, 4, 3, 1, 1, true, false), Sample::Nearest(6));
    assert_eq!(sample_bilinear(&nodata, 4, 3, 1, 1, false, true), Sample::Nearest(9));
    assert_eq!(sample_bilinear(&nodata, 4, 3, 1, 1, true, true), Sample::Nearest(10));
}

#[test]
fn samples_outside_the_buffer_have_no_data() {
    let nodata = vec![false; 12];
    for (x, y) in [(-1, 0), (0, -1), (4, 0), (0, 3), (i64::MIN, 0), (0, i64::MAX)] {
        assert_eq!(sample_bilinear(&nodata, 4, 3, x, y, false, false), Sample::Outside);
    }
    assert_eq!(sample_bilinear(&[], 0, 0, 0, 0, false, false), Sample::Outside);
    // The last of the elements that a sample looks at is enough.
    assert_eq!(sample_bilinear(&[false; 6], 4, 3, 0, 0, false, false), Sample::Blend(0, 1, 4, 5));
    // Whatever the buffer holds.
    assert_eq!(sample_bilinear(&[], 4, 3, -1, 0, true, true), Sample::Outside);
    assert_eq!(sample_bilinear(&[true], usize::MAX, usize::MAX, 0, -1, true, true), Sample::Outside);
}

#[test]
fn a_buffer_is_empty_when_no_element_has_data() {
    assert!(is_all_nodata(&[]));
    assert!(is_all_nodata(&[true, true]));
    assert!(!is_all_nodata(&[true, false, true]));
}

#[test]
fn plain_longitude_and_latitude_is_recognised() {
    assert!(is_wgs84(true, Some("EPSG"), Some(4326)));
    assert!(!is_wgs84(false, Some("EPSG"), Some(4326)));
    assert!(!is_wgs84(true, Some("ESRI"), Some(4326)));
    assert!(!is_wgs84(true, None, Some(4326)));
    assert!(!is_wgs84(true, Some("EPSG"), Some(3857)));
    assert!(!is_wgs84(true, Some("EPSG"), None));
}

#[test]
fn pixels_are_encoded_in_order() {
    let samples = [Some(0x01_0203), None, Some(9)];
    assert_eq!(
        encode_pixels(&samples, Encoding::Mapbox, 3),
        (vec![1, 2, 0, 0, 0, 0, 0, 0, 8], true)
    );
    assert_eq!(
        encode_pixels(&samples, Encoding::Terrarium, 99),
        (vec![1, 2, 3, 0, 0, 0, 0, 0, 9], true)
    );
    // Everything below the lowest kept bit shows nothing.
    assert_eq!(
        encode_pixels(&[Some(7), None, Some(-4)], Encoding::Mapbox, 3),
        (vec![0; 9], false)
    );
}

fn slope() -> Vec<Option<i64>> {
    (0..512 * 512).map(|i| if i % 97 == 0 { None } else { Some(100_000 + i as i64) }).collect()
}

#[test]
fn tiles_are_rendered_blank_or_without_data() {
    let samples = slope();
    let nodata = [false, true];
    for format in [Format::Png, Format::Webp] {
        let eval = eval_tile(&nodata, &samples, Encoding::Mapbox, 3, format, None).unwrap();
        let Ok(Some(file)) = process_tile(&nodata, &samples, Encoding::Mapbox, 3, format, None)
        else {
            panic!("no image");
        };
        match eval {
            TileEval::Rendered(same) => assert_eq!(same, file),
            other => panic!("{:?}", other),
        }

        let empty = vec![None; 512 * 512];
        let blank = eval_tile(&nodata, &empty, Encoding::Mapbox, 3, format, Some(0)).unwrap();
        assert!(matches!(blank, TileEval::Blank));
        assert!(matches!(
            process_tile(&nodata, &empty, Encoding::Mapbox, 3, format, Some(0)),
            Ok(None)
        ));

        let none = eval_tile(&[true], &[], Encoding::Mapbox, 99, format, None).unwrap();
        assert!(matches!(none, TileEval::NoData));
        assert!(matches!(
            process_tile(&[true], &[], Encoding::Mapbox, 99, format, None),
            Ok(None)
        ));
    }
}

#[test]
fn elevations_can_be_read_back_from_a_tile() {
    let samples = slope();
    let rendered =
        process_tile(&[false], &samples, Encoding::Terrarium, 3, Format::Webp, Some(1)).unwrap();
    let file = rendered.unwrap();
    let mut decoder = image_webp::WebPDecoder::new(std::io::Cursor::new(file)).unwrap();
    let mut rgb = vec![0u8; 512 * 512 * 3];
    decoder.read_image(&mut rgb).unwrap();
    for (i, sample) in samples.iter().enumerate() {
        let v = rgb[3 * i] as i64 * 65536 + rgb[3 * i + 1] as i64 * 256 + rgb[3 * i + 2] as i64;
        assert_eq!(v, sample.unwrap_or(0));
    }
}

#[test]
fn terrarium_tiles_ignore_the_rounding() {
    let samples = slope();
    for (format, compress) in [(Format::Png, None), (Format::Png, Some(6)), (Format::Webp, None)] {
        let of = |round| {
            process_tile(&[false], &samples, Encoding::Terrarium, round, format, compress)
                .unwrap()
                .unwrap()
        };
        assert_eq!(of(0), of(3));
        assert_eq!(of(0), of(99));
    }
    let low = [Some(-1), None, Some(0)];
    for round in [0, 99] {
        assert!(matches!(
            process_tile(&[false], &low, Encoding::Terrarium, round, Format::Webp, Some(0)),
            Ok(None)
        ));
    }
}

// Which elements of a window that is read pixel for pixel have no data.
fn mask_of(e: SourceExtent, nodata: fn(usize, usize) -> bool) -> Vec<bool> {
    let w = read_window(e, 60, 40);
    let mut mask = Vec::new();
    for y in w.y0..w.y0 + w.height {
        for x in w.x0..w.x0 + w.width {
            mask.push(nodata(x, y));
        }
    }
    mask
}

#[test]
fn tiles_below_a_tile_without_data_are_empty() {
    let nodata = |x: usize, _: usize| x < 35;
    let above = mask_of(extent(0, 0, 32, 32), nodata);
    assert!(is_all_nodata(&above));
    let samples = slope();
    for (x0, y0, x1, y1) in [(0, 0, 16, 16), (16, 0, 32, 16), (24, 24, 32, 32), (31, 31, 32, 32)] {
        let mask = mask_of(extent(x0, y0, x1, y1), nodata);
        let round = 3;
        let eval = eval_tile(&mask, &samples, Encoding::Mapbox, round, Format::Png, None);
        assert!(matches!(eval, Ok(TileEval::NoData)));
        let process = process_tile(&mask, &samples, Encoding::Mapbox, round, Format::Png, None);
        assert!(matches!(process, Ok(None)));
    }
    assert!(!is_all_nodata(&mask_of(extent(0, 0, 34, 32), nodata)));
}

#[test]
fn a_failed_encoding_is_an_error() {
    // Too few pixels for a tile.
    assert!(eval_tile(&[false], &[Some(1)], Encoding::Terrarium, 0, Format::Png, None).is_err());
    assert!(process_tile(&[false], &[Some(1)], Encoding::Terrarium, 0, Format::Png, None).is_err());
}
