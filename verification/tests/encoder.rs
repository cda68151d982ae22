use massif::encoder::{
    encode_mapbox, encode_terrarium, ignored_settings, Encoding, IgnoredSettings,
};

fn mapbox_steps(elev: f32, base_val: f64, interval: f64) -> Option<i64> {
    Some(((elev as f64 - base_val) / interval).floor() as i64)
}

fn terrarium_steps(elev: f32) -> Option<i64> {
    Some(((elev as f64 + 32768.0) * 256.0).floor() as i64)
}

fn value(rgb: [u8; 3]) -> i64 {
    rgb[0] as i64 * 65536 + rgb[1] as i64 * 256 + rgb[2] as i64
}

#[test]
fn no_data_encodes_to_zero() {
    assert_eq!(encode_mapbox(None, 3), [0, 0, 0]);
    assert_eq!(encode_mapbox(None, 99), [0, 0, 0]);
    assert_eq!(encode_terrarium(None), [0, 0, 0]);
}

#[test]
fn mapbox_encodes_the_step_count() {
    // Sea level with the default base and interval is 100000 steps up.
    assert_eq!(encode_mapbox(mapbox_steps(0.0, -10000.0, 0.1), 0), [1, 134, 160]);
    assert_eq!(value(encode_mapbox(mapbox_steps(8848.0, -10000.0, 0.1), 0)), 188_480);
    assert_eq!(encode_mapbox(Some(0x12_3456), 0), [0x12, 0x34, 0x56]);
}

#[test]
fn mapbox_zeroes_the_low_bits() {
    assert_eq!(value(encode_mapbox(Some(100_007), 3)), 100_000);
    assert_eq!(value(encode_mapbox(Some(0xFF_FFFF), 8)), 0xFF_FF00);
    for round in 0..63u32 {
        for steps in [0i64, 1, 5, 1000, 100_007, 0xFF_FFFE, 0xFF_FFFF, 0x100_0000, i64::MAX, -1, i64::MIN] {
            let mask = !((1i64 << round) - 1);
            let expected = steps.clamp(0, 0xFF_FFFF) & mask;
            let encoded = value(encode_mapbox(Some(steps), round));
            assert_eq!(encoded, expected);
            assert_eq!(encoded & !mask, 0);
        }
    }
}

#[test]
fn mapbox_saturates() {
    assert_eq!(encode_mapbox(Some(-1), 0), [0, 0, 0]);
    assert_eq!(encode_mapbox(Some(0x100_0000), 3), [255, 255, 248]);
    assert_eq!(encode_mapbox(Some(0x100_0000), 0), [255, 255, 255]);
    assert_eq!(encode_mapbox(Some(i64::MAX), 25), [0, 0, 0]);
    assert_eq!(encode_mapbox(mapbox_steps(2_000_000.0, -10000.0, 0.1), 3), [255, 255, 248]);
    assert_eq!(encode_mapbox(mapbox_steps(-20000.0, -10000.0, 0.1), 3), [0, 0, 0]);
}

#[test]
fn mapbox_loses_less_than_the_rounding() {
    for steps in (0..0x100_0000i64).step_by(4097) {
        let decoded = value(encode_mapbox(Some(steps), 5));
        assert!(decoded <= steps && steps < decoded + 32 && decoded % 32 == 0);
        assert_eq!(value(encode_mapbox(Some(steps), 0)), steps);
    }
}

fn terrarium_by_channels(elev: f32) -> [u8; 3] {
    let val = (elev as f64 + 32768.0).clamp(0.0, 65535.99609375);
    let r = (val / 256.0).floor() as u8;
    let g = (val.floor() as u32 % 256) as u8;
    let b = ((val.fract()) * 256.0).floor() as u8;
    [r, g, b]
}

#[test]
fn terrarium_encodes_every_channel() {
    assert_eq!(encode_terrarium(terrarium_steps(0.0)), [128, 0, 0]);
    assert_eq!(encode_terrarium(terrarium_steps(-32768.0)), [0, 0, 0]);
    assert_eq!(encode_terrarium(terrarium_steps(100.5)), [128, 100, 128]);
    // The top of the range: 32767.996 as an f32 is 32767.99609375.
    assert_eq!(encode_terrarium(terrarium_steps(32767.996)), [255, 255, 255]);
    assert_eq!(encode_terrarium(terrarium_steps(32767.992)), [255, 255, 254]);
    assert_eq!(encode_terrarium(terrarium_steps(40000.0)), [255, 255, 255]);
    for elev in [
        -40000.0f32, -32768.0, -32767.998, -10994.0, -0.004, -0.0, 0.0, 0.003, 1.5, 8848.86,
        32767.99, 32767.996, 32768.0, 1e30, f32::INFINITY, f32::NEG_INFINITY,
    ] {
        assert_eq!(encode_terrarium(terrarium_steps(elev)), terrarium_by_channels(elev));
    }
    for i in 0..20_000 {
        let elev = (i as f32 - 10_000.0) * 0.937;
        assert_eq!(encode_terrarium(terrarium_steps(elev)), terrarium_by_channels(elev));
    }
}

#[test]
fn terrarium_decodes_exactly() {
    for steps in (0..=0xFF_FFFFi64).step_by(4099).chain([0xFF_FFFE, 0xFF_FFFF]) {
        assert_eq!(value(encode_terrarium(Some(steps))), steps);
    }
    assert_eq!(encode_terrarium(Some(0x100_0000)), [255, 255, 255]);
    assert_eq!(encode_terrarium(Some(-5)), [0, 0, 0]);
}

#[test]
fn higher_elevations_encode_to_larger_numbers() {
    let mut last = (0, 0);
    for steps in (-100_000..0x110_0000i64).step_by(50_021) {
        let next = (value(encode_mapbox(Some(steps), 4)), value(encode_terrarium(Some(steps))));
        assert!(last.0 <= next.0 && last.1 <= next.1);
        last = next;
    }
}

#[test]
fn terrarium_warns_of_settings_it_ignores() {
    let none = IgnoredSettings { base_val: false, interval: false, round_digits: false };
    assert_eq!(ignored_settings(Encoding::Mapbox, true, true, 0), none);
    assert_eq!(ignored_settings(Encoding::Terrarium, false, false, 3), none);
    assert_eq!(
        ignored_settings(Encoding::Terrarium, true, false, 4),
        IgnoredSettings { base_val: true, interval: false, round_digits: true }
    );
    assert_eq!(
        ignored_settings(Encoding::Terrarium, false, true, 3),
        IgnoredSettings { base_val: false, interval: true, round_digits: false }
    );
}
