use massif::frontier::{bounds_by_zoom, candidate_tiles, candidate_total, zoom_bounds, ZoomBounds};
use massif::tile::{lat_to_tile_y_xyz, lon_to_tile_x};

const WORLD: f64 = 9_223_372_036_854_775_808.0;

fn lon_fraction(lon: f64) -> f64 {
    (lon + 180.0) / 360.0
}

fn lat_fraction(lat: f64) -> f64 {
    let lat = lat.clamp(-85.051_129, 85.051_129);
    let lat_r = lat.to_radians();
    (1.0 - (lat_r.tan() + 1.0 / lat_r.cos()).ln() / std::f64::consts::PI) / 2.0
}

fn position(fraction: f64) -> i64 {
    (fraction * WORLD).floor() as i64
}

fn index_by_fraction(fraction: f64, z: u8) -> u32 {
    let n = (1u64 << z) as f64;
    ((fraction * n).floor() as i64).clamp(0, n as i64 - 1) as u32
}

const LONS: [f64; 13] = [
    -200.0, -180.0, -179.999, -122.4194, -45.0, -0.0001, 0.0, 0.1, 14.42076, 90.0, 179.9999999,
    180.0, 540.0,
];

const LATS: [f64; 11] = [
    -90.0, -85.051129, -60.0, -33.8688, -0.0001, 0.0, 0.0001, 50.08804, 66.5, 85.051129, 90.0,
];

#[test]
fn known_columns_and_rows() {
    // Prague at zoom 10
    assert_eq!(lon_to_tile_x(position(lon_fraction(14.42076)), 10), 553);
    assert_eq!(lat_to_tile_y_xyz(position(lat_fraction(50.08804)), 10), 346);
    assert_eq!(lon_to_tile_x(position(lon_fraction(0.0)), 0), 0);
    assert_eq!(lon_to_tile_x(position(lon_fraction(0.0)), 1), 1);
}

#[test]
fn columns_follow_the_longitude_at_every_zoom() {
    for z in 0..64u8 {
        for lon in LONS {
            let f = lon_fraction(lon);
            assert_eq!(lon_to_tile_x(position(f), z), index_by_fraction(f, z));
        }
    }
}

#[test]
fn rows_follow_the_latitude_at_every_zoom() {
    for z in 0..64u8 {
        for lat in LATS {
            let f = lat_fraction(lat);
            assert_eq!(lat_to_tile_y_xyz(position(f), z), index_by_fraction(f, z));
        }
    }
}

#[test]
fn positions_outside_the_world_belong_to_the_edge_tiles() {
    assert_eq!(lon_to_tile_x(i64::MIN, 7), 0);
    assert_eq!(lon_to_tile_x(-1, 7), 0);
    assert_eq!(lon_to_tile_x(i64::MAX, 7), 127);
    assert_eq!(lon_to_tile_x(i64::MAX, 32), u32::MAX);
    // Past zoom 32 an address keeps the low bits of the index.
    assert_eq!(lon_to_tile_x(i64::MAX, 33), u32::MAX);
    assert_eq!(lon_to_tile_x(i64::MAX, 63), u32::MAX - 1);
}

#[test]
fn zooms_nest() {
    for z in 0..31u8 {
        for lon in LONS {
            let p = position(lon_fraction(lon));
            assert_eq!(lon_to_tile_x(p, z + 1) / 2, lon_to_tile_x(p, z));
        }
    }
}

#[test]
fn bounds_of_an_extent() {
    // 0°-45° east, 0°-45° north
    let west = position(lon_fraction(0.0));
    let east = position(lon_fraction(45.0));
    let north = position(lat_fraction(45.0));
    let south = position(lat_fraction(0.0));
    let b = zoom_bounds(west, south, east, north, 3);
    assert_eq!(b, ZoomBounds { x0: 4, x1: 5, y0: 2, y1: 4 });
    let zb = bounds_by_zoom(west, south, east, north, 2, 4);
    assert_eq!(zb.len(), 3);
    assert_eq!(zb[1], b);
    assert!(bounds_by_zoom(west, south, east, north, 4, 2).is_empty());
    let expected: u64 = zb.iter().map(|b| b.tile_count()).sum();
    assert_eq!(candidate_total(west, south, east, north, 2, 4), expected);
    assert_eq!(candidate_tiles(west, south, east, north, 2, 4).len() as u64, expected);
    assert_eq!(candidate_total(west, south, east, north, 4, 2), 0);
}

#[test]
fn the_whole_world_can_be_counted_up_to_zoom_31() {
    assert_eq!(candidate_total(0, i64::MAX, i64::MAX, 0, 0, 31), 6_148_914_691_236_517_205);
}

#[test]
fn a_tile_holds_the_positions_of_its_span() {
    for z in [0u8, 1, 7, 31] {
        let side = 1u64 << (63 - z);
        for index in [0u64, 1, 5, 100, (1 << z) - 1].into_iter().filter(|&i| i < 1 << z) {
            let first = (index * side) as i64;
            let last = (index * side + (side - 1)) as i64;
            assert_eq!(lon_to_tile_x(first, z) as u64, index);
            assert_eq!(lon_to_tile_x(last, z) as u64, index);
            if first > 0 {
                assert_eq!(lon_to_tile_x(first - 1, z) as u64, index - 1);
            }
            // The tile one zoom further in that begins there lies within it.
            assert_eq!(lon_to_tile_x(first, z + 1) as u64, 2 * index);
            assert_eq!(lon_to_tile_x(last, z + 1) as u64, 2 * index + 1);
        }
    }
}
