use massif::container::mbtiles::{metadata, tile_row};
use massif::container::pmtiles::{center_zoom, sort_by_tile_id};
use massif::container::{Container, UnknownExtension};
use massif::frontier::TileJob;
use massif::generate::{choose_strategy, flat_tiles, settle_chunk, Step, Strategy};
use massif::sort::{sort_by_key, Keyed};
use massif::tile_format::Format;
use pmtiles::{TileCoord, TileId};

#[test]
fn the_extension_names_the_container() {
    assert_eq!(Container::for_extension(Some("pmtiles")), Ok(Container::Pmtiles));
    assert_eq!(Container::for_extension(Some("mbtiles")), Ok(Container::Mbtiles));
    assert_eq!(
        Container::for_extension(Some("PMTILES")),
        Err(UnknownExtension { extension: Some("PMTILES".to_string()) })
    );
    assert_eq!(
        Container::for_extension(Some("")),
        Err(UnknownExtension { extension: Some(String::new()) })
    );
    assert_eq!(Container::for_extension(None), Err(UnknownExtension { extension: None }));
}

#[test]
fn rows_are_counted_from_the_south() {
    assert_eq!(tile_row(0, 0), 0);
    assert_eq!(tile_row(5, 0), 31);
    assert_eq!(tile_row(5, 31), 0);
    assert_eq!(tile_row(5, 10), 21);
    assert_eq!(tile_row(31, 0), 0x7FFF_FFFF);
    // A row that the zoom does not have wraps around.
    assert_eq!(tile_row(0, 1), u32::MAX);
    for y in 0..1024 {
        assert_eq!(tile_row(10, tile_row(10, y)), y);
    }
}

#[test]
fn metadata_describes_the_tileset() {
    let rows = metadata(Format::Webp, 5, 12);
    let expected = [
        ("name", "massif"),
        ("format", "image/webp"),
        ("type", "baselayer"),
        ("version", "1.1"),
        ("minzoom", "5"),
        ("maxzoom", "12"),
    ];
    assert_eq!(rows.len(), expected.len());
    for (row, (name, value)) in rows.iter().zip(expected) {
        assert_eq!((row.0.as_str(), row.1.as_str()), (name, value));
    }
    let png = metadata(Format::Png, 0, 255);
    assert_eq!(png[1].1, "image/png");
    assert_eq!(png[4].1, "0");
    assert_eq!(png[5].1, "255");
    for z in 0..=255u8 {
        assert_eq!(metadata(Format::Png, z, z)[4].1, z.to_string());
    }
}

#[test]
fn archives_open_at_the_middle_zoom() {
    assert_eq!(center_zoom(5, 12), 8);
    assert_eq!(center_zoom(0, 0), 0);
    assert_eq!(center_zoom(0, 255), 127);
    assert_eq!(center_zoom(254, 255), 254);
}

fn id(t: TileJob) -> u64 {
    TileId::from(TileCoord::new(t.z, t.x, t.y).unwrap()).value()
}

fn all_tiles(max_z: u8) -> Vec<TileJob> {
    let mut tiles = Vec::new();
    for z in 0..=max_z {
        for x in 0..1u32 << z {
            for y in 0..1u32 << z {
                tiles.push(TileJob { z, x, y });
            }
        }
    }
    tiles
}

#[test]
fn tiles_are_sorted_by_id() {
    let mut tiles = all_tiles(6);
    tiles.reverse();
    let sorted = sort_by_tile_id(&tiles);
    // The ids of whole zooms are consecutive, so each tile is the one that its place names.
    for (i, t) in sorted.iter().enumerate() {
        assert_eq!(id(*t), i as u64);
        let c = TileCoord::from(TileId::new(i as u64).unwrap());
        assert_eq!((c.z(), c.x(), c.y()), (t.z, t.x, t.y));
    }
    assert_eq!(sorted.len(), tiles.len());
    assert_eq!(
        sorted[1..5],
        [
            TileJob { z: 1, x: 0, y: 0 },
            TileJob { z: 1, x: 0, y: 1 },
            TileJob { z: 1, x: 1, y: 1 },
            TileJob { z: 1, x: 1, y: 0 },
        ]
    );
}

#[test]
fn repeated_and_deep_tiles_are_sorted_too() {
    let last = (1u32 << 31) - 1;
    let deep = TileJob { z: 31, x: last, y: 0 };
    let root = TileJob { z: 0, x: 0, y: 0 };
    assert_eq!(sort_by_tile_id(&[deep, root, deep, root]), vec![root, root, deep, deep]);
    assert_eq!(id(deep), 6_148_914_691_236_517_204);
    assert!(sort_by_tile_id(&[]).is_empty());
}

#[test]
fn equal_keys_keep_their_order() {
    let keyed = |key, x| Keyed { key, tile: TileJob { z: 9, x, y: 0 } };
    let unsorted: Vec<Keyed> = (0..500u32).map(|x| keyed((x as u64 * 37) % 11, x)).collect();
    let mut expected = unsorted.clone();
    expected.sort_by_key(|k| k.key);
    assert_eq!(sort_by_key(unsorted), expected);
    assert_eq!(
        sort_by_key(vec![keyed(u64::MAX, 0), keyed(0, 1), keyed(u64::MAX, 2), keyed(0, 3)]),
        vec![keyed(0, 1), keyed(0, 3), keyed(u64::MAX, 0), keyed(u64::MAX, 2)]
    );
    assert!(sort_by_key(vec![]).is_empty());
}

const EXTENT: (i64, i64, i64, i64) = (
    // west, south, east, north
    3_000_000_000_000_000_000,
    6_500_000_000_000_000_000,
    6_000_000_000_000_000_000,
    2_000_000_000_000_000_000,
);

#[test]
fn the_sorted_flat_path_has_the_same_tiles() {
    let (w, s, e, n) = EXTENT;
    let mut plain = flat_tiles(w, s, e, n, 2, 7, false);
    let sorted = flat_tiles(w, s, e, n, 2, 7, true);
    assert_eq!(sort_by_tile_id(&plain), sorted);
    plain.sort_by_key(|&t| id(t));
    assert_eq!(sorted, plain);
    assert!(sorted.windows(2).all(|p| id(p[0]) < id(p[1]) && p[0].z <= p[1].z));
}

#[test]
fn sorted_tiles_are_written_in_order() {
    let (w, s, e, n) = EXTENT;
    let tiles = flat_tiles(w, s, e, n, 2, 6, true);
    let mut ids = Vec::new();
    for chunk in tiles.chunks(11) {
        let results: Vec<Result<Option<Vec<u8>>, String>> = chunk
            .iter()
            .map(|t| if t.x % 3 == 0 { Ok(None) } else { Ok(Some(vec![t.z])) })
            .collect();
        for step in settle_chunk(chunk, results) {
            match step {
                Step::Write(t, _) => ids.push(id(t)),
                Step::Report(_, e) => panic!("{}", e),
            }
        }
    }
    assert!(ids.len() > 100);
    assert!(ids.windows(2).all(|p| p[0] < p[1]));
}

#[test]
fn large_mbtiles_builds_use_the_frontier() {
    let (w, s, e, n) = EXTENT;
    assert_eq!(choose_strategy(Container::Pmtiles, w, s, e, n, 2, 20), Strategy::SortedFlat);
    assert_eq!(choose_strategy(Container::Mbtiles, w, s, e, n, 2, 5), Strategy::Flat);
    assert_eq!(choose_strategy(Container::Mbtiles, w, s, e, n, 2, 12), Strategy::Frontier);
    // The whole of zoom 6 is 4096 tiles.
    assert_eq!(choose_strategy(Container::Mbtiles, 0, i64::MAX, i64::MAX, 0, 6, 6), Strategy::Frontier);
    assert_eq!(choose_strategy(Container::Mbtiles, 0, i64::MAX, i64::MAX, 0, 0, 5), Strategy::Flat);
}
