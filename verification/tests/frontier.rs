use massif::frontier::{
    bounds_by_zoom, candidate_tiles, initial_frontier, push_children_in_bounds, TileJob, ZoomBounds,
};
use massif::generate::{descend, flat_tiles, settle_chunk, Step};
use massif::raster::TileEval;

#[test]
fn children_are_clipped_to_bounds() {
    let cb = ZoomBounds { x0: 2, x1: 3, y0: 4, y1: 5 };
    let mut out = Vec::new();
    // parent (z, 1, 2) → children at (2..=3, 4..=5) — all four in bounds
    push_children_in_bounds(TileJob { z: 4, x: 1, y: 2 }, &cb, &mut out);
    assert_eq!(out.len(), 4);

    // parent whose children fall partly outside bounds
    let cb2 = ZoomBounds { x0: 2, x1: 2, y0: 4, y1: 4 };
    let mut out2 = Vec::new();
    push_children_in_bounds(TileJob { z: 4, x: 1, y: 2 }, &cb2, &mut out2);
    assert_eq!(out2, vec![TileJob { z: 5, x: 2, y: 4 }]);
}

#[test]
fn children_come_north_first_and_are_appended() {
    let cb = ZoomBounds { x0: 0, x1: 9, y0: 0, y1: 9 };
    let first = TileJob { z: 9, x: 9, y: 9 };
    let mut out = vec![first];
    push_children_in_bounds(TileJob { z: 0, x: 0, y: 0 }, &cb, &mut out);
    assert_eq!(
        out,
        vec![
            first,
            TileJob { z: 1, x: 0, y: 0 },
            TileJob { z: 1, x: 1, y: 0 },
            TileJob { z: 1, x: 0, y: 1 },
            TileJob { z: 1, x: 1, y: 1 },
        ]
    );
}

#[test]
fn bounds_contain_and_count_their_tiles() {
    let b = ZoomBounds { x0: 3, x1: 5, y0: 7, y1: 8 };
    assert_eq!(b.tile_count(), 6);
    assert!(b.contains(3, 7) && b.contains(5, 8));
    assert!(!b.contains(2, 7) && !b.contains(6, 7) && !b.contains(3, 6) && !b.contains(3, 9));
    let wide = ZoomBounds { x0: 1, x1: u32::MAX, y0: 1, y1: u32::MAX };
    assert_eq!(wide.tile_count(), 18_446_744_065_119_617_025);
}

#[test]
fn the_initial_frontier_goes_column_by_column() {
    let b = ZoomBounds { x0: 3, x1: 4, y0: u32::MAX - 1, y1: u32::MAX };
    assert_eq!(
        initial_frontier(&b, 7),
        vec![
            TileJob { z: 7, x: 3, y: u32::MAX - 1 },
            TileJob { z: 7, x: 3, y: u32::MAX },
            TileJob { z: 7, x: 4, y: u32::MAX - 1 },
            TileJob { z: 7, x: 4, y: u32::MAX },
        ]
    );
}

const EXTENT: (i64, i64, i64, i64) = (
    // west, south, east, north
    3_000_000_000_000_000_000,
    6_500_000_000_000_000_000,
    6_000_000_000_000_000_000,
    2_000_000_000_000_000_000,
);

#[test]
fn candidates_are_the_tiles_of_every_zoom() {
    let (w, s, e, n) = EXTENT;
    let zb = bounds_by_zoom(w, s, e, n, 3, 6);
    let mut expected = Vec::new();
    for (i, b) in zb.iter().enumerate() {
        for x in b.x0..=b.x1 {
            for y in b.y0..=b.y1 {
                expected.push(TileJob { z: 3 + i as u8, x, y });
            }
        }
    }
    assert_eq!(candidate_tiles(w, s, e, n, 3, 6), expected);
    assert!(candidate_tiles(w, s, e, n, 6, 3).is_empty());
    // An extent turned inside out has no candidates.
    assert!(candidate_tiles(e, s, w, n, 3, 6).is_empty());
}

// Data in a diagonal band: a tile has none if no tile of zoom 6 within it touches the band.
fn has_data(t: TileJob) -> bool {
    let k = 6 - t.z as u32;
    let n = 1u32 << k;
    for dx in 0..n {
        for dy in 0..n {
            let (x, y) = (t.x * n + dx, t.y * n + dy);
            if x.abs_diff(y) < 3 {
                return true;
            }
        }
    }
    false
}

fn evaluate(t: TileJob) -> Result<TileEval, String> {
    if !has_data(t) {
        Ok(TileEval::NoData)
    } else if (t.x + t.y) % 5 == 0 {
        Ok(TileEval::Blank)
    } else if (t.x + t.y) % 7 == 0 {
        Err(format!("{}/{}/{}", t.z, t.x, t.y))
    } else {
        Ok(TileEval::Rendered(vec![t.z, t.x as u8, t.y as u8]))
    }
}

fn walk(
    t: TileJob,
    zb: &[ZoomBounds],
    min_z: u8,
    max_z: u8,
    written: &mut Vec<(TileJob, Vec<u8>)>,
    visited: &mut Vec<TileJob>,
) {
    visited.push(t);
    let settled = descend(t, evaluate(t), zb, min_z, max_z);
    if let Some(data) = settled.data {
        written.push((t, data));
    }
    for c in settled.children {
        walk(c, zb, min_z, max_z, written, visited);
    }
}

#[test]
fn the_frontier_writes_what_the_flat_path_writes() {
    let (w, s, e, n) = EXTENT;
    let zb = bounds_by_zoom(w, s, e, n, 2, 6);
    let mut sparse = Vec::new();
    let mut visited = Vec::new();
    for t in initial_frontier(&zb[0], 2) {
        walk(t, &zb, 2, 6, &mut sparse, &mut visited);
    }

    let tiles = flat_tiles(w, s, e, n, 2, 6, false);
    let mut flat = Vec::new();
    for chunk in tiles.chunks(7) {
        let results: Vec<Result<Option<Vec<u8>>, String>> = chunk
            .iter()
            .map(|&t| match evaluate(t) {
                Ok(TileEval::Rendered(data)) => Ok(Some(data)),
                Ok(_) => Ok(None),
                Err(e) => Err(e),
            })
            .collect();
        for step in settle_chunk(chunk, results) {
            if let Step::Write(t, data) = step {
                flat.push((t, data));
            }
        }
    }

    let key = |w: &(TileJob, Vec<u8>)| (w.0.z, w.0.x, w.0.y);
    sparse.sort_by_key(key);
    flat.sort_by_key(key);
    assert!(!flat.is_empty());
    assert_eq!(sparse, flat);
    assert!(visited.len() < tiles.len());
}

#[test]
fn only_tiles_without_data_stop_the_descent() {
    let (w, s, e, n) = EXTENT;
    let zb = bounds_by_zoom(w, s, e, n, 2, 3);
    let t = initial_frontier(&zb[0], 2)[0];
    let mut children = Vec::new();
    push_children_in_bounds(t, &zb[1], &mut children);
    assert!(!children.is_empty());

    let rendered = descend::<String>(t, Ok(TileEval::Rendered(vec![1, 2])), &zb, 2, 3);
    assert_eq!(rendered.data, Some(vec![1, 2]));
    assert_eq!(rendered.error, None);
    assert_eq!(rendered.children, children);

    let blank = descend::<String>(t, Ok(TileEval::Blank), &zb, 2, 3);
    assert_eq!(blank.data, None);
    assert_eq!(blank.children, children);

    let failed = descend(t, Err("read".to_string()), &zb, 2, 3);
    assert_eq!(failed.error, Some("read".to_string()));
    assert_eq!(failed.children, children);

    let nodata = descend::<String>(t, Ok(TileEval::NoData), &zb, 2, 3);
    assert!(nodata.data.is_none() && nodata.children.is_empty());

    let last = descend::<String>(children[0], Ok(TileEval::Blank), &zb, 2, 3);
    assert!(last.children.is_empty());
}

#[test]
fn a_chunk_is_settled_in_order() {
    let chunk: Vec<TileJob> = (0..4).map(|x| TileJob { z: 3, x, y: 0 }).collect();
    let results: Vec<Result<Option<Vec<u8>>, String>> =
        vec![Ok(Some(vec![7])), Ok(None), Err("bad".to_string()), Ok(Some(vec![8, 9]))];
    assert_eq!(
        settle_chunk(&chunk, results),
        vec![
            Step::Write(chunk[0], vec![7]),
            Step::Report(chunk[2], "bad".to_string()),
            Step::Write(chunk[3], vec![8, 9]),
        ]
    );
    assert!(settle_chunk::<String>(&[], vec![]).is_empty());
}

// A tile below an empty one that fails or is blank takes nothing away.
#[test]
fn pruned_tiles_have_no_image() {
    let (w, s, e, n) = EXTENT;
    let zb = bounds_by_zoom(w, s, e, n, 2, 6);
    let mut written = Vec::new();
    let mut visited = Vec::new();
    for t in initial_frontier(&zb[0], 2) {
        walk(t, &zb, 2, 6, &mut written, &mut visited);
    }
    for t in candidate_tiles(w, s, e, n, 2, 6) {
        let times = visited.iter().filter(|&&v| v == t).count();
        let below_empty = (1..=t.z - 2).any(|k| {
            !has_data(TileJob { z: t.z - k, x: t.x >> k, y: t.y >> k })
        });
        assert_eq!(times, if below_empty { 0 } else { 1 });
    }
}

#[test]
fn the_frontier_fails_on_no_more_tiles_than_the_flat_path() {
    let (w, s, e, n) = EXTENT;
    let zb = bounds_by_zoom(w, s, e, n, 2, 6);
    let mut written = Vec::new();
    let mut visited = Vec::new();
    for t in initial_frontier(&zb[0], 2) {
        walk(t, &zb, 2, 6, &mut written, &mut visited);
    }
    // Tiles below an empty one may fail on the flat path alone.
    let fails = |t: TileJob| evaluate(t).is_err() || (!has_data(t) && t.z == 6 && t.x % 2 == 0);
    let sparse: Vec<TileJob> = visited.into_iter().filter(|&t| fails(t)).collect();

    let tiles = flat_tiles(w, s, e, n, 2, 6, false);
    let mut flat = Vec::new();
    for chunk in tiles.chunks(7) {
        let results: Vec<Result<Option<Vec<u8>>, String>> = chunk
            .iter()
            .map(|&t| if fails(t) { Err(String::new()) } else { Ok(None) })
            .collect();
        for step in settle_chunk(chunk, results) {
            if let Step::Report(t, _) = step {
                flat.push(t);
            }
        }
    }
    assert!(!sparse.is_empty() && sparse.len() < flat.len());
    assert!(sparse.iter().all(|t| flat.contains(t)));
    assert_eq!(flat, tiles.into_iter().filter(|&t| fails(t)).collect::<Vec<_>>());
}

#[test]
fn the_order_changes_neither_images_nor_failures() {
    let (w, s, e, n) = EXTENT;
    let mut counts = Vec::new();
    for sort in [false, true] {
        let tiles = flat_tiles(w, s, e, n, 2, 6, sort);
        let results: Vec<Result<Option<Vec<u8>>, String>> = tiles
            .iter()
            .map(|&t| match evaluate(t) {
                Ok(TileEval::Rendered(data)) => Ok(Some(data)),
                Ok(_) => Ok(None),
                Err(e) => Err(e),
            })
            .collect();
        let steps = settle_chunk(&tiles, results);
        let writes = steps.iter().filter(|s| matches!(s, Step::Write(_, _))).count();
        counts.push((writes, steps.len() - writes));
    }
    assert!(counts[0].0 > 0 && counts[0].1 > 0);
    assert_eq!(counts[0], counts[1]);
}
