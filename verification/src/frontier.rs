//! Tile addresses, per-zoom bounds and their enumeration.

use crate::tile::{
    lat_to_tile_y_xyz, law_tile_address_is_index, law_tile_index_halves, law_tile_index_monotone,
    lemma_address_against_span, lon_to_tile_x, tile_address,
};
use vstd::arithmetic::power2::{
    lemma2_to64, lemma2_to64_rest, lemma_pow2_adds, lemma_pow2_pos, lemma_pow2_strictly_increases,
    lemma_pow2_unfold, pow2,
};
use vstd::prelude::*;

verus! {

/// The address of one tile: zoom, column and row (row 0 is the northernmost).
#[derive(Clone, Copy, Debug, PartialEq, Eq, Structural)]
pub struct TileJob {
    pub z: u8,
    pub x: u32,
    pub y: u32,
}

/// Inclusive tile-index bounds for one zoom level.
#[derive(Clone, Copy, Debug, PartialEq, Eq, Structural)]
pub struct ZoomBounds {
    pub x0: u32,
    pub x1: u32,
    pub y0: u32,
    pub y1: u32,
}

/// The number of indices in `low..=high`.
pub open spec fn span(low: u32, high: u32) -> nat {
    if low <= high {
        (high - low + 1) as nat
    } else {
        0
    }
}

impl ZoomBounds {
    /// The bounds hold a tile, and each side of them can be counted in a `u32`.
    pub open spec fn countable(self) -> bool {
        1 <= span(self.x0, self.x1) <= u32::MAX && 1 <= span(self.y0, self.y1) <= u32::MAX
    }

    /// Whether column `x` and row `y` lie within the bounds.
    pub open spec fn covers(self, x: u32, y: u32) -> bool {
        self.x0 <= x <= self.x1 && self.y0 <= y <= self.y1
    }

    /// The number of tiles within the bounds.
    pub open spec fn count(self) -> nat {
        span(self.x0, self.x1) * span(self.y0, self.y1)
    }

    /// Whether column `x` and row `y` lie within the bounds.
    pub fn contains(&self, x: u32, y: u32) -> (r: bool)
        ensures
            r == self.covers(x, y),
    {
        x >= self.x0 && x <= self.x1 && y >= self.y0 && y <= self.y1
    }

    /// The number of tiles within the bounds.
    pub fn tile_count(&self) -> (n: u64)
        requires
            self.countable(),
        ensures
            n == self.count(),
    {
        let w: u64 = (self.x1 - self.x0 + 1) as u64;
        let h: u64 = (self.y1 - self.y0 + 1) as u64;
        assert(w * h <= 0xFFFF_FFFF * 0xFFFF_FFFF) by (nonlinear_arith)
            requires
                0 <= w <= 0xFFFF_FFFF,
                0 <= h <= 0xFFFF_FFFF,
        ;
        w * h
    }
}

/// The tile-index bounds at zoom `z` of an extent given by the world positions of its edges.
pub open spec fn bounds_at(west: i64, south: i64, east: i64, north: i64, z: nat) -> ZoomBounds {
    ZoomBounds {
        x0: tile_address(west as int, z) as u32,
        x1: tile_address(east as int, z) as u32,
        y0: tile_address(north as int, z) as u32,
        y1: tile_address(south as int, z) as u32,
    }
}

/// The bounds of every zoom of `min_z..=max_z`, the first zoom first.
pub open spec fn bounds_of_zooms(
    west: i64,
    south: i64,
    east: i64,
    north: i64,
    min_z: nat,
    max_z: nat,
) -> Seq<ZoomBounds> {
    Seq::new(
        if min_z <= max_z {
            (max_z - min_z + 1) as nat
        } else {
            0
        },
        |i: int| bounds_at(west, south, east, north, (min_z + i) as nat),
    )
}

/// Tile-index bounds at zoom `z` for the given extent.
pub fn zoom_bounds(west: i64, south: i64, east: i64, north: i64, z: u8) -> (b: ZoomBounds)
    requires
        z < 64,
    ensures
        b == bounds_at(west, south, east, north, z as nat),
{
    ZoomBounds {
        x0: lon_to_tile_x(west, z),
        x1: lon_to_tile_x(east, z),
        y0: lat_to_tile_y_xyz(north, z),  // smaller y = north
        y1: lat_to_tile_y_xyz(south, z),
    }
}

/// Per-zoom bounds for `min_z..=max_z`, indexed by `z - min_z`; empty when `max_z < min_z`.
pub fn bounds_by_zoom(west: i64, south: i64, east: i64, north: i64, min_z: u8, max_z: u8) -> (zb:
    Vec<ZoomBounds>)
    requires
        min_z <= max_z ==> max_z < 64,
    ensures
        zb@ == bounds_of_zooms(west, south, east, north, min_z as nat, max_z as nat),
{
    let mut zb: Vec<ZoomBounds> = Vec::new();
    if min_z > max_z {
        return zb;
    }
    let mut z: u8 = min_z;
    while z <= max_z
        invariant
            min_z <= z <= max_z + 1,
            max_z < 64,
            zb@.len() == z - min_z,
            forall|i: int|
                0 <= i < zb@.len() ==> zb@[i] == #[trigger] bounds_of_zooms(
                    west,
                    south,
                    east,
                    north,
                    min_z as nat,
                    max_z as nat,
                )[i],
        decreases max_z + 1 - z,
    {
        zb.push(zoom_bounds(west, south, east, north, z));
        z = z + 1;
    }
    zb
}

/// The tiles of zoom `z` within `b`, column by column, each column from north to south.
pub open spec fn level_tiles(b: ZoomBounds, z: u8) -> Seq<TileJob> {
    Seq::new(
        b.count(),
        |i: int|
            TileJob {
                z,
                x: (b.x0 + i / span(b.y0, b.y1) as int) as u32,
                y: (b.y0 + i % span(b.y0, b.y1) as int) as u32,
            },
    )
}

/// Appends the tiles of zoom `z` within `b` to `out`, column by column.
fn push_level(b: &ZoomBounds, z: u8, out: &mut Vec<TileJob>)
    ensures
        final(out)@ == old(out)@ + level_tiles(*b, z),
{
    let ghost before = out@;
    let ghost h = span(b.y0, b.y1);
    let ghost w = span(b.x0, b.x1);
    let ghost all = level_tiles(*b, z);
    if b.x0 > b.x1 || b.y0 > b.y1 {
        proof {
            assert(w * h == 0) by (nonlinear_arith)
                requires
                    w == 0 || h == 0,
            ;
            assert(out@ =~= before + all);
        }
        return;
    }
    let mut x: u32 = b.x0;
    let mut more_x: bool = true;
    while more_x
        invariant
            b.x0 <= x <= b.x1,
            b.y0 <= b.y1,
            h == span(b.y0, b.y1),
            w == span(b.x0, b.x1),
            all == level_tiles(*b, z),
            out@.len() == before.len() + (if more_x { (x - b.x0) * h } else { (w * h) as int }),
            forall|i: int| 0 <= i < before.len() ==> out@[i] == before[i],
            forall|i: int|
                before.len() <= i < out@.len() ==> out@[i] == #[trigger] all[i - before.len()],
            !more_x ==> x == b.x1,
        decreases b.x1 - x + (if more_x { 1int } else { 0 }),
    {
        let mut y: u32 = b.y0;
        let mut more_y: bool = true;
        while more_y
            invariant
                b.x0 <= x <= b.x1,
                b.y0 <= y <= b.y1,
                h == span(b.y0, b.y1),
                w == span(b.x0, b.x1),
                all == level_tiles(*b, z),
                out@.len() == before.len() + (x - b.x0) * h + (if more_y { y - b.y0 } else { h as int }),
                forall|i: int| 0 <= i < before.len() ==> out@[i] == before[i],
                forall|i: int|
                    before.len() <= i < out@.len() ==> out@[i] == #[trigger] all[i - before.len()],
                !more_y ==> y == b.y1,
            decreases b.y1 - y + (if more_y { 1int } else { 0 }),
        {
            proof {
                let i = (x - b.x0) * h + (y - b.y0);
                lemma_column_row(x - b.x0, y - b.y0, w as int, h as int);
                assert(all[i] == TileJob { z, x, y });
            }
            out.push(TileJob { z, x, y });
            if y < b.y1 {
                y = y + 1;
            } else {
                more_y = false;
            }
        }
        proof {
            assert((x - b.x0) * h + h == (x - b.x0 + 1) * h) by (nonlinear_arith);
        }
        if x < b.x1 {
            x = x + 1;
        } else {
            more_x = false;
        }
    }
    proof {
        assert(out@ =~= before + all);
    }
}

/// Position `(col, row)` of a grid of `w` columns of `h` rows, counted column by column.
pub(crate) proof fn lemma_column_row(col: int, row: int, w: int, h: int)
    requires
        0 <= col < w,
        0 <= row < h,
    ensures
        0 <= col * h + row < w * h,
        (col * h + row) / h == col,
        (col * h + row) % h == row,
{
    assert(0 <= col * h + row < w * h) by (nonlinear_arith)
        requires
            0 <= col < w,
            0 <= row < h,
    ;
    vstd::arithmetic::div_mod::lemma_fundamental_div_mod_converse(col * h + row, h, col, row);
}

/// All tiles at `min_z` within bounds: the initial frontier.
pub fn initial_frontier(bounds: &ZoomBounds, min_z: u8) -> (frontier: Vec<TileJob>)
    requires
        bounds.countable(),
    ensures
        frontier@ == level_tiles(*bounds, min_z),
{
    let mut frontier: Vec<TileJob> = Vec::new();
    push_level(bounds, min_z, &mut frontier);
    proof {
        assert(Seq::<TileJob>::empty() + level_tiles(*bounds, min_z) =~= level_tiles(*bounds, min_z));
    }
    frontier
}

/// `t` alone when `b` covers it, nothing otherwise.
pub open spec fn kept(b: ZoomBounds, t: TileJob) -> Seq<TileJob> {
    if b.covers(t.x, t.y) {
        seq![t]
    } else {
        Seq::empty()
    }
}

/// The child of `t` in column `dx` and row `dy` of its two-by-two children.
pub open spec fn child(t: TileJob, dx: int, dy: int) -> TileJob {
    TileJob { z: (t.z + 1) as u8, x: (2 * t.x + dx) as u32, y: (2 * t.y + dy) as u32 }
}

/// The tile one zoom further out that holds `t`.
pub open spec fn parent(t: TileJob) -> TileJob {
    TileJob { z: (t.z - 1) as u8, x: (t.x / 2) as u32, y: (t.y / 2) as u32 }
}

/// Whether the addresses of the children of `t` can be written down.
pub open spec fn has_children(t: TileJob) -> bool {
    t.z < u8::MAX && t.x <= u32::MAX / 2 && t.y <= u32::MAX / 2
}

/// The children of `t` within `b`: the northern two from west to east, then the southern two.
pub open spec fn children_within(t: TileJob, b: ZoomBounds) -> Seq<TileJob> {
    kept(b, child(t, 0, 0)) + kept(b, child(t, 1, 0)) + kept(b, child(t, 0, 1)) + kept(
        b,
        child(t, 1, 1),
    )
}

fn push_kept(b: &ZoomBounds, t: TileJob, out: &mut Vec<TileJob>)
    ensures
        final(out)@ == old(out)@ + kept(*b, t),
{
    if b.contains(t.x, t.y) {
        out.push(t);
    }
    proof {
        assert(out@ =~= old(out)@ + kept(*b, t));
    }
}

/// Appends the in-bounds children of `tile` (at `tile.z + 1`) to `out`.
/// `child_bounds` are the tile-index bounds for the child zoom.
pub fn push_children_in_bounds(tile: TileJob, child_bounds: &ZoomBounds, out: &mut Vec<TileJob>)
    requires
        has_children(tile),
    ensures
        final(out)@ == old(out)@ + children_within(tile, *child_bounds),
{
    let z: u8 = tile.z + 1;
    let x: u32 = tile.x * 2;
    let y: u32 = tile.y * 2;
    push_kept(child_bounds, TileJob { z, x, y }, out);
    push_kept(child_bounds, TileJob { z, x: x + 1, y }, out);
    push_kept(child_bounds, TileJob { z, x, y: y + 1 }, out);
    push_kept(child_bounds, TileJob { z, x: x + 1, y: y + 1 }, out);
    proof {
        assert(out@ =~= old(out)@ + children_within(tile, *child_bounds));
    }
}

/// The number of tiles within all of `zb`.
pub open spec fn total_count(zb: Seq<ZoomBounds>) -> nat
    decreases zb.len(),
{
    if zb.len() == 0 {
        0
    } else {
        total_count(zb.drop_last()) + zb.last().count()
    }
}

/// Total candidate tiles across `min_z..=max_z` within the extent.
pub fn candidate_total(west: i64, south: i64, east: i64, north: i64, min_z: u8, max_z: u8) -> (n:
    u64)
    requires
        min_z <= max_z ==> max_z < 64,
        forall|z: nat|
            min_z <= z <= max_z ==> (#[trigger] bounds_at(west, south, east, north, z)).countable(),
        total_count(bounds_of_zooms(west, south, east, north, min_z as nat, max_z as nat))
            <= u64::MAX,
    ensures
        n == total_count(bounds_of_zooms(west, south, east, north, min_z as nat, max_z as nat)),
{
    let zb = bounds_by_zoom(west, south, east, north, min_z, max_z);
    let mut n: u64 = 0;
    let mut i: usize = 0;
    while i < zb.len()
        invariant
            i <= zb@.len(),
            n == total_count(zb@.take(i as int)),
            total_count(zb@) <= u64::MAX,
            forall|j: int| 0 <= j < zb@.len() ==> (#[trigger] zb@[j]).countable(),
        decreases zb@.len() - i,
    {
        proof {
            assert(zb@.take(i + 1).drop_last() =~= zb@.take(i as int));
            lemma_total_count_prefix(zb@, i + 1);
        }
        n = n + zb[i].tile_count();
        i = i + 1;
    }
    proof {
        assert(zb@.take(zb@.len() as int) =~= zb@);
    }
    n
}

proof fn lemma_total_count_prefix(zb: Seq<ZoomBounds>, i: int)
    requires
        0 <= i <= zb.len(),
    ensures
        total_count(zb.take(i)) <= total_count(zb),
    decreases zb.len() - i,
{
    if i < zb.len() {
        lemma_total_count_prefix(zb, i + 1);
        assert(zb.take(i + 1).drop_last() =~= zb.take(i));
    } else {
        assert(zb.take(i) =~= zb);
    }
}

/// The tiles within the bounds `zb` of the zooms from `min_z` on, zoom by zoom.
pub open spec fn candidates(zb: Seq<ZoomBounds>, min_z: nat) -> Seq<TileJob>
    decreases zb.len(),
{
    if zb.len() == 0 {
        Seq::empty()
    } else {
        candidates(zb.drop_last(), min_z) + level_tiles(
            zb.last(),
            (min_z + zb.len() - 1) as u8,
        )
    }
}

/// Every tile of the extent at every zoom of `min_z..=max_z`, zoom by zoom, column by column.
pub fn candidate_tiles(west: i64, south: i64, east: i64, north: i64, min_z: u8, max_z: u8) -> (
tiles: Vec<TileJob>)
    requires
        min_z <= max_z ==> max_z < 64,
    ensures
        tiles@ == candidates(
            bounds_of_zooms(west, south, east, north, min_z as nat, max_z as nat),
            min_z as nat,
        ),
{
    let zb = bounds_by_zoom(west, south, east, north, min_z, max_z);
    let mut tiles: Vec<TileJob> = Vec::new();
    let mut i: usize = 0;
    let mut z: u8 = min_z;
    while i < zb.len()
        invariant
            i <= zb@.len(),
            min_z <= max_z ==> max_z < 64 && zb@.len() == max_z - min_z + 1,
            min_z > max_z ==> zb@.len() == 0,
            z == min_z + i,
            tiles@ == candidates(zb@.take(i as int), min_z as nat),
        decreases zb@.len() - i,
    {
        proof {
            assert(zb@.take(i + 1).drop_last() =~= zb@.take(i as int));
        }
        push_level(&zb[i], z, &mut tiles);
        i = i + 1;
        z = z + 1;
    }
    proof {
        assert(zb@.take(zb@.len() as int) =~= zb@);
    }
    tiles
}

/// A zoom's enumeration lists exactly the tiles within the bounds, each of them once.
pub proof fn law_level_tiles_exact(b: ZoomBounds, z: u8)
    ensures
        level_tiles(b, z).no_duplicates(),
        forall|t: TileJob| #[trigger]
            level_tiles(b, z).contains(t) <==> t.z == z && b.covers(t.x, t.y),
{
    let s = level_tiles(b, z);
    let w = span(b.x0, b.x1) as int;
    let h = span(b.y0, b.y1) as int;
    assert forall|i: int| 0 <= i < s.len() implies {
        &&& h > 0
        &&& 0 <= i / h < w
        &&& 0 <= i % h < h
        &&& i == (i / h) * h + i % h
        &&& (#[trigger] s[i]).x == b.x0 + i / h
        &&& s[i].y == b.y0 + i % h
        &&& s[i].z == z
        &&& b.covers(s[i].x, s[i].y)
    } by {
        assert(h > 0 && w > 0) by (nonlinear_arith)
            requires
                0 <= i < w * h,
                w >= 0,
                h >= 0,
        ;
        assert(0 <= i / h < w && 0 <= i % h < h && i == (i / h) * h + i % h) by (nonlinear_arith)
            requires
                0 <= i < w * h,
                h > 0,
        ;
    }
    assert forall|i: int, j: int| 0 <= i < s.len() && 0 <= j < s.len() && i != j implies s[i]
        != s[j] by {
        if s[i] == s[j] {
            assert(i / h == j / h);
        }
    }
    assert forall|t: TileJob| t.z == z && b.covers(t.x, t.y) implies #[trigger] s.contains(t) by {
        lemma_column_row(t.x - b.x0, t.y - b.y0, w, h);
        let i = (t.x - b.x0) * h + (t.y - b.y0);
        assert(s[i] == t);
    }
}

/// The children that are kept are exactly the tiles within the bounds whose parent is `t`, and
/// none is kept twice.
pub proof fn law_children_exact(t: TileJob, b: ZoomBounds)
    requires
        has_children(t),
    ensures
        children_within(t, b).no_duplicates(),
        forall|c: TileJob| #[trigger]
            children_within(t, b).contains(c) <==> c.z == t.z + 1 && parent(c) == t && b.covers(
                c.x,
                c.y,
            ),
{
    let s = children_within(t, b);
    let s0 = kept(b, child(t, 0, 0));
    let s1 = kept(b, child(t, 1, 0));
    let s2 = kept(b, child(t, 0, 1));
    let s3 = kept(b, child(t, 1, 1));
    assert forall|c: TileJob| c.z == t.z + 1 && parent(c) == t && b.covers(
        c.x,
        c.y,
    ) implies #[trigger] s.contains(c) by {
        assert(c == child(t, (c.x % 2) as int, (c.y % 2) as int));
        if c.x % 2 == 0 && c.y % 2 == 0 {
            assert(s[0] == c);
        } else if c.y % 2 == 0 {
            assert(s[s0.len() as int] == c);
        } else if c.x % 2 == 0 {
            assert(s[(s0.len() + s1.len()) as int] == c);
        } else {
            assert(s[(s0.len() + s1.len() + s2.len()) as int] == c);
        }
    }
}

/// The enumeration of an extent lists exactly the tiles within the bounds of its zooms, each of
/// them once.
pub proof fn law_candidates_exact(zb: Seq<ZoomBounds>, min_z: nat)
    requires
        min_z + zb.len() <= 256,
    ensures
        candidates(zb, min_z).no_duplicates(),
        forall|t: TileJob| #[trigger]
            candidates(zb, min_z).contains(t) <==> in_bounds(zb, min_z, t),
    decreases zb.len(),
{
    if zb.len() > 0 {
        let rest = candidates(zb.drop_last(), min_z);
        let top = (min_z + zb.len() - 1) as u8;
        let level = level_tiles(zb.last(), top);
        let all = candidates(zb, min_z);
        law_candidates_exact(zb.drop_last(), min_z);
        law_level_tiles_exact(zb.last(), top);
        assert forall|t: TileJob| #[trigger] all.contains(t) <==> in_bounds(zb, min_z, t) by {
            if rest.contains(t) {
                let i = rest.index_of(t);
                assert(all[i] == t);
                assert(in_bounds(zb.drop_last(), min_z, t));
            }
            if level.contains(t) {
                let i = level.index_of(t);
                assert(all[rest.len() + i] == t);
            }
            if all.contains(t) {
                let i = all.index_of(t);
                if i < rest.len() {
                    assert(rest[i] == t);
                    assert(in_bounds(zb.drop_last(), min_z, t));
                } else {
                    assert(level[i - rest.len()] == t);
                }
            }
            if in_bounds(zb, min_z, t) && t.z != top {
                assert(in_bounds(zb.drop_last(), min_z, t));
            }
        }
        assert forall|i: int, j: int| 0 <= i < j < all.len() implies all[i] != all[j] by {
            if j < rest.len() {
                assert(all[i] == rest[i] && all[j] == rest[j]);
            } else if i >= rest.len() {
                assert(all[i] == level[i - rest.len()] && all[j] == level[j - rest.len()]);
            } else {
                assert(all[i] == rest[i]);
                assert(rest.contains(rest[i]));
                assert(level.contains(level[j - rest.len()]));
                assert(in_bounds(zb.drop_last(), min_z, all[i]));
            }
        }
    }
}

/// The tiles that are enumerated are as many as were counted.
pub proof fn law_total_counts_candidates(zb: Seq<ZoomBounds>, min_z: nat)
    ensures
        candidates(zb, min_z).len() == total_count(zb),
    decreases zb.len(),
{
    if zb.len() > 0 {
        law_total_counts_candidates(zb.drop_last(), min_z);
    }
}

/// Whether `t` lies within the bounds of its zoom, where `zb` are the bounds of the zooms from
/// `min_z` on.
pub open spec fn in_bounds(zb: Seq<ZoomBounds>, min_z: nat, t: TileJob) -> bool {
    &&& min_z <= t.z < min_z + zb.len()
    &&& zb[t.z - min_z].covers(t.x, t.y)
}

/// Whether every tile within `inner` has its parent within `outer`, and every tile within `outer`
/// has addressable children.
pub open spec fn nests(outer: ZoomBounds, inner: ZoomBounds) -> bool {
    &&& outer.x1 <= u32::MAX / 2
    &&& outer.y1 <= u32::MAX / 2
    &&& forall|x: u32, y: u32| #[trigger]
        inner.covers(x, y) ==> outer.covers((x / 2) as u32, (y / 2) as u32)
}

/// The bounds of consecutive zooms nest.
pub open spec fn nested(zb: Seq<ZoomBounds>) -> bool {
    forall|i: int, j: int| 0 <= i < j < zb.len() && j == i + 1 ==> nests(zb[i], zb[j])
}

/// The bounds of an extent nest at every zoom up to 32.
pub proof fn law_bounds_nest(
    west: i64,
    south: i64,
    east: i64,
    north: i64,
    min_z: nat,
    max_z: nat,
)
    requires
        max_z <= 32,
    ensures
        nested(bounds_of_zooms(west, south, east, north, min_z, max_z)),
{
    let zb = bounds_of_zooms(west, south, east, north, min_z, max_z);
    assert forall|i: int, j: int| 0 <= i < j < zb.len() && j == i + 1 implies nests(
        zb[i],
        zb[j],
    ) by {
        let z = (min_z + i) as nat;
        lemma_address_halves(west, z);
        lemma_address_halves(east, z);
        lemma_address_halves(north, z);
        lemma_address_halves(south, z);
        assert(zb[j] == bounds_at(west, south, east, north, z + 1));
        assert(zb[i] == bounds_at(west, south, east, north, z));
    }
}

proof fn lemma_address_halves(pos: i64, z: nat)
    requires
        z < 32,
    ensures
        tile_address(pos as int, z + 1) / 2 == tile_address(pos as int, z),
        0 <= tile_address(pos as int, z) <= u32::MAX / 2,
        0 <= tile_address(pos as int, z + 1) <= u32::MAX,
{
    law_tile_address_is_index(pos, z);
    law_tile_address_is_index(pos, z + 1);
    law_tile_index_halves(pos, z);
}

/// An extent whose western edge is not east of its eastern edge, nor its northern edge south of
/// its southern one, can be counted at every zoom up to 31, and so can all its zooms together.
pub proof fn law_ordered_extent_countable(
    west: i64,
    south: i64,
    east: i64,
    north: i64,
    min_z: nat,
    max_z: nat,
)
    requires
        west <= east,
        north <= south,
        max_z <= 31,
    ensures
        forall|z: nat|
            min_z <= z <= max_z ==> (#[trigger] bounds_at(west, south, east, north, z)).countable(),
        total_count(bounds_of_zooms(west, south, east, north, min_z, max_z)) <= u64::MAX,
    decreases max_z,
{
    assert forall|z: nat| min_z <= z <= max_z implies (#[trigger] bounds_at(
        west,
        south,
        east,
        north,
        z,
    )).countable() by {
        lemma_level_count(west, south, east, north, z);
    }
    lemma_total_below(west, south, east, north, min_z, max_z);
    lemma2_to64();
    lemma2_to64_rest();
    lemma_pow2_adds(max_z + 1, max_z + 1);
    if max_z < 31 {
        lemma_pow2_strictly_increases(2 * (max_z + 1), 64);
    }
}

proof fn lemma_level_count(west: i64, south: i64, east: i64, north: i64, z: nat)
    requires
        west <= east,
        north <= south,
        z <= 31,
    ensures
        bounds_at(west, south, east, north, z).countable(),
        bounds_at(west, south, east, north, z).count() <= pow2(z) * pow2(z),
{
    law_tile_address_is_index(west, z);
    law_tile_address_is_index(east, z);
    law_tile_address_is_index(north, z);
    law_tile_address_is_index(south, z);
    law_tile_index_monotone(west, east, z);
    law_tile_index_monotone(north, south, z);
    lemma2_to64();
    if z < 31 {
        lemma_pow2_strictly_increases(z, 31);
    }
    let b = bounds_at(west, south, east, north, z);
    let w = span(b.x0, b.x1);
    let h = span(b.y0, b.y1);
    let n = pow2(z);
    assert(w * h <= n * n) by (nonlinear_arith)
        requires
            0 <= w <= n,
            0 <= h <= n,
    ;
}

proof fn lemma_total_below(
    west: i64,
    south: i64,
    east: i64,
    north: i64,
    min_z: nat,
    max_z: nat,
)
    requires
        west <= east,
        north <= south,
        max_z <= 31,
    ensures
        total_count(bounds_of_zooms(west, south, east, north, min_z, max_z)) < pow2(max_z + 1)
            * pow2(max_z + 1),
    decreases max_z,
{
    let zb = bounds_of_zooms(west, south, east, north, min_z, max_z);
    let n = pow2(max_z);
    lemma_pow2_pos(max_z);
    lemma_pow2_pos(max_z + 1);
    lemma_pow2_unfold(max_z + 1);
    assert(pow2(max_z + 1) == 2 * n);
    assert((2 * n) * (2 * n) == 4 * (n * n) && n * n >= 1) by (nonlinear_arith)
        requires
            n >= 1,
    ;
    if min_z <= max_z {
        lemma_level_count(west, south, east, north, max_z);
        if max_z > min_z {
            let outer = bounds_of_zooms(west, south, east, north, min_z, (max_z - 1) as nat);
            lemma_total_below(west, south, east, north, min_z, (max_z - 1) as nat);
            assert(zb.drop_last() =~= outer);
            assert((max_z - 1) as nat + 1 == max_z);
        } else {
            assert(zb.drop_last().len() == 0);
            assert(total_count(zb.drop_last()) == 0);
        }
        assert(zb.last() == bounds_at(west, south, east, north, max_z));
        assert(total_count(zb) == total_count(zb.drop_last()) + zb.last().count());
    }
}

/// Every candidate tile of an extent has a column and a row of its zoom, at every zoom up to 32.
pub proof fn law_candidates_valid(
    west: i64,
    south: i64,
    east: i64,
    north: i64,
    min_z: nat,
    max_z: nat,
    t: TileJob,
)
    requires
        max_z <= 32,
        candidates(bounds_of_zooms(west, south, east, north, min_z, max_z), min_z).contains(t),
    ensures
        min_z <= t.z <= max_z,
        t.x < pow2(t.z as nat),
        t.y < pow2(t.z as nat),
{
    let zb = bounds_of_zooms(west, south, east, north, min_z, max_z);
    law_candidates_exact(zb, min_z);
    assert(in_bounds(zb, min_z, t));
    law_tile_address_is_index(east, t.z as nat);
    law_tile_address_is_index(south, t.z as nat);
}

/// `contains` tells whether neither the column nor the row lies past an end of the bounds.
pub proof fn law_contains_exact(b: ZoomBounds, x: u32, y: u32, r: bool)
    requires
        call_ensures(ZoomBounds::contains, (&b, x, y), r),
    ensures
        r <==> !(x < b.x0 || b.x1 < x || y < b.y0 || b.y1 < y),
{
}

/// `tile_count` is the number of columns times the number of rows, and so the number of tiles of
/// the initial frontier.
pub proof fn law_count_is_area(b: ZoomBounds, z: u8, n: u64, frontier: Vec<TileJob>)
    requires
        call_ensures(ZoomBounds::tile_count, (&b,), n),
        call_ensures(initial_frontier, (&b, z), frontier),
        b.x0 <= b.x1,
        b.y0 <= b.y1,
    ensures
        n == (b.x1 - b.x0 + 1) * (b.y1 - b.y0 + 1),
        n == frontier@.len(),
{
}

/// The columns (rows) of the bounds of a zoom are exactly those whose span meets the extent.
proof fn lemma_bounds_meet_extent(
    west: i64,
    south: i64,
    east: i64,
    north: i64,
    z: nat,
    index: int,
)
    requires
        z <= 32,
        0 <= index,
    ensures
        ({
            let b = bounds_at(west, south, east, north, z);
            let d = pow2((63 - z) as nat);
            &&& b.x0 <= index <= b.x1 <==> {
                &&& index * d <= (if east < 0 { 0 } else { east as int })
                &&& (if west < 0 { 0 } else { west as int }) < (index + 1) * d
            }
            &&& b.y0 <= index <= b.y1 <==> {
                &&& index * d <= (if south < 0 { 0 } else { south as int })
                &&& (if north < 0 { 0 } else { north as int }) < (index + 1) * d
            }
        }),
{
    law_tile_address_is_index(west, z);
    law_tile_address_is_index(east, z);
    law_tile_address_is_index(north, z);
    law_tile_address_is_index(south, z);
    lemma_address_against_span(west, z, index);
    lemma_address_against_span(east, z, index);
    lemma_address_against_span(north, z, index);
    lemma_address_against_span(south, z, index);
}

/// The bounds of an extent hold exactly the columns and rows that meet it, up to zoom 32: those
/// that begin no later than the extent ends and end after it begins. What lies west (north) of the
/// world belongs to its edge.
pub proof fn law_bounds_meet_extent(
    west: i64,
    south: i64,
    east: i64,
    north: i64,
    z: u8,
    b: ZoomBounds,
    index: int,
)
    requires
        call_ensures(zoom_bounds, (west, south, east, north, z), b),
        z <= 32,
        0 <= index,
    ensures
        b.x0 <= index <= b.x1 <==> {
            &&& index * pow2((63 - z) as nat) <= (if east < 0 { 0 } else { east as int })
            &&& (if west < 0 { 0 } else { west as int }) < (index + 1) * pow2((63 - z) as nat)
        },
        b.y0 <= index <= b.y1 <==> {
            &&& index * pow2((63 - z) as nat) <= (if south < 0 { 0 } else { south as int })
            &&& (if north < 0 { 0 } else { north as int }) < (index + 1) * pow2((63 - z) as nat)
        },
{
    lemma_bounds_meet_extent(west, south, east, north, z as nat, index);
}

/// The bounds of an extent cover it: a position within the extent lies in a column and a row within
/// its bounds, up to zoom 32.
pub proof fn law_bounds_cover_extent(
    west: i64,
    south: i64,
    east: i64,
    north: i64,
    z: u8,
    b: ZoomBounds,
    lon: i64,
    lat: i64,
    x: u32,
    y: u32,
)
    requires
        call_ensures(zoom_bounds, (west, south, east, north, z), b),
        call_ensures(lon_to_tile_x, (lon, z), x),
        call_ensures(lat_to_tile_y_xyz, (lat, z), y),
        z <= 32,
        west <= lon <= east,
        north <= lat <= south,
    ensures
        b.x0 <= x <= b.x1,
        b.y0 <= y <= b.y1,
{
    law_tile_address_is_index(west, z as nat);
    law_tile_address_is_index(east, z as nat);
    law_tile_address_is_index(north, z as nat);
    law_tile_address_is_index(south, z as nat);
    law_tile_address_is_index(lon, z as nat);
    law_tile_address_is_index(lat, z as nat);
    law_tile_index_monotone(west, lon, z as nat);
    law_tile_index_monotone(lon, east, z as nat);
    law_tile_index_monotone(north, lat, z as nat);
    law_tile_index_monotone(lat, south, z as nat);
}

/// The edges of the bounds are the columns and rows of the edges of the extent, at every zoom.
pub proof fn law_bounds_end_at_edges(
    west: i64,
    south: i64,
    east: i64,
    north: i64,
    z: u8,
    b: ZoomBounds,
    x0: u32,
    x1: u32,
    y0: u32,
    y1: u32,
)
    requires
        call_ensures(zoom_bounds, (west, south, east, north, z), b),
        call_ensures(lon_to_tile_x, (west, z), x0),
        call_ensures(lon_to_tile_x, (east, z), x1),
        call_ensures(lat_to_tile_y_xyz, (north, z), y0),
        call_ensures(lat_to_tile_y_xyz, (south, z), y1),
    ensures
        b.x0 == x0,
        b.x1 == x1,
        b.y0 == y0,
        b.y1 == y1,
{
}

/// `bounds_by_zoom` gives, for each zoom of the range in turn, what `zoom_bounds` gives for it, and
/// nothing for an empty range.
pub proof fn law_bounds_of_each_zoom(
    west: i64,
    south: i64,
    east: i64,
    north: i64,
    min_z: u8,
    max_z: u8,
    zb: Vec<ZoomBounds>,
)
    requires
        call_ensures(bounds_by_zoom, (west, south, east, north, min_z, max_z), zb),
    ensures
        min_z > max_z ==> zb@.len() == 0,
        min_z <= max_z ==> zb@.len() == max_z - min_z + 1,
        forall|z: u8, b: ZoomBounds|
            min_z <= z <= max_z && #[trigger] call_ensures(
                zoom_bounds,
                (west, south, east, north, z),
                b,
            ) ==> zb@[z - min_z] == b,
{
}

/// The tiles of a zoom come column by column, each column from north to south.
proof fn lemma_level_in_order(b: ZoomBounds, z: u8, i: int, j: int)
    requires
        0 <= i < j < level_tiles(b, z).len(),
    ensures
        ({
            let s = level_tiles(b, z);
            s[i].x < s[j].x || (s[i].x == s[j].x && s[i].y < s[j].y)
        }),
{
    let w = span(b.x0, b.x1) as int;
    let h = span(b.y0, b.y1) as int;
    assert(h > 0 && w > 0) by (nonlinear_arith)
        requires
            0 <= i < w * h,
            w >= 0,
            h >= 0,
    ;
    assert(0 <= i / h <= j / h && j / h < w && i == (i / h) * h + i % h && j == (j / h) * h + j % h
        && 0 <= i % h < h && 0 <= j % h < h) by (nonlinear_arith)
        requires
            0 <= i < j < w * h,
            h > 0,
    ;
}

/// The initial frontier is every tile of the zoom within the bounds and no other, each of them
/// once, column by column and each column from north to south.
pub proof fn law_initial_frontier_exact(b: ZoomBounds, z: u8, frontier: Vec<TileJob>)
    requires
        call_ensures(initial_frontier, (&b, z), frontier),
    ensures
        forall|t: TileJob| #[trigger]
            frontier@.contains(t) <==> t.z == z && b.x0 <= t.x <= b.x1 && b.y0 <= t.y <= b.y1,
        forall|i: int, j: int|
            0 <= i < j < frontier@.len() ==> (#[trigger] frontier@[i]).x < (
            #[trigger] frontier@[j]).x || (frontier@[i].x == frontier@[j].x && frontier@[i].y
                < frontier@[j].y),
{
    law_level_tiles_exact(b, z);
    assert forall|i: int, j: int| 0 <= i < j < frontier@.len() implies (#[trigger] frontier@[i]).x
        < (#[trigger] frontier@[j]).x || (frontier@[i].x == frontier@[j].x && frontier@[i].y
        < frontier@[j].y) by {
        lemma_level_in_order(b, z, i, j);
    }
}

/// The children within bounds are the four quarters of a tile that lie within them, each once, the
/// northern ones first and from west to east.
pub(crate) proof fn lemma_children_plain(t: TileJob, b: ZoomBounds)
    requires
        has_children(t),
    ensures
        forall|c: TileJob| #[trigger]
            children_within(t, b).contains(c) <==> {
                &&& c.z == t.z + 1
                &&& 2 * t.x <= c.x <= 2 * t.x + 1
                &&& 2 * t.y <= c.y <= 2 * t.y + 1
                &&& b.x0 <= c.x <= b.x1
                &&& b.y0 <= c.y <= b.y1
            },
        forall|i: int, j: int|
            0 <= i < j < children_within(t, b).len() ==> (#[trigger] children_within(t, b)[i]).y < (
            #[trigger] children_within(t, b)[j]).y || (children_within(t, b)[i].y
                == children_within(t, b)[j].y && children_within(t, b)[i].x < children_within(
                t,
                b,
            )[j].x),
{
    law_children_exact(t, b);
}

/// `push_children_in_bounds` leaves what was there and appends the quarters of the tile that lie
/// within the bounds and no other tile, each of them once, the northern ones first and from west to
/// east.
pub proof fn law_push_children_exact(
    tile: TileJob,
    b: ZoomBounds,
    before: Vec<TileJob>,
    after: Vec<TileJob>,
)
    requires
        exists|out: &mut Vec<TileJob>| #[trigger]
            call_ensures(push_children_in_bounds, (tile, &b, out), ()) && *out == before
                && *final(out) == after,
        tile.z < u8::MAX,
        tile.x <= 0x7FFF_FFFF,
        tile.y <= 0x7FFF_FFFF,
    ensures
        after@.len() >= before@.len(),
        forall|i: int| 0 <= i < before@.len() ==> #[trigger] after@[i] == before@[i],
        forall|c: TileJob| #[trigger]
            after@.skip(before@.len() as int).contains(c) <==> {
                &&& c.z == tile.z + 1
                &&& 2 * tile.x <= c.x <= 2 * tile.x + 1
                &&& 2 * tile.y <= c.y <= 2 * tile.y + 1
                &&& b.x0 <= c.x <= b.x1
                &&& b.y0 <= c.y <= b.y1
            },
        forall|i: int, j: int|
            before@.len() <= i < j < after@.len() ==> (#[trigger] after@[i]).y < (
            #[trigger] after@[j]).y || (after@[i].y == after@[j].y && after@[i].x < after@[j].x),
{
    let kids = children_within(tile, b);
    lemma_children_plain(tile, b);
    assert(after@.skip(before@.len() as int) =~= kids);
    assert forall|i: int, j: int| before@.len() <= i < j < after@.len() implies (
    #[trigger] after@[i]).y < (#[trigger] after@[j]).y || (after@[i].y == after@[j].y && after@[i].x
        < after@[j].x) by {
        assert(after@[i] == kids[i - before@.len()] && after@[j] == kids[j - before@.len()]);
    }
}

/// The candidates come zoom by zoom, column by column, each column from north to south.
proof fn lemma_candidates_in_order(zb: Seq<ZoomBounds>, min_z: nat, i: int, j: int)
    requires
        min_z + zb.len() <= 256,
        0 <= i < j < candidates(zb, min_z).len(),
    ensures
        ({
            let a = candidates(zb, min_z)[i];
            let b = candidates(zb, min_z)[j];
            a.z < b.z || (a.z == b.z && (a.x < b.x || (a.x == b.x && a.y < b.y)))
        }),
    decreases zb.len(),
{
    let rest = candidates(zb.drop_last(), min_z);
    let top = (min_z + zb.len() - 1) as u8;
    let level = level_tiles(zb.last(), top);
    if j < rest.len() {
        lemma_candidates_in_order(zb.drop_last(), min_z, i, j);
    } else if i >= rest.len() {
        lemma_level_in_order(zb.last(), top, i - rest.len(), j - rest.len());
    } else {
        law_candidates_exact(zb.drop_last(), min_z);
        assert(rest.contains(rest[i]));
        assert(in_bounds(zb.drop_last(), min_z, rest[i]));
    }
}

/// The candidates are every tile of the zooms within the bounds of its zoom and no other, each of
/// them once, zoom by zoom, column by column and each column from north to south.
pub proof fn law_candidate_tiles_exact(
    west: i64,
    south: i64,
    east: i64,
    north: i64,
    min_z: u8,
    max_z: u8,
    tiles: Vec<TileJob>,
)
    requires
        call_ensures(candidate_tiles, (west, south, east, north, min_z, max_z), tiles),
        max_z < 64,
    ensures
        forall|t: TileJob| #[trigger] tiles@.contains(t) ==> min_z <= t.z <= max_z,
        forall|t: TileJob, b: ZoomBounds|
            min_z <= t.z <= max_z && #[trigger] call_ensures(
                zoom_bounds,
                (west, south, east, north, t.z),
                b,
            ) ==> (#[trigger] tiles@.contains(t) <==> b.x0 <= t.x <= b.x1 && b.y0 <= t.y <= b.y1),
        forall|i: int, j: int|
            0 <= i < j < tiles@.len() ==> (#[trigger] tiles@[i]).z < (#[trigger] tiles@[j]).z || (
            tiles@[i].z == tiles@[j].z && (tiles@[i].x < tiles@[j].x || (tiles@[i].x == tiles@[j].x
                && tiles@[i].y < tiles@[j].y))),
{
    let zb = bounds_of_zooms(west, south, east, north, min_z as nat, max_z as nat);
    law_candidates_exact(zb, min_z as nat);
    assert forall|t: TileJob| #[trigger] tiles@.contains(t) <==> in_bounds(zb, min_z as nat, t) by {
        assert(candidates(zb, min_z as nat).contains(t) <==> in_bounds(zb, min_z as nat, t));
    }
    assert forall|i: int, j: int| 0 <= i < j < tiles@.len() implies (#[trigger] tiles@[i]).z < (
    #[trigger] tiles@[j]).z || (tiles@[i].z == tiles@[j].z && (tiles@[i].x < tiles@[j].x || (
    tiles@[i].x == tiles@[j].x && tiles@[i].y < tiles@[j].y))) by {
        lemma_candidates_in_order(zb, min_z as nat, i, j);
    }
}

/// Up to zoom 32 a tile is a candidate exactly when its zoom is in the range and its column and row
/// meet the extent.
pub proof fn law_candidates_meet_extent(
    west: i64,
    south: i64,
    east: i64,
    north: i64,
    min_z: u8,
    max_z: u8,
    tiles: Vec<TileJob>,
    t: TileJob,
)
    requires
        call_ensures(candidate_tiles, (west, south, east, north, min_z, max_z), tiles),
        max_z <= 32,
    ensures
        tiles@.contains(t) <==> {
            &&& min_z <= t.z <= max_z
            &&& t.x * pow2((63 - t.z) as nat) <= (if east < 0 { 0 } else { east as int })
            &&& (if west < 0 { 0 } else { west as int }) < (t.x + 1) * pow2((63 - t.z) as nat)
            &&& t.y * pow2((63 - t.z) as nat) <= (if south < 0 { 0 } else { south as int })
            &&& (if north < 0 { 0 } else { north as int }) < (t.y + 1) * pow2((63 - t.z) as nat)
        },
{
    let zb = bounds_of_zooms(west, south, east, north, min_z as nat, max_z as nat);
    law_candidates_exact(zb, min_z as nat);
    assert(candidates(zb, min_z as nat).contains(t) <==> in_bounds(zb, min_z as nat, t));
    if min_z <= t.z <= max_z {
        lemma_bounds_meet_extent(west, south, east, north, t.z as nat, t.x as int);
        lemma_bounds_meet_extent(west, south, east, north, t.z as nat, t.y as int);
    }
}

/// `candidate_total` is the number of tiles that `candidate_tiles` lists.
pub proof fn law_total_is_length(
    west: i64,
    south: i64,
    east: i64,
    north: i64,
    min_z: u8,
    max_z: u8,
    n: u64,
    tiles: Vec<TileJob>,
)
    requires
        call_ensures(candidate_total, (west, south, east, north, min_z, max_z), n),
        call_ensures(candidate_tiles, (west, south, east, north, min_z, max_z), tiles),
    ensures
        n == tiles@.len(),
{
    law_total_counts_candidates(
        bounds_of_zooms(west, south, east, north, min_z as nat, max_z as nat),
        min_z as nat,
    );
}

} // verus!
