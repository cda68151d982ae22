//! PMTiles layout: the tile ids that order an archive, and its header.

use crate::frontier::TileJob;
use crate::sort::{sort_by_key, Keyed};
use vstd::arithmetic::power2::pow2;
use vstd::prelude::*;
use vstd::seq_lib::group_to_multiset_ensures;

verus! {

/// Whether a PMTiles archive can hold a tile: it has zooms up to 31, and columns and rows of the
/// zoom.
pub open spec fn addressable(z: u8, x: u32, y: u32) -> bool {
    z <= 31 && x < pow2(z as nat) && y < pow2(z as nat)
}

/// The number of tiles of the zooms before `z`.
pub open spec fn tiles_before(z: nat) -> nat
    decreases z,
{
    if z == 0 {
        0
    } else {
        tiles_before((z - 1) as nat) + pow2((z - 1) as nat) * pow2((z - 1) as nat)
    }
}

/// The PMTiles id of a tile: its place on the Hilbert curve of its zoom, after all tiles of the
/// zooms before.
pub uninterp spec fn tile_id(z: u8, x: u32, y: u32) -> u64;

/// The tile that the `pmtiles` crate finds for an id.
pub uninterp spec fn tile_of(id: u64) -> (u8, u32, u32);

/// `pmtiles::TileId::from` of `pmtiles::TileCoord::new`.
///
/// Claimed: there is an id exactly for the tiles that an archive can hold; it is a function of the
/// address; it lies among the ids of the tile's zoom, which follow those of the zooms before; and
/// the tile can be found from it again, so no two tiles share one.
#[verifier::external_body]
fn id_of(z: u8, x: u32, y: u32) -> (id: Option<u64>)
    ensures
        id is Some <==> addressable(z, x, y),
        id matches Some(id) ==> {
            &&& id == tile_id(z, x, y)
            &&& tiles_before(z as nat) <= id < tiles_before(z as nat + 1)
            &&& tile_of(id) == (z, x, y)
        },
{
    ::pmtiles::TileCoord::new(z, x, y).ok().map(|c| ::pmtiles::TileId::from(c).value())
}

/// The PMTiles id of a tile.
pub open spec fn job_id(t: TileJob) -> u64 {
    tile_id(t.z, t.x, t.y)
}

/// What is known of a tile and its id.
spec fn identified(k: Keyed) -> bool {
    &&& k.key == job_id(k.tile)
    &&& tiles_before(k.tile.z as nat) <= k.key < tiles_before(k.tile.z as nat + 1)
    &&& tile_of(k.key) == (k.tile.z, k.tile.x, k.tile.y)
}

spec fn tiles_of(s: Seq<Keyed>) -> Seq<TileJob> {
    s.map_values(|k: Keyed| k.tile)
}

proof fn lemma_tile_counts(s: Seq<Keyed>, t: TileJob)
    requires
        forall|i: int| 0 <= i < s.len() ==> identified(#[trigger] s[i]),
    ensures
        tiles_of(s).to_multiset().count(t) == s.to_multiset().count(Keyed { key: job_id(t), tile: t }),
    decreases s.len(),
{
    broadcast use group_to_multiset_ensures;

    if s.len() > 0 {
        let front = s.drop_last();
        assert forall|i: int| 0 <= i < front.len() implies identified(#[trigger] front[i]) by {
            assert(front[i] == s[i]);
        }
        lemma_tile_counts(front, t);
        assert(s =~= front.push(s.last()));
        assert(tiles_of(s) =~= tiles_of(front).push(s.last().tile));
        assert(identified(s[s.len() - 1]));
    } else {
        assert(tiles_of(s) =~= Seq::<TileJob>::empty());
        assert(s =~= Seq::<Keyed>::empty());
    }
}

proof fn lemma_tiles_before_monotone(a: nat, b: nat)
    requires
        a <= b,
    ensures
        tiles_before(a) <= tiles_before(b),
    decreases b,
{
    if a < b {
        lemma_tiles_before_monotone(a, (b - 1) as nat);
    }
}

/// The tiles in ascending order of their ids, as a PMTiles archive is written: outer zooms first,
/// and each zoom along its Hilbert curve.
pub fn sort_by_tile_id(tiles: &[TileJob]) -> (out: Vec<TileJob>)
    requires
        forall|i: int|
            0 <= i < tiles@.len() ==> addressable(
                (#[trigger] tiles@[i]).z,
                tiles@[i].x,
                tiles@[i].y,
            ),
    ensures
        out@.to_multiset() == tiles@.to_multiset(),
        forall|i: int, j: int| 0 <= i <= j < out@.len() ==> job_id(out@[i]) <= job_id(out@[j]),
        forall|i: int, j: int| 0 <= i <= j < out@.len() ==> out@[i].z <= out@[j].z,
        forall|i: int, j: int|
            0 <= i < out@.len() && 0 <= j < out@.len() && job_id(out@[i]) == job_id(out@[j])
                ==> out@[i] == out@[j],
        tiles@.no_duplicates() ==> forall|i: int, j: int|
            0 <= i < j < out@.len() ==> job_id(out@[i]) < job_id(out@[j]),
{
    let mut keyed: Vec<Keyed> = Vec::new();
    let mut n: usize = 0;
    while n < tiles.len()
        invariant
            n <= tiles@.len(),
            forall|i: int|
                0 <= i < tiles@.len() ==> addressable(
                    (#[trigger] tiles@[i]).z,
                    tiles@[i].x,
                    tiles@[i].y,
                ),
            keyed@.len() == n,
            forall|i: int| 0 <= i < n ==> identified(#[trigger] keyed@[i]),
            forall|i: int| 0 <= i < n ==> (#[trigger] keyed@[i]).tile == tiles@[i],
        decreases tiles@.len() - n,
    {
        let t: TileJob = tiles[n];
        assert(addressable(tiles@[n as int].z, tiles@[n as int].x, tiles@[n as int].y));
        if let Some(id) = id_of(t.z, t.x, t.y) {
            keyed.push(Keyed { key: id, tile: t });
        }
        n = n + 1;
    }
    let ghost unsorted = keyed@;
    let sorted = sort_by_key(keyed);
    let mut out: Vec<TileJob> = Vec::new();
    let mut m: usize = 0;
    while m < sorted.len()
        invariant
            m <= sorted@.len(),
            out@.len() == m,
            forall|i: int| 0 <= i < m ==> #[trigger] out@[i] == sorted@[i].tile,
        decreases sorted@.len() - m,
    {
        out.push(sorted[m].tile);
        m = m + 1;
    }
    proof {
        broadcast use group_to_multiset_ensures;

        assert forall|i: int| 0 <= i < sorted@.len() implies identified(#[trigger] sorted@[i]) by {
            assert(sorted@.contains(sorted@[i]));
            assert(sorted@.to_multiset().count(sorted@[i]) > 0);
            assert(unsorted.contains(sorted@[i]));
        }
        assert(out@ =~= tiles_of(sorted@));
        assert(tiles@ =~= tiles_of(unsorted));
        assert forall|t: TileJob| out@.to_multiset().count(t) == #[trigger] tiles@.to_multiset().count(
            t,
        ) by {
            lemma_tile_counts(sorted@, t);
            lemma_tile_counts(unsorted, t);
        }
        assert(out@.to_multiset() =~= tiles@.to_multiset());
        assert forall|i: int, j: int| 0 <= i <= j < out@.len() implies job_id(out@[i]) <= job_id(
            out@[j],
        ) && out@[i].z <= out@[j].z by {
            assert(identified(sorted@[i]) && identified(sorted@[j]));
            assert(sorted@[i].key <= sorted@[j].key);
            if out@[i].z > out@[j].z {
                lemma_tiles_before_monotone(out@[j].z as nat + 1, out@[i].z as nat);
            }
        }
        assert forall|i: int, j: int|
            0 <= i < out@.len() && 0 <= j < out@.len() && job_id(out@[i]) == job_id(
                out@[j],
            ) implies out@[i] == out@[j] by {
            assert(identified(sorted@[i]) && identified(sorted@[j]));
        }
        if tiles@.no_duplicates() {
            tiles@.lemma_multiset_has_no_duplicates();
            out@.lemma_multiset_has_no_duplicates_conv();
        }
    }
    out
}

/// The zoom that a PMTiles archive opens at: the middle of its zooms.
pub fn center_zoom(min_z: u8, max_z: u8) -> (z: u8)
    requires
        min_z <= max_z,
    ensures
        z == min_z + (max_z - min_z) / 2,
        min_z <= z <= max_z,
{
    min_z + (max_z - min_z) / 2
}

/// `sort_by_tile_id` gives the same tiles in ascending order of their ids, and so of their zooms;
/// the ids of distinct tiles differ.
pub proof fn law_sorted_by_id(tiles: &[TileJob], out: Vec<TileJob>)
    requires
        call_ensures(sort_by_tile_id, (tiles,), out),
    ensures
        out@.to_multiset() == tiles@.to_multiset(),
        out@.len() == tiles@.len(),
        forall|i: int, j: int|
            0 <= i < j < out@.len() ==> {
                &&& tile_id((#[trigger] out@[i]).z, out@[i].x, out@[i].y) <= tile_id(
                    (#[trigger] out@[j]).z,
                    out@[j].x,
                    out@[j].y,
                )
                &&& out@[i].z <= out@[j].z
                &&& out@[i] != out@[j] ==> tile_id(out@[i].z, out@[i].x, out@[i].y) < tile_id(
                    out@[j].z,
                    out@[j].x,
                    out@[j].y,
                )
            },
{
    broadcast use group_to_multiset_ensures;

    assert(out@.to_multiset().len() == out@.len());
    assert(tiles@.to_multiset().len() == tiles@.len());
    assert forall|i: int, j: int| 0 <= i < j < out@.len() implies {
        &&& tile_id((#[trigger] out@[i]).z, out@[i].x, out@[i].y) <= tile_id(
            (#[trigger] out@[j]).z,
            out@[j].x,
            out@[j].y,
        )
        &&& out@[i].z <= out@[j].z
        &&& out@[i] != out@[j] ==> tile_id(out@[i].z, out@[i].x, out@[i].y) < tile_id(
            out@[j].z,
            out@[j].x,
            out@[j].y,
        )
    } by {
        assert(job_id(out@[i]) <= job_id(out@[j]));
    }
}

/// The zoom that an archive opens at is as far from its first zoom as from its last, or one nearer
/// to the first.
pub proof fn law_center_in_the_middle(min_z: u8, max_z: u8, z: u8)
    requires
        call_ensures(center_zoom, (min_z, max_z), z),
        min_z <= max_z,
    ensures
        min_z <= z <= max_z,
        0 <= (max_z - z) - (z - min_z) <= 1,
{
}

} // verus!
