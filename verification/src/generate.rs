//! Which tiles are evaluated, and what becomes of each.
//!
//! The flat path evaluates every candidate tile. The frontier path descends the pyramid from the
//! first zoom and leaves out everything below a tile that has no data.

use crate::container::pmtiles::{addressable, job_id, sort_by_tile_id, tile_id};
use crate::container::Container;
use crate::encoder::Encoding;
use crate::frontier::{
    bounds_at, bounds_of_zooms, candidate_tiles, candidate_total, candidates, children_within,
    has_children, in_bounds, law_bounds_nest, law_candidates_exact, law_candidates_valid,
    law_children_exact, law_level_tiles_exact, lemma_children_plain, level_tiles, nested, nests,
    parent,
    push_children_in_bounds, total_count, TileJob, ZoomBounds,
};
use crate::raster::{
    all_nodata, evaluates, holds_window, law_buffer_shows_window, law_nodata_window_prunes,
    law_nodata_within_is_empty, law_window_nests, processes, SourceExtent, TileEval,
};
use crate::tile::{law_spans_nest, tile_start};
use crate::tile_format::{EncodeError, Format};
use vstd::prelude::*;
use vstd::seq_lib::group_to_multiset_ensures;

verus! {

/// How the tiles of a run are generated.
#[derive(Debug, Clone, Copy, PartialEq, Eq, Structural)]
pub enum Strategy {
    /// Every candidate, in the order of the PMTiles ids.
    SortedFlat,
    /// Every candidate.
    Flat,
    /// The sparse frontier.
    Frontier,
}

/// Below this many candidate tiles, MBTiles uses the flat path: on a small extent the descent
/// stalls at the outer zooms, which have few and expensive tiles, with nothing to prune.
pub const FRONTIER_MIN_TOTAL: u64 = 4096;

/// How to generate the tiles for a container. PMTiles needs them in the order of their ids;
/// MBTiles takes them in any order, so large builds use the frontier.
pub fn choose_strategy(
    container: Container,
    west: i64,
    south: i64,
    east: i64,
    north: i64,
    min_z: u8,
    max_z: u8,
) -> (s: Strategy)
    requires
        container is Mbtiles && min_z <= max_z ==> max_z < 64,
        container is Mbtiles ==> forall|z: nat|
            min_z <= z <= max_z ==> (#[trigger] bounds_at(west, south, east, north, z)).countable(),
        container is Mbtiles ==> total_count(
            bounds_of_zooms(west, south, east, north, min_z as nat, max_z as nat),
        ) <= u64::MAX,
    ensures
        s == (match container {
            Container::Pmtiles => Strategy::SortedFlat,
            Container::Mbtiles => if total_count(
                bounds_of_zooms(west, south, east, north, min_z as nat, max_z as nat),
            ) >= FRONTIER_MIN_TOTAL {
                Strategy::Frontier
            } else {
                Strategy::Flat
            },
        }),
{
    match container {
        Container::Pmtiles => Strategy::SortedFlat,
        Container::Mbtiles => if candidate_total(west, south, east, north, min_z, max_z)
            >= FRONTIER_MIN_TOTAL {
            Strategy::Frontier
        } else {
            Strategy::Flat
        },
    }
}

/// The number of tiles that the flat path evaluates before it writes them.
pub const CHUNK_SIZE: usize = 4096;

/// The tiles that the flat path evaluates, in the order in which it writes them: every candidate,
/// zoom by zoom and column by column, or in the order of the PMTiles ids if they are sorted.
pub fn flat_tiles(
    west: i64,
    south: i64,
    east: i64,
    north: i64,
    min_z: u8,
    max_z: u8,
    sort: bool,
) -> (tiles: Vec<TileJob>)
    requires
        min_z <= max_z ==> max_z < 64,
        sort ==> forall|t: TileJob| #[trigger]
            candidates(
                bounds_of_zooms(west, south, east, north, min_z as nat, max_z as nat),
                min_z as nat,
            ).contains(t) ==> addressable(t.z, t.x, t.y),
    ensures
        ({
            let every = candidates(
                bounds_of_zooms(west, south, east, north, min_z as nat, max_z as nat),
                min_z as nat,
            );
            &&& !sort ==> tiles@ == every
            &&& sort ==> {
                &&& tiles@.to_multiset() == every.to_multiset()
                &&& forall|i: int, j: int|
                    0 <= i < j < tiles@.len() ==> job_id(tiles@[i]) < job_id(tiles@[j])
            }
        }),
{
    let every = candidate_tiles(west, south, east, north, min_z, max_z);
    if !sort {
        return every;
    }
    proof {
        let zb = bounds_of_zooms(west, south, east, north, min_z as nat, max_z as nat);
        law_candidates_exact(zb, min_z as nat);
        assert forall|i: int| 0 <= i < every@.len() implies addressable(
            (#[trigger] every@[i]).z,
            every@[i].x,
            every@[i].y,
        ) by {
            assert(candidates(zb, min_z as nat).contains(every@[i]));
        }
    }
    sort_by_tile_id(every.as_slice())
}

/// At every zoom up to 31 all candidates of an extent can be held by a PMTiles archive.
pub proof fn law_candidates_addressable(
    west: i64,
    south: i64,
    east: i64,
    north: i64,
    min_z: nat,
    max_z: nat,
)
    requires
        max_z <= 31,
    ensures
        forall|t: TileJob| #[trigger]
            candidates(
                bounds_of_zooms(west, south, east, north, min_z, max_z),
                min_z,
            ).contains(t) ==> addressable(t.z, t.x, t.y),
{
    let zb = bounds_of_zooms(west, south, east, north, min_z, max_z);
    assert forall|t: TileJob| #[trigger] candidates(zb, min_z).contains(t) implies addressable(
        t.z,
        t.x,
        t.y,
    ) by {
        law_candidates_valid(west, south, east, north, min_z, max_z, t);
    }
}

/// What the flat path does after a tile.
#[derive(Debug, PartialEq, Eq)]
pub enum Step<E> {
    /// Write the image of the tile.
    Write(TileJob, Vec<u8>),
    /// Report that the tile failed.
    Report(TileJob, E),
}

/// What is done with the results of evaluating the tiles of `chunk`, in the order of the tiles: an
/// image is written, an empty tile skipped, a failure reported.
pub open spec fn steps<E>(
    chunk: Seq<TileJob>,
    results: Seq<Result<Option<Vec<u8>>, E>>,
) -> Seq<Step<E>>
    decreases results.len(),
{
    if results.len() == 0 {
        Seq::empty()
    } else {
        let t = chunk[results.len() - 1];
        let rest = steps(chunk, results.drop_last());
        match results.last() {
            Ok(Some(data)) => rest.push(Step::Write(t, data)),
            Ok(None) => rest,
            Err(e) => rest.push(Step::Report(t, e)),
        }
    }
}

/// The images that are written, in order.
pub open spec fn written<E>(steps: Seq<Step<E>>) -> Seq<(TileJob, Seq<u8>)>
    decreases steps.len(),
{
    if steps.len() == 0 {
        Seq::empty()
    } else {
        match steps.last() {
            Step::Write(t, data) => written(steps.drop_last()).push((t, data@)),
            Step::Report(_, _) => written(steps.drop_last()),
        }
    }
}

/// The tiles that are reported as failed, in order.
pub open spec fn reported<E>(steps: Seq<Step<E>>) -> Seq<TileJob>
    decreases steps.len(),
{
    if steps.len() == 0 {
        Seq::empty()
    } else {
        match steps.last() {
            Step::Write(_, _) => reported(steps.drop_last()),
            Step::Report(t, _) => reported(steps.drop_last()).push(t),
        }
    }
}

/// Settles a chunk of evaluated tiles, a failure not keeping the others from being written.
/// `results[i]` is the result for `chunk[i]`.
pub fn settle_chunk<E>(chunk: &[TileJob], results: Vec<Result<Option<Vec<u8>>, E>>) -> (todo: Vec<
    Step<E>,
>)
    requires
        results@.len() == chunk@.len(),
    ensures
        todo@ == steps(chunk@, results@),
{
    let ghost all = results@;
    let mut todo: Vec<Step<E>> = Vec::new();
    let mut i: usize = 0;
    for result in it: results
        invariant
            i == it.index(),
            it.seq() == all,
            all.len() == chunk@.len(),
            todo@ == steps(chunk@, all.take(i as int)),
    {
        proof {
            assert(all.take(i + 1).drop_last() =~= all.take(i as int));
            assert(all.take(i + 1).last() == all[i as int]);
        }
        match result {
            Ok(Some(data)) => {
                todo.push(Step::Write(chunk[i], data));
            },
            Ok(None) => {},
            Err(e) => {
                todo.push(Step::Report(chunk[i], e));
            },
        }
        i = i + 1;
    }
    proof {
        assert(all.take(all.len() as int) =~= all);
    }
    todo
}

/// What evaluating a tile came to, as far as the choice of tiles goes.
pub enum Outcome {
    Rendered(Seq<u8>),
    Blank,
    NoData,
    Failed,
}

/// The outcome of an evaluation.
pub open spec fn outcome<E>(result: Result<TileEval, E>) -> Outcome {
    match result {
        Ok(TileEval::Rendered(data)) => Outcome::Rendered(data@),
        Ok(TileEval::Blank) => Outcome::Blank,
        Ok(TileEval::NoData) => Outcome::NoData,
        Err(_) => Outcome::Failed,
    }
}

/// The tiles that the descent goes to from `t`: its children within bounds, unless `t` has no
/// data or is of the last zoom. A failure does not stop the descent.
pub open spec fn next_tiles(
    t: TileJob,
    o: Outcome,
    zb: Seq<ZoomBounds>,
    min_z: nat,
    max_z: nat,
) -> Seq<TileJob> {
    if o is NoData || t.z >= max_z {
        Seq::empty()
    } else {
        children_within(t, zb[t.z - min_z + 1])
    }
}

/// What the descent does after one tile.
pub struct Settled<E> {
    /// The image to write for the tile.
    pub data: Option<Vec<u8>>,
    /// The failure to report.
    pub error: Option<E>,
    /// The tiles to evaluate next.
    pub children: Vec<TileJob>,
}

/// Settles one evaluated tile of the descent: a rendered tile is written, a failure is reported,
/// and unless the tile has no data its children within bounds come next. `zb` are the bounds of
/// the zooms from `min_z` on.
pub fn descend<E>(
    t: TileJob,
    result: Result<TileEval, E>,
    zb: &[ZoomBounds],
    min_z: u8,
    max_z: u8,
) -> (s: Settled<E>)
    requires
        !(outcome(result) is NoData) && t.z < max_z ==> {
            &&& min_z <= t.z
            &&& t.z - min_z + 1 < zb@.len()
            &&& has_children(t)
        },
    ensures
        s.data == (match result {
            Ok(TileEval::Rendered(data)) => Some(data),
            _ => None,
        }),
        s.error == (match result {
            Err(e) => Some(e),
            _ => None,
        }),
        s.children@ == next_tiles(t, outcome(result), zb@, min_z as nat, max_z as nat),
{
    let (data, error, expand): (Option<Vec<u8>>, Option<E>, bool) = match result {
        Ok(TileEval::Rendered(data)) => (Some(data), None, true),
        // The source had data, so the tiles further in may show it.
        Ok(TileEval::Blank) => (None, None, true),
        Ok(TileEval::NoData) => (None, None, false),
        // A read error must not drop a whole subtree.
        Err(e) => (None, Some(e), true),
    };
    let mut children: Vec<TileJob> = Vec::new();
    if expand && t.z < max_z {
        let child_bounds = &zb[(t.z - min_z) as usize + 1];
        push_children_in_bounds(t, child_bounds, &mut children);
        proof {
            assert(children@ =~= children_within(t, zb@[t.z - min_z + 1]));
        }
    }
    Settled { data, error, children }
}

/// The tiles that the descent evaluates below and including `t`, which lies `depth` zooms before
/// the last.
pub open spec fn visits(
    depth: nat,
    t: TileJob,
    eval: spec_fn(TileJob) -> Outcome,
    zb: Seq<ZoomBounds>,
    min_z: nat,
    max_z: nat,
) -> Seq<TileJob>
    decreases depth, 0nat,
{
    if depth == 0 {
        seq![t]
    } else {
        seq![t] + visits_all(
            (depth - 1) as nat,
            next_tiles(t, eval(t), zb, min_z, max_z),
            eval,
            zb,
            min_z,
            max_z,
        )
    }
}

/// The tiles that the descent evaluates below and including those of `s`, one after another.
pub open spec fn visits_all(
    depth: nat,
    s: Seq<TileJob>,
    eval: spec_fn(TileJob) -> Outcome,
    zb: Seq<ZoomBounds>,
    min_z: nat,
    max_z: nat,
) -> Seq<TileJob>
    decreases depth, s.len(),
{
    if s.len() == 0 {
        Seq::empty()
    } else {
        visits_all(depth, s.drop_last(), eval, zb, min_z, max_z) + visits(
            depth,
            s.last(),
            eval,
            zb,
            min_z,
            max_z,
        )
    }
}

/// The tile `k` zooms further out that holds `c`.
pub open spec fn ancestor(c: TileJob, k: nat) -> TileJob
    decreases k,
{
    if k == 0 {
        c
    } else {
        parent(ancestor(c, (k - 1) as nat))
    }
}

/// None of the next `n` ancestors of `c` has no data.
pub open spec fn unpruned(c: TileJob, n: nat, eval: spec_fn(TileJob) -> Outcome) -> bool {
    forall|k: nat| 1 <= k <= n ==> !(eval(#[trigger] ancestor(c, k)) is NoData)
}

proof fn lemma_ancestor_zoom(c: TileJob, k: nat)
    requires
        k <= c.z,
    ensures
        ancestor(c, k).z == c.z - k,
    decreases k,
{
    if k > 0 {
        lemma_ancestor_zoom(c, (k - 1) as nat);
    }
}

/// The bounds `zb` are those of the zooms `min_z..=max_z`, and they nest.
pub open spec fn pyramid(zb: Seq<ZoomBounds>, min_z: nat, max_z: nat) -> bool {
    &&& min_z <= max_z <= 255
    &&& zb.len() == max_z - min_z + 1
    &&& nested(zb)
}

/// All tiles of `s` are of zoom `z` and within bounds, and none occurs twice.
spec fn row(s: Seq<TileJob>, z: int, zb: Seq<ZoomBounds>, min_z: nat) -> bool {
    &&& s.no_duplicates()
    &&& forall|t: TileJob| #[trigger] s.contains(t) ==> t.z == z && in_bounds(zb, min_z, t)
}

proof fn lemma_next_row(
    t: TileJob,
    o: Outcome,
    zb: Seq<ZoomBounds>,
    min_z: nat,
    max_z: nat,
)
    requires
        pyramid(zb, min_z, max_z),
        in_bounds(zb, min_z, t),
    ensures
        row(next_tiles(t, o, zb, min_z, max_z), t.z + 1, zb, min_z),
        forall|c: TileJob| #[trigger]
            next_tiles(t, o, zb, min_z, max_z).contains(c) ==> parent(c) == t,
        t.z < max_z ==> has_children(t),
{
    if t.z < max_z {
        let i = t.z - min_z;
        assert(nests(zb[i], zb[i + 1]));
        law_children_exact(t, zb[i + 1]);
    }
}

proof fn lemma_visits_sound(
    depth: nat,
    t: TileJob,
    eval: spec_fn(TileJob) -> Outcome,
    zb: Seq<ZoomBounds>,
    min_z: nat,
    max_z: nat,
)
    requires
        pyramid(zb, min_z, max_z),
        in_bounds(zb, min_z, t),
        t.z + depth == max_z,
    ensures
        visits(depth, t, eval, zb, min_z, max_z).no_duplicates(),
        forall|c: TileJob| #[trigger]
            visits(depth, t, eval, zb, min_z, max_z).contains(c) ==> {
                &&& in_bounds(zb, min_z, c)
                &&& c.z >= t.z
                &&& ancestor(c, (c.z - t.z) as nat) == t
                &&& unpruned(c, (c.z - t.z) as nat, eval)
            },
    decreases depth, 0nat,
{
    let all = visits(depth, t, eval, zb, min_z, max_z);
    if depth > 0 {
        let next = next_tiles(t, eval(t), zb, min_z, max_z);
        let below = visits_all((depth - 1) as nat, next, eval, zb, min_z, max_z);
        lemma_next_row(t, eval(t), zb, min_z, max_z);
        lemma_visits_all_sound((depth - 1) as nat, next, t.z + 1, eval, zb, min_z, max_z);
        assert forall|c: TileJob| #[trigger] all.contains(c) implies {
            &&& in_bounds(zb, min_z, c)
            &&& c.z >= t.z
            &&& ancestor(c, (c.z - t.z) as nat) == t
            &&& unpruned(c, (c.z - t.z) as nat, eval)
        } by {
            let i = all.index_of(c);
            if i > 0 {
                let k = (c.z - t.z) as nat;
                assert(below[i - 1] == c);
                assert(below.contains(c));
                assert(next.contains(ancestor(c, (c.z - (t.z + 1)) as nat)));
                assert(parent(ancestor(c, (c.z - (t.z + 1)) as nat)) == t);
                assert(k - 1 == (c.z - (t.z + 1)) as nat);
                assert(unpruned(c, (k - 1) as nat, eval));
                assert forall|j: nat| 1 <= j <= k implies !(eval(
                    #[trigger] ancestor(c, j),
                ) is NoData) by {
                    if j == k {
                        assert(ancestor(c, j) == t);
                    }
                }
            }
        }
        assert forall|i: int, j: int| 0 <= i < j < all.len() implies all[i] != all[j] by {
            assert(all[j] == below[j - 1]);
            assert(below.contains(below[j - 1]));
            if i > 0 {
                assert(all[i] == below[i - 1]);
            }
        }
    }
}

proof fn lemma_visits_all_sound(
    depth: nat,
    s: Seq<TileJob>,
    z: int,
    eval: spec_fn(TileJob) -> Outcome,
    zb: Seq<ZoomBounds>,
    min_z: nat,
    max_z: nat,
)
    requires
        pyramid(zb, min_z, max_z),
        row(s, z, zb, min_z),
        z + depth == max_z,
    ensures
        visits_all(depth, s, eval, zb, min_z, max_z).no_duplicates(),
        forall|c: TileJob| #[trigger]
            visits_all(depth, s, eval, zb, min_z, max_z).contains(c) ==> {
                &&& in_bounds(zb, min_z, c)
                &&& c.z >= z
                &&& s.contains(ancestor(c, (c.z - z) as nat))
                &&& unpruned(c, (c.z - z) as nat, eval)
            },
    decreases depth, s.len(),
{
    let all = visits_all(depth, s, eval, zb, min_z, max_z);
    if s.len() > 0 {
        let front = s.drop_last();
        let t = s.last();
        let first = visits_all(depth, front, eval, zb, min_z, max_z);
        let rest = visits(depth, t, eval, zb, min_z, max_z);
        assert(s.contains(t));
        assert forall|u: TileJob| #[trigger] front.contains(u) implies s.contains(u) && u != t by {
            let i = front.index_of(u);
            assert(s[i] == u);
        }
        assert(row(front, z, zb, min_z));
        lemma_visits_all_sound(depth, front, z, eval, zb, min_z, max_z);
        lemma_visits_sound(depth, t, eval, zb, min_z, max_z);
        assert forall|c: TileJob| #[trigger] all.contains(c) implies {
            &&& in_bounds(zb, min_z, c)
            &&& c.z >= z
            &&& s.contains(ancestor(c, (c.z - z) as nat))
            &&& unpruned(c, (c.z - z) as nat, eval)
        } by {
            let i = all.index_of(c);
            if i < first.len() {
                assert(first[i] == c);
                assert(first.contains(c));
            } else {
                assert(rest[i - first.len()] == c);
                assert(rest.contains(c));
            }
        }
        assert forall|i: int, j: int| 0 <= i < j < all.len() implies all[i] != all[j] by {
            if j < first.len() {
                assert(all[i] == first[i] && all[j] == first[j]);
            } else if i >= first.len() {
                assert(all[i] == rest[i - first.len()] && all[j] == rest[j - first.len()]);
            } else {
                assert(all[i] == first[i] && all[j] == rest[j - first.len()]);
                assert(first.contains(first[i]));
                assert(rest.contains(rest[j - first.len()]));
            }
        }
    }
}

proof fn lemma_visits_all_member(
    depth: nat,
    s: Seq<TileJob>,
    i: int,
    c: TileJob,
    eval: spec_fn(TileJob) -> Outcome,
    zb: Seq<ZoomBounds>,
    min_z: nat,
    max_z: nat,
)
    requires
        0 <= i < s.len(),
        visits(depth, s[i], eval, zb, min_z, max_z).contains(c),
    ensures
        visits_all(depth, s, eval, zb, min_z, max_z).contains(c),
    decreases s.len(),
{
    let all = visits_all(depth, s, eval, zb, min_z, max_z);
    let first = visits_all(depth, s.drop_last(), eval, zb, min_z, max_z);
    let rest = visits(depth, s.last(), eval, zb, min_z, max_z);
    if i < s.len() - 1 {
        lemma_visits_all_member(depth, s.drop_last(), i, c, eval, zb, min_z, max_z);
        assert(all[first.index_of(c)] == c);
    } else {
        assert(all[first.len() + rest.index_of(c)] == c);
    }
}

/// A tile within bounds is evaluated when none of its ancestors from `t` on has no data.
proof fn lemma_visits_complete(
    depth: nat,
    t: TileJob,
    c: TileJob,
    eval: spec_fn(TileJob) -> Outcome,
    zb: Seq<ZoomBounds>,
    min_z: nat,
    max_z: nat,
)
    requires
        pyramid(zb, min_z, max_z),
        in_bounds(zb, min_z, t),
        in_bounds(zb, min_z, c),
        t.z + depth == max_z,
        c.z >= t.z,
        ancestor(c, (c.z - t.z) as nat) == t,
        forall|k: nat| k <= c.z - t.z ==> in_bounds(zb, min_z, #[trigger] ancestor(c, k)),
        unpruned(c, (c.z - t.z) as nat, eval),
    ensures
        visits(depth, t, eval, zb, min_z, max_z).contains(c),
    decreases depth,
{
    let all = visits(depth, t, eval, zb, min_z, max_z);
    if c.z == t.z {
        assert(all[0] == c);
    } else {
        let k = (c.z - t.z) as nat;
        let a = ancestor(c, (k - 1) as nat);
        let next = next_tiles(t, eval(t), zb, min_z, max_z);
        let below = visits_all((depth - 1) as nat, next, eval, zb, min_z, max_z);
        lemma_ancestor_zoom(c, (k - 1) as nat);
        lemma_next_row(t, eval(t), zb, min_z, max_z);
        assert(!(eval(ancestor(c, k)) is NoData));
        assert(in_bounds(zb, min_z, ancestor(c, (k - 1) as nat)));
        law_children_exact(t, zb[t.z - min_z + 1]);
        assert(next.contains(a));
        assert((c.z - a.z) as nat == (k - 1) as nat);
        lemma_visits_complete((depth - 1) as nat, a, c, eval, zb, min_z, max_z);
        lemma_visits_all_member(
            (depth - 1) as nat,
            next,
            next.index_of(a),
            c,
            eval,
            zb,
            min_z,
            max_z,
        );
        assert(all[1 + below.index_of(c)] == c);
    }
}

/// Every ancestor of a tile within bounds is within bounds.
proof fn lemma_ancestors_in_bounds(
    c: TileJob,
    k: nat,
    zb: Seq<ZoomBounds>,
    min_z: nat,
    max_z: nat,
)
    requires
        pyramid(zb, min_z, max_z),
        in_bounds(zb, min_z, c),
        k <= c.z - min_z,
    ensures
        in_bounds(zb, min_z, ancestor(c, k)),
    decreases k,
{
    if k > 0 {
        let a = ancestor(c, (k - 1) as nat);
        lemma_ancestors_in_bounds(c, (k - 1) as nat, zb, min_z, max_z);
        lemma_ancestor_zoom(c, (k - 1) as nat);
        let i = a.z - min_z;
        assert(nests(zb[i - 1], zb[i]));
    }
}

/// The tiles that the descent evaluates from the whole first zoom on.
pub open spec fn frontier_visits(
    eval: spec_fn(TileJob) -> Outcome,
    zb: Seq<ZoomBounds>,
    min_z: nat,
    max_z: nat,
) -> Seq<TileJob> {
    visits_all(
        (max_z - min_z) as nat,
        level_tiles(zb[0], min_z as u8),
        eval,
        zb,
        min_z,
        max_z,
    )
}

/// The descent evaluates exactly the tiles within bounds that lie below no tile without data,
/// each of them once.
pub proof fn law_frontier_visits_exact(
    eval: spec_fn(TileJob) -> Outcome,
    zb: Seq<ZoomBounds>,
    min_z: nat,
    max_z: nat,
)
    requires
        pyramid(zb, min_z, max_z),
    ensures
        frontier_visits(eval, zb, min_z, max_z).no_duplicates(),
        forall|c: TileJob| #[trigger]
            frontier_visits(eval, zb, min_z, max_z).contains(c) <==> in_bounds(zb, min_z, c)
                && unpruned(c, (c.z - min_z) as nat, eval),
{
    let depth = (max_z - min_z) as nat;
    let first = level_tiles(zb[0], min_z as u8);
    let all = frontier_visits(eval, zb, min_z, max_z);
    law_level_tiles_exact(zb[0], min_z as u8);
    assert(row(first, min_z as int, zb, min_z));
    lemma_visits_all_sound(depth, first, min_z as int, eval, zb, min_z, max_z);
    assert forall|c: TileJob|
        in_bounds(zb, min_z, c) && unpruned(c, (c.z - min_z) as nat, eval) implies
        #[trigger] all.contains(c) by {
        let k = (c.z - min_z) as nat;
        let t = ancestor(c, k);
        assert forall|j: nat| j <= k implies in_bounds(zb, min_z, #[trigger] ancestor(c, j)) by {
            lemma_ancestors_in_bounds(c, j, zb, min_z, max_z);
        }
        lemma_ancestor_zoom(c, k);
        assert(in_bounds(zb, min_z, ancestor(c, k)));
        assert(first.contains(t));
        lemma_visits_complete(depth, t, c, eval, zb, min_z, max_z);
        lemma_visits_all_member(depth, first, first.index_of(t), c, eval, zb, min_z, max_z);
    }
}

/// The images that evaluating the tiles of `s` yields, in the order of `s`.
pub open spec fn rendered(s: Seq<TileJob>, eval: spec_fn(TileJob) -> Outcome) -> Seq<
    (TileJob, Seq<u8>),
>
    decreases s.len(),
{
    if s.len() == 0 {
        Seq::empty()
    } else {
        let t = s.last();
        match eval(t) {
            Outcome::Rendered(data) => rendered(s.drop_last(), eval).push((t, data)),
            _ => rendered(s.drop_last(), eval),
        }
    }
}

proof fn lemma_rendered(s: Seq<TileJob>, eval: spec_fn(TileJob) -> Outcome)
    ensures
        forall|w: (TileJob, Seq<u8>)| #[trigger]
            rendered(s, eval).contains(w) <==> s.contains(w.0) && eval(w.0) == Outcome::Rendered(
                w.1,
            ),
        s.no_duplicates() ==> rendered(s, eval).no_duplicates(),
    decreases s.len(),
{
    let r = rendered(s, eval);
    if s.len() > 0 {
        let front = s.drop_last();
        let t = s.last();
        let q = rendered(front, eval);
        lemma_rendered(front, eval);
        assert forall|w: (TileJob, Seq<u8>)| #[trigger] r.contains(w) <==> s.contains(w.0)
            && eval(w.0) == Outcome::Rendered(w.1) by {
            assert(s.contains(w.0) <==> front.contains(w.0) || w.0 == t) by {
                if front.contains(w.0) {
                    assert(s[front.index_of(w.0)] == w.0);
                }
                if s.contains(w.0) {
                    let i = s.index_of(w.0);
                    if i < front.len() {
                        assert(front[i] == w.0);
                    }
                }
                assert(s[s.len() - 1] == t);
            }
            if eval(t) is Rendered {
                assert(r[r.len() - 1].0 == t);
                if q.contains(w) {
                    assert(r[q.index_of(w)] == w);
                }
                if r.contains(w) {
                    let i = r.index_of(w);
                    if i < q.len() {
                        assert(q[i] == w);
                    }
                }
            }
        }
        if s.no_duplicates() {
            assert forall|u: TileJob| #[trigger] front.contains(u) implies u != t by {
                let i = front.index_of(u);
                assert(s[i] == u);
            }
            assert(front.no_duplicates());
            if eval(t) is Rendered {
                assert forall|i: int, j: int| 0 <= i < j < r.len() implies r[i] != r[j] by {
                    assert(r[i] == q[i]);
                    if j < q.len() {
                        assert(r[j] == q[j]);
                    } else {
                        assert(q.contains(q[i]));
                    }
                }
            }
        }
    }
}

/// The tiles of `s` whose evaluation fails, in the order of `s`.
pub open spec fn failures(s: Seq<TileJob>, eval: spec_fn(TileJob) -> Outcome) -> Seq<TileJob>
    decreases s.len(),
{
    if s.len() == 0 {
        Seq::empty()
    } else if eval(s.last()) is Failed {
        failures(s.drop_last(), eval).push(s.last())
    } else {
        failures(s.drop_last(), eval)
    }
}

proof fn lemma_failures(s: Seq<TileJob>, eval: spec_fn(TileJob) -> Outcome)
    ensures
        forall|t: TileJob| #[trigger]
            failures(s, eval).contains(t) <==> s.contains(t) && eval(t) is Failed,
        s.no_duplicates() ==> failures(s, eval).no_duplicates(),
    decreases s.len(),
{
    if s.len() > 0 {
        let front = s.drop_last();
        let last = s.last();
        let f = failures(s, eval);
        let q = failures(front, eval);
        lemma_failures(front, eval);
        assert(s =~= front.push(last));
        assert forall|t: TileJob| #[trigger] s.contains(t) <==> front.contains(t) || t == last by {
            lemma_push_contains(front, last, t);
        }
        assert forall|t: TileJob| #[trigger] f.contains(t) <==> s.contains(t) && eval(
            t,
        ) is Failed by {
            assert(q.contains(t) <==> front.contains(t) && eval(t) is Failed);
            assert(s.contains(t) <==> front.contains(t) || t == last);
            if eval(last) is Failed {
                lemma_push_contains(q, last, t);
            }
        }
        if s.no_duplicates() {
            assert(front.no_duplicates());
            assert(!front.contains(last)) by {
                if front.contains(last) {
                    assert(s[front.index_of(last)] == s[s.len() - 1]);
                }
            }
            if eval(last) is Failed {
                assert(!q.contains(last));
                assert forall|i: int, j: int| 0 <= i < j < f.len() implies f[i] != f[j] by {
                    assert(q.contains(q[i]));
                    if j < q.len() {
                        assert(q[i] != q[j]);
                    }
                }
            }
        }
    }
}

proof fn lemma_push_contains(s: Seq<TileJob>, e: TileJob, t: TileJob)
    ensures
        s.push(e).contains(t) <==> s.contains(t) || t == e,
{
    let p = s.push(e);
    if s.contains(t) {
        assert(p[s.index_of(t)] == t);
    }
    assert(p[s.len() as int] == e);
    if p.contains(t) {
        let i = p.index_of(t);
        if i < s.len() {
            assert(s[i] == t);
        }
    }
}

/// The frontier path fails on no tile that the flat path does not fail on, so on at most as many.
pub proof fn law_frontier_fails_no_more(
    eval: spec_fn(TileJob) -> Outcome,
    zb: Seq<ZoomBounds>,
    min_z: nat,
    max_z: nat,
)
    requires
        pyramid(zb, min_z, max_z),
    ensures
        ({
            let sparse = failures(frontier_visits(eval, zb, min_z, max_z), eval);
            let flat = failures(candidates(zb, min_z), eval);
            &&& sparse.no_duplicates()
            &&& flat.no_duplicates()
            &&& forall|t: TileJob| #[trigger] sparse.contains(t) ==> flat.contains(t)
            &&& sparse.len() <= flat.len()
        }),
{
    let visited = frontier_visits(eval, zb, min_z, max_z);
    let every = candidates(zb, min_z);
    let sparse = failures(visited, eval);
    let flat = failures(every, eval);
    law_frontier_visits_exact(eval, zb, min_z, max_z);
    law_candidates_exact(zb, min_z);
    lemma_failures(visited, eval);
    lemma_failures(every, eval);
    assert forall|t: TileJob| #[trigger] sparse.contains(t) implies flat.contains(t) by {
        assert(visited.contains(t));
        assert(every.contains(t));
    }
    sparse.unique_seq_to_set();
    flat.unique_seq_to_set();
    assert(sparse.to_set().subset_of(flat.to_set()));
    vstd::set_lib::lemma_len_subset(sparse.to_set(), flat.to_set());
}

/// No tile below a tile without data has an image, as far as the bounds reach.
pub open spec fn prune_safe(
    eval: spec_fn(TileJob) -> Outcome,
    zb: Seq<ZoomBounds>,
    min_z: nat,
) -> bool {
    forall|c: TileJob, k: nat|
        in_bounds(zb, min_z, c) && 1 <= k <= c.z - min_z && (#[trigger] eval(
            ancestor(c, k),
        )) is NoData ==> !(eval(c) is Rendered)
}

/// The frontier path and the flat path write the same tiles with the same images, and each tile
/// once, provided that no tile below a tile without data has an image.
pub proof fn law_frontier_matches_flat(
    eval: spec_fn(TileJob) -> Outcome,
    zb: Seq<ZoomBounds>,
    min_z: nat,
    max_z: nat,
)
    requires
        pyramid(zb, min_z, max_z),
        prune_safe(eval, zb, min_z),
    ensures
        ({
            let sparse = rendered(frontier_visits(eval, zb, min_z, max_z), eval);
            let flat = rendered(candidates(zb, min_z), eval);
            &&& sparse.no_duplicates()
            &&& flat.no_duplicates()
            &&& sparse.len() == flat.len()
            &&& forall|w: (TileJob, Seq<u8>)| #[trigger] sparse.contains(w) <==> flat.contains(w)
        }),
{
    let visited = frontier_visits(eval, zb, min_z, max_z);
    let every = candidates(zb, min_z);
    let sparse = rendered(visited, eval);
    let flat = rendered(every, eval);
    law_frontier_visits_exact(eval, zb, min_z, max_z);
    law_candidates_exact(zb, min_z);
    lemma_rendered(visited, eval);
    lemma_rendered(every, eval);
    assert forall|w: (TileJob, Seq<u8>)| #[trigger] sparse.contains(w) <==> flat.contains(w) by {
        assert(visited.contains(w.0) ==> every.contains(w.0));
        if every.contains(w.0) && eval(w.0) == Outcome::Rendered(w.1) {
            assert(unpruned(w.0, (w.0.z - min_z) as nat, eval));
            assert(visited.contains(w.0));
        }
    }
    sparse.unique_seq_to_set();
    flat.unique_seq_to_set();
    assert(sparse.to_set() =~= flat.to_set());
}

/// The bounds of an extent make a pyramid at every zoom up to 32.
pub proof fn law_extent_is_pyramid(
    west: i64,
    south: i64,
    east: i64,
    north: i64,
    min_z: nat,
    max_z: nat,
)
    requires
        min_z <= max_z <= 32,
    ensures
        pyramid(bounds_of_zooms(west, south, east, north, min_z, max_z), min_z, max_z),
{
    law_bounds_nest(west, south, east, north, min_z, max_z);
}

/// Wherever the descent comes to a tile of an inner zoom, the bounds of the next zoom are known
/// and its children can be addressed; and the descent goes on to tiles within bounds only.
pub proof fn law_descent_stays_in_bounds(
    t: TileJob,
    o: Outcome,
    zb: Seq<ZoomBounds>,
    min_z: nat,
    max_z: nat,
)
    requires
        pyramid(zb, min_z, max_z),
        in_bounds(zb, min_z, t),
    ensures
        t.z < max_z ==> min_z <= t.z && t.z - min_z + 1 < zb.len() && has_children(t),
        forall|c: TileJob| #[trigger]
            next_tiles(t, o, zb, min_z, max_z).contains(c) ==> in_bounds(zb, min_z, c),
{
    lemma_next_row(t, o, zb, min_z, max_z);
}

/// Whether a result of the flat path is what `eval` says of the tile.
pub open spec fn agrees<E>(
    eval: spec_fn(TileJob) -> Outcome,
    t: TileJob,
    result: Result<Option<Vec<u8>>, E>,
) -> bool {
    match result {
        Ok(Some(data)) => eval(t) == Outcome::Rendered(data@),
        Ok(None) => eval(t) is Blank || eval(t) is NoData,
        Err(_) => eval(t) is Failed,
    }
}

/// The flat path writes, of each chunk, exactly the images that its tiles yield, in order.
pub proof fn law_chunk_writes_rendered<E>(
    chunk: Seq<TileJob>,
    results: Seq<Result<Option<Vec<u8>>, E>>,
    eval: spec_fn(TileJob) -> Outcome,
)
    requires
        results.len() <= chunk.len(),
        forall|i: int| 0 <= i < results.len() ==> agrees(eval, chunk[i], #[trigger] results[i]),
    ensures
        written(steps(chunk, results)) == rendered(chunk.take(results.len() as int), eval),
    decreases results.len(),
{
    let seen = chunk.take(results.len() as int);
    if results.len() > 0 {
        let n = results.len() - 1;
        let front = results.drop_last();
        let todo = steps(chunk, results);
        assert forall|i: int| 0 <= i < front.len() implies agrees(
            eval,
            chunk[i],
            #[trigger] front[i],
        ) by {
            assert(front[i] == results[i]);
        }
        law_chunk_writes_rendered(chunk, front, eval);
        assert(seen.drop_last() =~= chunk.take(n));
        assert(agrees(eval, chunk[n], results[n]));
        if !(results.last() == Ok::<Option<Vec<u8>>, E>(None)) {
            assert(todo.drop_last() =~= steps(chunk, front));
        }
    }
}

/// The flat path reports, of each chunk, exactly the tiles that fail, in order.
pub proof fn law_chunk_reports_failures<E>(
    chunk: Seq<TileJob>,
    results: Seq<Result<Option<Vec<u8>>, E>>,
    eval: spec_fn(TileJob) -> Outcome,
)
    requires
        results.len() <= chunk.len(),
        forall|i: int| 0 <= i < results.len() ==> agrees(eval, chunk[i], #[trigger] results[i]),
    ensures
        reported(steps(chunk, results)) == failures(chunk.take(results.len() as int), eval),
    decreases results.len(),
{
    if results.len() > 0 {
        let n = results.len() - 1;
        let front = results.drop_last();
        let seen = chunk.take(results.len() as int);
        assert forall|i: int| 0 <= i < front.len() implies agrees(
            eval,
            chunk[i],
            #[trigger] front[i],
        ) by {
            assert(front[i] == results[i]);
        }
        law_chunk_reports_failures(chunk, front, eval);
        assert(seen.drop_last() =~= chunk.take(n));
        assert(agrees(eval, chunk[n], results[n]));
        if !(results.last() == Ok::<Option<Vec<u8>>, E>(None)) {
            assert(steps(chunk, results).drop_last() =~= steps(chunk, front));
        }
    }
}

/// Where the flat path cuts its tiles into chunks changes neither what it writes nor what it
/// reports.
pub proof fn law_chunks_join(
    a: Seq<TileJob>,
    b: Seq<TileJob>,
    eval: spec_fn(TileJob) -> Outcome,
)
    ensures
        rendered(a + b, eval) == rendered(a, eval) + rendered(b, eval),
        failures(a + b, eval) == failures(a, eval) + failures(b, eval),
    decreases b.len(),
{
    if b.len() > 0 {
        law_chunks_join(a, b.drop_last(), eval);
        assert((a + b).drop_last() =~= a + b.drop_last());
        assert(rendered(a + b, eval) =~= rendered(a, eval) + rendered(b, eval));
        assert(failures(a + b, eval) =~= failures(a, eval) + failures(b, eval));
    } else {
        assert(a + b =~= a);
        assert(rendered(a + b, eval) =~= rendered(a, eval) + rendered(b, eval));
        assert(failures(a + b, eval) =~= failures(a, eval) + failures(b, eval));
    }
}

/// Tiles that are evaluated in ascending order of their PMTiles ids are written in that order.
pub proof fn law_writes_keep_id_order(s: Seq<TileJob>, eval: spec_fn(TileJob) -> Outcome)
    requires
        forall|i: int, j: int| 0 <= i < j < s.len() ==> job_id(s[i]) < job_id(s[j]),
    ensures
        forall|i: int, j: int|
            0 <= i < j < rendered(s, eval).len() ==> job_id(rendered(s, eval)[i].0) < job_id(
                rendered(s, eval)[j].0,
            ),
    decreases s.len(),
{
    if s.len() > 0 {
        let front = s.drop_last();
        let r = rendered(s, eval);
        let q = rendered(front, eval);
        law_writes_keep_id_order(front, eval);
        lemma_rendered(front, eval);
        assert forall|i: int, j: int| 0 <= i < j < r.len() implies job_id(r[i].0) < job_id(
            r[j].0,
        ) by {
            assert(r[i] == q[i]);
            if j < q.len() {
                assert(r[j] == q[j]);
            } else {
                assert(q.contains(q[i]));
                assert(s[front.index_of(q[i].0)] == q[i].0);
                assert(r[j].0 == s[s.len() - 1]);
            }
        }
    }
}

proof fn lemma_counts(
    s: Seq<TileJob>,
    t: TileJob,
    data: Seq<u8>,
    eval: spec_fn(TileJob) -> Outcome,
)
    ensures
        rendered(s, eval).to_multiset().count((t, data)) == (if eval(t) == Outcome::Rendered(
            data,
        ) {
            s.to_multiset().count(t)
        } else {
            0
        }),
        failures(s, eval).to_multiset().count(t) == (if eval(t) is Failed {
            s.to_multiset().count(t)
        } else {
            0
        }),
    decreases s.len(),
{
    broadcast use group_to_multiset_ensures;

    if s.len() > 0 {
        lemma_counts(s.drop_last(), t, data, eval);
        assert(s =~= s.drop_last().push(s.last()));
    } else {
        assert(s =~= Seq::<TileJob>::empty());
    }
}

/// The order in which the same tiles are evaluated changes neither which images there are and how
/// many, nor which tiles fail and how many.
pub proof fn law_order_keeps_images(
    a: Seq<TileJob>,
    b: Seq<TileJob>,
    eval: spec_fn(TileJob) -> Outcome,
)
    requires
        a.to_multiset() == b.to_multiset(),
    ensures
        rendered(a, eval).to_multiset() == rendered(b, eval).to_multiset(),
        rendered(a, eval).len() == rendered(b, eval).len(),
        failures(a, eval).to_multiset() == failures(b, eval).to_multiset(),
        failures(a, eval).len() == failures(b, eval).len(),
        forall|w: (TileJob, Seq<u8>)| #[trigger]
            rendered(a, eval).contains(w) <==> rendered(b, eval).contains(w),
{
    broadcast use group_to_multiset_ensures;

    let ra = rendered(a, eval);
    let rb = rendered(b, eval);
    let fa = failures(a, eval);
    let fb = failures(b, eval);
    assert forall|w: (TileJob, Seq<u8>)| #[trigger] ra.to_multiset().count(w)
        == rb.to_multiset().count(w) by {
        lemma_counts(a, w.0, w.1, eval);
        lemma_counts(b, w.0, w.1, eval);
    }
    assert forall|t: TileJob| #[trigger] fa.to_multiset().count(t) == fb.to_multiset().count(t) by {
        lemma_counts(a, t, Seq::empty(), eval);
        lemma_counts(b, t, Seq::empty(), eval);
    }
    assert(ra.to_multiset() =~= rb.to_multiset());
    assert(fa.to_multiset() =~= fb.to_multiset());
    assert(ra.to_multiset().len() == ra.len() && rb.to_multiset().len() == rb.len());
    assert(fa.to_multiset().len() == fa.len() && fb.to_multiset().len() == fb.len());
    assert forall|w: (TileJob, Seq<u8>)| #[trigger] ra.contains(w) <==> rb.contains(w) by {
        assert(ra.contains(w) <==> ra.to_multiset().count(w) > 0);
        assert(rb.contains(w) <==> rb.to_multiset().count(w) > 0);
    }
}

proof fn lemma_empty_below(
    c: TileJob,
    k: nat,
    source: spec_fn(TileJob) -> SourceExtent,
    nodata: spec_fn(int, int) -> bool,
    src_w: int,
    src_h: int,
    zb: Seq<ZoomBounds>,
    min_z: nat,
    max_z: nat,
)
    requires
        pyramid(zb, min_z, max_z),
        forall|c: TileJob|
            in_bounds(zb, min_z, c) && c.z > min_z ==> source(parent(c)).reads_all_of(
                #[trigger] source(c),
                src_w,
                src_h,
            ),
        in_bounds(zb, min_z, c),
        k <= c.z - min_z,
        source(ancestor(c, k)).is_empty(nodata, src_w, src_h),
    ensures
        source(c).is_empty(nodata, src_w, src_h),
    decreases k,
{
    if k > 0 {
        let a = ancestor(c, (k - 1) as nat);
        lemma_ancestors_in_bounds(c, (k - 1) as nat, zb, min_z, max_z);
        lemma_ancestor_zoom(c, (k - 1) as nat);
        assert(source(parent(a)).reads_all_of(source(a), src_w, src_h));
        law_nodata_window_prunes(source(parent(a)), source(a), nodata, src_w, src_h);
        lemma_empty_below(c, (k - 1) as nat, source, nodata, src_w, src_h, zb, min_z, max_z);
    }
}

/// Pruning is safe where the source window of a tile lies within that of its parent, a tile counts
/// as having no data only when its source window has none, and then gets no image.
pub proof fn law_windows_prune_safely(
    eval: spec_fn(TileJob) -> Outcome,
    source: spec_fn(TileJob) -> SourceExtent,
    nodata: spec_fn(int, int) -> bool,
    src_w: int,
    src_h: int,
    zb: Seq<ZoomBounds>,
    min_z: nat,
    max_z: nat,
)
    requires
        pyramid(zb, min_z, max_z),
        forall|c: TileJob|
            in_bounds(zb, min_z, c) && c.z > min_z ==> source(parent(c)).reads_all_of(
                #[trigger] source(c),
                src_w,
                src_h,
            ),
        forall|c: TileJob|
            in_bounds(zb, min_z, c) && (#[trigger] eval(c)) is NoData ==> source(c).is_empty(
                nodata,
                src_w,
                src_h,
            ),
        forall|c: TileJob|
            in_bounds(zb, min_z, c) && source(c).is_empty(nodata, src_w, src_h) ==> !((
            #[trigger] eval(c)) is Rendered),
    ensures
        prune_safe(eval, zb, min_z),
{
    assert forall|c: TileJob, k: nat|
        in_bounds(zb, min_z, c) && 1 <= k <= c.z - min_z && (#[trigger] eval(
            ancestor(c, k),
        )) is NoData implies !(eval(c) is Rendered) by {
        lemma_ancestors_in_bounds(c, k, zb, min_z, max_z);
        lemma_empty_below(c, k, source, nodata, src_w, src_h, zb, min_z, max_z);
    }
}

/// A function that never decreases.
pub open spec fn monotone(f: spec_fn(int) -> int) -> bool {
    forall|a: int, b: int| a <= b ==> #[trigger] f(a) <= #[trigger] f(b)
}

/// Whether the source pixels of the tiles within bounds follow from the world positions of their
/// edges: the first column from the western edge, the last from the eastern, the first row from
/// the northern edge, the last from the southern, each by a function that never decreases. So it
/// is for a source in plain longitude and latitude.
pub open spec fn separable(
    source: spec_fn(TileJob) -> SourceExtent,
    first_col: spec_fn(int) -> int,
    last_col: spec_fn(int) -> int,
    first_row: spec_fn(int) -> int,
    last_row: spec_fn(int) -> int,
    zb: Seq<ZoomBounds>,
    min_z: nat,
) -> bool {
    &&& monotone(first_col)
    &&& monotone(last_col)
    &&& monotone(first_row)
    &&& monotone(last_row)
    &&& forall|t: TileJob|
        in_bounds(zb, min_z, t) ==> {
            let e = #[trigger] source(t);
            &&& e.px_min == first_col(tile_start(t.x as int, t.z as nat))
            &&& e.px_max == last_col(tile_start(t.x + 1, t.z as nat))
            &&& e.py_min == first_row(tile_start(t.y as int, t.z as nat))
            &&& e.py_max == last_row(tile_start(t.y + 1, t.z as nat))
            &&& e.px_min <= e.px_max
            &&& e.py_min <= e.py_max
        }
}

/// The source pixels of a tile lie within those of every tile further out that holds it, where
/// columns and rows follow separately from the edges of the tiles.
pub proof fn law_source_nests(
    c: TileJob,
    k: nat,
    source: spec_fn(TileJob) -> SourceExtent,
    first_col: spec_fn(int) -> int,
    last_col: spec_fn(int) -> int,
    first_row: spec_fn(int) -> int,
    last_row: spec_fn(int) -> int,
    zb: Seq<ZoomBounds>,
    min_z: nat,
    max_z: nat,
)
    requires
        pyramid(zb, min_z, max_z),
        max_z <= 63,
        separable(source, first_col, last_col, first_row, last_row, zb, min_z),
        in_bounds(zb, min_z, c),
        k <= c.z - min_z,
    ensures
        source(c).within(source(ancestor(c, k))),
    decreases k,
{
    lemma_ancestors_in_bounds(c, k, zb, min_z, max_z);
    if k > 0 {
        let a = ancestor(c, (k - 1) as nat);
        let p = ancestor(c, k);
        law_source_nests(
            c,
            (k - 1) as nat,
            source,
            first_col,
            last_col,
            first_row,
            last_row,
            zb,
            min_z,
            max_z,
        );
        lemma_ancestors_in_bounds(c, (k - 1) as nat, zb, min_z, max_z);
        lemma_ancestor_zoom(c, (k - 1) as nat);
        assert(p == parent(a));
        law_spans_nest(a.x as int, p.z as nat);
        law_spans_nest(a.y as int, p.z as nat);
        assert(a.z as nat == p.z as nat + 1);
        assert(source(a).within(source(p)));
    }
}

/// Every tile below a tile without data gets no image, whatever its samples, where the source
/// window of each tile lies within that of its parent. It is enough that the buffer of the tile
/// above hides no data of its window, and that the buffer of the tile below shows none that its
/// window does not have.
pub proof fn law_below_nodata_is_empty(
    c: TileJob,
    k: nat,
    source: spec_fn(TileJob) -> SourceExtent,
    zb: Seq<ZoomBounds>,
    min_z: nat,
    max_z: nat,
    above: Seq<bool>,
    mask: Seq<bool>,
    nodata: spec_fn(int, int) -> bool,
    src_w: int,
    src_h: int,
    samples: Seq<Option<i64>>,
    encoding: Encoding,
    round: nat,
    format: Format,
    compress: Option<u8>,
    eval: Result<TileEval, EncodeError>,
    process: Result<Option<Vec<u8>>, EncodeError>,
)
    requires
        pyramid(zb, min_z, max_z),
        forall|c: TileJob|
            in_bounds(zb, min_z, c) && c.z > min_z ==> source(parent(c)).reads_all_of(
                #[trigger] source(c),
                src_w,
                src_h,
            ),
        in_bounds(zb, min_z, c),
        k <= c.z - min_z,
        all_nodata(above) ==> source(ancestor(c, k)).is_empty(nodata, src_w, src_h),
        source(c).is_empty(nodata, src_w, src_h) ==> all_nodata(mask),
        all_nodata(above),
        evaluates(mask, samples, encoding, round, format, compress, eval),
        processes(mask, samples, encoding, round, format, compress, process),
    ensures
        eval == Ok::<TileEval, EncodeError>(TileEval::NoData),
        process == Ok::<Option<Vec<u8>>, EncodeError>(None),
{
    lemma_empty_below(c, k, source, nodata, src_w, src_h, zb, min_z, max_z);
}

/// Every tile below a tile without data gets no image, whatever its samples, where columns and
/// rows follow separately from the edges of the tiles and both tiles are read pixel for pixel.
pub proof fn law_separable_below_nodata_is_empty(
    c: TileJob,
    k: nat,
    source: spec_fn(TileJob) -> SourceExtent,
    first_col: spec_fn(int) -> int,
    last_col: spec_fn(int) -> int,
    first_row: spec_fn(int) -> int,
    last_row: spec_fn(int) -> int,
    zb: Seq<ZoomBounds>,
    min_z: nat,
    max_z: nat,
    above: Seq<bool>,
    mask: Seq<bool>,
    nodata: spec_fn(int, int) -> bool,
    src_w: int,
    src_h: int,
    samples: Seq<Option<i64>>,
    encoding: Encoding,
    round: nat,
    format: Format,
    compress: Option<u8>,
    eval: Result<TileEval, EncodeError>,
    process: Result<Option<Vec<u8>>, EncodeError>,
)
    requires
        pyramid(zb, min_z, max_z),
        max_z <= 63,
        separable(source, first_col, last_col, first_row, last_row, zb, min_z),
        in_bounds(zb, min_z, c),
        k <= c.z - min_z,
        src_w > 0,
        src_h > 0,
        holds_window(above, source(ancestor(c, k)), nodata, src_w, src_h),
        holds_window(mask, source(c), nodata, src_w, src_h),
        all_nodata(above),
        evaluates(mask, samples, encoding, round, format, compress, eval),
        processes(mask, samples, encoding, round, format, compress, process),
    ensures
        eval == Ok::<TileEval, EncodeError>(TileEval::NoData),
        process == Ok::<Option<Vec<u8>>, EncodeError>(None),
{
    let outer = source(ancestor(c, k));
    law_source_nests(
        c,
        k,
        source,
        first_col,
        last_col,
        first_row,
        last_row,
        zb,
        min_z,
        max_z,
    );
    law_window_nests(outer, source(c), src_w, src_h);
    law_buffer_shows_window(above, outer, nodata, src_w, src_h);
    law_buffer_shows_window(mask, source(c), nodata, src_w, src_h);
    law_nodata_within_is_empty(
        outer,
        source(c),
        above,
        mask,
        nodata,
        src_w,
        src_h,
        samples,
        encoding,
        round,
        format,
        compress,
        eval,
        process,
    );
}

/// Every candidate is generated in id order for PMTiles. For MBTiles the frontier is used exactly
/// from 4096 candidates on.
pub proof fn law_strategy_exact(
    container: Container,
    west: i64,
    south: i64,
    east: i64,
    north: i64,
    min_z: u8,
    max_z: u8,
    total: u64,
    s: Strategy,
)
    requires
        call_ensures(choose_strategy, (container, west, south, east, north, min_z, max_z), s),
        call_ensures(candidate_total, (west, south, east, north, min_z, max_z), total),
    ensures
        container is Pmtiles ==> s is SortedFlat,
        container is Mbtiles && total < 4096 ==> s is Flat,
        container is Mbtiles && total >= 4096 ==> s is Frontier,
{
}

/// The flat path evaluates exactly the candidates: in their own order, or, sorted, in strictly
/// ascending order of their PMTiles ids.
pub proof fn law_flat_tiles_exact(
    west: i64,
    south: i64,
    east: i64,
    north: i64,
    min_z: u8,
    max_z: u8,
    sort: bool,
    every: Vec<TileJob>,
    tiles: Vec<TileJob>,
)
    requires
        call_ensures(candidate_tiles, (west, south, east, north, min_z, max_z), every),
        call_ensures(flat_tiles, (west, south, east, north, min_z, max_z, sort), tiles),
    ensures
        !sort ==> tiles@ == every@,
        tiles@.len() == every@.len(),
        forall|t: TileJob| #[trigger] tiles@.contains(t) <==> every@.contains(t),
        sort ==> forall|i: int, j: int|
            0 <= i < j < tiles@.len() ==> tile_id(
                (#[trigger] tiles@[i]).z,
                tiles@[i].x,
                tiles@[i].y,
            ) < tile_id((#[trigger] tiles@[j]).z, tiles@[j].x, tiles@[j].y),
{
    broadcast use group_to_multiset_ensures;

    if sort {
        assert(tiles@.to_multiset() == every@.to_multiset());
        assert(tiles@.to_multiset().len() == tiles@.len());
        assert(every@.to_multiset().len() == every@.len());
        assert forall|t: TileJob| #[trigger] tiles@.contains(t) <==> every@.contains(t) by {
            assert(tiles@.contains(t) <==> tiles@.to_multiset().count(t) > 0);
            assert(every@.contains(t) <==> every@.to_multiset().count(t) > 0);
        }
        assert forall|i: int, j: int| 0 <= i < j < tiles@.len() implies tile_id(
            (#[trigger] tiles@[i]).z,
            tiles@[i].x,
            tiles@[i].y,
        ) < tile_id((#[trigger] tiles@[j]).z, tiles@[j].x, tiles@[j].y) by {
            assert(job_id(tiles@[i]) < job_id(tiles@[j]));
        }
    }
}

/// Whether `todo` does, one after another and each once, what is to be done for the tiles at the
/// places `at` of the chunk, and nothing is to be done for the others.
pub open spec fn done_in_order<E>(
    chunk: Seq<TileJob>,
    results: Seq<Result<Option<Vec<u8>>, E>>,
    todo: Seq<Step<E>>,
    at: Seq<int>,
) -> bool {
    &&& at.len() == todo.len()
    &&& forall|a: int, b: int| 0 <= a < b < at.len() ==> at[a] < at[b]
    &&& forall|k: int|
        0 <= k < at.len() ==> 0 <= #[trigger] at[k] < results.len() && (match todo[k] {
            Step::Write(t, data) => t == chunk[at[k]] && results[at[k]] == Ok::<
                Option<Vec<u8>>,
                E,
            >(Some(data)),
            Step::Report(t, e) => t == chunk[at[k]] && results[at[k]] == Err::<
                Option<Vec<u8>>,
                E,
            >(e),
        })
    &&& forall|i: int|
        0 <= i < results.len() && !at.contains(i) ==> #[trigger] results[i] == Ok::<
            Option<Vec<u8>>,
            E,
        >(None)
}

proof fn lemma_steps_in_order<E>(
    chunk: Seq<TileJob>,
    results: Seq<Result<Option<Vec<u8>>, E>>,
) -> (at: Seq<int>)
    ensures
        done_in_order(chunk, results, steps(chunk, results), at),
    decreases results.len(),
{
    if results.len() == 0 {
        Seq::empty()
    } else {
        let n = results.len() - 1;
        let front = results.drop_last();
        let before = lemma_steps_in_order(chunk, front);
        let last = results.last();
        let todo = steps(chunk, results);
        let at = if last == Ok::<Option<Vec<u8>>, E>(None) {
            before
        } else {
            before.push(n)
        };
        assert forall|k: int| 0 <= k < at.len() implies 0 <= #[trigger] at[k] < results.len() && (
        match todo[k] {
            Step::Write(t, data) => t == chunk[at[k]] && results[at[k]] == Ok::<
                Option<Vec<u8>>,
                E,
            >(Some(data)),
            Step::Report(t, e) => t == chunk[at[k]] && results[at[k]] == Err::<
                Option<Vec<u8>>,
                E,
            >(e),
        }) by {
            if k < before.len() {
                assert(at[k] == before[k]);
                assert(todo[k] == steps(chunk, front)[k]);
                assert(front[before[k]] == results[before[k]]);
            }
        }
        assert forall|i: int| 0 <= i < results.len() && !at.contains(i) implies
            #[trigger] results[i] == Ok::<Option<Vec<u8>>, E>(None) by {
            if i < n {
                if before.contains(i) {
                    assert(at[before.index_of(i)] == i);
                }
                assert(front[i] == results[i]);
            } else if !(last == Ok::<Option<Vec<u8>>, E>(None)) {
                assert(at[before.len() as int] == n);
            }
        }
        assert forall|a: int, b: int| 0 <= a < b < at.len() implies at[a] < at[b] by {
            assert(at[a] == before[a]);
            if b < before.len() {
                assert(at[b] == before[b]);
            }
        }
        at
    }
}

/// What is to be done for a chunk comes in the order of its tiles: each image is to be written for
/// its own tile and each failure to be reported for its own, none of them twice, and nothing is to
/// be done for the empty tiles alone.
pub proof fn law_chunk_settled_exactly<E>(
    chunk: &[TileJob],
    results: Vec<Result<Option<Vec<u8>>, E>>,
    todo: Vec<Step<E>>,
)
    requires
        call_ensures(settle_chunk::<E>, (chunk, results), todo),
    ensures
        exists|at: Seq<int>| done_in_order(chunk@, results@, todo@, at),
{
    let at = lemma_steps_in_order(chunk@, results@);
    assert(done_in_order(chunk@, results@, todo@, at));
}

/// After a tile of the descent, its image is to be written if it has one and its failure reported
/// if it failed. The descent ends at a tile without data and at the last zoom; everywhere else,
/// be the tile rendered, blank or failed, it goes on to the quarters of the tile that lie within the
/// bounds of the next zoom and to no other tile, to each once, the northern ones first and from west
/// to east.
pub proof fn law_descend_exact<E>(
    t: TileJob,
    result: Result<TileEval, E>,
    zb: &[ZoomBounds],
    min_z: u8,
    max_z: u8,
    s: Settled<E>,
)
    requires
        call_ensures(descend::<E>, (t, result, zb, min_z, max_z), s),
        t.z < max_z && !(result == Ok::<TileEval, E>(TileEval::NoData)) ==> {
            &&& min_z <= t.z
            &&& t.z - min_z + 1 < zb@.len()
            &&& t.x <= 0x7FFF_FFFF
            &&& t.y <= 0x7FFF_FFFF
        },
    ensures
        match result {
            Ok(TileEval::Rendered(data)) => s.data == Some(data) && s.error is None,
            Ok(TileEval::Blank) => s.data is None && s.error is None,
            Ok(TileEval::NoData) => s.data is None && s.error is None,
            Err(e) => s.data is None && s.error == Some(e),
        },
        result == Ok::<TileEval, E>(TileEval::NoData) ==> s.children@.len() == 0,
        t.z >= max_z ==> s.children@.len() == 0,
        t.z < max_z && !(result == Ok::<TileEval, E>(TileEval::NoData)) ==> ({
            let b = zb@[t.z - min_z + 1];
            &&& forall|c: TileJob| #[trigger]
                s.children@.contains(c) <==> {
                    &&& c.z == t.z + 1
                    &&& 2 * t.x <= c.x <= 2 * t.x + 1
                    &&& 2 * t.y <= c.y <= 2 * t.y + 1
                    &&& b.x0 <= c.x <= b.x1
                    &&& b.y0 <= c.y <= b.y1
                }
            &&& forall|i: int, j: int|
                0 <= i < j < s.children@.len() ==> (#[trigger] s.children@[i]).y < (
                #[trigger] s.children@[j]).y || (s.children@[i].y == s.children@[j].y
                    && s.children@[i].x < s.children@[j].x)
        }),
{
    if t.z < max_z && !(result == Ok::<TileEval, E>(TileEval::NoData)) {
        lemma_children_plain(t, zb@[t.z - min_z + 1]);
    }
}

/// A chunk of images takes no more room than 4096 tiles do, and is not empty.
pub proof fn law_chunks_are_bounded()
    ensures
        CHUNK_SIZE == 4096,
{
}

} // verus!
