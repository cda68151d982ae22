//! Tile columns and rows.
//!
//! A *world position* is a point of the Web-Mercator square along one axis: west to east, or
//! north to south. It is held as a multiple of `2^-63` of the side of the square, rounded down,
//! in an `i64`; `0` is the western (northern) edge, and positions past the eastern (southern)
//! edge are held as `i64::MAX`.

use vstd::arithmetic::div_mod::{
    lemma_div_denominator, lemma_div_is_ordered, lemma_div_pos_is_pos,
};
use vstd::arithmetic::power2::{
    lemma2_to64, lemma2_to64_rest, lemma_pow2_adds, lemma_pow2_pos, lemma_pow2_strictly_increases,
    lemma_pow2_unfold, pow2,
};
use vstd::bits::{lemma_u64_pow2_no_overflow, lemma_u64_shl_is_mul, lemma_u64_shr_is_div};
use vstd::prelude::*;

verus! {

/// `v`, or the nearest end of `low..=high`.
pub open spec fn clamped(v: int, low: int, high: int) -> int {
    if v < low {
        low
    } else if v > high {
        high
    } else {
        v
    }
}

/// The number of tiles across the world at zoom `z`, as far as an `i64` holds it.
pub open spec fn tiles_across(z: nat) -> int {
    if z < 63 {
        pow2(z) as int
    } else {
        i64::MAX as int
    }
}

/// The tile that holds world position `pos` at zoom `z`; positions outside the world belong to
/// the nearest tile.
pub open spec fn tile_index(pos: int, z: nat) -> int {
    clamped(pos / pow2((63 - z) as nat) as int, 0, tiles_across(z) - 1)
}

/// The tile index as the 32 low bits that a tile address has room for. Up to zoom 32 that is the
/// whole index.
pub open spec fn tile_address(pos: int, z: nat) -> int {
    tile_index(pos, z) % 0x1_0000_0000
}

fn tile_at(pos: i64, z: u8) -> (r: u32)
    requires
        z < 64,
    ensures
        r == tile_address(pos as int, z as nat),
{
    let shift: u64 = 63 - z as u64;
    proof {
        lemma_pow2_pos(shift as nat);
        lemma_pow2_pos(z as nat);
    }
    if pos < 0 {
        proof {
            let d = pow2(shift as nat) as int;
            assert(pos as int / d < 0) by (nonlinear_arith)
                requires
                    pos < 0,
                    d > 0,
            ;
        }
        return 0;
    }
    let p: u64 = pos as u64;
    let q: u64 = p >> shift;
    proof {
        lemma_u64_shr_is_div(p, shift);
        if z < 63 {
            lemma_u64_pow2_no_overflow(z as nat);
            lemma_u64_shl_is_mul(1, z as u64);
        }
    }
    let last: u64 = if z == 63 {
        0x7FFF_FFFF_FFFF_FFFE
    } else {
        (1u64 << z as u64) - 1
    };
    let index: u64 = if q > last {
        last
    } else {
        q
    };
    let low: u32 = #[verifier::truncate] (index as u32);
    assert(low as u64 == index % 0x1_0000_0000u64) by (bit_vector)
        requires
            low == index as u32,
    ;
    low
}

/// The tile column that holds a west-to-east world position at zoom `z`.
pub fn lon_to_tile_x(lon: i64, z: u8) -> (x: u32)
    requires
        z < 64,
    ensures
        x == tile_address(lon as int, z as nat),
{
    tile_at(lon, z)
}

/// The tile row (row 0 is the northernmost) that holds a north-to-south world position at
/// zoom `z`.
pub fn lat_to_tile_y_xyz(lat: i64, z: u8) -> (y: u32)
    requires
        z < 64,
    ensures
        y == tile_address(lat as int, z as nat),
{
    tile_at(lat, z)
}

/// Up to zoom 62 a tile index is a column (row) of its zoom: at least 0 and below `2^z`.
pub proof fn law_tile_index_in_range(pos: i64, z: nat)
    requires
        z <= 62,
    ensures
        0 <= tile_index(pos as int, z) < pow2(z),
{
    lemma_pow2_pos(z);
}

/// Up to zoom 32 a tile address holds the whole tile index.
pub proof fn law_tile_address_is_index(pos: i64, z: nat)
    requires
        z <= 32,
    ensures
        tile_address(pos as int, z) == tile_index(pos as int, z),
        0 <= tile_address(pos as int, z) < pow2(z),
        pow2(z) <= 0x1_0000_0000,
{
    law_tile_index_in_range(pos, z);
    lemma2_to64();
    if z < 32 {
        lemma_pow2_strictly_increases(z, 32);
    }
}

/// Moving east (south) never moves to an earlier column (row).
pub proof fn law_tile_index_monotone(a: i64, b: i64, z: nat)
    requires
        a <= b,
        z <= 63,
    ensures
        tile_index(a as int, z) <= tile_index(b as int, z),
{
    lemma_pow2_pos((63 - z) as nat);
    lemma_pow2_pos(z);
    lemma_div_is_ordered(a as int, b as int, pow2((63 - z) as nat) as int);
}

/// Zooms nest: the tile that holds a position is a child of the tile that holds it one zoom
/// further out.
pub proof fn law_tile_index_halves(pos: i64, z: nat)
    requires
        z < 62,
    ensures
        tile_index(pos as int, z + 1) / 2 == tile_index(pos as int, z),
{
    let inner = pow2((62 - z) as nat) as int;
    let outer = pow2((63 - z) as nat) as int;
    lemma_pow2_pos((62 - z) as nat);
    lemma_pow2_pos((63 - z) as nat);
    lemma_pow2_unfold((63 - z) as nat);
    assert(outer == inner * 2);
    assert((63 - (z + 1)) as nat == (62 - z) as nat);
    lemma_index_unclamped(pos, z);
    lemma_index_unclamped(pos, z + 1);
    if pos >= 0 {
        lemma_div_denominator(pos as int, inner, 2);
    }
}

/// The world position at which column (row) `index` of zoom `z` begins.
pub open spec fn tile_start(index: int, z: nat) -> int {
    index * pow2((63 - z) as nat)
}

/// A tile holds the positions from where it begins up to where the next one begins.
pub proof fn law_tile_holds_its_span(pos: i64, index: int, z: nat)
    requires
        z <= 62,
        0 <= pos,
    ensures
        tile_index(pos as int, z) == index <==> tile_start(index, z) <= pos < tile_start(
            index + 1,
            z,
        ),
{
    let p = pos as int;
    let d = pow2((63 - z) as nat) as int;
    lemma_pow2_pos((63 - z) as nat);
    lemma_index_unclamped(pos, z);
    assert(p / d == index <==> index * d <= p < (index + 1) * d) by (nonlinear_arith)
        requires
            0 <= p,
            d > 0,
    ;
}

/// A tile lies within the tile one zoom further out that holds it.
pub proof fn law_spans_nest(index: int, z: nat)
    requires
        z < 63,
        0 <= index,
    ensures
        tile_start(index / 2, z) <= tile_start(index, z + 1),
        tile_start(index + 1, z + 1) <= tile_start(index / 2 + 1, z),
{
    let inner = pow2((62 - z) as nat) as int;
    lemma_pow2_pos((62 - z) as nat);
    lemma_pow2_unfold((63 - z) as nat);
    assert((63 - (z + 1)) as nat == (62 - z) as nat);
    assert(pow2((63 - z) as nat) == 2 * inner);
    let half = index / 2;
    assert(half * (2 * inner) <= index * inner && (index + 1) * inner <= (half + 1) * (2 * inner))
        by (nonlinear_arith)
        requires
            2 * half <= index <= 2 * half + 1,
            inner > 0,
    ;
}

proof fn lemma_index_unclamped(pos: i64, z: nat)
    requires
        z <= 62,
    ensures
        pos < 0 ==> tile_index(pos as int, z) == 0,
        pos >= 0 ==> tile_index(pos as int, z) == pos as int / pow2((63 - z) as nat) as int,
{
    let d = pow2((63 - z) as nat) as int;
    let n = pow2(z) as int;
    lemma_pow2_pos((63 - z) as nat);
    lemma_pow2_pos(z);
    lemma_pow2_adds((63 - z) as nat, z);
    lemma2_to64();
    lemma2_to64_rest();
    assert(d * n == 0x8000_0000_0000_0000);
    if pos < 0 {
        assert(pos as int / d < 0) by (nonlinear_arith)
            requires
                pos < 0,
                d > 0,
        ;
    } else {
        lemma_div_pos_is_pos(pos as int, d);
        assert(pos as int / d < n) by (nonlinear_arith)
            requires
                0 <= pos < d * n,
                d > 0,
        ;
    }
}

/// The address of the tile `index` whose span of `2^(63 - z)` positions holds `pos`, or the western
/// (northern) edge where `pos` lies before it.
proof fn lemma_address_of_span(pos: i64, z: nat, index: int)
    requires
        z <= 62,
        index * pow2((63 - z) as nat) <= (if pos < 0 { 0 } else { pos as int }),
        (if pos < 0 { 0 } else { pos as int }) < (index + 1) * pow2((63 - z) as nat),
    ensures
        tile_address(pos as int, z) == index % 0x1_0000_0000,
        z <= 32 ==> tile_address(pos as int, z) == index,
{
    let p: int = if pos < 0 { 0 } else { pos as int };
    let d = pow2((63 - z) as nat) as int;
    lemma_pow2_pos((63 - z) as nat);
    lemma_index_unclamped(pos, z);
    assert(p / d == index) by (nonlinear_arith)
        requires
            0 <= p,
            d > 0,
            index * d <= p < (index + 1) * d,
    ;
    if pos < 0 {
        assert(index == 0) by (nonlinear_arith)
            requires
                d > 0,
                index * d <= 0 < (index + 1) * d,
        ;
    }
    if z <= 32 {
        law_tile_address_is_index(pos, z);
    }
}

/// Up to zoom 32 the address of a position is at most `index` exactly when the position lies before
/// the end of tile `index`, and at least `index` exactly when it does not lie before its beginning.
pub(crate) proof fn lemma_address_against_span(pos: i64, z: nat, index: int)
    requires
        z <= 32,
        0 <= index,
    ensures
        tile_address(pos as int, z) <= index <==> (if pos < 0 { 0 } else { pos as int }) < (index
            + 1) * pow2((63 - z) as nat),
        index <= tile_address(pos as int, z) <==> index * pow2((63 - z) as nat) <= (if pos < 0 {
            0
        } else {
            pos as int
        }),
{
    let p: int = if pos < 0 { 0 } else { pos as int };
    let d = pow2((63 - z) as nat) as int;
    let q = p / d;
    lemma_pow2_pos((63 - z) as nat);
    assert(q * d <= p < (q + 1) * d) by (nonlinear_arith)
        requires
            0 <= p,
            d > 0,
            q == p / d,
    ;
    lemma_address_of_span(pos, z, q);
    assert(q <= index <==> p < (index + 1) * d) by (nonlinear_arith)
        requires
            d > 0,
            q * d <= p < (q + 1) * d,
    ;
    assert(index <= q <==> index * d <= p) by (nonlinear_arith)
        requires
            d > 0,
            q * d <= p < (q + 1) * d,
    ;
}

/// Whatever column `lon_to_tile_x` gives for a position up to zoom 62, it is the one whose span of
/// `2^(63 - z)` positions holds it, of which it has the low 32 bits; positions west of the world
/// belong to the first column.
pub proof fn law_column_holds_position(lon: i64, z: u8, x: u32, column: int)
    requires
        call_ensures(lon_to_tile_x, (lon, z), x),
        z <= 62,
        column * pow2((63 - z) as nat) <= (if lon < 0 { 0 } else { lon as int }),
        (if lon < 0 { 0 } else { lon as int }) < (column + 1) * pow2((63 - z) as nat),
    ensures
        x == column % 0x1_0000_0000,
        z <= 32 ==> x == column,
{
    lemma_address_of_span(lon, z as nat, column);
}

/// Whatever row `lat_to_tile_y_xyz` gives for a position up to zoom 62, it is the one whose span of
/// `2^(63 - z)` positions holds it, of which it has the low 32 bits; positions north of the world
/// belong to the first row.
pub proof fn law_row_holds_position(lat: i64, z: u8, y: u32, row: int)
    requires
        call_ensures(lat_to_tile_y_xyz, (lat, z), y),
        z <= 62,
        row * pow2((63 - z) as nat) <= (if lat < 0 { 0 } else { lat as int }),
        (if lat < 0 { 0 } else { lat as int }) < (row + 1) * pow2((63 - z) as nat),
    ensures
        y == row % 0x1_0000_0000,
        z <= 32 ==> y == row,
{
    lemma_address_of_span(lat, z as nat, row);
}

/// At zoom 63 every position is a column and a row of its own, but for the last, which belongs to
/// the one before.
pub proof fn law_last_zoom(pos: i64, x: u32, y: u32)
    requires
        call_ensures(lon_to_tile_x, (pos, 63u8), x),
        call_ensures(lat_to_tile_y_xyz, (pos, 63u8), y),
    ensures
        x == y,
        pos < 0 ==> x == 0,
        0 <= pos < i64::MAX ==> x == pos % 0x1_0000_0000,
        pos == i64::MAX ==> x == 0xFFFF_FFFE,
{
    lemma2_to64();
    assert(pow2((63 - 63) as nat) == 1);
    assert(pos as int / 1 == pos);
}

} // verus!
