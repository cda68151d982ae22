//! Terrain-RGB encoding.
//!
//! An elevation reaches the encoders as a *step count*: how many whole steps of the encoding lie
//! between the lowest encodable elevation and it, rounded down, or `None` where there is no data.

use crate::tile::clamped;
use vstd::arithmetic::div_mod::{
    lemma_div_is_ordered, lemma_fundamental_div_mod, lemma_mod_multiples_basic,
};
use vstd::arithmetic::mul::{lemma_mul_inequality, lemma_mul_is_commutative};
use vstd::arithmetic::power2::{lemma2_to64, lemma_pow2_pos, pow2};
use vstd::bits::{lemma_u64_pow2_no_overflow, lemma_u64_shl_is_mul, lemma_u64_shr_is_div};
use vstd::prelude::*;

verus! {

/// The RGB encoding scheme.
#[derive(Debug, Clone, Copy, PartialEq, Eq, Structural)]
pub enum Encoding {
    /// Mapbox terrain-RGB: height = base_val + (R·65536 + G·256 + B) · interval
    Mapbox,
    /// Terrarium (Mapzen): height = (R·256 + G + B/256) − 32768
    Terrarium,
}

/// The 24-bit number that a pixel holds: the step count that a client decodes from it.
pub open spec fn rgb_value(rgb: [u8; 3]) -> int {
    rgb@[0] * 65536 + rgb@[1] * 256 + rgb@[2]
}

/// `steps` with its lowest `round` bits zeroed.
pub open spec fn rounded(steps: int, round: nat) -> int {
    steps / (pow2(round) as int) * (pow2(round) as int)
}

/// The 24-bit number of a Mapbox pixel: the step count, held to 24 bits, with its lowest `round`
/// bits zeroed.
pub open spec fn mapbox_value(steps: int, round: nat) -> int {
    rounded(clamped(steps, 0, 0xFF_FFFF), round)
}

/// The 24-bit number of a Terrarium pixel: the step count, held to 24 bits.
pub open spec fn terrarium_value(steps: int) -> int {
    clamped(steps, 0, 0xFF_FFFF)
}

/// The 24-bit number of a pixel; 0 where there is no data.
pub open spec fn pixel_value(encoding: Encoding, steps: Option<i64>, round: nat) -> int {
    match steps {
        None => 0,
        Some(s) => match encoding {
            Encoding::Mapbox => mapbox_value(s as int, round),
            Encoding::Terrarium => terrarium_value(s as int),
        },
    }
}

/// The three bytes of a 24-bit number, the highest first.
fn split_rgb(value: u32) -> (rgb: [u8; 3])
    requires
        value <= 0xFF_FFFF,
    ensures
        rgb_value(rgb) == value,
{
    let rgb: [u8; 3] = [(value / 65536) as u8, (value / 256 % 256) as u8, (value % 256) as u8];
    rgb
}

/// A step count held to 24 bits.
fn held(steps: i64) -> (v: u32)
    ensures
        v == clamped(steps as int, 0, 0xFF_FFFF),
{
    if steps < 0 {
        0
    } else if steps > 0xFF_FFFF {
        0xFF_FFFF
    } else {
        steps as u32
    }
}

proof fn lemma_rounded_range(v: int, round: nat)
    requires
        0 <= v,
    ensures
        0 <= rounded(v, round) <= v,
{
    let d = pow2(round) as int;
    lemma_pow2_pos(round);
    assert(0 <= v / d * d <= v) by (nonlinear_arith)
        requires
            v >= 0,
            d > 0,
    ;
}

/// The number of a pixel has 24 bits.
pub(crate) proof fn lemma_pixel_value_range(encoding: Encoding, steps: Option<i64>, round: nat)
    ensures
        0 <= pixel_value(encoding, steps, round) <= 0xFF_FFFF,
{
    if let Some(s) = steps {
        lemma_rounded_range(clamped(s as int, 0, 0xFF_FFFF), round);
    }
}

/// Encodes a step count to Mapbox terrain-RGB: the count `⌊(elev − base_val) / interval⌋`, held to
/// 24 bits, with its lowest `round` bits zeroed. No data encodes to zero.
pub fn encode_mapbox(steps: Option<i64>, round: u32) -> (rgb: [u8; 3])
    requires
        steps is Some ==> round < 63,
    ensures
        rgb_value(rgb) == pixel_value(Encoding::Mapbox, steps, round as nat),
{
    let s: i64 = match steps {
        None => {
            return split_rgb(0);
        },
        Some(s) => s,
    };
    let v: u64 = held(s) as u64;
    let r: u64 = round as u64;
    let high: u64 = v >> r;
    proof {
        lemma_u64_shr_is_div(v, r);
        lemma_u64_pow2_no_overflow(r as nat);
        lemma_rounded_range(v as int, r as nat);
        lemma_u64_shl_is_mul(high, r);
    }
    let kept: u64 = high << r;
    split_rgb(kept as u32)
}

/// Encodes a step count to Terrarium terrain-RGB: the count `⌊(elev + 32768) · 256⌋`, held to the
/// encodable range of −32768 m to +32767.996 m. No data encodes to zero.
pub fn encode_terrarium(steps: Option<i64>) -> (rgb: [u8; 3])
    ensures
        rgb_value(rgb) == pixel_value(Encoding::Terrarium, steps, 0),
{
    match steps {
        None => split_rgb(0),
        Some(s) => split_rgb(held(s)),
    }
}

/// The command-line settings that are set to something, though the encoding has no use for them.
#[derive(Debug, Clone, Copy, PartialEq, Eq, Structural)]
pub struct IgnoredSettings {
    pub base_val: bool,
    pub interval: bool,
    pub round_digits: bool,
}

/// The default number of low bits that a Mapbox pixel leaves out.
pub const DEFAULT_ROUND_DIGITS: u32 = 3;

/// Which settings a run should warn about: Terrarium ignores the base value, the interval and the
/// rounding, so each that differs from its default is reported.
pub fn ignored_settings(
    encoding: Encoding,
    base_val_changed: bool,
    interval_changed: bool,
    round_digits: u32,
) -> (s: IgnoredSettings)
    ensures
        s.base_val == (encoding is Terrarium && base_val_changed),
        s.interval == (encoding is Terrarium && interval_changed),
        s.round_digits == (encoding is Terrarium && round_digits != DEFAULT_ROUND_DIGITS),
{
    let terrarium = encoding == Encoding::Terrarium;
    IgnoredSettings {
        base_val: terrarium && base_val_changed,
        interval: terrarium && interval_changed,
        round_digits: terrarium && round_digits != DEFAULT_ROUND_DIGITS,
    }
}

/// Two pixels that hold the same number are the same pixel.
pub proof fn law_rgb_value_injective(a: [u8; 3], b: [u8; 3])
    requires
        rgb_value(a) == rgb_value(b),
    ensures
        a@ == b@,
{
    assert(a@ =~= b@);
}

/// The lowest `round` bits of a Mapbox pixel are zero, whatever it encodes.
pub proof fn law_mapbox_low_bits_zero(steps: int, round: nat)
    ensures
        mapbox_value(steps, round) % (pow2(round) as int) == 0,
{
    let d = pow2(round) as int;
    lemma_pow2_pos(round);
    lemma_mod_multiples_basic(clamped(steps, 0, 0xFF_FFFF) / d, d);
}

/// A step count of the encodable range is decoded to itself with its lowest `round` bits zeroed:
/// at most `2^round - 1` steps too low, and exactly itself when `round` is 0.
pub proof fn law_mapbox_decodes(steps: int, round: nat)
    requires
        0 <= steps <= 0xFF_FFFF,
    ensures
        mapbox_value(steps, round) == rounded(steps, round),
        mapbox_value(steps, round) <= steps < mapbox_value(steps, round) + pow2(round),
        round == 0 ==> mapbox_value(steps, round) == steps,
{
    let d = pow2(round) as int;
    lemma_pow2_pos(round);
    lemma2_to64();
    lemma_fundamental_div_mod(steps, d);
    lemma_mul_is_commutative(steps / d, d);
    lemma_rounded_range(steps, round);
}

/// A step count below the encodable range is encoded as the lowest number, one above it as the
/// highest number whose lowest `round` bits are zero.
pub proof fn law_mapbox_saturates(steps: int, round: nat)
    ensures
        steps < 0 ==> mapbox_value(steps, round) == 0,
        steps > 0xFF_FFFF ==> mapbox_value(steps, round) == rounded(0xFF_FFFF, round),
        mapbox_value(steps, round) <= rounded(0xFF_FFFF, round),
{
    lemma_rounded_range(0, round);
    law_encoding_monotone(steps, if steps > 0xFF_FFFF { steps } else { 0xFF_FFFF }, round);
}

/// A higher elevation never encodes to a smaller number.
pub proof fn law_encoding_monotone(a: int, b: int, round: nat)
    requires
        a <= b,
    ensures
        mapbox_value(a, round) <= mapbox_value(b, round),
        terrarium_value(a) <= terrarium_value(b),
{
    let d = pow2(round) as int;
    lemma_pow2_pos(round);
    let low = clamped(a, 0, 0xFF_FFFF);
    let high = clamped(b, 0, 0xFF_FFFF);
    lemma_div_is_ordered(low, high, d);
    lemma_mul_inequality(low / d, high / d, d);
}

/// Terrarium decodes every step count of its range exactly.
pub proof fn law_terrarium_decodes(steps: int)
    requires
        0 <= steps <= 0xFF_FFFF,
    ensures
        terrarium_value(steps) == steps,
{
}

/// Terrarium has no use for the rounding.
pub proof fn law_terrarium_ignores_rounding(steps: Option<i64>, a: nat, b: nat)
    ensures
        pixel_value(Encoding::Terrarium, steps, a) == pixel_value(Encoding::Terrarium, steps, b),
{
}

/// Whatever pixel `encode_mapbox` gives for a step count, a client that decodes it gets a number
/// whose lowest `round` bits are zero: the highest such number that is not above the step count,
/// held to 24 bits.
pub proof fn law_mapbox_pixel(steps: i64, round: u32, rgb: [u8; 3])
    requires
        call_ensures(encode_mapbox, (Some(steps), round), rgb),
    ensures
        ({
            let v = rgb@[0] * 65536 + rgb@[1] * 256 + rgb@[2];
            let d = pow2(round as nat);
            &&& v % (d as int) == 0
            &&& 0 <= steps <= 0xFF_FFFF ==> v <= steps < v + d
            &&& steps < 0 ==> v == 0
            &&& steps > 0xFF_FFFF ==> v <= 0xFF_FFFF < v + d
        }),
{
    let s = clamped(steps as int, 0, 0xFF_FFFF);
    law_mapbox_low_bits_zero(steps as int, round as nat);
    law_mapbox_decodes(s, round as nat);
    law_mapbox_saturates(steps as int, round as nat);
}

/// Whatever pixel `encode_terrarium` gives for a step count, a client decodes from it the step
/// count, held to 24 bits.
pub proof fn law_terrarium_pixel(steps: i64, rgb: [u8; 3])
    requires
        call_ensures(encode_terrarium, (Some(steps),), rgb),
    ensures
        ({
            let v = rgb@[0] * 65536 + rgb@[1] * 256 + rgb@[2];
            &&& 0 <= steps <= 0xFF_FFFF ==> v == steps
            &&& steps < 0 ==> v == 0
            &&& steps > 0xFF_FFFF ==> v == 0xFF_FFFF
        }),
{
}

/// No data is black in both encodings.
pub proof fn law_nodata_pixel(round: u32, mapbox: [u8; 3], terrarium: [u8; 3])
    requires
        call_ensures(encode_mapbox, (None::<i64>, round), mapbox),
        call_ensures(encode_terrarium, (None::<i64>,), terrarium),
    ensures
        forall|k: int| 0 <= k < 3 ==> #[trigger] mapbox@[k] == 0,
        forall|k: int| 0 <= k < 3 ==> #[trigger] terrarium@[k] == 0,
{
}

/// Of two elevations the higher one never gets the smaller number.
pub proof fn law_higher_pixel(
    a: i64,
    b: i64,
    round: u32,
    mapbox_a: [u8; 3],
    mapbox_b: [u8; 3],
    terrarium_a: [u8; 3],
    terrarium_b: [u8; 3],
)
    requires
        a <= b,
        call_ensures(encode_mapbox, (Some(a), round), mapbox_a),
        call_ensures(encode_mapbox, (Some(b), round), mapbox_b),
        call_ensures(encode_terrarium, (Some(a),), terrarium_a),
        call_ensures(encode_terrarium, (Some(b),), terrarium_b),
    ensures
        mapbox_a@[0] * 65536 + mapbox_a@[1] * 256 + mapbox_a@[2] <= mapbox_b@[0] * 65536
            + mapbox_b@[1] * 256 + mapbox_b@[2],
        terrarium_a@[0] * 65536 + terrarium_a@[1] * 256 + terrarium_a@[2] <= terrarium_b@[0] * 65536
            + terrarium_b@[1] * 256 + terrarium_b@[2],
{
    law_encoding_monotone(a as int, b as int, round as nat);
}

/// Which pixels are not black.
pub(crate) proof fn lemma_pixel_shows(encoding: Encoding, steps: Option<i64>, round: nat)
    ensures
        pixel_value(encoding, steps, round) != 0 <==> (match (encoding, steps) {
            (_, None) => false,
            (Encoding::Mapbox, Some(s)) => pow2(round) <= s && pow2(round) <= 0xFF_FFFF,
            (Encoding::Terrarium, Some(s)) => 1 <= s,
        }),
{
    if let Some(s) = steps {
        let v = clamped(s as int, 0, 0xFF_FFFF);
        let d = pow2(round) as int;
        lemma_pow2_pos(round);
        assert(v / d * d != 0 <==> d <= v) by (nonlinear_arith)
            requires
                v >= 0,
                d > 0,
        ;
    }
}

/// A setting is reported exactly when the encoding is Terrarium and the setting is not at its
/// default, whatever the others are; Mapbox reports none.
pub proof fn law_ignored_settings(
    encoding: Encoding,
    base_val_changed: bool,
    interval_changed: bool,
    round_digits: u32,
    s: IgnoredSettings,
)
    requires
        call_ensures(
            ignored_settings,
            (encoding, base_val_changed, interval_changed, round_digits),
            s,
        ),
    ensures
        encoding is Mapbox ==> !s.base_val && !s.interval && !s.round_digits,
        encoding is Terrarium ==> s.base_val == base_val_changed && s.interval == interval_changed,
        encoding is Terrarium ==> (s.round_digits <==> round_digits != 3),
{
}

} // verus!
