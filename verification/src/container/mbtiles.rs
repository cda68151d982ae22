//! MBTiles layout.
//!
//! MBTiles numbers tile rows from the south: row `2^z − 1 − y` holds the tiles of row `y` counted
//! from the north.

use crate::text::{decimal, decimal_text, law_decimal_reads_back, number};
use crate::tile_format::Format;
use vstd::arithmetic::power2::{lemma_pow2_pos, lemma_pow2_strictly_increases, pow2, lemma2_to64};
use vstd::bits::{lemma_u32_pow2_no_overflow, lemma_u32_shl_is_mul};
use vstd::prelude::*;

verus! {

/// The row from the south of row `y` from the north, modulo `2^32`.
pub open spec fn tms_row(z: nat, y: int) -> int {
    (pow2(z) - 1 - y) % 0x1_0000_0000
}

/// The `tile_row` of a tile: its row counted from the south instead of from the north. A row that
/// the zoom does not have wraps around.
pub fn tile_row(z: u8, y_xyz: u32) -> (row: u32)
    requires
        z < 32,
    ensures
        row == tms_row(z as nat, y_xyz as int),
{
    proof {
        lemma_pow2_pos(z as nat);
        lemma_u32_pow2_no_overflow(z as nat);
        lemma_u32_shl_is_mul(1, z as u32);
    }
    (1u32 << z as u32).wrapping_sub(1).wrapping_sub(y_xyz)
}

/// A row of the zoom stays a row of the zoom, is counted from the other side, and flipping it
/// twice gives it back.
pub proof fn law_row_flip(z: nat, y: int)
    requires
        z < 32,
        0 <= y < pow2(z),
    ensures
        tms_row(z, y) == pow2(z) - 1 - y,
        0 <= tms_row(z, y) < pow2(z),
        tms_row(z, tms_row(z, y)) == y,
{
    lemma2_to64();
    lemma_pow2_strictly_increases(z, 32);
}

/// Distinct rows are stored in distinct rows.
pub proof fn law_row_flip_injective(z: nat, a: u32, b: u32)
    requires
        tms_row(z, a as int) == tms_row(z, b as int),
    ensures
        a == b,
{
}

/// The MIME type of a tile format.
pub open spec fn mime_type(format: Format) -> Seq<char> {
    match format {
        Format::Webp => "image/webp"@,
        Format::Png => "image/png"@,
    }
}

/// The rows of the metadata table.
pub open spec fn metadata_rows(format: Format, min_z: u8, max_z: u8) -> Seq<
    (Seq<char>, Seq<char>),
> {
    seq![
        ("name"@, "massif"@),
        ("format"@, mime_type(format)),
        ("type"@, "baselayer"@),
        ("version"@, "1.1"@),
        ("minzoom"@, decimal(min_z as nat)),
        ("maxzoom"@, decimal(max_z as nat)),
    ]
}

/// The rows of the metadata table, in the order in which they are inserted.
pub fn metadata(format: Format, min_z: u8, max_z: u8) -> (rows: Vec<(String, String)>)
    ensures
        rows@.map_values(|row: (String, String)| (row.0@, row.1@)) == metadata_rows(
            format,
            min_z,
            max_z,
        ),
{
    let mime: String = match format {
        Format::Webp => "image/webp".to_owned(),
        Format::Png => "image/png".to_owned(),
    };
    let mut rows: Vec<(String, String)> = Vec::new();
    rows.push(("name".to_owned(), "massif".to_owned()));
    rows.push(("format".to_owned(), mime));
    rows.push(("type".to_owned(), "baselayer".to_owned()));
    rows.push(("version".to_owned(), "1.1".to_owned()));
    rows.push(("minzoom".to_owned(), decimal_text(min_z)));
    rows.push(("maxzoom".to_owned(), decimal_text(max_z)));
    proof {
        assert(rows@.map_values(|row: (String, String)| (row.0@, row.1@)) =~= metadata_rows(
            format,
            min_z,
            max_z,
        ));
    }
    rows
}

/// A row and its stored row add up to the last row of the zoom, around `2^32` for a row that the
/// zoom does not have.
pub proof fn law_rows_add_up(z: u8, y: u32, row: u32)
    requires
        call_ensures(tile_row, (z, y), row),
        z < 32,
    ensures
        y < pow2(z as nat) ==> row + y == pow2(z as nat) - 1,
        y >= pow2(z as nat) ==> row + y == pow2(z as nat) - 1 + 0x1_0000_0000,
{
    lemma2_to64();
    lemma_pow2_strictly_increases(z as nat, 32);
    lemma_pow2_pos(z as nat);
}

/// The metadata name the tileset, the format of its tiles and its zooms, in this order.
pub proof fn law_metadata_exact(
    format: Format,
    min_z: u8,
    max_z: u8,
    rows: Vec<(String, String)>,
)
    requires
        call_ensures(metadata, (format, min_z, max_z), rows),
    ensures
        rows@.len() == 6,
        rows@[0].0@ == "name"@ && rows@[0].1@ == "massif"@,
        rows@[1].0@ == "format"@,
        format is Webp ==> rows@[1].1@ == "image/webp"@,
        format is Png ==> rows@[1].1@ == "image/png"@,
        rows@[2].0@ == "type"@ && rows@[2].1@ == "baselayer"@,
        rows@[3].0@ == "version"@ && rows@[3].1@ == "1.1"@,
        rows@[4].0@ == "minzoom"@ && number(rows@[4].1@) == min_z,
        rows@[5].0@ == "maxzoom"@ && number(rows@[5].1@) == max_z,
        forall|k: int, i: int|
            4 <= k <= 5 && 0 <= i < rows@[k].1@.len() ==> '0' <= #[trigger] rows@[k].1@[i] <= '9',
        forall|k: int|
            4 <= k <= 5 ==> rows@[k].1@.len() >= 1 && (#[trigger] rows@[k].1@[0] == '0'
                ==> rows@[k].1@.len() == 1),
{
    let plain = rows@.map_values(|row: (String, String)| (row.0@, row.1@));
    assert(plain.len() == rows@.len());
    assert forall|i: int| 0 <= i < rows@.len() implies plain[i] == (
        #[trigger] rows@[i].0@,
        rows@[i].1@,
    ) by {}
    law_decimal_reads_back(min_z as nat);
    law_decimal_reads_back(max_z as nat);
    assert(plain[0] == metadata_rows(format, min_z, max_z)[0]);
    assert(plain[1] == metadata_rows(format, min_z, max_z)[1]);
    assert(plain[2] == metadata_rows(format, min_z, max_z)[2]);
    assert(plain[3] == metadata_rows(format, min_z, max_z)[3]);
    assert(plain[4] == metadata_rows(format, min_z, max_z)[4]);
    assert(plain[5] == metadata_rows(format, min_z, max_z)[5]);
}

} // verus!
