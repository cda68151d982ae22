//! Tile evaluation: the source window of a tile, the samples of its pixels, and its image.

use crate::encoder::{
    encode_mapbox, encode_terrarium, law_mapbox_decodes, law_mapbox_low_bits_zero,
    law_mapbox_saturates, law_terrarium_ignores_rounding, lemma_pixel_shows,
    lemma_pixel_value_range, pixel_value, rgb_value, Encoding,
};
use crate::frontier::lemma_column_row;
use crate::text::{same_text, tenths};
use crate::tile::clamped;
use crate::tile_format::{
    dimensions, encodes, law_images_lossless, pixels, single_file, EncodeError, Format,
    TILE_PIXELS, TILE_SIDE,
};
use vstd::arithmetic::power2::pow2;
use vstd::prelude::*;

verus! {

/// The largest side of a sampling buffer; a larger window is resampled to it.
pub const MAX_BUF: usize = 2048;

/// The part of the source raster that a tile is sampled from, and the size of the buffer that it
/// is read into.
#[derive(Debug, Clone, Copy, PartialEq, Eq, Structural)]
pub struct ReadWindow {
    pub x0: usize,
    pub y0: usize,
    pub width: usize,
    pub height: usize,
    pub buf_width: usize,
    pub buf_height: usize,
}

/// The first source column (row) read for a tile that begins at or after `floor`: one further
/// out, for the bilinear border.
pub open spec fn window_start(floor: int, size: int) -> int {
    clamped(floor - 1, 0, size - 1)
}

/// The end of the source columns (rows) read for a tile that begins at or after `floor` and ends
/// at or before `ceil`: two further out, and past the first column (row) read.
pub open spec fn window_end(floor: int, ceil: int, size: int) -> int {
    clamped(ceil + 2, window_start(floor, size) + 1, size)
}

/// The first column (row) read, the number read, and the number that the buffer holds, of an axis
/// of `size` source pixels.
fn window_axis(floor: i64, ceil: i64, size: usize) -> (r: (usize, usize, usize))
    requires
        0 < size <= i64::MAX,
        i64::MIN < floor,
        ceil <= i64::MAX - 2,
    ensures
        r.0 == window_start(floor as int, size as int),
        r.1 == window_end(floor as int, ceil as int, size as int) - r.0,
        r.2 == (if r.1 <= MAX_BUF { r.1 } else { MAX_BUF }),
        1 <= r.1,
        r.0 + r.1 <= size,
{
    let last: i64 = size as i64 - 1;
    let before: i64 = floor - 1;
    let start: i64 = if before < 0 {
        0
    } else if before > last {
        last
    } else {
        before
    };
    let after: i64 = ceil + 2;
    let end: i64 = if after < start + 1 {
        start + 1
    } else if after > size as i64 {
        size as i64
    } else {
        after
    };
    let count: usize = (end - start) as usize;
    (start as usize, count, if count <= MAX_BUF { count } else { MAX_BUF })
}

/// The source pixels that a tile covers, rounded outwards.
#[derive(Debug, Clone, Copy, PartialEq, Eq, Structural)]
pub struct SourceExtent {
    pub px_min: i64,
    pub py_min: i64,
    pub px_max: i64,
    pub py_max: i64,
}

impl SourceExtent {
    /// Whether the pixels lie within those of `outer`.
    pub open spec fn within(self, outer: SourceExtent) -> bool {
        &&& outer.px_min <= self.px_min <= self.px_max <= outer.px_max
        &&& outer.py_min <= self.py_min <= self.py_max <= outer.py_max
    }

    /// Whether the source window, in a source of `src_w` by `src_h` pixels, covers a pixel.
    pub open spec fn reads(self, x: int, y: int, src_w: int, src_h: int) -> bool {
        &&& window_start(self.px_min as int, src_w) <= x < window_end(
            self.px_min as int,
            self.px_max as int,
            src_w,
        )
        &&& window_start(self.py_min as int, src_h) <= y < window_end(
            self.py_min as int,
            self.py_max as int,
            src_h,
        )
    }

    /// Whether the source window covers every pixel that the window of `inner` covers.
    pub open spec fn reads_all_of(self, inner: SourceExtent, src_w: int, src_h: int) -> bool {
        forall|x: int, y: int| #[trigger]
            inner.reads(x, y, src_w, src_h) ==> self.reads(x, y, src_w, src_h)
    }

    /// Whether the source window covers nothing but pixels without data.
    pub open spec fn is_empty(
        self,
        nodata: spec_fn(int, int) -> bool,
        src_w: int,
        src_h: int,
    ) -> bool {
        forall|x: int, y: int| #[trigger] self.reads(x, y, src_w, src_h) ==> nodata(x, y)
    }
}

/// The source window of a tile that covers the given source pixels: one pixel more before and two
/// more after for the bilinear border, as far as the source of `src_w` by `src_h` pixels reaches.
pub fn read_window(e: SourceExtent, src_w: usize, src_h: usize) -> (w: ReadWindow)
    requires
        0 < src_w <= i64::MAX,
        0 < src_h <= i64::MAX,
        i64::MIN < e.px_min,
        i64::MIN < e.py_min,
        e.px_max <= i64::MAX - 2,
        e.py_max <= i64::MAX - 2,
    ensures
        w.x0 == window_start(e.px_min as int, src_w as int),
        w.y0 == window_start(e.py_min as int, src_h as int),
        w.x0 + w.width == window_end(e.px_min as int, e.px_max as int, src_w as int),
        w.y0 + w.height == window_end(e.py_min as int, e.py_max as int, src_h as int),
        w.buf_width == (if w.width <= MAX_BUF { w.width } else { MAX_BUF }),
        w.buf_height == (if w.height <= MAX_BUF { w.height } else { MAX_BUF }),
        1 <= w.width && w.x0 + w.width <= src_w,
        1 <= w.height && w.y0 + w.height <= src_h,
{
    let (x0, width, buf_width): (usize, usize, usize) = window_axis(e.px_min, e.px_max, src_w);
    let (y0, height, buf_height): (usize, usize, usize) = window_axis(e.py_min, e.py_max, src_h);
    ReadWindow { x0, y0, width, height, buf_width, buf_height }
}

/// A tile whose source pixels lie within those of another is read from within the other's window.
pub proof fn law_window_nests(outer: SourceExtent, inner: SourceExtent, src_w: int, src_h: int)
    requires
        src_w > 0,
        src_h > 0,
        inner.within(outer),
    ensures
        outer.reads_all_of(inner, src_w, src_h),
{
}

/// Where the window of a tile has no data, neither has a window within it.
pub proof fn law_nodata_window_prunes(
    outer: SourceExtent,
    inner: SourceExtent,
    nodata: spec_fn(int, int) -> bool,
    src_w: int,
    src_h: int,
)
    requires
        outer.reads_all_of(inner, src_w, src_h),
        outer.is_empty(nodata, src_w, src_h),
    ensures
        inner.is_empty(nodata, src_w, src_h),
{
}

/// Whether a source is in plain longitude and latitude, EPSG:4326, so that its pixels follow from
/// tile coordinates without a transform.
pub fn is_wgs84(geographic: bool, auth_name: Option<&str>, auth_code: Option<i32>) -> (r: bool)
    ensures
        r == (geographic && (auth_name matches Some(name) && name@ == "EPSG"@) && auth_code
            == Some(4326i32)),
{
    let epsg = match auth_name {
        Some(name) => same_text(name, "EPSG"),
        None => false,
    };
    let code = match auth_code {
        Some(code) => code == 4326,
        None => false,
    };
    geographic && epsg && code
}

/// How a sample is taken from a buffer.
#[derive(Debug, Clone, Copy, PartialEq, Eq, Structural)]
pub enum Sample {
    /// The position lies outside the buffer: there is no data.
    Outside,
    /// The sample is the buffer element at this index.
    Nearest(usize),
    /// The sample is blended from the buffer elements at these indices: upper left, upper right,
    /// lower left, lower right.
    Blend(usize, usize, usize, usize),
}

/// The next column (row), or the last one.
pub open spec fn neighbour(i: int, size: int) -> int {
    if i + 1 < size {
        i + 1
    } else {
        size - 1
    }
}

/// The bilinear sample at column `x` and row `y` (rounded down) of a buffer of `width` by
/// `height`: blended from the element there and its neighbours to the right and below, unless one
/// of the four has no data; then it is the nearest of them. `right` and `below` say on which side
/// of the middle the position lies.
pub open spec fn sample_at(
    nodata: Seq<bool>,
    width: int,
    height: int,
    x: int,
    y: int,
    right: bool,
    below: bool,
) -> Sample {
    if x < 0 || y < 0 || x >= width || y >= height {
        Sample::Outside
    } else {
        let x1 = neighbour(x, width);
        let y1 = neighbour(y, height);
        let ul = y * width + x;
        let ur = y * width + x1;
        let ll = y1 * width + x;
        let lr = y1 * width + x1;
        if nodata[ul] || nodata[ur] || nodata[ll] || nodata[lr] {
            Sample::Nearest(
                (if below {
                    if right {
                        lr
                    } else {
                        ll
                    }
                } else {
                    if right {
                        ur
                    } else {
                        ul
                    }
                }) as usize,
            )
        } else {
            Sample::Blend(ul as usize, ur as usize, ll as usize, lr as usize)
        }
    }
}

/// How to sample a buffer at column `x` and row `y` (rounded down). `nodata` says of each element
/// whether it has no data.
pub fn sample_bilinear(
    nodata: &[bool],
    width: usize,
    height: usize,
    x: i64,
    y: i64,
    right: bool,
    below: bool,
) -> (s: Sample)
    requires
        0 <= x < width && 0 <= y < height ==> neighbour(y as int, height as int) * width
            + neighbour(x as int, width as int) < nodata@.len(),
    ensures
        s == sample_at(
            nodata@,
            width as int,
            height as int,
            x as int,
            y as int,
            right,
            below,
        ),
        s matches Sample::Nearest(i) ==> i < nodata@.len(),
        s matches Sample::Blend(ul, ur, ll, lr) ==> {
            &&& ul < nodata@.len() && !nodata@[ul as int]
            &&& ur < nodata@.len() && !nodata@[ur as int]
            &&& ll < nodata@.len() && !nodata@[ll as int]
            &&& lr < nodata@.len() && !nodata@[lr as int]
        },
{
    if x < 0 || y < 0 || x as u64 >= width as u64 || y as u64 >= height as u64 {
        return Sample::Outside;
    }
    let x0: usize = x as usize;
    let y0: usize = y as usize;
    let x1: usize = if x0 + 1 < width {
        x0 + 1
    } else {
        width - 1
    };
    let y1: usize = if y0 + 1 < height {
        y0 + 1
    } else {
        height - 1
    };
    proof {
        assert(y1 * width + x1 < nodata.len());
        assert(0 <= y0 * width <= y1 * width) by (nonlinear_arith)
            requires
                0 <= y0 <= y1,
                0 <= width,
        ;
    }
    let ul: usize = y0 * width + x0;
    let ur: usize = y0 * width + x1;
    let ll: usize = y1 * width + x0;
    let lr: usize = y1 * width + x1;
    if nodata[ul] || nodata[ur] || nodata[ll] || nodata[lr] {
        let nx: usize = if right {
            x1
        } else {
            x0
        };
        let ny: usize = if below {
            y1
        } else {
            y0
        };
        Sample::Nearest(ny * width + nx)
    } else {
        Sample::Blend(ul, ur, ll, lr)
    }
}

/// Byte `k` of a 24-bit number, the highest being byte 0.
pub open spec fn channel(value: int, k: int) -> u8 {
    if k == 0 {
        (value / 65536) as u8
    } else if k == 1 {
        (value / 256 % 256) as u8
    } else {
        (value % 256) as u8
    }
}

/// The RGB samples of a tile whose pixels have the given step counts.
pub open spec fn tile_rgb(samples: Seq<Option<i64>>, encoding: Encoding, round: nat) -> Seq<u8> {
    Seq::new(
        3 * samples.len(),
        |i: int| channel(pixel_value(encoding, samples[i / 3], round), i % 3),
    )
}

/// Whether some pixel of the tile encodes to anything but zero.
pub open spec fn shows_data(samples: Seq<Option<i64>>, encoding: Encoding, round: nat) -> bool {
    exists|i: int|
        0 <= i < samples.len() && pixel_value(encoding, #[trigger] samples[i], round) != 0
}

/// The step count of pixel `i` that a client decodes from the RGB samples of a tile.
pub open spec fn decoded(rgb: Seq<u8>, i: int) -> int {
    rgb[3 * i] * 65536 + rgb[3 * i + 1] * 256 + rgb[3 * i + 2]
}

/// A client decodes from the samples of a tile exactly the number that each pixel was encoded to.
pub proof fn law_pixels_decode(
    samples: Seq<Option<i64>>,
    encoding: Encoding,
    round: nat,
    i: int,
)
    requires
        0 <= i < samples.len(),
    ensures
        decoded(tile_rgb(samples, encoding, round), i) == pixel_value(encoding, samples[i], round),
{
    lemma_pixel_value_range(encoding, samples[i], round);
    let rgb = tile_rgb(samples, encoding, round);
    let v = pixel_value(encoding, samples[i], round);
    assert(rgb[3 * i] == channel(v, 0));
    assert(rgb[3 * i + 1] == channel(v, 1));
    assert(rgb[3 * i + 2] == channel(v, 2));
}

/// Encodes the pixels of a tile; also tells whether any encodes to anything but zero.
pub fn encode_pixels(samples: &[Option<i64>], encoding: Encoding, round: u32) -> (r: (
    Vec<u8>,
    bool,
))
    requires
        encoding is Mapbox ==> forall|i: int|
            0 <= i < samples@.len() && (#[trigger] samples@[i]) is Some ==> round < 63,
    ensures
        r.0@ == tile_rgb(samples@, encoding, round as nat),
        r.1 == shows_data(samples@, encoding, round as nat),
{
    let mut rgb: Vec<u8> = Vec::new();
    let mut any_valid: bool = false;
    let mut n: usize = 0;
    while n < samples.len()
        invariant
            n <= samples@.len(),
            encoding is Mapbox ==> forall|i: int|
                0 <= i < samples@.len() && (#[trigger] samples@[i]) is Some ==> round < 63,
            rgb@ == tile_rgb(samples@.take(n as int), encoding, round as nat),
            any_valid == shows_data(samples@.take(n as int), encoding, round as nat),
        decreases samples@.len() - n,
    {
        let ghost done = samples@.take(n as int);
        let ghost more = samples@.take(n + 1);
        let ghost before = rgb@;
        let c: [u8; 3] = match encoding {
            Encoding::Mapbox => encode_mapbox(samples[n], round),
            Encoding::Terrarium => encode_terrarium(samples[n]),
        };
        if c[0] != 0 || c[1] != 0 || c[2] != 0 {
            any_valid = true;
        }
        rgb.push(c[0]);
        rgb.push(c[1]);
        rgb.push(c[2]);
        proof {
            let v = pixel_value(encoding, samples@[n as int], round as nat);
            assert(rgb_value(c) == v);
            lemma_pixel_value_range(encoding, samples@[n as int], round as nat);
            assert(c@[0] == channel(v, 0) && c@[1] == channel(v, 1) && c@[2] == channel(v, 2));
            assert(more.len() == n + 1);
            assert forall|i: int| 0 <= i < rgb@.len() implies rgb@[i] == #[trigger] tile_rgb(
                more,
                encoding,
                round as nat,
            )[i] by {
                if i < before.len() {
                    assert(before[i] == tile_rgb(done, encoding, round as nat)[i]);
                    assert(done[i / 3] == more[i / 3]);
                } else {
                    assert(i / 3 == n);
                    assert(more[n as int] == samples@[n as int]);
                }
            }
            assert(rgb@ =~= tile_rgb(more, encoding, round as nat));
            assert(shows_data(more, encoding, round as nat) == (shows_data(
                done,
                encoding,
                round as nat,
            ) || v != 0)) by {
                if shows_data(done, encoding, round as nat) {
                    let i = choose|i: int|
                        0 <= i < done.len() && pixel_value(
                            encoding,
                            #[trigger] done[i],
                            round as nat,
                        ) != 0;
                    assert(more[i] == done[i]);
                }
                if v != 0 {
                    assert(more[n as int] == samples@[n as int]);
                }
                if shows_data(more, encoding, round as nat) {
                    let i = choose|i: int|
                        0 <= i < more.len() && pixel_value(
                            encoding,
                            #[trigger] more[i],
                            round as nat,
                        ) != 0;
                    if i < n {
                        assert(done[i] == more[i]);
                    }
                }
            }
        }
        n = n + 1;
    }
    proof {
        assert(samples@.take(samples@.len() as int) =~= samples@);
    }
    (rgb, any_valid)
}

/// What evaluating a tile came to.
#[derive(Debug)]
pub enum TileEval {
    /// The tile image.
    Rendered(Vec<u8>),
    /// The source had data, but every pixel of the tile encoded to zero. A tile further in may
    /// still show something.
    Blank,
    /// The source window of the tile holds nothing but nodata, and so does the window of every
    /// tile within it.
    NoData,
}

/// Whether a source buffer holds no data at all.
pub open spec fn all_nodata(nodata: Seq<bool>) -> bool {
    forall|i: int| 0 <= i < nodata.len() ==> nodata[i]
}

/// Whether a source buffer holds no data at all; `nodata` says it of each element.
pub fn is_all_nodata(nodata: &[bool]) -> (r: bool)
    ensures
        r == all_nodata(nodata@),
{
    let mut i: usize = 0;
    while i < nodata.len()
        invariant
            i <= nodata@.len(),
            forall|j: int| 0 <= j < i ==> nodata@[j],
        decreases nodata@.len() - i,
    {
        if !nodata[i] {
            return false;
        }
        i = i + 1;
    }
    true
}

/// Whether a tile gets an image: its source has data, and some pixel of it shows.
pub open spec fn renders(
    nodata: Seq<bool>,
    samples: Seq<Option<i64>>,
    encoding: Encoding,
    round: nat,
) -> bool {
    !all_nodata(nodata) && shows_data(samples, encoding, round)
}

/// What evaluating a tile comes to: no data where its source has none, blank where no pixel of it
/// shows, and otherwise its image or the encoder's error.
pub open spec fn evaluates(
    nodata: Seq<bool>,
    samples: Seq<Option<i64>>,
    encoding: Encoding,
    round: nat,
    format: Format,
    compress: Option<u8>,
    res: Result<TileEval, EncodeError>,
) -> bool {
    let rgb = tile_rgb(samples, encoding, round);
    if all_nodata(nodata) {
        res == Ok::<TileEval, EncodeError>(TileEval::NoData)
    } else if !shows_data(samples, encoding, round) {
        res == Ok::<TileEval, EncodeError>(TileEval::Blank)
    } else {
        match res {
            Ok(TileEval::Rendered(file)) => encodes(format, rgb, compress, Ok(file)),
            Ok(_) => false,
            Err(e) => encodes(format, rgb, compress, Err(e)),
        }
    }
}

/// Evaluates a tile from its source buffer, of which `nodata` says where it has no data, and the
/// step counts sampled for its pixels, row by row. Where the source has no data at all the samples
/// are not looked at.
pub fn eval_tile(
    nodata: &[bool],
    samples: &[Option<i64>],
    encoding: Encoding,
    round: u32,
    format: Format,
    compress: Option<u8>,
) -> (res: Result<TileEval, EncodeError>)
    requires
        !all_nodata(nodata@) && encoding is Mapbox ==> forall|i: int|
            0 <= i < samples@.len() && (#[trigger] samples@[i]) is Some ==> round < 63,
        renders(nodata@, samples@, encoding, round as nat) && format is Webp ==> samples@.len()
            == TILE_PIXELS && (compress matches Some(level) ==> 1 <= level <= 9),
    ensures
        evaluates(nodata@, samples@, encoding, round as nat, format, compress, res),
{
    if is_all_nodata(nodata) {
        return Ok(TileEval::NoData);
    }
    let (rgb, any_valid): (Vec<u8>, bool) = encode_pixels(samples, encoding, round);
    if !any_valid {
        return Ok(TileEval::Blank);
    }
    let image = match format {
        Format::Webp => crate::tile_format::webp::encode_tile(rgb.as_slice(), compress),
        Format::Png => crate::tile_format::png::encode_tile(rgb.as_slice(), compress),
    };
    match image {
        Ok(file) => Ok(TileEval::Rendered(file)),
        Err(e) => Err(e),
    }
}

/// What processing a tile comes to: nothing where its source has no data or no pixel of it shows,
/// and otherwise its image or the encoder's error.
pub open spec fn processes(
    nodata: Seq<bool>,
    samples: Seq<Option<i64>>,
    encoding: Encoding,
    round: nat,
    format: Format,
    compress: Option<u8>,
    res: Result<Option<Vec<u8>>, EncodeError>,
) -> bool {
    let rgb = tile_rgb(samples, encoding, round);
    if !renders(nodata, samples, encoding, round) {
        res == Ok::<Option<Vec<u8>>, EncodeError>(None)
    } else {
        match res {
            Ok(Some(file)) => encodes(format, rgb, compress, Ok(file)),
            Ok(None) => false,
            Err(e) => encodes(format, rgb, compress, Err(e)),
        }
    }
}

/// Evaluates a tile as [`eval_tile`] does; `None` if it gets no image.
pub fn process_tile(
    nodata: &[bool],
    samples: &[Option<i64>],
    encoding: Encoding,
    round: u32,
    format: Format,
    compress: Option<u8>,
) -> (res: Result<Option<Vec<u8>>, EncodeError>)
    requires
        !all_nodata(nodata@) && encoding is Mapbox ==> forall|i: int|
            0 <= i < samples@.len() && (#[trigger] samples@[i]) is Some ==> round < 63,
        renders(nodata@, samples@, encoding, round as nat) && format is Webp ==> samples@.len()
            == TILE_PIXELS && (compress matches Some(level) ==> 1 <= level <= 9),
    ensures
        processes(nodata@, samples@, encoding, round as nat, format, compress, res),
{
    match eval_tile(nodata, samples, encoding, round, format, compress) {
        Ok(TileEval::Rendered(file)) => Ok(Some(file)),
        Ok(TileEval::Blank) => Ok(None),
        Ok(TileEval::NoData) => Ok(None),
        Err(e) => Err(e),
    }
}

/// Evaluating and processing a tile agree: on whether it is empty, on whether it is encoded, on the
/// pixels of its image and, where there is but one file that its pixels can be encoded to, on the
/// bytes of the image.
pub proof fn law_process_matches_eval(
    nodata: Seq<bool>,
    samples: Seq<Option<i64>>,
    encoding: Encoding,
    round: nat,
    format: Format,
    compress: Option<u8>,
    eval: Result<TileEval, EncodeError>,
    process: Result<Option<Vec<u8>>, EncodeError>,
)
    requires
        evaluates(nodata, samples, encoding, round, format, compress, eval),
        processes(nodata, samples, encoding, round, format, compress, process),
    ensures
        match (eval, process) {
            (Ok(TileEval::Rendered(a)), Ok(Some(b))) => {
                &&& pixels(format, a@) == pixels(format, b@)
                &&& single_file(format, tile_rgb(samples, encoding, round), compress) ==> a@ == b@
            },
            (Ok(TileEval::Blank), Ok(None)) => true,
            (Ok(TileEval::NoData), Ok(None)) => true,
            (Err(_), Err(_)) => true,
            _ => false,
        },
{
}

/// Under Terrarium the rounding has no influence on a tile: what evaluating or processing it comes
/// to with one rounding is what it comes to with any other.
pub proof fn law_terrarium_tiles_ignore_rounding(
    nodata: Seq<bool>,
    samples: Seq<Option<i64>>,
    a: nat,
    b: nat,
    format: Format,
    compress: Option<u8>,
    eval: Result<TileEval, EncodeError>,
    process: Result<Option<Vec<u8>>, EncodeError>,
)
    ensures
        tile_rgb(samples, Encoding::Terrarium, a) == tile_rgb(samples, Encoding::Terrarium, b),
        evaluates(nodata, samples, Encoding::Terrarium, a, format, compress, eval) <==> evaluates(
            nodata,
            samples,
            Encoding::Terrarium,
            b,
            format,
            compress,
            eval,
        ),
        processes(nodata, samples, Encoding::Terrarium, a, format, compress, process)
            <==> processes(nodata, samples, Encoding::Terrarium, b, format, compress, process),
{
    assert forall|s: Option<i64>| #[trigger]
        pixel_value(Encoding::Terrarium, s, a) == pixel_value(Encoding::Terrarium, s, b) by {
        law_terrarium_ignores_rounding(s, a, b);
    }
    assert(tile_rgb(samples, Encoding::Terrarium, a) =~= tile_rgb(
        samples,
        Encoding::Terrarium,
        b,
    ));
}

/// Two runs under Terrarium that differ in the rounding alone have the same empty tiles and the
/// same pixels in the others, and the same bytes where there is but one file that the pixels can be
/// encoded to.
pub proof fn law_terrarium_runs_agree(
    nodata: Seq<bool>,
    samples: Seq<Option<i64>>,
    a: nat,
    b: nat,
    format: Format,
    compress: Option<u8>,
    first: Result<Option<Vec<u8>>, EncodeError>,
    second: Result<Option<Vec<u8>>, EncodeError>,
)
    requires
        processes(nodata, samples, Encoding::Terrarium, a, format, compress, first),
        processes(nodata, samples, Encoding::Terrarium, b, format, compress, second),
    ensures
        match (first, second) {
            (Ok(Some(x)), Ok(Some(y))) => {
                &&& pixels(format, x@) == pixels(format, y@)
                &&& single_file(format, tile_rgb(samples, Encoding::Terrarium, a), compress)
                    ==> x@ == y@
            },
            (Ok(None), Ok(None)) => true,
            (Err(_), Err(_)) => true,
            _ => false,
        },
{
    law_terrarium_tiles_ignore_rounding(
        nodata,
        samples,
        a,
        b,
        format,
        compress,
        Ok(TileEval::NoData),
        second,
    );
}

/// Whether a source buffer holds the source window of a tile pixel for pixel, row by row: `nodata`
/// says of each source pixel, and `mask` of each buffer element, whether it has no data.
pub open spec fn holds_window(
    mask: Seq<bool>,
    e: SourceExtent,
    nodata: spec_fn(int, int) -> bool,
    src_w: int,
    src_h: int,
) -> bool {
    let x0 = window_start(e.px_min as int, src_w);
    let y0 = window_start(e.py_min as int, src_h);
    let w = window_end(e.px_min as int, e.px_max as int, src_w) - x0;
    let h = window_end(e.py_min as int, e.py_max as int, src_h) - y0;
    &&& mask.len() == w * h
    &&& forall|i: int| 0 <= i < mask.len() ==> #[trigger] mask[i] == nodata(x0 + i % w, y0 + i / w)
}

/// A buffer that holds a window pixel for pixel has no data exactly where the window has none.
pub proof fn law_buffer_shows_window(
    mask: Seq<bool>,
    e: SourceExtent,
    nodata: spec_fn(int, int) -> bool,
    src_w: int,
    src_h: int,
)
    requires
        src_w > 0,
        src_h > 0,
        holds_window(mask, e, nodata, src_w, src_h),
    ensures
        all_nodata(mask) <==> e.is_empty(nodata, src_w, src_h),
{
    let x0 = window_start(e.px_min as int, src_w);
    let y0 = window_start(e.py_min as int, src_h);
    let w = window_end(e.px_min as int, e.px_max as int, src_w) - x0;
    let h = window_end(e.py_min as int, e.py_max as int, src_h) - y0;
    if all_nodata(mask) {
        assert forall|x: int, y: int| #[trigger] e.reads(x, y, src_w, src_h) implies nodata(
            x,
            y,
        ) by {
            lemma_column_row(y - y0, x - x0, h, w);
            let i = (y - y0) * w + (x - x0);
            assert(w * h == h * w) by (nonlinear_arith);
            assert(mask[i] == nodata(x0 + i % w, y0 + i / w));
        }
    }
    if e.is_empty(nodata, src_w, src_h) {
        assert forall|i: int| 0 <= i < mask.len() implies mask[i] by {
            assert(0 <= i % w < w && 0 <= i / w < h) by (nonlinear_arith)
                requires
                    0 <= i < w * h,
                    w > 0,
            ;
            assert(e.reads(x0 + i % w, y0 + i / w, src_w, src_h));
        }
    }
}

/// Where the source buffer of a tile has no data, a tile whose source window lies within that of
/// the first has none either and gets no image. It is enough that the buffer of the outer tile
/// hides no data of its window, and that the buffer of the inner one shows none that its window
/// does not have.
pub proof fn law_nodata_within_is_empty(
    outer: SourceExtent,
    inner: SourceExtent,
    outer_mask: Seq<bool>,
    inner_mask: Seq<bool>,
    nodata: spec_fn(int, int) -> bool,
    src_w: int,
    src_h: int,
    samples: Seq<Option<i64>>,
    encoding: Encoding,
    round: nat,
    format: Format,
    compress: Option<u8>,
    eval: Result<TileEval, EncodeError>,
    process: Result<Option<Vec<u8>>, EncodeError>,
)
    requires
        outer.reads_all_of(inner, src_w, src_h),
        all_nodata(outer_mask) ==> outer.is_empty(nodata, src_w, src_h),
        inner.is_empty(nodata, src_w, src_h) ==> all_nodata(inner_mask),
        all_nodata(outer_mask),
        evaluates(inner_mask, samples, encoding, round, format, compress, eval),
        processes(inner_mask, samples, encoding, round, format, compress, process),
    ensures
        eval == Ok::<TileEval, EncodeError>(TileEval::NoData),
        process == Ok::<Option<Vec<u8>>, EncodeError>(None),
{
    law_nodata_window_prunes(outer, inner, nodata, src_w, src_h);
}

/// A client that reads the image of a tile decodes from it, for each pixel, exactly the number
/// that the sample of the pixel encodes to.
pub proof fn law_tile_reads_back(
    nodata: Seq<bool>,
    samples: Seq<Option<i64>>,
    encoding: Encoding,
    round: nat,
    format: Format,
    compress: Option<u8>,
    file: Vec<u8>,
    i: int,
)
    requires
        evaluates(
            nodata,
            samples,
            encoding,
            round,
            format,
            compress,
            Ok(TileEval::Rendered(file)),
        ),
        0 <= i < samples.len(),
    ensures
        decoded(pixels(format, file@), i) == pixel_value(encoding, samples[i], round),
        dimensions(format, file@) == (TILE_SIDE, TILE_SIDE),
{
    law_images_lossless(format, tile_rgb(samples, encoding, round), compress, file);
    law_pixels_decode(samples, encoding, round, i);
}

/// The columns (rows) of the window that `read_window` gives are the source columns (rows) from one
/// before the tile up to two past it. Where the source has none of them it is the one nearest to
/// the first of them.
pub proof fn law_window_covers_tile(
    e: SourceExtent,
    src_w: usize,
    src_h: usize,
    w: ReadWindow,
    x: int,
    y: int,
)
    requires
        call_ensures(read_window, (e, src_w, src_h), w),
        0 < src_w,
        0 < src_h,
    ensures
        ({
            let in_tile = 0 <= x < src_w && e.px_min - 1 <= x < e.px_max + 2;
            let overlaps = e.px_min - 1 < src_w && 0 < e.px_max + 2 && e.px_min - 1 < e.px_max + 2;
            let read = w.x0 <= x < w.x0 + w.width;
            &&& overlaps ==> (read <==> in_tile)
            &&& !overlaps && e.px_min - 1 <= 0 ==> (read <==> x == 0)
            &&& !overlaps && 0 < e.px_min - 1 < src_w ==> (read <==> x == e.px_min - 1)
            &&& !overlaps && src_w <= e.px_min - 1 ==> (read <==> x == src_w - 1)
        }),
        ({
            let in_tile = 0 <= y < src_h && e.py_min - 1 <= y < e.py_max + 2;
            let overlaps = e.py_min - 1 < src_h && 0 < e.py_max + 2 && e.py_min - 1 < e.py_max + 2;
            let read = w.y0 <= y < w.y0 + w.height;
            &&& overlaps ==> (read <==> in_tile)
            &&& !overlaps && e.py_min - 1 <= 0 ==> (read <==> y == 0)
            &&& !overlaps && 0 < e.py_min - 1 < src_h ==> (read <==> y == e.py_min - 1)
            &&& !overlaps && src_h <= e.py_min - 1 ==> (read <==> y == src_h - 1)
        }),
        e.reads(x, y, src_w as int, src_h as int) <==> w.x0 <= x < w.x0 + w.width && w.y0 <= y
            < w.y0 + w.height,
{
}

/// The buffer of a window has an element for each pixel, but no side of more than 2048.
pub proof fn law_buffer_is_capped(e: SourceExtent, src_w: usize, src_h: usize, w: ReadWindow)
    requires
        call_ensures(read_window, (e, src_w, src_h), w),
    ensures
        w.width <= 2048 ==> w.buf_width == w.width,
        w.width > 2048 ==> w.buf_width == 2048,
        w.height <= 2048 ==> w.buf_height == w.height,
        w.height > 2048 ==> w.buf_height == 2048,
{
}

/// A source is in plain longitude and latitude exactly when it is geographic and its authority and
/// code are `EPSG` and 4326; lacking any of these it is not.
pub proof fn law_wgs84(
    geographic: bool,
    auth_name: Option<&str>,
    auth_code: Option<i32>,
    r: bool,
)
    requires
        call_ensures(is_wgs84, (geographic, auth_name, auth_code), r),
    ensures
        r <==> (match (auth_name, auth_code) {
            (Some(name), Some(code)) => geographic && name@ == "EPSG"@ && code == 4326,
            _ => false,
        }),
{
}

/// A sample lies outside exactly where its position does. Inside it is taken from the column of the
/// position and the next one, and from its row and the next one, as far as there is a next one: it
/// is the nearest of the four where any of them has no data, and blended from them otherwise.
pub proof fn law_sample_exact(
    nodata: &[bool],
    width: usize,
    height: usize,
    x: i64,
    y: i64,
    right: bool,
    below: bool,
    s: Sample,
)
    requires
        call_ensures(sample_bilinear, (nodata, width, height, x, y, right, below), s),
        0 <= x < width && 0 <= y < height ==> (if y + 1 < height { y + 1 } else { y as int })
            * width + (if x + 1 < width { x + 1 } else { x as int }) < nodata@.len(),
    ensures
        s is Outside <==> x < 0 || y < 0 || x >= width || y >= height,
        0 <= x < width && 0 <= y < height ==> ({
            let x1 = if x + 1 < width { x + 1 } else { x as int };
            let y1 = if y + 1 < height { y + 1 } else { y as int };
            let ul = nodata@[y * width + x];
            let ur = nodata@[y * width + x1];
            let ll = nodata@[y1 * width + x];
            let lr = nodata@[y1 * width + x1];
            &&& ul || ur || ll || lr <==> s is Nearest
            &&& s matches Sample::Nearest(i) ==> {
                &&& !right && !below ==> i == y * width + x
                &&& right && !below ==> i == y * width + x1
                &&& !right && below ==> i == y1 * width + x
                &&& right && below ==> i == y1 * width + x1
            }
            &&& s matches Sample::Blend(a, b, c, d) ==> {
                &&& a == y * width + x
                &&& b == y * width + x1
                &&& c == y1 * width + x
                &&& d == y1 * width + x1
            }
        }),
{
    if 0 <= x < width && 0 <= y < height {
        let x1 = neighbour(x as int, width as int);
        let y1 = neighbour(y as int, height as int);
        assert(y1 * width + x1 < nodata.len());
        assert(0 <= y * width <= y1 * width) by (nonlinear_arith)
            requires
                0 <= y <= y1,
                0 <= width,
        ;
    }
}

/// A position has a sample with data exactly when it lies in the buffer and the nearest of its four
/// elements has data.
pub proof fn law_nearest_decides(
    nodata: &[bool],
    width: usize,
    height: usize,
    x: i64,
    y: i64,
    right: bool,
    below: bool,
    s: Sample,
)
    requires
        call_ensures(sample_bilinear, (nodata, width, height, x, y, right, below), s),
        0 <= x < width && 0 <= y < height ==> (if y + 1 < height { y + 1 } else { y as int })
            * width + (if x + 1 < width { x + 1 } else { x as int }) < nodata@.len(),
    ensures
        ({
            let column = if right && x + 1 < width { x + 1 } else { x as int };
            let row = if below && y + 1 < height { y + 1 } else { y as int };
            (match s {
                Sample::Outside => false,
                Sample::Nearest(i) => !nodata@[i as int],
                Sample::Blend(_, _, _, _) => true,
            }) <==> 0 <= x < width && 0 <= y < height && !nodata@[row * width + column]
        }),
{
    law_sample_exact(nodata, width, height, x, y, right, below, s);
}

/// `is_all_nodata` finds out whether any element has data.
pub proof fn law_any_data(nodata: &[bool], r: bool)
    requires
        call_ensures(is_all_nodata, (nodata,), r),
    ensures
        !r <==> exists|i: int| 0 <= i < nodata@.len() && !#[trigger] nodata@[i],
{
}

/// The bytes of a pixel that holds the number of a sample are those that the tile has for it.
proof fn lemma_pixel_bytes(
    samples: Seq<Option<i64>>,
    encoding: Encoding,
    round: nat,
    i: int,
    c: [u8; 3],
)
    requires
        0 <= i < samples.len(),
        rgb_value(c) == pixel_value(encoding, samples[i], round),
    ensures
        ({
            let rgb = tile_rgb(samples, encoding, round);
            c@[0] == rgb[3 * i] && c@[1] == rgb[3 * i + 1] && c@[2] == rgb[3 * i + 2]
        }),
{
    law_pixels_decode(samples, encoding, round, i);
}

/// A tile shows data exactly when some byte of it is not zero.
proof fn lemma_shows_byte(samples: Seq<Option<i64>>, encoding: Encoding, round: nat)
    ensures
        shows_data(samples, encoding, round) <==> exists|k: int|
            0 <= k < tile_rgb(samples, encoding, round).len() && #[trigger] tile_rgb(
                samples,
                encoding,
                round,
            )[k] != 0,
{
    let rgb = tile_rgb(samples, encoding, round);
    if shows_data(samples, encoding, round) {
        let i = choose|i: int|
            0 <= i < samples.len() && pixel_value(encoding, #[trigger] samples[i], round) != 0;
        law_pixels_decode(samples, encoding, round, i);
        assert(rgb[3 * i] != 0 || rgb[3 * i + 1] != 0 || rgb[3 * i + 2] != 0);
    }
    if exists|k: int| 0 <= k < rgb.len() && #[trigger] rgb[k] != 0 {
        let k = choose|k: int| 0 <= k < rgb.len() && #[trigger] rgb[k] != 0;
        let i = k / 3;
        law_pixels_decode(samples, encoding, round, i);
        assert(k == 3 * i || k == 3 * i + 1 || k == 3 * i + 2);
        assert(pixel_value(encoding, samples[i], round) != 0);
    }
}

/// `encode_pixels` gives, pixel by pixel, the three bytes that the encoder of the encoding gives for
/// the sample, and finds out whether any byte of any pixel is not zero.
pub proof fn law_pixels_exact(
    samples: &[Option<i64>],
    encoding: Encoding,
    round: u32,
    rgb: Vec<u8>,
    any: bool,
)
    requires
        call_ensures(encode_pixels, (samples, encoding, round), (rgb, any)),
    ensures
        rgb@.len() == 3 * samples@.len(),
        forall|i: int, c: [u8; 3]|
            0 <= i < samples@.len() && encoding is Mapbox && #[trigger] call_ensures(
                encode_mapbox,
                (samples@[i], round),
                c,
            ) ==> c@[0] == rgb@[3 * i] && c@[1] == rgb@[3 * i + 1] && c@[2] == rgb@[3 * i + 2],
        forall|i: int, c: [u8; 3]|
            0 <= i < samples@.len() && encoding is Terrarium && #[trigger] call_ensures(
                encode_terrarium,
                (samples@[i],),
                c,
            ) ==> c@[0] == rgb@[3 * i] && c@[1] == rgb@[3 * i + 1] && c@[2] == rgb@[3 * i + 2],
        any <==> exists|k: int| 0 <= k < rgb@.len() && #[trigger] rgb@[k] != 0,
{
    assert(rgb@ == tile_rgb(samples@, encoding, round as nat));
    assert forall|i: int, c: [u8; 3]|
        0 <= i < samples@.len() && encoding is Mapbox && #[trigger] call_ensures(
            encode_mapbox,
            (samples@[i], round),
            c,
        ) implies c@[0] == rgb@[3 * i] && c@[1] == rgb@[3 * i + 1] && c@[2] == rgb@[3 * i + 2] by {
        lemma_pixel_bytes(samples@, encoding, round as nat, i, c);
    }
    assert forall|i: int, c: [u8; 3]|
        0 <= i < samples@.len() && encoding is Terrarium && #[trigger] call_ensures(
            encode_terrarium,
            (samples@[i],),
            c,
        ) implies c@[0] == rgb@[3 * i] && c@[1] == rgb@[3 * i + 1] && c@[2] == rgb@[3 * i + 2] by {
        law_terrarium_ignores_rounding(samples@[i], 0, round as nat);
        lemma_pixel_bytes(samples@, encoding, round as nat, i, c);
    }
    lemma_shows_byte(samples@, encoding, round as nat);
}

/// Which tiles show data, said of the samples alone.
proof fn lemma_shows_data(samples: Seq<Option<i64>>, encoding: Encoding, round: nat)
    ensures
        shows_data(samples, encoding, round) <==> exists|i: int|
            0 <= i < samples.len() && (match (encoding, #[trigger] samples[i]) {
                (_, None) => false,
                (Encoding::Mapbox, Some(s)) => pow2(round) <= s && pow2(round) <= 0xFF_FFFF,
                (Encoding::Terrarium, Some(s)) => 1 <= s,
            }),
{
    assert forall|i: int| 0 <= i < samples.len() implies (pixel_value(
        encoding,
        #[trigger] samples[i],
        round,
    ) != 0 <==> (match (encoding, samples[i]) {
        (_, None) => false,
        (Encoding::Mapbox, Some(s)) => pow2(round) <= s && pow2(round) <= 0xFF_FFFF,
        (Encoding::Terrarium, Some(s)) => 1 <= s,
    })) by {
        lemma_pixel_shows(encoding, samples[i], round);
    }
}

/// A tile is skipped exactly when its source buffer has no data or none of its pixels shows any; it
/// counts as having no data in the first case and as blank in the second alone. A pixel shows data
/// when its step count is at least 1, under Mapbox at least the lowest number whose lowest `round`
/// bits are zero. One such pixel, wherever it lies, is enough.
pub proof fn law_tile_skipped_exactly(
    nodata: &[bool],
    samples: &[Option<i64>],
    encoding: Encoding,
    round: u32,
    format: Format,
    compress: Option<u8>,
    eval: Result<TileEval, EncodeError>,
    process: Result<Option<Vec<u8>>, EncodeError>,
)
    requires
        call_ensures(eval_tile, (nodata, samples, encoding, round, format, compress), eval),
        call_ensures(process_tile, (nodata, samples, encoding, round, format, compress), process),
    ensures
        ({
            let data = exists|j: int| 0 <= j < nodata@.len() && !#[trigger] nodata@[j];
            let shows = exists|i: int|
                0 <= i < samples@.len() && (match (encoding, #[trigger] samples@[i]) {
                    (_, None) => false,
                    (Encoding::Mapbox, Some(s)) => pow2(round as nat) <= s && pow2(round as nat)
                        <= 0xFF_FFFF,
                    (Encoding::Terrarium, Some(s)) => 1 <= s,
                });
            &&& eval == Ok::<TileEval, EncodeError>(TileEval::NoData) <==> !data
            &&& eval == Ok::<TileEval, EncodeError>(TileEval::Blank) <==> data && !shows
            &&& process == Ok::<Option<Vec<u8>>, EncodeError>(None) <==> !data || !shows
        }),
{
    lemma_shows_data(samples@, encoding, round as nat);
}

/// An image that a tile gets has 512 by 512 pixels. Each pixel decodes to the step count of its
/// sample, held to 24 bits, and under Mapbox with the lowest `round` bits zeroed; to zero where the
/// sample has no data. It is the file that the encoder of the format writes for these pixels at the
/// strength that is asked for.
pub proof fn law_tile_image(
    nodata: &[bool],
    samples: &[Option<i64>],
    encoding: Encoding,
    round: u32,
    format: Format,
    compress: Option<u8>,
    file: Vec<u8>,
    rgb: Seq<u8>,
    i: int,
)
    requires
        call_ensures(
            eval_tile,
            (nodata, samples, encoding, round, format, compress),
            Ok(TileEval::Rendered(file)),
        ) || call_ensures(
            process_tile,
            (nodata, samples, encoding, round, format, compress),
            Ok(Some(file)),
        ),
        format is Webp ==> rgb == crate::tile_format::webp::webp_pixels(file@),
        format is Png ==> rgb == crate::tile_format::png::png_pixels(file@),
        format is Webp ==> (compress matches Some(level) ==> 1 <= level <= 9),
        0 <= i < samples@.len(),
    ensures
        rgb.len() == 3 * samples@.len(),
        ({
            let v = rgb[3 * i] * 65536 + rgb[3 * i + 1] * 256 + rgb[3 * i + 2];
            let d = pow2(round as nat);
            &&& samples@[i] is None ==> v == 0
            &&& encoding is Mapbox ==> (samples@[i] matches Some(s) ==> {
                &&& v % (d as int) == 0
                &&& 0 <= s <= 0xFF_FFFF ==> v <= s < v + d
                &&& s < 0 ==> v == 0
                &&& s > 0xFF_FFFF ==> v <= 0xFF_FFFF < v + d
            })
            &&& encoding is Terrarium ==> (samples@[i] matches Some(s) ==> {
                &&& 0 <= s <= 0xFF_FFFF ==> v == s
                &&& s < 0 ==> v == 0
                &&& s > 0xFF_FFFF ==> v == 0xFF_FFFF
            })
        }),
        format is Png ==> crate::tile_format::png::png_dimensions(file@) == (512u32, 512u32),
        format is Png && compress is None ==> file@ == crate::tile_format::png::png_file(
            rgb,
            512,
            512,
            crate::tile_format::png::Level::Fast,
        ),
        format is Png ==> (compress matches Some(n) ==> 1 <= n <= 3 ==> file@
            == crate::tile_format::png::png_file(
            rgb,
            512,
            512,
            crate::tile_format::png::Level::Default,
        )),
        format is Png ==> (compress matches Some(n) ==> n == 0 || n >= 4 ==> file@
            == crate::tile_format::png::png_file(
            rgb,
            512,
            512,
            crate::tile_format::png::Level::Best,
        )),
        format is Webp ==> crate::tile_format::webp::webp_dimensions(file@) == (512u32, 512u32),
        format is Webp && compress is None ==> file@ == crate::tile_format::webp::webp_file(
            rgb,
            512,
            512,
        ),
        format is Webp ==> (compress matches Some(level) ==> exists|quality: Seq<char>| #[trigger]
            crate::tile_format::webp::libwebp_writes(rgb, 512, 512, quality, file@) && tenths(
                quality,
            ) == 125 * (level - 1)),
{
    let plain = tile_rgb(samples@, encoding, round as nat);
    assert(encodes(format, plain, compress, Ok(file)));
    law_images_lossless(format, plain, compress, file);
    assert(rgb == plain);
    law_pixels_decode(samples@, encoding, round as nat, i);
    if let Some(s) = samples@[i] {
        law_mapbox_low_bits_zero(s as int, round as nat);
        law_mapbox_decodes(clamped(s as int, 0, 0xFF_FFFF), round as nat);
        law_mapbox_saturates(s as int, round as nat);
    }
    if let Some(level) = compress {
        if format is Webp {
            crate::tile_format::webp::lemma_quality_number(level);
        }
    }
}

/// A tile that is not skipped gets an image unless it is to be a PNG and has not 512 by 512
/// samples; then it is the PNG encoder's error.
pub proof fn law_tile_fails_exactly(
    nodata: &[bool],
    samples: &[Option<i64>],
    encoding: Encoding,
    round: u32,
    format: Format,
    compress: Option<u8>,
    eval: Result<TileEval, EncodeError>,
    process: Result<Option<Vec<u8>>, EncodeError>,
)
    requires
        call_ensures(eval_tile, (nodata, samples, encoding, round, format, compress), eval),
        call_ensures(process_tile, (nodata, samples, encoding, round, format, compress), process),
    ensures
        eval is Err <==> process is Err,
        process is Err ==> format is Png && samples@.len() != 512 * 512,
        process matches Ok(Some(_)) ==> format is Png ==> samples@.len() == 512 * 512,
        eval matches Err(e) ==> e is Png,
        process matches Err(e) ==> e is Png,
        eval matches Ok(TileEval::Rendered(_)) <==> process matches Ok(Some(_)),
{
    law_process_matches_eval(
        nodata@,
        samples@,
        encoding,
        round as nat,
        format,
        compress,
        eval,
        process,
    );
}

} // verus!
