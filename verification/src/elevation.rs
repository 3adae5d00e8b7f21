use vstd::arithmetic::div_mod::lemma_fundamental_div_mod_converse;
use vstd::prelude::*;

verus! {

// ── Open-Elevation requests ─────────────────────────────────────────────────
/// Open-Elevation rejects large request bodies: grid points go in batches of
/// at most this many.
pub const BATCH_SIZE: usize = 8000;

/// A request is tried at most this many times.
pub const MAX_RETRIES: u32 = 3;

/// Batch `k` covers points `start..end` of the grid.
pub open spec fn batch_ok(ranges: Seq<(usize, usize)>, total: int, batch: int, k: int) -> bool {
    &&& ranges[k].0 == k * batch
    &&& ranges[k].0 < total
    &&& ranges[k].1 == if k * batch + batch < total {
        k * batch + batch
    } else {
        total
    }
}

/// Split `total` grid points into consecutive batches of `batch` points, the
/// last one possibly shorter, as `(start, end)` index ranges.
pub fn batch_ranges(total: usize, batch: usize) -> (ranges: Vec<(usize, usize)>)
    requires
        batch > 0,
    ensures
        batches_of(ranges@, total as int, batch as int),
{
    let mut ranges: Vec<(usize, usize)> = Vec::new();
    let mut start: usize = 0;
    assert(ranges@.len() * batch == 0);
    while start < total
        invariant
            batch > 0,
            start <= total,
            start <= ranges@.len() * batch,
            start < total ==> start == ranges@.len() * batch,
            forall|k: int| 0 <= k < ranges@.len() ==> #[trigger] batch_ok(ranges@, total as int, batch as int, k),
        decreases total - start,
    {
        let end = if total - start > batch {
            start + batch
        } else {
            total
        };
        let ghost before = ranges@;
        ranges.push((start, end));
        proof {
            assert forall|k: int| 0 <= k < ranges@.len() implies #[trigger] batch_ok(
                ranges@,
                total as int,
                batch as int,
                k,
            ) by {
                if k < before.len() {
                    assert(batch_ok(before, total as int, batch as int, k));
                }
            }
            assert(ranges@.len() * batch == start + batch) by (nonlinear_arith)
                requires
                    ranges@.len() == before.len() + 1,
                    start == before.len() * batch,
            ;
        }
        start = end;
    }
    ranges
}

/// The batches split off for `total` points: every batch is well placed and
/// together they reach the last point.
pub open spec fn batches_of(ranges: Seq<(usize, usize)>, total: int, batch: int) -> bool {
    &&& ranges.len() * batch >= total
    &&& forall|k: int| 0 <= k < ranges.len() ==> #[trigger] batch_ok(ranges, total, batch, k)
}

/// The batches tile the grid in order: the first starts at point 0, each
/// ends where the next starts, none is empty, and the last ends at the last
/// point; so the points come back in grid order, each exactly once.
pub proof fn lemma_batches_tile_the_grid(ranges: Seq<(usize, usize)>, total: int, batch: int)
    requires
        batch > 0,
        batches_of(ranges, total, batch),
    ensures
        ranges.len() == 0 <==> total <= 0,
        ranges.len() > 0 ==> ranges[0].0 == 0 && ranges[ranges.len() - 1].1 == total,
        forall|k: int| 0 <= k < ranges.len() ==> #[trigger] ranges[k].0 < ranges[k].1,
        forall|k: int| 0 <= k < ranges.len() - 1 ==> #[trigger] ranges[k].1 == ranges[k + 1].0,
{
    if ranges.len() > 0 {
        let last = ranges.len() - 1;
        assert(batch_ok(ranges, total, batch, 0));
        assert(batch_ok(ranges, total, batch, last));
        assert(last * batch + batch >= total) by (nonlinear_arith)
            requires
                ranges.len() * batch >= total,
                last == ranges.len() - 1,
        ;
    } else {
        assert(ranges.len() * batch == 0);
    }
    assert forall|k: int| 0 <= k < ranges.len() implies #[trigger] ranges[k].0 < ranges[k].1 by {
        assert(batch_ok(ranges, total, batch, k));
    }
    assert forall|k: int| 0 <= k < ranges.len() - 1 implies #[trigger] ranges[k].1 == ranges[k + 1].0 by {
        assert(batch_ok(ranges, total, batch, k));
        assert(batch_ok(ranges, total, batch, k + 1));
        assert((k + 1) * batch == k * batch + batch) by (nonlinear_arith);
    }
}

/// What to do after one Open-Elevation request attempt.
#[derive(PartialEq, Eq, Structural, Debug, Clone, Copy)]
pub enum ElevationStep {
    /// Success: parse the response.
    Parse,
    /// A transient failure: wait this many seconds, then try again.
    Retry { delay_secs: u64 },
    /// Throttled or a server error on the last allowed attempt.
    GiveUpThrottled,
    /// Any other HTTP status: not worth retrying.
    Rejected,
    /// The connection failed on the last allowed attempt.
    GiveUpConnection,
}

/// Decide the next step after attempt number `attempt` (counted from 1)
/// ended with HTTP status `status`, or with no response at all (`None`).
///
/// Success (2xx) is parsed; 429 and 5xx are retried after `2·attempt`
/// seconds until `MAX_RETRIES` attempts were made; a connection failure is
/// retried likewise; any other status is final.
pub fn open_elevation_step(attempt: u32, status: Option<u16>) -> (step: ElevationStep)
    ensures
        step == match status {
            Some(s) => if 200 <= s <= 299 {
                ElevationStep::Parse
            } else if s == 429 || 500 <= s <= 599 {
                if attempt >= MAX_RETRIES {
                    ElevationStep::GiveUpThrottled
                } else {
                    ElevationStep::Retry { delay_secs: (2 * attempt) as u64 }
                }
            } else {
                ElevationStep::Rejected
            },
            None => if attempt < MAX_RETRIES {
                ElevationStep::Retry { delay_secs: (2 * attempt) as u64 }
            } else {
                ElevationStep::GiveUpConnection
            },
        },
{
    match status {
        Some(s) => {
            if 200 <= s && s <= 299 {
                ElevationStep::Parse
            } else if s == 429 || (500 <= s && s <= 599) {
                if attempt >= MAX_RETRIES {
                    ElevationStep::GiveUpThrottled
                } else {
                    ElevationStep::Retry { delay_secs: 2 * (attempt as u64) }
                }
            } else {
                ElevationStep::Rejected
            }
        },
        None => {
            if attempt < MAX_RETRIES {
                ElevationStep::Retry { delay_secs: 2 * (attempt as u64) }
            } else {
                ElevationStep::GiveUpConnection
            }
        },
    }
}

// ── Mapbox Terrain-RGB tiles ────────────────────────────────────────────────
/// `@2x` terrain tiles are this many pixels on a side.
pub const TILE_PX: usize = 512;

/// Highest native zoom of the terrain tileset.
pub const MAX_ZOOM: u32 = 15;

/// At most this many tiles are fetched for one request.
pub const MAX_TILES: u64 = 24;

/// The Terrain-RGB code of a pixel, `R·65536 + G·256 + B`; the elevation is
/// `-10000 + code · 0.1` metres.
pub open spec fn rgb_code(r: u8, g: u8, b: u8) -> int {
    r * 65536 + g * 256 + b
}

pub fn terrain_rgb_code(r: u8, g: u8, b: u8) -> (code: u32)
    ensures
        code == rgb_code(r, g, b),
{
    (r as u32) * 65536 + (g as u32) * 256 + (b as u32)
}

/// Why a terrain tile could not be decoded.
#[derive(PartialEq, Eq, Structural, Debug, Clone, Copy)]
pub enum TileDecodeError {
    /// The bytes are not a decodable PNG image.
    NotPng,
    /// The image is not `TILE_PX` × `TILE_PX`.
    UnexpectedSize { width: u32, height: u32 },
    /// The decoded pixel buffer is shorter than its dimensions say.
    Truncated,
}

/// What the `image` crate decodes from PNG bytes, converted to 8-bit RGB:
/// width, height and the row-major RGB bytes; `None` when decoding fails.
pub uninterp spec fn png_rgb8_decode(bytes: Seq<u8>) -> Option<(u32, u32, Seq<u8>)>;

/// `image::load_from_memory_with_format(bytes, Png)` followed by `to_rgb8`.
/// The contract claims only that the result is a function of the bytes
/// (named `png_rgb8_decode`); nothing is stated of the decoder itself.
#[verifier::external_body]
fn decode_png_rgb8(bytes: &[u8]) -> (decoded: Option<(u32, u32, Vec<u8>)>)
    ensures
        match decoded {
            Some((w, h, raw)) => png_rgb8_decode(bytes@) == Some((w, h, raw@)),
            None => png_rgb8_decode(bytes@) is None,
        },
{
    match image::load_from_memory_with_format(bytes, image::ImageFormat::Png) {
        Ok(img) => {
            let rgb = img.to_rgb8();
            Some((rgb.width(), rgb.height(), rgb.into_raw()))
        },
        Err(_) => None,
    }
}

/// Terrain-RGB codes of the first `n` pixels of a row-major RGB buffer.
pub open spec fn terrain_codes(raw: Seq<u8>, n: int) -> Seq<u32> {
    Seq::new(n as nat, |i: int| rgb_code(raw[3 * i], raw[3 * i + 1], raw[3 * i + 2]) as u32)
}

/// Decode a tile's RGB pixels to Terrain-RGB codes, row-major: refused
/// unless the tile is `TILE_PX` × `TILE_PX` and the buffer holds its pixels.
pub fn terrain_codes_from_rgb(width: u32, height: u32, raw: &Vec<u8>) -> (codes: Result<
    Vec<u32>,
    TileDecodeError,
>)
    ensures
        (width != TILE_PX || height != TILE_PX) ==> codes == Err::<Vec<u32>, TileDecodeError>(
            TileDecodeError::UnexpectedSize { width, height },
        ),
        (width == TILE_PX && height == TILE_PX && raw@.len() < 3 * TILE_PX * TILE_PX) ==> codes
            == Err::<Vec<u32>, TileDecodeError>(TileDecodeError::Truncated),
        (width == TILE_PX && height == TILE_PX && raw@.len() >= 3 * TILE_PX * TILE_PX) ==> (
        codes is Ok && codes.unwrap()@ == terrain_codes(raw@, TILE_PX * TILE_PX)),
{
    if width as usize != TILE_PX || height as usize != TILE_PX {
        return Err(TileDecodeError::UnexpectedSize { width, height });
    }
    let n: usize = TILE_PX * TILE_PX;
    if raw.len() < 3 * n {
        return Err(TileDecodeError::Truncated);
    }
    let mut codes: Vec<u32> = Vec::new();
    let mut i: usize = 0;
    while i < n
        invariant
            n == TILE_PX * TILE_PX,
            raw@.len() >= 3 * n,
            0 <= i <= n,
            codes@ == terrain_codes(raw@, n as int).take(i as int),
        decreases n - i,
    {
        let c = terrain_rgb_code(raw[3 * i], raw[3 * i + 1], raw[3 * i + 2]);
        codes.push(c);
        proof {
            assert(codes@ =~= terrain_codes(raw@, n as int).take(i + 1));
        }
        i = i + 1;
    }
    proof {
        assert(terrain_codes(raw@, n as int).take(n as int) =~= terrain_codes(raw@, n as int));
    }
    Ok(codes)
}

/// Decode a Mapbox Terrain-RGB PNG tile to per-pixel Terrain-RGB codes.
pub fn decode_terrain_png(bytes: &[u8]) -> (codes: Result<Vec<u32>, TileDecodeError>)
    ensures
        png_rgb8_decode(bytes@) is None ==> codes == Err::<Vec<u32>, TileDecodeError>(
            TileDecodeError::NotPng,
        ),
        png_rgb8_decode(bytes@) matches Some((w, h, raw)) ==> {
            &&& (w != TILE_PX || h != TILE_PX) ==> codes == Err::<Vec<u32>, TileDecodeError>(
                TileDecodeError::UnexpectedSize { width: w, height: h },
            )
            &&& (w == TILE_PX && h == TILE_PX && raw.len() < 3 * TILE_PX * TILE_PX) ==> codes
                == Err::<Vec<u32>, TileDecodeError>(TileDecodeError::Truncated)
            &&& (w == TILE_PX && h == TILE_PX && raw.len() >= 3 * TILE_PX * TILE_PX) ==> (
            codes is Ok && codes.unwrap()@ == terrain_codes(raw, TILE_PX * TILE_PX))
        },
{
    match decode_png_rgb8(bytes) {
        None => Err(TileDecodeError::NotPng),
        Some((w, h, raw)) => terrain_codes_from_rgb(w, h, &raw),
    }
}

/// Stitched-raster position of pixel (`px`, `py`) of tile (`tx`, `ty`):
/// rows of tiles, each tile `tp` pixels square, `cols` tiles per row.
pub open spec fn raster_pos(cols: int, tp: int, ty: int, py: int, tx: int, px: int) -> int {
    (ty * tp + py) * (cols * tp) + tx * tp + px
}

proof fn lemma_raster_pos(cols: int, tp: int, ty: int, py: int, tx: int, px: int)
    requires
        0 <= ty,
        0 <= py < tp,
        0 <= tx < cols,
        0 <= px < tp,
    ensures
        raster_pos(cols, tp, ty, py, tx, px) == ((ty * tp + py) * cols + tx) * tp + px,
        0 <= raster_pos(cols, tp, ty, py, tx, px),
{
    assert((ty * tp + py) * (cols * tp) + tx * tp + px == ((ty * tp + py) * cols + tx) * tp + px)
        by (nonlinear_arith);
    assert(0 <= (ty * tp + py) * (cols * tp) + tx * tp + px) by (nonlinear_arith)
        requires
            0 <= ty,
            0 <= py,
            0 <= tx,
            0 <= px,
            0 <= cols,
            0 <= tp,
    ;
}

/// Every pixel of every tile sits at its place in the stitched raster.
pub open spec fn stitched<T>(raster: Seq<T>, tiles: Seq<Vec<T>>, cols: int, rows: int, tp: int) -> bool {
    forall|ty: int, py: int, tx: int, px: int|
        0 <= ty < rows && 0 <= py < tp && 0 <= tx < cols && 0 <= px < tp ==> #[trigger] raster[raster_pos(
            cols,
            tp,
            ty,
            py,
            tx,
            px,
        )] == tiles[ty * cols + tx]@[py * tp + px]
}

/// Stitch `rows` × `cols` square tiles of `tile_px` pixels (row-major, tile
/// `ty * cols + tx` at tile row `ty`, column `tx`) into one row-major raster
/// `cols * tile_px` wide.
pub fn stitch_tiles<T: Copy>(tiles: &Vec<Vec<T>>, cols: usize, rows: usize, tile_px: usize) -> (raster: Vec<T>)
    requires
        tiles@.len() == cols * rows,
        forall|t: int| 0 <= t < tiles@.len() ==> (#[trigger] tiles@[t])@.len() == tile_px * tile_px,
        cols * tile_px * rows * tile_px <= usize::MAX,
    ensures
        raster@.len() == cols * tile_px * rows * tile_px,
        stitched(raster@, tiles@, cols as int, rows as int, tile_px as int),
{
    let n_tiles = tiles.len();
    let mut raster: Vec<T> = Vec::new();
    let mut ty: usize = 0;
    while ty < rows
        invariant
            tiles@.len() == cols * rows,
            n_tiles == tiles@.len(),
            forall|t: int| 0 <= t < tiles@.len() ==> (#[trigger] tiles@[t])@.len() == tile_px * tile_px,
            cols * tile_px * rows * tile_px <= usize::MAX,
            0 <= ty <= rows,
            raster@.len() == ty * tile_px * cols * tile_px,
            forall|ty2: int, py: int, tx: int, px: int|
                0 <= ty2 < ty && 0 <= py < tile_px && 0 <= tx < cols && 0 <= px < tile_px ==> #[trigger] raster@[raster_pos(
                    cols as int,
                    tile_px as int,
                    ty2,
                    py,
                    tx,
                    px,
                )] == tiles@[ty2 * cols + tx]@[py * tile_px + px],
        decreases rows - ty,
    {
        let mut py: usize = 0;
        while py < tile_px
            invariant
                tiles@.len() == cols * rows,
                n_tiles == tiles@.len(),
            n_tiles == tiles@.len(),
                forall|t: int| 0 <= t < tiles@.len() ==> (#[trigger] tiles@[t])@.len() == tile_px * tile_px,
                cols * tile_px * rows * tile_px <= usize::MAX,
                0 <= ty < rows,
                0 <= py <= tile_px,
                raster@.len() == (ty * tile_px + py) * cols * tile_px,
                forall|ty2: int, py2: int, tx: int, px: int|
                    0 <= ty2 < rows && 0 <= py2 < tile_px && 0 <= tx < cols && 0 <= px < tile_px && (ty2 < ty || (
                    ty2 == ty && py2 < py)) ==> #[trigger] raster@[raster_pos(
                        cols as int,
                        tile_px as int,
                        ty2,
                        py2,
                        tx,
                        px,
                    )] == tiles@[ty2 * cols + tx]@[py2 * tile_px + px],
            decreases tile_px - py,
        {
            let mut tx: usize = 0;
            while tx < cols
                invariant
                    tiles@.len() == cols * rows,
                    n_tiles == tiles@.len(),
                n_tiles == tiles@.len(),
            n_tiles == tiles@.len(),
                    forall|t: int| 0 <= t < tiles@.len() ==> (#[trigger] tiles@[t])@.len() == tile_px * tile_px,
                    cols * tile_px * rows * tile_px <= usize::MAX,
                    0 <= ty < rows,
                    0 <= py < tile_px,
                    0 <= tx <= cols,
                    raster@.len() == ((ty * tile_px + py) * cols + tx) * tile_px,
                    forall|ty2: int, py2: int, tx2: int, px: int|
                        0 <= ty2 < rows && 0 <= py2 < tile_px && 0 <= tx2 < cols && 0 <= px < tile_px && (ty2 < ty
                            || (ty2 == ty && py2 < py) || (ty2 == ty && py2 == py && tx2 < tx))
                            ==> #[trigger] raster@[raster_pos(
                            cols as int,
                            tile_px as int,
                            ty2,
                            py2,
                            tx2,
                            px,
                        )] == tiles@[ty2 * cols + tx2]@[py2 * tile_px + px],
                decreases cols - tx,
            {
                proof {
                    assert(ty * cols + tx < cols * rows) by (nonlinear_arith)
                        requires
                            0 <= ty < rows,
                            0 <= tx < cols,
                    ;
                    assert((py + 1) * tile_px <= tile_px * tile_px) by (nonlinear_arith)
                        requires
                            py < tile_px,
                    ;
                    assert(((ty * tile_px + py) * cols + tx) * tile_px + tile_px <= cols * tile_px * rows
                        * tile_px) by (nonlinear_arith)
                        requires
                            0 <= ty < rows,
                            0 <= py < tile_px,
                            0 <= tx < cols,
                    ;
                }
                let tile = &tiles[ty * cols + tx];
                let tile_len = tile.len();
                proof {
                    assert(tile@.len() == tile_px * tile_px);
                    assert(py * tile_px + tile_px <= tile_px * tile_px) by (nonlinear_arith)
                        requires
                            py < tile_px,
                    ;
                }
                let src = py * tile_px;
                let mut px: usize = 0;
                let ghost row_start = raster@.len() as int;
                while px < tile_px
                    invariant
                        tiles@.len() == cols * rows,
                        n_tiles == tiles@.len(),
                        ty * cols + tx < tiles@.len(),
                        tile@.len() == tile_px * tile_px,
                        tile_len == tile@.len(),
                    n_tiles == tiles@.len(),
                n_tiles == tiles@.len(),
            n_tiles == tiles@.len(),
                        forall|t: int| 0 <= t < tiles@.len() ==> (#[trigger] tiles@[t])@.len() == tile_px * tile_px,
                        *tile == tiles@[ty * cols + tx],
                        src == py * tile_px,
                        src + tile_px <= tile_px * tile_px,
                        0 <= ty < rows,
                        0 <= py < tile_px,
                        0 <= tx < cols,
                        0 <= px <= tile_px,
                        row_start == ((ty * tile_px + py) * cols + tx) * tile_px,
                        row_start + tile_px <= cols * tile_px * rows * tile_px,
                        raster@.len() == row_start + px,
                        forall|j: int| 0 <= j < px ==> #[trigger] raster@[row_start + j] == tile@[src + j],
                        forall|ty2: int, py2: int, tx2: int, px2: int|
                            0 <= ty2 < rows && 0 <= py2 < tile_px && 0 <= tx2 < cols && 0 <= px2 < tile_px && (ty2
                                < ty || (ty2 == ty && py2 < py) || (ty2 == ty && py2 == py && tx2
                                < tx)) ==> #[trigger] raster@[raster_pos(
                                cols as int,
                                tile_px as int,
                                ty2,
                                py2,
                                tx2,
                                px2,
                            )] == tiles@[ty2 * cols + tx2]@[py2 * tile_px + px2],
                    decreases tile_px - px,
                {
                    let ghost before = raster@;
                    raster.push(tile[src + px]);
                    proof {
                        assert forall|ty2: int, py2: int, tx2: int, px2: int|
                            0 <= ty2 < rows && 0 <= py2 < tile_px && 0 <= tx2 < cols && 0 <= px2 < tile_px && (
                            ty2 < ty || (ty2 == ty && py2 < py) || (ty2 == ty && py2 == py && tx2
                                < tx)) implies #[trigger] raster@[raster_pos(
                            cols as int,
                            tile_px as int,
                            ty2,
                            py2,
                            tx2,
                            px2,
                        )] == tiles@[ty2 * cols + tx2]@[py2 * tile_px + px2] by {
                            lemma_raster_pos(cols as int, tile_px as int, ty2, py2, tx2, px2);
                            lemma_earlier_pos(cols as int, tile_px as int, ty2, py2, tx2, px2, ty as int, py as int, tx as int);
                            assert(raster@[raster_pos(cols as int, tile_px as int, ty2, py2, tx2, px2)] == before[raster_pos(cols as int, tile_px as int, ty2, py2, tx2, px2)]);
                        }
                        assert forall|j: int| 0 <= j < px + 1 implies #[trigger] raster@[row_start + j] == tile@[src + j] by {
                            if j < px {
                                assert(raster@[row_start + j] == before[row_start + j]);
                            }
                        }
                    }
                    px = px + 1;
                }
                proof {
                    assert forall|ty2: int, py2: int, tx2: int, px2: int|
                        0 <= ty2 < rows && 0 <= py2 < tile_px && 0 <= tx2 < cols && 0 <= px2 < tile_px && (ty2 < ty
                            || (ty2 == ty && py2 < py) || (ty2 == ty && py2 == py && tx2 < tx + 1))
                            implies #[trigger] raster@[raster_pos(
                        cols as int,
                        tile_px as int,
                        ty2,
                        py2,
                        tx2,
                        px2,
                    )] == tiles@[ty2 * cols + tx2]@[py2 * tile_px + px2] by {
                        if ty2 == ty && py2 == py && tx2 == tx {
                            lemma_raster_pos(cols as int, tile_px as int, ty2, py2, tx2, px2);
                            assert(raster@[row_start + px2] == tile@[src + px2]);
                        }
                    }
                    assert(((ty * tile_px + py) * cols + tx + 1) * tile_px == row_start + tile_px)
                        by (nonlinear_arith)
                        requires
                            row_start == ((ty * tile_px + py) * cols + tx) * tile_px,
                    ;
                }
                tx = tx + 1;
            }
            proof {
                assert(((ty * tile_px + py) * cols + cols) * tile_px == (ty * tile_px + py + 1) * cols
                    * tile_px) by (nonlinear_arith);
            }
            py = py + 1;
        }
        proof {
            assert((ty * tile_px + tile_px) * cols * tile_px == (ty + 1) * tile_px * cols * tile_px)
                by (nonlinear_arith);
        }
        ty = ty + 1;
    }
    proof {
        assert(rows * tile_px * cols * tile_px == cols * tile_px * rows * tile_px) by (nonlinear_arith);
    }
    raster
}

/// A tile position earlier in stitching order lies before the current row
/// start in the raster.
proof fn lemma_earlier_pos(c: int, tp: int, ty2: int, py2: int, tx2: int, px2: int, ty: int, py: int, tx: int)
    requires
        0 <= ty2,
        0 <= py2 < tp,
        0 <= tx2 < c,
        0 <= px2 < tp,
        0 <= py < tp,
        0 <= tx < c,
        ty2 < ty || (ty2 == ty && py2 < py) || (ty2 == ty && py2 == py && tx2 < tx),
    ensures
        raster_pos(c, tp, ty2, py2, tx2, px2) < ((ty * tp + py) * c + tx) * tp,
{
    lemma_raster_pos(c, tp, ty2, py2, tx2, px2);
    // The row index (tile row and pixel row) comes first, then the tile column.
    let r2 = ty2 * tp + py2;
    let r = ty * tp + py;
    assert(r2 * c + tx2 < r * c + tx) by (nonlinear_arith)
        requires
            r2 == ty2 * tp + py2,
            r == ty * tp + py,
            0 <= py2 < tp,
            0 <= py < tp,
            0 <= tx2 < c,
            0 <= tx < c,
            ty2 < ty || (ty2 == ty && py2 < py) || (ty2 == ty && py2 == py && tx2 < tx),
    ;
    assert((r2 * c + tx2) * tp + px2 < (r * c + tx) * tp) by (nonlinear_arith)
        requires
            r2 * c + tx2 < r * c + tx,
            0 <= px2 < tp,
    ;
}

// ── Zoom selection ──────────────────────────────────────────────────────────
/// The inclusive range of slippy-map tiles covering an area at one zoom.
#[derive(PartialEq, Eq, Structural, Debug, Clone, Copy)]
pub struct TileSpan {
    pub x0: u32,
    pub y0: u32,
    pub x1: u32,
    pub y1: u32,
}

impl TileSpan {
    pub open spec fn count(self) -> int {
        (self.x1 - self.x0 + 1) * (self.y1 - self.y0 + 1)
    }

    pub open spec fn well_formed(self) -> bool {
        self.x0 <= self.x1 && self.y0 <= self.y1
    }

    /// Number of tiles in the span.
    pub fn tile_count(&self) -> (n: u128)
        requires
            self.well_formed(),
        ensures
            n == self.count(),
    {
        let w = (self.x1 - self.x0) as u128 + 1;
        let h = (self.y1 - self.y0) as u128 + 1;
        proof {
            assert(w * h <= 0x1_0000_0000 * 0x1_0000_0000) by (nonlinear_arith)
                requires
                    1 <= w <= 0x1_0000_0000,
                    1 <= h <= 0x1_0000_0000,
            ;
        }
        w * h
    }
}

/// Zoom `z`'s span stays within the tile budget.
pub open spec fn zoom_fits(spans: Seq<TileSpan>, z: int) -> bool {
    spans[z].count() <= MAX_TILES
}

/// Choose the highest zoom (at most `MAX_ZOOM`) whose covering tile span stays
/// within `MAX_TILES`; zoom 1 when none does. `spans[z]` is the span at zoom `z`.
pub fn pick_zoom(spans: &Vec<TileSpan>) -> (zoom: u32)
    requires
        spans@.len() > MAX_ZOOM,
        forall|z: int| 1 <= z <= MAX_ZOOM ==> (#[trigger] spans@[z]).well_formed(),
    ensures
        1 <= zoom <= MAX_ZOOM,
        zoom_fits(spans@, zoom as int) || (zoom == 1 && forall|z: int|
            1 <= z <= MAX_ZOOM ==> !#[trigger] zoom_fits(spans@, z)),
        forall|z: int| zoom < z <= MAX_ZOOM ==> !#[trigger] zoom_fits(spans@, z),
{
    let mut z: u32 = MAX_ZOOM;
    while z >= 1
        invariant
            0 <= z <= MAX_ZOOM,
            spans@.len() > MAX_ZOOM,
            forall|q: int| 1 <= q <= MAX_ZOOM ==> (#[trigger] spans@[q]).well_formed(),
            forall|q: int| z < q <= MAX_ZOOM ==> !#[trigger] zoom_fits(spans@, q),
        decreases z,
    {
        let span = spans[z as usize];
        if span.tile_count() <= MAX_TILES as u128 {
            return z;
        }
        z = z - 1;
    }
    1
}

} // verus!
