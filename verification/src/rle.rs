//! The run-length tile-presence codec. A byte stream of tagged records is
//! interpreted against a cursor walking the 1024-wide grid; the top three
//! bits of a record's first byte select its kind:
//!
//! - kind 0/1: skip `run` cells (short / long form),
//! - kind 2/3: mark `run` consecutive cells present,
//! - kind 4/5: skip `run` whole rows (x resets to 0),
//! - kind 6/7: write `run` new rows, each a copy of the row above the first.
//!
//! Short forms carry `run - 1` in the low five bits (1..=32); long forms
//! carry it in the low two bits and a second byte (1..=1024). A long form
//! starting on the last byte of the stream is an error.
//!
//! `rle_decode` below is the mathematical meaning of a record stream; the
//! executable decoder (`Region::parse_data`) is proved to return exactly
//! what it says.

use vstd::prelude::*;

verus! {

/// Number of cells along each side of the grid.
pub const GRID_DIM: u16 = 1024;

/// Number of cells in the whole grid.
pub const GRID_CELLS: usize = 1024 * 1024;

/// Run length of a one-byte record: low five bits plus one (1..=32).
pub open spec fn short_run(b0: u8) -> int {
    (b0 & 0x1f) + 1
}

/// Run length of a two-byte record: low two bits of the first byte, then
/// the whole second byte, plus one (1..=1024).
pub open spec fn long_run(b0: u8, b1: u8) -> int {
    (b0 & 3) * 0x100 + b1 + 1
}

/// The flattened grid index of a cursor.
pub open spec fn flat(c: (u16, u16)) -> int {
    c.1 * 1024 + c.0
}

/// `y + run`, saturating at the cursor coordinate's upper bound. Rows at or
/// beyond 1024 lie outside the grid, so saturation changes no stored cell.
pub open spec fn sat_add_y(y: u16, run: int) -> u16 {
    if y + run > 0xffff {
        0xffffu16
    } else {
        (y + run) as u16
    }
}

/// Cursor advance for in-row runs: x moves by `run`; reaching or crossing
/// the row end resets x to zero and moves down a single row.
pub open spec fn advance(c: (u16, u16), run: int) -> (u16, u16) {
    if c.0 + run >= 1024 {
        (0u16, sat_add_y(c.1, 1))
    } else {
        ((c.0 + run) as u16, c.1)
    }
}

/// The cells covered by a present-run: `run` consecutive flattened indices
/// from the cursor, clipped to the grid.
pub open spec fn run_cells(c: (u16, u16), run: int) -> Set<int> {
    Set::new(|i: int| flat(c) <= i < flat(c) + run && i < GRID_CELLS)
}

/// The cells written by a row-repeat: each of the `run` rows starting at
/// row `y` becomes a copy of row `y - 1`, clipped to the grid; with no row
/// above (`y == 0`) nothing is written.
pub open spec fn repeat_cells(tiles: Set<int>, y: u16, run: int) -> Set<int> {
    Set::new(
        |i: int|
            0 <= i < GRID_CELLS && 1 <= y && y <= i / 1024 < y + run && tiles.contains(
                (y - 1) * 1024 + (i % 1024),
            ),
    )
}

/// One record at the head of `data`: the bytes it consumes, the cursor after
/// it, and the cells present after it; `None` when a two-byte record starts
/// on the last byte.
pub open spec fn rle_step(data: Seq<u8>, c: (u16, u16), tiles: Set<int>) -> Option<
    (int, (u16, u16), Set<int>),
>
    recommends
        data.len() > 0,
{
    let b0 = data[0];
    let kind = b0 >> 5;
    if kind == 0 {
        Some((1int, advance(c, short_run(b0)), tiles))
    } else if kind == 2 {
        Some((1int, advance(c, short_run(b0)), tiles.union(run_cells(c, short_run(b0)))))
    } else if kind == 4 {
        Some((1int, (0u16, sat_add_y(c.1, short_run(b0))), tiles))
    } else if kind == 6 {
        Some(
            (
                1int,
                (0u16, sat_add_y(c.1, short_run(b0))),
                tiles.union(repeat_cells(tiles, c.1, short_run(b0))),
            ),
        )
    } else if data.len() < 2 {
        None
    } else {
        let run = long_run(b0, data[1]);
        if kind == 1 {
            Some((2int, advance(c, run), tiles))
        } else if kind == 3 {
            Some((2int, advance(c, run), tiles.union(run_cells(c, run))))
        } else if kind == 5 {
            Some((2int, (0u16, sat_add_y(c.1, run)), tiles))
        } else {
            Some((2int, (0u16, sat_add_y(c.1, run)), tiles.union(repeat_cells(tiles, c.1, run))))
        }
    }
}

/// The meaning of a whole record stream: the final cursor and cell set, or
/// `None` when some two-byte record is cut off.
pub open spec fn rle_decode(data: Seq<u8>, c: (u16, u16), tiles: Set<int>) -> Option<
    ((u16, u16), Set<int>),
>
    decreases data.len(),
{
    if data.len() == 0 {
        Some((c, tiles))
    } else {
        match rle_step(data, c, tiles) {
            None => None,
            Some((n, c2, t2)) => rle_decode(data.skip(n), c2, t2),
        }
    }
}

/// Every one-byte record encodes a run of 1 to 32 cells or rows; every
/// two-byte record one of 1 to 1024.
pub proof fn lemma_run_ranges(b0: u8, b1: u8)
    ensures
        1 <= short_run(b0) <= 32,
        1 <= long_run(b0, b1) <= 1024,
{
    assert(b0 & 0x1f < 32) by (bit_vector);
    assert(b0 & 3 < 4) by (bit_vector);
}

/// Marking the same cells present twice changes nothing: a present-run that
/// only covers cells already present leaves the cell set — and with it the
/// region's tile count — exactly as it was.
pub proof fn lemma_overlapping_run_idempotent(tiles: Set<int>, c: (u16, u16), run: int)
    ensures
        tiles.union(run_cells(c, run)).union(run_cells(c, run)) == tiles.union(run_cells(c, run)),
        run_cells(c, run).subset_of(tiles) ==> tiles.union(run_cells(c, run)) == tiles,
{
    assert(tiles.union(run_cells(c, run)).union(run_cells(c, run)) =~= tiles.union(
        run_cells(c, run)));
    if run_cells(c, run).subset_of(tiles) {
        assert(tiles.union(run_cells(c, run)) =~= tiles);
    }
}

/// Decoding a stream that parses completely and then more bytes equals
/// decoding the rest from where the first stream left off.
pub proof fn lemma_rle_decode_append(a: Seq<u8>, b: Seq<u8>, c: (u16, u16), tiles: Set<int>)
    requires
        rle_decode(a, c, tiles) is Some,
    ensures
        rle_decode(a + b, c, tiles) == rle_decode(
            b,
            rle_decode(a, c, tiles)->Some_0.0,
            rle_decode(a, c, tiles)->Some_0.1,
        ),
    decreases a.len(),
{
    if a.len() == 0 {
        assert(a + b =~= b);
    } else {
        let step = rle_step(a, c, tiles);
        assert(step is Some);
        let n = step->Some_0.0;
        let c1 = step->Some_0.1;
        let t1 = step->Some_0.2;
        assert((a + b)[0] == a[0]);
        if a.len() >= 2 {
            assert((a + b)[1] == a[1]);
        }
        assert(rle_step(a + b, c, tiles) == Some((n, c1, t1)));
        assert((a + b).skip(n) =~= a.skip(n) + b);
        lemma_rle_decode_append(a.skip(n), b, c1, t1);
    }
}

} // verus!
