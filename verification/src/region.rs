//! A named, flagged subset of the 1024x1024 tile grid. Cells are addressed
//! by the flattened index `y * 1024 + x`; `tile_count` counts the distinct
//! cells ever inserted.

use vstd::prelude::*;
use vstd::set_lib::{lemma_int_range, lemma_len_subset, set_int_range};
use vstd::arithmetic::div_mod::lemma_fundamental_div_mod;

use crate::cells::{cellset_contents, CellSet};
use crate::rle::{
    advance, flat, repeat_cells, rle_decode, rle_step, run_cells, sat_add_y, GRID_CELLS, GRID_DIM,
};
use crate::text::bytes_to_string;
use crate::wire::{align4, le32_at, read_le32, round_up4};
use crate::LoadError;
use vstd::slice::slice_subrange;
use vstd::utf8::{decode_utf8, valid_utf8};

verus! {

pub const REGION_FLAG_BASE: u32 = 1;
pub const REGION_FLAG_NO_ANTIWARP: u32 = 2;
pub const REGION_FLAG_NO_WEAPONS: u32 = 4;
pub const REGION_FLAG_NO_FLAGS: u32 = 8;

/// Sub-chunk tags inside a region chunk, as little-endian-packed ASCII.
pub const TAG_RNAM: u32 = 0x4D414E72;

pub const TAG_RTIL: u32 = 0x4C495472;

pub const TAG_RBSE: u32 = 0x45534272;

pub const TAG_RNAW: u32 = 0x57414E72;

pub const TAG_RNWP: u32 = 0x50574E72;

pub const TAG_RNFL: u32 = 0x4C464E72;

/// Mathematical content of a region: its name, its accumulated flag bits,
/// and the set of flattened indices of its present cells.
#[verifier::ext_equal]
pub struct RegionModel {
    pub name: Seq<char>,
    pub flags: u32,
    pub tiles: Set<int>,
}

pub struct Region {
    pub name: String,
    pub flags: u32,
    pub tiles: CellSet,
    pub tile_count: u32,
}

impl View for Region {
    type V = RegionModel;

    open spec fn view(&self) -> RegionModel {
        RegionModel { name: self.name@, flags: self.flags, tiles: cellset_contents(self.tiles) }
    }
}

impl Region {
    /// Every stored cell lies inside the grid, and `tile_count` is the
    /// number of distinct cells present.
    pub open spec fn wf(&self) -> bool {
        &&& self@.tiles.finite()
        &&& (forall|i: int| self@.tiles.contains(i) ==> 0 <= i < GRID_CELLS)
        &&& self.tile_count == self@.tiles.len()
    }

    pub fn empty() -> (r: Self)
        ensures
            r.wf(),
            r@.name == Seq::<char>::empty(),
            r@.flags == 0,
            r@.tiles == Set::<int>::empty(),
            r.tile_count == 0,
    {
        Region { name: String::new(), flags: 0, tiles: CellSet::new(), tile_count: 0 }
    }

    fn get_index(x: u16, y: u16) -> (r: usize)
        ensures
            r == y as int * 1024 + x as int,
    {
        y as usize * 1024 + x as usize
    }

    /// Inserts the cell with flattened index `index`, bumping `tile_count`
    /// exactly when the cell was absent.
    pub(crate) fn insert_index(&mut self, index: usize)
        requires
            old(self).wf(),
            index < GRID_CELLS,
        ensures
            final(self).wf(),
            final(self)@ == (RegionModel { tiles: old(self)@.tiles.insert(index as int), ..old(self)@ }),
            final(self).tile_count == if old(self)@.tiles.contains(index as int) {
                old(self).tile_count as int
            } else {
                old(self).tile_count + 1
            },
    {
        proof {
            lemma_int_range(0, GRID_CELLS as int);
            lemma_len_subset(self@.tiles, set_int_range(0, GRID_CELLS as int));
            assert(self@.tiles.subset_of(set_int_range(0, GRID_CELLS as int)));
        }
        let added = self.tiles.insert(index);
        if added {
            self.tile_count = self.tile_count + 1;
        } else {
            proof {
                assert(old(self)@.tiles.insert(index as int) =~= old(self)@.tiles);
            }
        }
    }

    /// Marks the cell `(x, y)` present; re-inserting a present cell leaves
    /// `tile_count` unchanged.
    pub fn set_tile(&mut self, x: u16, y: u16)
        requires
            old(self).wf(),
            x < GRID_DIM,
            y < GRID_DIM,
        ensures
            final(self).wf(),
            final(self)@ == (RegionModel {
                tiles: old(self)@.tiles.insert(y as int * 1024 + x as int),
                ..old(self)@
            }),
            final(self).tile_count == if old(self)@.tiles.contains(y as int * 1024 + x as int) {
                old(self).tile_count as int
            } else {
                old(self).tile_count + 1
            },
    {
        let index = Self::get_index(x, y);
        self.insert_index(index);
    }

    /// Whether the cell `(x, y)` is present. Coordinates beyond the grid
    /// follow the flattened addressing: `(x, y)` means index `y * 1024 + x`.
    pub fn in_region(&self, x: u16, y: u16) -> (r: bool)
        ensures
            r == self@.tiles.contains(y as int * 1024 + x as int),
    {
        let index = Self::get_index(x, y);
        self.tiles.contains(index)
    }

    /// All present cells as `(x, y)` pairs, in increasing order of their
    /// flattened index.
    pub fn get_tiles(&self) -> (r: Vec<(u16, u16)>)
        requires
            self.wf(),
        ensures
            forall|i: int| 0 <= i < r@.len() ==> (#[trigger] r@[i]).0 < 1024 && r@[i].1 < 1024
                && self@.tiles.contains(r@[i].1 as int * 1024 + r@[i].0 as int),
            forall|c: int| self@.tiles.contains(c) ==> exists|i: int| 0 <= i < r@.len()
                && (#[trigger] r@[i]).0 == c % 1024 && r@[i].1 == c / 1024,
            forall|i: int, j: int| 0 <= i < j < r@.len()
                ==> r@[i].1 as int * 1024 + r@[i].0 < r@[j].1 as int * 1024 + r@[j].0,
    {
        let indices = self.tiles.elements();
        let mut r: Vec<(u16, u16)> = Vec::new();
        let mut k: usize = 0;
        while k < indices.len()
            invariant
                self.wf(),
                k <= indices@.len(),
                r@.len() == k,
                forall|i: int| 0 <= i < indices@.len()
                    ==> self@.tiles.contains(#[trigger] indices@[i] as int),
                forall|v: int| self@.tiles.contains(v)
                    ==> exists|i: int| 0 <= i < indices@.len() && #[trigger] indices@[i] as int == v,
                forall|i: int, j: int| 0 <= i < j < indices@.len() ==> indices@[i] < indices@[j],
                forall|i: int| 0 <= i < k ==> (#[trigger] r@[i]).0 == indices@[i] as int % 1024
                    && r@[i].1 == indices@[i] as int / 1024,
                forall|i: int| 0 <= i < k ==> (#[trigger] r@[i]).0 < 1024 && r@[i].1 < 1024
                    && r@[i].1 as int * 1024 + r@[i].0 == indices@[i] as int,
            decreases indices@.len() - k,
        {
            let idx = indices[k];
            proof {
                assert(self@.tiles.contains(idx as int));
                assert(idx < GRID_CELLS);
                lemma_fundamental_div_mod(idx as int, 1024);
            }
            let x = (idx % 1024) as u16;
            let y = (idx / 1024) as u16;
            r.push((x, y));
            k = k + 1;
        }
        proof {
            assert forall|c: int| self@.tiles.contains(c) implies exists|i: int|
                0 <= i < r@.len() && (#[trigger] r@[i]).0 == c % 1024 && r@[i].1 == c / 1024 by {
                let i = choose|i: int| 0 <= i < indices@.len() && #[trigger] indices@[i] as int == c;
                lemma_fundamental_div_mod(c, 1024);
                assert(r@[i].0 == c % 1024 && r@[i].1 == c / 1024);
            }
        }
        r
    }

    /// Marks `run` consecutive cells present, starting at the cursor's
    /// flattened index; cells beyond the grid are dropped.
    fn mark_run(&mut self, c: (u16, u16), run: u16)
        requires
            old(self).wf(),
            1 <= run <= 1024,
        ensures
            final(self).wf(),
            final(self)@ == (RegionModel {
                tiles: old(self)@.tiles.union(run_cells(c, run as int)),
                ..old(self)@
            }),
    {
        let start: usize = c.1 as usize * 1024 + c.0 as usize;
        let mut i: usize = 0;
        while i < run as usize
            invariant
                self.wf(),
                self@.name == old(self)@.name,
                self@.flags == old(self)@.flags,
                i <= run,
                start == flat(c),
                self@.tiles == old(self)@.tiles.union(run_cells(c, i as int)),
            decreases run - i,
        {
            let index = start + i;
            proof {
                if index < GRID_CELLS {
                    assert(old(self)@.tiles.union(run_cells(c, i as int)).insert(index as int)
                        =~= old(self)@.tiles.union(run_cells(c, i as int + 1)));
                } else {
                    assert(run_cells(c, i as int) =~= run_cells(c, i as int + 1));
                }
            }
            if index < GRID_CELLS {
                self.insert_index(index);
            }
            i = i + 1;
        }
        proof {
            assert(self@ =~= (RegionModel {
                tiles: old(self)@.tiles.union(run_cells(c, run as int)),
                ..old(self)@
            }));
        }
    }

    /// Writes `run` rows starting at row `y`, each a copy of row `y - 1` as
    /// it stood before this record; rows beyond the grid are dropped.
    fn mark_repeat(&mut self, y: u16, run: u16)
        requires
            old(self).wf(),
            1 <= run <= 1024,
            y >= 1,
        ensures
            final(self).wf(),
            final(self)@ == (RegionModel {
                tiles: old(self)@.tiles.union(repeat_cells(old(self)@.tiles, y, run as int)),
                ..old(self)@
            }),
    {
        let ghost t0 = self@.tiles;
        let mut i: u16 = 0;
        while i < run
            invariant
                self.wf(),
                self@.name == old(self)@.name,
                self@.flags == old(self)@.flags,
                t0 == old(self)@.tiles,
                i <= run,
                run <= 1024,
                1 <= y,
                self@.tiles == t0.union(repeat_cells(t0, y, i as int)),
            decreases run - i,
        {
            let row: usize = y as usize + i as usize;
            if row < 1024 {
                let mut x: u16 = 0;
                while x < 1024
                    invariant
                        self.wf(),
                        self@.name == old(self)@.name,
                        self@.flags == old(self)@.flags,
                        t0 == old(self)@.tiles,
                        i < run <= 1024,
                        1 <= y,
                        x <= 1024,
                        row == y + i < 1024,
                        self@.tiles == t0.union(repeat_cells(t0, y, i as int)).union(
                            Set::new(|c: int| row * 1024 <= c < row * 1024 + x
                                && t0.contains((y - 1) * 1024 + (c - row * 1024))),
                        ),
                    decreases 1024 - x,
                {
                    let ghost before = self@.tiles;
                    let ghost src: int = (y - 1) as int * 1024 + x as int;
                    proof {
                        // Nothing written so far lies in row y - 1, so the
                        // source row still reads as it did at the start.
                        assert forall|c: int| repeat_cells(t0, y, i as int).contains(c)
                            implies c >= y * 1024 by {
                            vstd::arithmetic::div_mod::lemma_fundamental_div_mod(c, 1024);
                        }
                        assert(src < y * 1024);
                        assert(before.contains(src) == t0.contains(src));
                    }
                    if self.in_region(x, y - 1) {
                        let index = row * 1024 + x as usize;
                        self.insert_index(index);
                        proof {
                            assert(self@.tiles =~= t0.union(repeat_cells(t0, y, i as int)).union(
                                Set::new(|c: int| row * 1024 <= c < row * 1024 + (x + 1)
                                    && t0.contains((y - 1) * 1024 + (c - row * 1024))),
                            ));
                        }
                    } else {
                        proof {
                            assert(self@.tiles =~= t0.union(repeat_cells(t0, y, i as int)).union(
                                Set::new(|c: int| row * 1024 <= c < row * 1024 + (x + 1)
                                    && t0.contains((y - 1) * 1024 + (c - row * 1024))),
                            ));
                        }
                    }
                    x = x + 1;
                }
                proof {
                    assert forall|c: int| #[trigger] repeat_cells(t0, y, i as int + 1).contains(c)
                        implies repeat_cells(t0, y, i as int).contains(c)
                            || (row * 1024 <= c < row * 1024 + 1024
                                && t0.contains((y - 1) * 1024 + (c - row * 1024))) by {
                        vstd::arithmetic::div_mod::lemma_fundamental_div_mod(c, 1024);
                    }
                    assert forall|c: int| row * 1024 <= c < row * 1024 + 1024
                        && t0.contains((y - 1) * 1024 + (c - row * 1024))
                        implies #[trigger] repeat_cells(t0, y, i as int + 1).contains(c) by {
                        vstd::arithmetic::div_mod::lemma_fundamental_div_mod_converse(
                            c, 1024, row as int, c - row * 1024);
                    }
                    assert(t0.union(repeat_cells(t0, y, i as int)).union(
                        Set::new(|c: int| row * 1024 <= c < row * 1024 + 1024
                            && t0.contains((y - 1) * 1024 + (c - row * 1024))),
                    ) =~= t0.union(repeat_cells(t0, y, i as int + 1)));
                }
            } else {
                proof {
                    assert forall|c: int| #[trigger] repeat_cells(t0, y, i as int + 1).contains(c)
                        implies repeat_cells(t0, y, i as int).contains(c) by {
                        vstd::arithmetic::div_mod::lemma_fundamental_div_mod(c, 1024);
                    }
                    assert(repeat_cells(t0, y, i as int) =~= repeat_cells(t0, y, i as int + 1));
                }
            }
            i = i + 1;
        }
        proof {
            assert(self@ =~= (RegionModel {
                tiles: old(self)@.tiles.union(repeat_cells(old(self)@.tiles, y, run as int)),
                ..old(self)@
            }));
        }
    }

    /// Decodes an entire run-length record stream into this region's cell
    /// set, starting at `coord`; returns the cursor after the last record,
    /// ready for the region's next tile-data sub-chunk. Records only add
    /// cells: on success and on failure alike, every cell present before
    /// stays present and `tile_count` never shrinks.
    pub fn parse_data(&mut self, data: &[u8], coord: (u16, u16)) -> (r: Result<
        (u16, u16),
        LoadError,
    >)
        requires
            old(self).wf(),
        ensures
            final(self).wf(),
            final(self)@.name == old(self)@.name,
            final(self)@.flags == old(self)@.flags,
            old(self)@.tiles.subset_of(final(self)@.tiles),
            final(self).tile_count >= old(self).tile_count,
            match rle_decode(data@, coord, old(self)@.tiles) {
                Some((c2, t2)) => r == Ok::<(u16, u16), LoadError>(c2) && final(self)@.tiles == t2,
                None => r == Err::<(u16, u16), LoadError>(LoadError::TruncatedRunRecord),
            },
    {
        let ghost t0 = self@.tiles;
        proof {
            assert(data@.skip(0) =~= data@);
        }
        let mut pos: usize = 0;
        let mut cur = coord;
        while pos < data.len()
            invariant
                self.wf(),
                self@.name == old(self)@.name,
                self@.flags == old(self)@.flags,
                t0 == old(self)@.tiles,
                t0.subset_of(self@.tiles),
                old(self).tile_count == t0.len(),
                pos <= data@.len(),
                rle_decode(data@.skip(pos as int), cur, self@.tiles) == rle_decode(
                    data@, coord, t0),
            decreases data@.len() - pos,
        {
            let ghost rest = data@.skip(pos as int);
            let ghost cur0 = cur;
            let ghost tiles0 = self@.tiles;
            proof {
                assert(rest[0] == data@[pos as int]);
                if pos + 1 < data@.len() {
                    assert(rest[1] == data@[pos as int + 1]);
                }
            }
            let b0 = data[pos];
            let kind = b0 >> 5;
            if kind == 0 || kind == 2 || kind == 4 || kind == 6 {
                proof {
                    assert(b0 & 0x1f < 32) by (bit_vector);
                }
                let run = (b0 & 0x1f) as u16 + 1;
                if kind == 2 {
                    self.mark_run(cur, run);
                } else if kind == 6 {
                    if cur.1 >= 1 {
                        self.mark_repeat(cur.1, run);
                    } else {
                        proof {
                            assert(repeat_cells(tiles0, cur.1, run as int) =~= Set::<int>::empty());
                            assert(tiles0.union(repeat_cells(tiles0, cur.1, run as int)) =~= tiles0);
                        }
                    }
                }
                if kind == 0 || kind == 2 {
                    cur = Self::advance_cursor(cur, run);
                } else {
                    cur = (0, Self::sat_add(cur.1, run));
                }
                proof {
                    assert(rle_step(rest, cur0, tiles0) == Some((1int, cur, self@.tiles)));
                    assert(rest.skip(1) =~= data@.skip(pos as int + 1));
                }
                pos = pos + 1;
            } else {
                if pos + 1 >= data.len() {
                    proof {
                        assert(rest.len() < 2);
                        assert(rle_step(rest, cur0, tiles0) is None);
                        lemma_len_subset(t0, self@.tiles);
                    }
                    return Err(LoadError::TruncatedRunRecord);
                }
                let b1 = data[pos + 1];
                proof {
                    assert(b0 & 3 < 4) by (bit_vector);
                }
                let run = (b0 & 3) as u16 * 0x100 + b1 as u16 + 1;
                if kind == 3 {
                    self.mark_run(cur, run);
                } else if kind == 7 {
                    if cur.1 >= 1 {
                        self.mark_repeat(cur.1, run);
                    } else {
                        proof {
                            assert(repeat_cells(tiles0, cur.1, run as int) =~= Set::<int>::empty());
                            assert(tiles0.union(repeat_cells(tiles0, cur.1, run as int)) =~= tiles0);
                        }
                    }
                }
                if kind == 1 || kind == 3 {
                    cur = Self::advance_cursor(cur, run);
                } else {
                    cur = (0, Self::sat_add(cur.1, run));
                }
                proof {
                    assert(b0 >> 5 < 8) by (bit_vector);
                    assert(rle_step(rest, cur0, tiles0) == Some((2int, cur, self@.tiles)));
                    assert(rest.skip(2) =~= data@.skip(pos as int + 2));
                }
                pos = pos + 2;
            }
        }
        proof {
            assert(data@.skip(pos as int) =~= Seq::<u8>::empty());
            lemma_len_subset(t0, self@.tiles);
        }
        Ok(cur)
    }

    /// Cursor advance for in-row runs.
    fn advance_cursor(c: (u16, u16), run: u16) -> (r: (u16, u16))
        requires
            1 <= run <= 1024,
        ensures
            r == advance(c, run as int),
    {
        let nx = c.0 as u32 + run as u32;
        if nx >= 1024 {
            (0, Self::sat_add(c.1, 1))
        } else {
            (nx as u16, c.1)
        }
    }

    /// `y + run`, saturating at the coordinate type's upper bound.
    fn sat_add(y: u16, run: u16) -> (r: u16)
        ensures
            r == sat_add_y(y, run as int),
    {
        let s = y as u32 + run as u32;
        if s > 0xffff {
            0xffff
        } else {
            s as u16
        }
    }
}

/// The model of a region before any sub-chunk has been read.
pub open spec fn region_model_init() -> RegionModel {
    RegionModel { name: Seq::<char>::empty(), flags: 0u32, tiles: Set::<int>::empty() }
}

/// The meaning of a region chunk's payload, read as a nested stream of
/// 8-byte-header sub-chunks while more than 8 bytes remain. `rNAM` names the
/// region, `rTIL` feeds the run-length decoder (the cursor `c` threads from
/// one tile sub-chunk to the next), `rBSE`/`rNAW`/`rNWP`/`rNFL` each OR one
/// flag bit in, and any other tag is skipped. A sub-chunk whose declared
/// payload overruns the remaining bytes ends the stream.
pub open spec fn region_read_from(data: Seq<u8>, m: RegionModel, c: (u16, u16)) -> Result<
    RegionModel,
    LoadError,
>
    decreases data.len(),
{
    if data.len() <= 8 {
        Ok(m)
    } else {
        let tag = le32_at(data, 0);
        let size = le32_at(data, 4) as int;
        if data.len() < 8 + size {
            Ok(m)
        } else {
            let payload = data.subrange(8, 8 + size);
            let step = if 8 + align4(size) <= data.len() {
                8 + align4(size)
            } else {
                data.len() as int
            };
            let rest = data.skip(step);
            if tag == TAG_RNAM {
                if valid_utf8(payload) {
                    region_read_from(rest, RegionModel { name: decode_utf8(payload), ..m }, c)
                } else {
                    Err(LoadError::InvalidUtf8)
                }
            } else if tag == TAG_RTIL {
                match rle_decode(payload, c, m.tiles) {
                    Some((c2, t2)) => region_read_from(rest, RegionModel { tiles: t2, ..m }, c2),
                    None => Err(LoadError::TruncatedRunRecord),
                }
            } else if tag == TAG_RBSE {
                region_read_from(rest, RegionModel { flags: m.flags | REGION_FLAG_BASE, ..m }, c)
            } else if tag == TAG_RNAW {
                region_read_from(
                    rest,
                    RegionModel { flags: m.flags | REGION_FLAG_NO_ANTIWARP, ..m },
                    c,
                )
            } else if tag == TAG_RNWP {
                region_read_from(
                    rest,
                    RegionModel { flags: m.flags | REGION_FLAG_NO_WEAPONS, ..m },
                    c,
                )
            } else if tag == TAG_RNFL {
                region_read_from(rest, RegionModel { flags: m.flags | REGION_FLAG_NO_FLAGS, ..m }, c)
            } else {
                region_read_from(rest, m, c)
            }
        }
    }
}

/// Reads a region chunk's payload and assembles the region it describes.
pub fn read_region(data: &[u8]) -> (r: Result<Region, LoadError>)
    ensures
        match region_read_from(data@, region_model_init(), (0u16, 0u16)) {
            Ok(m) => r matches Ok(reg) && reg@ == m && reg.wf(),
            Err(e) => r == Err::<Region, LoadError>(e),
        },
{
    let mut region = Region::empty();
    let mut cur: (u16, u16) = (0, 0);
    let mut pos: usize = 0;
    proof {
        assert(data@.skip(0) =~= data@);
        assert(region@ =~= region_model_init());
    }
    while data.len() - pos > 8
        invariant
            pos <= data@.len(),
            region.wf(),
            region_read_from(data@.skip(pos as int), region@, cur) == region_read_from(
                data@, region_model_init(), (0u16, 0u16)),
        decreases data@.len() - pos,
    {
        let ghost rest = data@.skip(pos as int);
        let ghost m0 = region@;
        let ghost cur0 = cur;
        let remaining = data.len() - pos;
        let tag = read_le32(data, pos);
        let size32 = read_le32(data, pos + 4);
        proof {
            assert(rest.subrange(0, 4) =~= data@.subrange(pos as int, pos as int + 4));
            assert(rest.subrange(4, 8) =~= data@.subrange(pos as int + 4, pos as int + 8));
            assert(le32_at(rest, 0) == tag);
            assert(le32_at(rest, 4) == size32);
        }
        if size32 as usize > remaining - 8 {
            pos = data.len();
            proof {
                assert(data@.skip(pos as int) =~= Seq::<u8>::empty());
            }
        } else {
            let size = size32 as usize;
            let payload = slice_subrange(data, pos + 8, pos + 8 + size);
            proof {
                assert(payload@ =~= rest.subrange(8, 8 + size as int));
            }
            if tag == TAG_RNAM {
                match bytes_to_string(payload) {
                    Some(s) => {
                        region.name = s;
                    },
                    None => {
                        return Err(LoadError::InvalidUtf8);
                    },
                }
            } else if tag == TAG_RTIL {
                match region.parse_data(payload, cur) {
                    Ok(c2) => {
                        cur = c2;
                    },
                    Err(e) => {
                        return Err(e);
                    },
                }
            } else if tag == TAG_RBSE {
                region.flags = region.flags | REGION_FLAG_BASE;
            } else if tag == TAG_RNAW {
                region.flags = region.flags | REGION_FLAG_NO_ANTIWARP;
            } else if tag == TAG_RNWP {
                region.flags = region.flags | REGION_FLAG_NO_WEAPONS;
            } else if tag == TAG_RNFL {
                region.flags = region.flags | REGION_FLAG_NO_FLAGS;
            }
            let padded = round_up4(size);
            if padded > remaining - 8 {
                pos = data.len();
                proof {
                    assert(8 + align4(size as int) > rest.len());
                    assert(data@.skip(pos as int) =~= Seq::<u8>::empty());
                    assert(rest.skip(rest.len() as int) =~= Seq::<u8>::empty());
                }
            } else {
                proof {
                    assert(8 + align4(size as int) <= rest.len());
                    assert(rest.skip(8 + align4(size as int)) =~= data@.skip(
                        pos as int + 8 + align4(size as int)));
                }
                pos = pos + 8 + padded;
            }
        }
    }
    proof {
        assert(region_read_from(data@.skip(pos as int), region@, cur) == Ok::<RegionModel,
            LoadError>(region@));
    }
    Ok(region)
}

} // verus!
