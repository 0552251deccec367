//! The level file as a whole: a 1024x1024 grid of tile identifiers packed
//! into 4-byte records, an optional tileset bitmap at the front, and the
//! optional metadata container read by `elvl`.

use vstd::prelude::*;
use vstd::slice::{slice_index_get, slice_subrange};

use crate::elvl::{chunks_wf, elvl_model, elvl_read, models, Attribute, AttributeModel, Chunk, ChunkModel};
use crate::rle::GRID_CELLS;
use crate::wire::{le32_at, read_le32};
use crate::LoadError;

verus! {

/// A tile identifier; 0 means the cell is empty.
pub type TileId = u8;

pub const TILE_ID_FIRST_DOOR: TileId = 162;

pub const TILE_ID_LAST_DOOR: TileId = 169;

pub const TILE_ID_FLAG: TileId = 170;

pub const TILE_ID_SAFE: TileId = 171;

pub const TILE_ID_GOAL: TileId = 172;

pub const TILE_ID_WORMHOLE: TileId = 220;

/// The x coordinate packed into a tile-grid record: bits 0 to 11.
pub open spec fn tile_x(v: u32) -> int {
    v as int % 4096
}

/// The y coordinate packed into a tile-grid record: bits 12 to 23.
pub open spec fn tile_y(v: u32) -> int {
    (v as int / 4096) % 4096
}

/// The tile identifier packed into a tile-grid record: bits 24 to 31.
pub open spec fn tile_id(v: u32) -> int {
    v as int / 0x1000000
}

/// One 4-byte little-endian tile-grid record.
pub struct ReadTile {
    pub value: u32,
}

impl ReadTile {
    pub fn new(value: u32) -> (r: Self)
        ensures
            r.value == value,
    {
        Self { value }
    }

    pub fn x(&self) -> (r: u16)
        ensures
            r == tile_x(self.value),
    {
        let v = self.value;
        proof {
            assert(v & 0xfff == v % 4096) by (bit_vector);
        }
        (v & 0xFFF) as u16
    }

    pub fn y(&self) -> (r: u16)
        ensures
            r == tile_y(self.value),
    {
        let v = self.value;
        proof {
            assert((v >> 12) & 0xfff == (v / 4096) % 4096) by (bit_vector);
        }
        ((v >> 12) & 0xFFF) as u16
    }

    pub fn id(&self) -> (r: u8)
        ensures
            r == tile_id(self.value),
    {
        let v = self.value;
        proof {
            assert((v >> 24) & 0xff == v / 0x1000000) by (bit_vector);
        }
        ((v >> 24) & 0xFF) as u8
    }
}

/// The grid with every cell empty.
pub open spec fn empty_grid() -> Seq<u8> {
    Seq::new(GRID_CELLS as nat, |i: int| 0u8)
}

/// The meaning of the tile-grid data: 4-byte records are read until fewer
/// than 4 bytes remain, each setting `grid[y * 1024 + x] = id`, later
/// records overwriting earlier ones; a record addressing a cell outside the
/// 1024x1024 grid is a hard error.
pub open spec fn grid_read_from(data: Seq<u8>, grid: Seq<u8>) -> Result<Seq<u8>, LoadError>
    decreases data.len(),
{
    if data.len() < 4 {
        Ok(grid)
    } else {
        let v = le32_at(data, 0);
        if tile_x(v) >= 1024 || tile_y(v) >= 1024 {
            Err(LoadError::TileOutOfBounds)
        } else {
            grid_read_from(data.skip(4), grid.update(tile_y(v) * 1024 + tile_x(v), tile_id(v) as u8))
        }
    }
}

/// An opaque handle to the decoded tileset image. Relies on the image
/// crate's DynamicImage; this library only carries the value through.
#[verifier::external_type_specification]
#[verifier::external_body]
pub struct ExDynamicImage(image::DynamicImage);

/// Relies on image::ImageReader (format guessed from the bytes, then
/// decoded). Which bytes it accepts is not a function of the bytes alone —
/// the image crate keeps process-global, run-time-extensible registries of
/// format-detection and decoding hooks that any host program may fill — so
/// no name is given to its acceptance; only the failure's identity is
/// stated, and the callers say what holds whichever way the call went.
#[verifier::external_body]
fn decode_tileset(data: &[u8]) -> (r: Result<image::DynamicImage, LoadError>)
    ensures
        r matches Err(e) ==> e == LoadError::ImageDecodeFailure,
{
    let cursor = std::io::Cursor::new(data);
    let reader = match image::ImageReader::new(cursor).with_guessed_format() {
        Ok(reader) => reader,
        Err(_) => return Err(LoadError::ImageDecodeFailure),
    };
    match reader.decode() {
        Ok(img) => Ok(img),
        Err(_) => Err(LoadError::ImageDecodeFailure),
    }
}

/// Whether the file opens with the two-byte bitmap signature.
pub open spec fn is_bitmap(data: Seq<u8>) -> bool {
    data.len() >= 2 && data[0] == 0x42 && data[1] == 0x4d
}

/// The meaning of a whole level file, image aside: the decoded tile grid
/// and the decoded metadata chunks.
///
/// A file of fewer than 2 bytes is an empty map. Without the bitmap
/// signature the whole file is tile-grid data and there is no metadata.
/// With it, the file must be at least 10 bytes and the stored tile-grid
/// offset must lie inside the file; the grid is decoded from that offset
/// and the metadata located through the header.
pub open spec fn map_model(data: Seq<u8>) -> Result<(Seq<u8>, Seq<ChunkModel>), LoadError> {
    if data.len() < 2 {
        Ok((empty_grid(), Seq::<ChunkModel>::empty()))
    } else if is_bitmap(data) {
        if data.len() < 10 {
            Err(LoadError::TruncatedInput)
        } else {
            let off = le32_at(data, 2) as int;
            if off >= data.len() {
                Err(LoadError::TruncatedInput)
            } else {
                match grid_read_from(data.skip(off), empty_grid()) {
                    Err(e) => Err(e),
                    Ok(g) => match elvl_model(data) {
                        Err(e) => Err(e),
                        Ok(cs) => Ok((g, cs)),
                    },
                }
            }
        }
    } else {
        match grid_read_from(data, empty_grid()) {
            Err(e) => Err(e),
            Ok(g) => match elvl_model(data) {
                Err(e) => Err(e),
                Ok(cs) => Ok((g, cs)),
            },
        }
    }
}

/// Mathematical content of a map: the file name it was loaded from, the
/// tile grid by flattened index, and the metadata chunks in file order.
#[verifier::ext_equal]
pub struct MapModel {
    pub filename: Seq<char>,
    pub grid: Seq<u8>,
    pub chunks: Seq<ChunkModel>,
}

pub struct LevelMap {
    pub filename: String,
    pub elvl: Vec<Chunk>,
    pub tiles: Vec<TileId>,
    pub tileset: Option<image::DynamicImage>,
}

impl View for LevelMap {
    type V = MapModel;

    open spec fn view(&self) -> MapModel {
        MapModel { filename: self.filename@, grid: self.tiles@, chunks: models(self.elvl@) }
    }
}

/// Applies one 4-byte tile-grid record to the grid; returns whether the
/// record's cell lies inside the grid.
fn apply_record(tiles: &mut Vec<TileId>, v: u32) -> (ok: bool)
    requires
        old(tiles)@.len() == GRID_CELLS,
    ensures
        final(tiles)@.len() == GRID_CELLS,
        ok == (tile_x(v) < 1024 && tile_y(v) < 1024),
        ok ==> final(tiles)@ == old(tiles)@.update(tile_y(v) * 1024 + tile_x(v), tile_id(v) as u8),
        !ok ==> final(tiles)@ == old(tiles)@,
{
    let tile = ReadTile::new(v);
    let x = tile.x();
    let y = tile.y();
    if x >= 1024 || y >= 1024 {
        return false;
    }
    let index = y as usize * 1024 + x as usize;
    tiles[index] = tile.id();
    true
}

/// A grid of `GRID_CELLS` zeroed cells.
fn zero_grid() -> (r: Vec<TileId>)
    ensures
        r@ == empty_grid(),
{
    let mut r: Vec<TileId> = Vec::new();
    let mut i: usize = 0;
    while i < GRID_CELLS
        invariant
            i <= GRID_CELLS,
            r@.len() == i,
            forall|j: int| 0 <= j < i ==> r@[j] == 0,
        decreases GRID_CELLS - i,
    {
        r.push(0);
        i = i + 1;
    }
    proof {
        assert(r@ =~= empty_grid());
    }
    r
}

impl LevelMap {
    /// The grid holds one identifier per cell and every held region is
    /// well formed.
    pub open spec fn wf(&self) -> bool {
        &&& self@.grid.len() == GRID_CELLS
        &&& chunks_wf(self.elvl@)
    }

    /// A map with no tiles, no metadata and no tileset.
    pub fn empty() -> (r: Self)
        ensures
            r.wf(),
            r@.filename == Seq::<char>::empty(),
            r@.grid == empty_grid(),
            r@.chunks == Seq::<ChunkModel>::empty(),
            r.tileset is None,
    {
        proof {
            assert(models(Seq::<Chunk>::empty()) =~= Seq::<ChunkModel>::empty());
        }
        LevelMap { filename: String::new(), elvl: Vec::new(), tiles: zero_grid(), tileset: None }
    }

    /// The tile identifier at `(x, y)`.
    pub fn tile(&self, x: u16, y: u16) -> (r: TileId)
        requires
            self.wf(),
            x < 1024,
            y < 1024,
        ensures
            r == self@.grid[y as int * 1024 + x as int],
    {
        let index = y as usize * 1024 + x as usize;
        *slice_index_get(self.tiles.as_slice(), index)
    }

    /// Assembles a map from the file bytes and an already-decoded tileset
    /// image: the pure part of loading, exact for every input.
    #[verifier::rlimit(60)]
    pub fn load_with_tileset(data: &[u8], tileset: Option<image::DynamicImage>) -> (r: Result<
        LevelMap,
        LoadError,
    >)
        ensures
            match map_model(data@) {
                Ok(gm) => r matches Ok(m) && m.wf() && m@.grid == gm.0 && m@.chunks == gm.1
                    && m@.filename == Seq::<char>::empty()
                    && (if is_bitmap(data@) { m.tileset == tileset } else { m.tileset is None }),
                Err(e) => r == Err::<LevelMap, LoadError>(e),
            },
    {
        if data.len() < 2 {
            return Ok(LevelMap::empty());
        }
        let bitmap = *slice_index_get(data, 0) == 0x42 && *slice_index_get(data, 1) == 0x4d;
        let mut tiledata_offset: usize = 0;
        if bitmap {
            if data.len() < 10 {
                return Err(LoadError::TruncatedInput);
            }
            tiledata_offset = read_le32(data, 2) as usize;
            if tiledata_offset >= data.len() {
                return Err(LoadError::TruncatedInput);
            }
        }
        let mut tiles = zero_grid();
        let mut pos: usize = tiledata_offset;
        proof {
            if tiledata_offset == 0 {
                assert(data@.skip(0) =~= data@);
            }
        }
        while data.len() - pos >= 4
            invariant
                pos <= data@.len(),
                tiles@.len() == GRID_CELLS,
                data@.len() >= 2,
                bitmap == is_bitmap(data@),
                bitmap ==> data@.len() >= 10 && tiledata_offset == le32_at(data@, 2)
                    && tiledata_offset < data@.len(),
                !bitmap ==> tiledata_offset == 0,
                grid_read_from(data@.skip(pos as int), tiles@) == grid_read_from(
                    data@.skip(tiledata_offset as int), empty_grid()),
            decreases data@.len() - pos,
        {
            let ghost rest = data@.skip(pos as int);
            let v = read_le32(data, pos);
            proof {
                assert(rest.subrange(0, 4) =~= data@.subrange(pos as int, pos as int + 4));
                assert(le32_at(rest, 0) == v);
            }
            let ok = apply_record(&mut tiles, v);
            if !ok {
                proof {
                    assert(grid_read_from(rest, tiles@) == Err::<Seq<u8>, LoadError>(
                        LoadError::TileOutOfBounds));
                    if !bitmap {
                        assert(data@.skip(0) =~= data@);
                    }
                }
                return Err(LoadError::TileOutOfBounds);
            }
            proof {
                assert(rest.skip(4) =~= data@.skip(pos as int + 4));
            }
            pos = pos + 4;
        }
        proof {
            assert(grid_read_from(data@.skip(pos as int), tiles@) == Ok::<Seq<u8>, LoadError>(
                tiles@));
        }
        let chunks = match elvl_read(data) {
            Ok(chunks) => chunks,
            Err(e) => {
                return Err(e);
            },
        };
        Ok(LevelMap {
            filename: String::new(),
            elvl: chunks,
            tiles,
            tileset: if bitmap {
                tileset
            } else {
                None
            },
        })
    }

    /// Loads a level from its file bytes. On a bitmap-prefixed file the
    /// bytes up to the tile-grid offset are handed to the image crate: a
    /// short header or an offset beyond the file is `TruncatedInput`, and
    /// past those checks the decode either fails — propagated as
    /// `ImageDecodeFailure` — or grid, metadata and tileset come out exactly
    /// as `map_model` says. Which bytes the image crate accepts cannot be
    /// pinned down (its decoding is extensible at run time), so that one
    /// choice stays a disjunction; `load_with_tileset` carries the exact
    /// contract for everything after it.
    pub fn load(data: &[u8]) -> (r: Result<LevelMap, LoadError>)
        ensures
            !is_bitmap(data@) ==> match map_model(data@) {
                Ok(gm) => r matches Ok(m) && m.wf() && m@.grid == gm.0 && m@.chunks == gm.1
                    && m@.filename == Seq::<char>::empty() && m.tileset is None,
                Err(e) => r == Err::<LevelMap, LoadError>(e),
            },
            is_bitmap(data@) && (data@.len() < 10 || le32_at(data@, 2) >= data@.len())
                ==> r == Err::<LevelMap, LoadError>(LoadError::TruncatedInput),
            is_bitmap(data@) && data@.len() >= 10 && le32_at(data@, 2) < data@.len() ==> (
            r == Err::<LevelMap, LoadError>(LoadError::ImageDecodeFailure) || match map_model(
                data@) {
                Ok(gm) => r matches Ok(m) && m.wf() && m@.grid == gm.0 && m@.chunks == gm.1
                    && m@.filename == Seq::<char>::empty() && m.tileset is Some,
                Err(e) => r == Err::<LevelMap, LoadError>(e),
            }),
    {
        let mut tileset: Option<image::DynamicImage> = None;
        if data.len() >= 2 && *slice_index_get(data, 0) == 0x42 && *slice_index_get(data, 1)
            == 0x4d {
            if data.len() < 10 {
                return Err(LoadError::TruncatedInput);
            }
            let tiledata_offset = read_le32(data, 2) as usize;
            if tiledata_offset >= data.len() {
                return Err(LoadError::TruncatedInput);
            }
            match decode_tileset(slice_subrange(data, 0, tiledata_offset)) {
                Ok(img) => {
                    tileset = Some(img);
                },
                Err(e) => {
                    return Err(e);
                },
            }
        }
        Self::load_with_tileset(data, tileset)
    }

    /// The attribute chunks, in file order.
    pub fn get_attributes(&self) -> (r: Vec<&Attribute>)
        ensures
            r@.len() == attrs_of(self@.chunks).len(),
            forall|i: int| 0 <= i < r@.len() ==> (#[trigger] r@[i])@ == attrs_of(self@.chunks)[i],
    {
        let mut r: Vec<&Attribute> = Vec::new();
        let mut k: usize = 0;
        proof {
            assert(models(self.elvl@).take(0) =~= Seq::<ChunkModel>::empty());
        }
        while k < self.elvl.len()
            invariant
                k <= self.elvl@.len(),
                self@.chunks == models(self.elvl@),
                r@.len() == attrs_of(models(self.elvl@).take(k as int)).len(),
                forall|i: int| 0 <= i < r@.len() ==> (#[trigger] r@[i])@ == attrs_of(
                    models(self.elvl@).take(k as int))[i],
            decreases self.elvl@.len() - k,
        {
            let ghost taken = models(self.elvl@).take(k as int);
            proof {
                assert(models(self.elvl@).take(k as int + 1) =~= taken + seq![
                    models(self.elvl@)[k as int]]);
                lemma_attrs_of_append(taken, seq![models(self.elvl@)[k as int]]);
                assert(models(self.elvl@)[k as int] == self.elvl@[k as int]@);
            }
            match &self.elvl[k] {
                Chunk::Attribute(a) => {
                    proof {
                        let single = seq![models(self.elvl@)[k as int]];
                        assert(single.skip(1) =~= Seq::<ChunkModel>::empty());
                        assert(attrs_of(Seq::<ChunkModel>::empty())
                            =~= Seq::<AttributeModel>::empty());
                        assert(single[0] == ChunkModel::Attribute(a@));
                        assert(attrs_of(single) =~= seq![a@]);
                    }
                    r.push(a);
                },
                _ => {
                    proof {
                        let single = seq![models(self.elvl@)[k as int]];
                        assert(single.skip(1) =~= Seq::<ChunkModel>::empty());
                        assert(attrs_of(Seq::<ChunkModel>::empty())
                            =~= Seq::<AttributeModel>::empty());
                        assert(attrs_of(single) =~= Seq::<AttributeModel>::empty());
                    }
                },
            }
            k = k + 1;
        }
        proof {
            assert(models(self.elvl@).take(self.elvl@.len() as int) =~= models(self.elvl@));
        }
        r
    }
}

/// The attribute chunks of a chunk sequence, in order.
pub open spec fn attrs_of(s: Seq<ChunkModel>) -> Seq<AttributeModel>
    decreases s.len(),
{
    if s.len() == 0 {
        Seq::empty()
    } else {
        (match s[0] {
            ChunkModel::Attribute(am) => seq![am],
            _ => Seq::empty(),
        }) + attrs_of(s.skip(1))
    }
}

/// Splitting a chunk sequence splits its attribute sequence.
pub proof fn lemma_attrs_of_append(a: Seq<ChunkModel>, b: Seq<ChunkModel>)
    ensures
        attrs_of(a + b) == attrs_of(a) + attrs_of(b),
    decreases a.len(),
{
    if a.len() == 0 {
        assert(a + b =~= b);
        assert(attrs_of(a) + attrs_of(b) =~= attrs_of(b));
    } else {
        assert((a + b)[0] == a[0]);
        assert((a + b).skip(1) =~= a.skip(1) + b);
        lemma_attrs_of_append(a.skip(1), b);
        assert(attrs_of(a + b) =~= attrs_of(a) + attrs_of(b));
    }
}

} // verus!
