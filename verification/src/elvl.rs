//! The "elvl" metadata container: a stream of tagged, length-prefixed
//! chunks following a 12-byte header inside the level file. `ATTR` chunks
//! carry `key=value` text, `REGN` chunks carry a nested region stream, and
//! any other tag is preserved verbatim.

use vstd::prelude::*;
use vstd::slice::{slice_index_get, slice_subrange, slice_to_vec};
use vstd::utf8::{decode_utf8, valid_utf8};

use crate::region::{read_region, region_model_init, region_read_from, Region, RegionModel};
use crate::text::bytes_to_string;
use crate::wire::{align4, le32_at, read_le32, round_up4};
use crate::LoadError;

verus! {

/// Container chunk tags, as little-endian-packed ASCII.
pub const TAG_ATTR: u32 = 0x52545441;

pub const TAG_REGN: u32 = 0x4E474552;

/// The 32-bit magic ("elvl" packed little-endian) opening the metadata
/// header.
pub const ELVL_MAGIC: u32 = 0x6C766C65;

/// The metadata header is 12 bytes: magic, declared total size, reserved.
pub const METADATA_HEADER_SIZE: usize = 12;

/// Every chunk header is 8 bytes: tag, then payload size.
pub const CHUNK_HEADER_SIZE: usize = 8;

/// The container's 12-byte header: the magic and the declared total size
/// of the metadata; the last four bytes are reserved.
pub struct MetadataHeader {
    pub magic: u32,
    pub total_size: u32,
}

impl MetadataHeader {
    pub fn new(data: &[u8; 12]) -> (r: Self)
        ensures
            r.magic == le32_at(data@, 0),
            r.total_size == le32_at(data@, 4),
    {
        let magic = data[0] as u32 + data[1] as u32 * 0x100 + data[2] as u32 * 0x1_0000 + data[3]
            as u32 * 0x100_0000;
        let total_size = data[4] as u32 + data[5] as u32 * 0x100 + data[6] as u32 * 0x1_0000
            + data[7] as u32 * 0x100_0000;
        Self { magic, total_size }
    }
}

/// An 8-byte chunk header: the tag and the payload size that follows it.
pub struct ChunkHeader {
    pub kind: u32,
    pub size: u32,
}

impl ChunkHeader {
    pub fn new(data: &[u8; 8]) -> (r: Self)
        ensures
            r.kind == le32_at(data@, 0),
            r.size == le32_at(data@, 4),
    {
        let kind = data[0] as u32 + data[1] as u32 * 0x100 + data[2] as u32 * 0x1_0000 + data[3]
            as u32 * 0x100_0000;
        let size = data[4] as u32 + data[5] as u32 * 0x100 + data[6] as u32 * 0x1_0000 + data[7]
            as u32 * 0x100_0000;
        Self { kind, size }
    }
}

/// A `key=value` pair from an `ATTR` chunk.
pub struct Attribute {
    pub key: String,
    pub value: String,
}

/// Mathematical content of an attribute.
#[verifier::ext_equal]
pub struct AttributeModel {
    pub key: Seq<char>,
    pub value: Seq<char>,
}

impl View for Attribute {
    type V = AttributeModel;

    open spec fn view(&self) -> AttributeModel {
        AttributeModel { key: self.key@, value: self.value@ }
    }
}

/// One decoded metadata chunk. Tags other than `ATTR` and `REGN` are kept
/// as `Other` with their payload verbatim; the remaining variants name
/// known tags that this decoder does not interpret.
pub enum Chunk {
    Attribute(Attribute),
    Region(Region),
    Tileset,
    Tile,
    DcmeId(u32),
    DcmeWallTiles,
    DcmeTextTiles,
    DcmeBookmarks,
    DcmeLvz,
    Other(u32, Vec<u8>),
}

/// Mathematical content of a chunk.
#[verifier::ext_equal]
pub enum ChunkModel {
    Attribute(AttributeModel),
    Region(RegionModel),
    Tileset,
    Tile,
    DcmeId(u32),
    DcmeWallTiles,
    DcmeTextTiles,
    DcmeBookmarks,
    DcmeLvz,
    Other(u32, Seq<u8>),
}

impl View for Chunk {
    type V = ChunkModel;

    open spec fn view(&self) -> ChunkModel {
        match self {
            Chunk::Attribute(a) => ChunkModel::Attribute(a@),
            Chunk::Region(r) => ChunkModel::Region(r@),
            Chunk::Tileset => ChunkModel::Tileset,
            Chunk::Tile => ChunkModel::Tile,
            Chunk::DcmeId(v) => ChunkModel::DcmeId(*v),
            Chunk::DcmeWallTiles => ChunkModel::DcmeWallTiles,
            Chunk::DcmeTextTiles => ChunkModel::DcmeTextTiles,
            Chunk::DcmeBookmarks => ChunkModel::DcmeBookmarks,
            Chunk::DcmeLvz => ChunkModel::DcmeLvz,
            Chunk::Other(tag, payload) => ChunkModel::Other(*tag, payload@),
        }
    }
}

/// The models of a sequence of chunks.
pub open spec fn models(s: Seq<Chunk>) -> Seq<ChunkModel> {
    s.map_values(|c: Chunk| c@)
}

/// Every region held in `s` satisfies its well-formedness invariant.
pub open spec fn chunks_wf(s: Seq<Chunk>) -> bool {
    forall|i: int|
        0 <= i < s.len() ==> match #[trigger] s[i] {
            Chunk::Region(reg) => reg.wf(),
            _ => true,
        }
}

/// The position of the first `=` byte, if any.
pub open spec fn find_eq(s: Seq<u8>) -> Option<int>
    decreases s.len(),
{
    if s.len() == 0 {
        None
    } else if s[0] == 0x3d {
        Some(0int)
    } else {
        match find_eq(s.skip(1)) {
            Some(i) => Some(i + 1),
            None => None,
        }
    }
}

/// `find_eq` returns the first `=`: the byte there is `=` and none before
/// it is; `None` means the sequence has no `=` at all.
pub proof fn lemma_find_eq(s: Seq<u8>)
    ensures
        match find_eq(s) {
            Some(i) => 0 <= i < s.len() && s[i] == 0x3d && forall|j: int|
                0 <= j < i ==> s[j] != 0x3d,
            None => forall|j: int| 0 <= j < s.len() ==> s[j] != 0x3d,
        },
    decreases s.len(),
{
    if s.len() == 0 {
    } else if s[0] == 0x3d {
    } else {
        lemma_find_eq(s.skip(1));
        let t = s.skip(1);
        match find_eq(t) {
            Some(i) => {
                assert(s[i + 1] == t[i]);
                assert forall|j: int| 0 <= j < i + 1 implies s[j] != 0x3d by {
                    if j >= 1 {
                        assert(t[j - 1] == s[j]);
                    }
                }
            },
            None => {
                assert forall|j: int| 0 <= j < s.len() implies s[j] != 0x3d by {
                    if j >= 1 {
                        assert(t[j - 1] == s[j]);
                    }
                }
            },
        }
    }
}

/// The meaning of an `ATTR` chunk's payload: split at the first `=` into a
/// UTF-8 key and value; no `=` or invalid UTF-8 is a hard error.
pub open spec fn attr_model(payload: Seq<u8>) -> Result<AttributeModel, LoadError> {
    match find_eq(payload) {
        None => Err(LoadError::MalformedAttribute),
        Some(i) => {
            let kb = payload.take(i);
            let vb = payload.skip(i + 1);
            if valid_utf8(kb) && valid_utf8(vb) {
                Ok(AttributeModel { key: decode_utf8(kb), value: decode_utf8(vb) })
            } else {
                Err(LoadError::InvalidUtf8)
            }
        },
    }
}

/// Splits an attribute payload at its first `=` byte into key and value.
pub fn parse_attribute(payload: &[u8]) -> (r: Result<Attribute, LoadError>)
    ensures
        match attr_model(payload@) {
            Ok(am) => r matches Ok(a) && a@ == am,
            Err(e) => r == Err::<Attribute, LoadError>(e),
        },
{
    proof {
        lemma_find_eq(payload@);
    }
    let mut i: usize = 0;
    while i < payload.len() && payload[i] != 0x3d
        invariant
            i <= payload@.len(),
            forall|j: int| 0 <= j < i ==> payload@[j] != 0x3d,
        decreases payload@.len() - i,
    {
        i = i + 1;
    }
    if i == payload.len() {
        return Err(LoadError::MalformedAttribute);
    }
    proof {
        assert(find_eq(payload@) == Some(i as int));
    }
    let key_bytes = slice_subrange(payload, 0, i);
    let value_bytes = slice_subrange(payload, i + 1, payload.len());
    proof {
        assert(key_bytes@ =~= payload@.take(i as int));
        assert(value_bytes@ =~= payload@.skip(i as int + 1));
    }
    match bytes_to_string(key_bytes) {
        None => Err(LoadError::InvalidUtf8),
        Some(key) => match bytes_to_string(value_bytes) {
            None => Err(LoadError::InvalidUtf8),
            Some(value) => Ok(Attribute { key, value }),
        },
    }
}

/// The meaning of one chunk given its tag and payload.
pub open spec fn chunk_model(tag: u32, payload: Seq<u8>) -> Result<ChunkModel, LoadError> {
    if tag == TAG_ATTR {
        match attr_model(payload) {
            Ok(am) => Ok(ChunkModel::Attribute(am)),
            Err(e) => Err(e),
        }
    } else if tag == TAG_REGN {
        match region_read_from(payload, region_model_init(), (0u16, 0u16)) {
            Ok(m) => Ok(ChunkModel::Region(m)),
            Err(e) => Err(e),
        }
    } else {
        Ok(ChunkModel::Other(tag, payload))
    }
}

/// The meaning of the container's chunk stream: chunks are read while at
/// least 8 header bytes remain and the byte budget is not exhausted; a chunk
/// whose declared payload overruns the remaining bytes ends the stream
/// without error.
pub open spec fn chunks_read_from(data: Seq<u8>, budget: int) -> Result<Seq<ChunkModel>, LoadError>
    decreases data.len(),
{
    if data.len() < 8 || budget <= 0 {
        Ok(Seq::<ChunkModel>::empty())
    } else {
        let tag = le32_at(data, 0);
        let size = le32_at(data, 4) as int;
        if data.len() < 8 + size {
            Ok(Seq::<ChunkModel>::empty())
        } else {
            let step = if 8 + align4(size) <= data.len() {
                8 + align4(size)
            } else {
                data.len() as int
            };
            match chunk_model(tag, data.subrange(8, 8 + size)) {
                Err(e) => Err(e),
                Ok(cm) => match chunks_read_from(data.skip(step), budget - step) {
                    Err(e) => Err(e),
                    Ok(cs) => Ok(seq![cm] + cs),
                },
            }
        }
    }
}

/// Truncation never errors: whenever no complete chunk remains — fewer than
/// 8 header bytes left, the declared byte budget spent, or the head chunk's
/// declared payload overrunning the remaining bytes — the stream ends there
/// with the chunks read so far and no error. So a header declaring more
/// metadata than the buffer holds stops iteration quietly.
pub proof fn lemma_truncation_ends_stream(data: Seq<u8>, budget: int)
    requires
        data.len() < 8 || budget <= 0 || data.len() < 8 + le32_at(data, 4),
    ensures
        chunks_read_from(data, budget) == Ok::<Seq<ChunkModel>, LoadError>(
            Seq::<ChunkModel>::empty()),
{
}

/// Reads the container's chunk stream, consuming at most `declared_size`
/// bytes of it.
#[verifier::rlimit(60)]
pub fn read_chunks(data: &[u8], declared_size: u32) -> (r: Result<Vec<Chunk>, LoadError>)
    ensures
        match chunks_read_from(data@, declared_size as int) {
            Ok(cs) => r matches Ok(v) && models(v@) == cs && chunks_wf(v@),
            Err(e) => r == Err::<Vec<Chunk>, LoadError>(e),
        },
{
    let mut chunks: Vec<Chunk> = Vec::new();
    let mut pos: usize = 0;
    proof {
        assert(data@.skip(0) =~= data@);
        assert(models(chunks@) =~= Seq::<ChunkModel>::empty());
    }
    while data.len() - pos >= 8 && pos < declared_size as usize
        invariant
            pos <= data@.len(),
            chunks_wf(chunks@),
            match chunks_read_from(data@.skip(pos as int), declared_size - pos) {
                Ok(cs) => chunks_read_from(data@, declared_size as int) == Ok::<
                    Seq<ChunkModel>, LoadError>(models(chunks@) + cs),
                Err(e) => chunks_read_from(data@, declared_size as int) == Err::<
                    Seq<ChunkModel>, LoadError>(e),
            },
        decreases data@.len() - pos,
    {
        let ghost rest = data@.skip(pos as int);
        let remaining = data.len() - pos;
        let tag = read_le32(data, pos);
        let size32 = read_le32(data, pos + 4);
        proof {
            assert(rest.subrange(0, 4) =~= data@.subrange(pos as int, pos as int + 4));
            assert(rest.subrange(4, 8) =~= data@.subrange(pos as int + 4, pos as int + 8));
            assert(le32_at(rest, 0) == tag);
            assert(le32_at(rest, 4) == size32);
        }
        if size32 as usize > remaining - 8 {
            pos = data.len();
            proof {
                assert(data@.skip(pos as int) =~= Seq::<u8>::empty());
                assert(models(chunks@) + Seq::<ChunkModel>::empty() =~= models(chunks@));
            }
        } else {
            let size = size32 as usize;
            let payload = slice_subrange(data, pos + 8, pos + 8 + size);
            proof {
                assert(payload@ =~= rest.subrange(8, 8 + size as int));
            }
            let chunk: Chunk;
            if tag == TAG_ATTR {
                match parse_attribute(payload) {
                    Ok(a) => {
                        chunk = Chunk::Attribute(a);
                    },
                    Err(e) => {
                        return Err(e);
                    },
                }
            } else if tag == TAG_REGN {
                match read_region(payload) {
                    Ok(reg) => {
                        chunk = Chunk::Region(reg);
                    },
                    Err(e) => {
                        return Err(e);
                    },
                }
            } else {
                chunk = Chunk::Other(tag, slice_to_vec(payload));
            }
            proof {
                assert(chunk_model(tag, payload@) == Ok::<ChunkModel, LoadError>(chunk@));
            }
            let ghost old_chunks = chunks@;
            chunks.push(chunk);
            proof {
                assert(models(chunks@) =~= models(old_chunks) + seq![chunk@]);
            }
            let padded = round_up4(size);
            if padded > remaining - 8 {
                pos = data.len();
                proof {
                    assert(8 + align4(size as int) > rest.len());
                    assert(data@.skip(pos as int) =~= Seq::<u8>::empty());
                    assert(rest.skip(rest.len() as int) =~= Seq::<u8>::empty());
                }
            } else {
                proof {
                    assert(8 + align4(size as int) <= rest.len());
                    assert(rest.skip(8 + align4(size as int)) =~= data@.skip(
                        pos as int + 8 + align4(size as int)));
                }
                pos = pos + 8 + padded;
            }
            proof {
                match chunks_read_from(data@.skip(pos as int), declared_size - pos) {
                    Ok(cs) => {
                        assert(models(old_chunks) + (seq![chunk@] + cs) =~= models(chunks@) + cs);
                    },
                    Err(_) => {},
                }
            }
        }
    }
    proof {
        assert(chunks_read_from(data@.skip(pos as int), declared_size - pos) == Ok::<
            Seq<ChunkModel>, LoadError>(Seq::<ChunkModel>::empty()));
        assert(models(chunks@) + Seq::<ChunkModel>::empty() =~= models(chunks@));
    }
    Ok(chunks)
}

/// The meaning of a whole level file's metadata: with no bitmap header, no
/// metadata offset, too short a file, or a wrong magic the container is
/// simply absent (no chunks, no error); otherwise the chunk stream after
/// the 12-byte header is read under the header's declared size.
pub open spec fn elvl_model(data: Seq<u8>) -> Result<Seq<ChunkModel>, LoadError> {
    if data.len() < 10 {
        Ok(Seq::<ChunkModel>::empty())
    } else if data[0] != 0x42 || data[1] != 0x4d {
        Ok(Seq::<ChunkModel>::empty())
    } else {
        let off = le32_at(data, 6) as int;
        if off == 0 {
            Ok(Seq::<ChunkModel>::empty())
        } else if data.len() < off + 12 {
            Ok(Seq::<ChunkModel>::empty())
        } else if le32_at(data, off) != ELVL_MAGIC {
            Ok(Seq::<ChunkModel>::empty())
        } else {
            chunks_read_from(data.skip(off + 12), le32_at(data, off + 4) as int)
        }
    }
}

/// Locates the metadata container inside a level file through the bitmap
/// header's stored offset and reads its chunks. A file without the
/// container in any of its optional forms yields no chunks, not an error.
pub fn elvl_read(data: &[u8]) -> (r: Result<Vec<Chunk>, LoadError>)
    ensures
        match elvl_model(data@) {
            Ok(cs) => r matches Ok(v) && models(v@) == cs && chunks_wf(v@),
            Err(e) => r == Err::<Vec<Chunk>, LoadError>(e),
        },
{
    proof {
        assert(models(Seq::<Chunk>::empty()) =~= Seq::<ChunkModel>::empty());
    }
    if data.len() < 10 {
        return Ok(Vec::new());
    }
    if *slice_index_get(data, 0) != 0x42 || *slice_index_get(data, 1) != 0x4d {
        return Ok(Vec::new());
    }
    let metadata_offset = read_le32(data, 6) as usize;
    if metadata_offset == 0 {
        return Ok(Vec::new());
    }
    if data.len() < METADATA_HEADER_SIZE || metadata_offset > data.len() - METADATA_HEADER_SIZE {
        return Ok(Vec::new());
    }
    let header_magic = read_le32(data, metadata_offset);
    if header_magic != ELVL_MAGIC {
        return Ok(Vec::new());
    }
    let total_size = read_le32(data, metadata_offset + 4);
    let body = slice_subrange(data, metadata_offset + METADATA_HEADER_SIZE, data.len());
    proof {
        assert(body@ =~= data@.skip(metadata_offset as int + 12));
    }
    read_chunks(body, total_size)
}

} // verus!
