//! Tests of attribute parsing, container chunk framing, and whole-file
//! loading.

use lvl_map::elvl::{
    elvl_read, parse_attribute, read_chunks, Chunk, ChunkHeader, MetadataHeader,
};
use lvl_map::map::LevelMap;
use lvl_map::LoadError;

fn le(v: u32) -> [u8; 4] {
    v.to_le_bytes()
}

/// A container chunk: tag, size, payload, padding to 4 bytes.
fn chunk(tag: &[u8; 4], payload: &[u8]) -> Vec<u8> {
    let mut out = Vec::new();
    out.extend_from_slice(tag);
    out.extend_from_slice(&le(payload.len() as u32));
    out.extend_from_slice(payload);
    while out.len() % 4 != 0 {
        out.push(0);
    }
    out
}

/// A bitmap-signed file whose metadata container holds `chunks`.
fn file_with_metadata(chunks: &[u8]) -> Vec<u8> {
    let mut data = Vec::new();
    data.extend_from_slice(b"BM");
    let tile_offset = 10 + 12 + chunks.len() as u32;
    data.extend_from_slice(&le(tile_offset));
    data.extend_from_slice(&le(10)); // metadata right after this header
    data.extend_from_slice(b"elvl");
    data.extend_from_slice(&le(chunks.len() as u32));
    data.extend_from_slice(&le(0)); // reserved
    data.extend_from_slice(chunks);
    data
}

#[test]
fn attribute_splits_at_the_first_equals() {
    let attr = parse_attribute(b"Name=Test").unwrap();
    assert_eq!(attr.key, "Name");
    assert_eq!(attr.value, "Test");

    let attr = parse_attribute(b"a=b=c").unwrap();
    assert_eq!(attr.key, "a");
    assert_eq!(attr.value, "b=c");

    let attr = parse_attribute(b"=v").unwrap();
    assert_eq!(attr.key, "");
    assert_eq!(attr.value, "v");
}

#[test]
fn attribute_without_equals_is_malformed() {
    assert!(matches!(
        parse_attribute(b"NoEquals"),
        Err(LoadError::MalformedAttribute)
    ));
}

#[test]
fn attribute_decodes_multibyte_utf8() {
    let attr = parse_attribute("Kéy=välue".as_bytes()).unwrap();
    assert_eq!(attr.key, "Kéy");
    assert_eq!(attr.value, "välue");
}

#[test]
fn attribute_with_invalid_utf8_is_an_error() {
    assert!(matches!(
        parse_attribute(&[0xFF, b'=', b'a']),
        Err(LoadError::InvalidUtf8)
    ));
    assert!(matches!(
        parse_attribute(&[b'k', b'=', 0xC0]),
        Err(LoadError::InvalidUtf8)
    ));
}

#[test]
fn unknown_tag_round_trips_verbatim() {
    let data = chunk(b"XTRA", &[1, 2, 3]);
    let chunks = read_chunks(&data, data.len() as u32).unwrap();
    assert_eq!(chunks.len(), 1);
    match &chunks[0] {
        Chunk::Other(tag, payload) => {
            assert_eq!(*tag, u32::from_le_bytes(*b"XTRA"));
            assert_eq!(payload, &vec![1, 2, 3]);
        }
        _ => panic!("expected an uninterpreted chunk"),
    }
}

#[test]
fn oversized_declared_payload_stops_iteration_without_error() {
    // The chunk declares 100 payload bytes but only 2 follow.
    let mut data = Vec::new();
    data.extend_from_slice(b"ATTR");
    data.extend_from_slice(&le(100));
    data.extend_from_slice(&[1, 2]);
    let chunks = read_chunks(&data, 200).unwrap();
    assert!(chunks.is_empty());
}

#[test]
fn declared_size_bounds_how_much_is_read() {
    let mut data = chunk(b"XTRA", &[1]);
    let first = data.len() as u32;
    data.extend_from_slice(&chunk(b"YTRA", &[2]));
    // A budget covering only the first chunk reads only the first chunk.
    let chunks = read_chunks(&data, first).unwrap();
    assert_eq!(chunks.len(), 1);
    let chunks = read_chunks(&data, data.len() as u32).unwrap();
    assert_eq!(chunks.len(), 2);
    let chunks = read_chunks(&data, 0).unwrap();
    assert!(chunks.is_empty());
}

#[test]
fn elvl_read_finds_the_container_through_the_header() {
    let chunks = chunk(b"ATTR", b"a=b");
    let data = file_with_metadata(&chunks);
    let read = elvl_read(&data).unwrap();
    assert_eq!(read.len(), 1);
    match &read[0] {
        Chunk::Attribute(attr) => {
            assert_eq!(attr.key, "a");
            assert_eq!(attr.value, "b");
        }
        _ => panic!("expected an attribute chunk"),
    }
}

#[test]
fn files_without_a_container_have_no_chunks() {
    // Too short, not bitmap-signed, offset zero, or a wrong magic: all are
    // quietly metadata-free.
    assert!(elvl_read(&[]).unwrap().is_empty());
    assert!(elvl_read(b"no bitmap here").unwrap().is_empty());
    let mut data = Vec::new();
    data.extend_from_slice(b"BM");
    data.extend_from_slice(&le(0));
    data.extend_from_slice(&le(0)); // metadata offset zero
    assert!(elvl_read(&data).unwrap().is_empty());
    let mut data = Vec::new();
    data.extend_from_slice(b"BM");
    data.extend_from_slice(&le(0));
    data.extend_from_slice(&le(10));
    data.extend_from_slice(b"ELVL"); // wrong magic
    data.extend_from_slice(&le(0));
    data.extend_from_slice(&le(0));
    assert!(elvl_read(&data).unwrap().is_empty());
    let mut data = Vec::new();
    data.extend_from_slice(b"BM");
    data.extend_from_slice(&le(0));
    data.extend_from_slice(&le(500)); // offset beyond the file
    assert!(elvl_read(&data).unwrap().is_empty());
}

#[test]
fn header_types_read_little_endian_fields() {
    let header = MetadataHeader::new(&[
        0x65, 0x6C, 0x76, 0x6C, 0x34, 0x12, 0, 0, 0, 0, 0, 0,
    ]);
    assert_eq!(header.magic, 0x6C766C65);
    assert_eq!(header.total_size, 0x1234);
    let header = ChunkHeader::new(&[b'A', b'T', b'T', b'R', 5, 0, 0, 0]);
    assert_eq!(header.kind, 0x52545441);
    assert_eq!(header.size, 5);
}

fn tile_record(x: u16, y: u16, id: u8) -> [u8; 4] {
    le((x as u32) | ((y as u32) << 12) | ((id as u32) << 24))
}

#[test]
fn tiny_files_load_as_empty_maps() {
    let map = LevelMap::load(&[]).unwrap();
    assert_eq!(map.tile(0, 0), 0);
    assert!(map.elvl.is_empty());
    assert!(map.tileset.is_none());
    let map = LevelMap::load(&[b'X']).unwrap();
    assert!(map.elvl.is_empty());
}

#[test]
fn tile_grid_records_set_cells_last_write_wins() {
    let mut data = Vec::new();
    data.extend_from_slice(&tile_record(3, 2, 7));
    data.extend_from_slice(&tile_record(3, 2, 9));
    data.extend_from_slice(&tile_record(1023, 1023, 5));
    data.extend_from_slice(&[1, 2]); // trailing partial record is ignored
    let map = LevelMap::load(&data).unwrap();
    assert_eq!(map.tile(3, 2), 9);
    assert_eq!(map.tile(1023, 1023), 5);
    assert_eq!(map.tile(0, 0), 0);
    assert!(map.tileset.is_none());
}

#[test]
fn tile_record_outside_the_grid_is_an_error() {
    let data = tile_record(0, 1030, 1);
    assert!(matches!(
        LevelMap::load(&data),
        Err(LoadError::TileOutOfBounds)
    ));
}

#[test]
fn bitmap_signed_file_must_hold_its_header() {
    assert!(matches!(
        LevelMap::load(b"BM"),
        Err(LoadError::TruncatedInput)
    ));
    assert!(matches!(
        LevelMap::load(b"BM1234567"),
        Err(LoadError::TruncatedInput)
    ));
    // Tile offset beyond the file.
    let mut data = Vec::new();
    data.extend_from_slice(b"BM");
    data.extend_from_slice(&le(200));
    data.extend_from_slice(&le(0));
    assert!(matches!(
        LevelMap::load(&data),
        Err(LoadError::TruncatedInput)
    ));
}

#[test]
fn undecodable_tileset_bytes_are_an_image_error() {
    let mut data = Vec::new();
    data.extend_from_slice(b"BM");
    data.extend_from_slice(&le(9)); // tile data begins inside the file
    data.extend_from_slice(&le(0));
    data.push(0);
    assert!(matches!(
        LevelMap::load(&data),
        Err(LoadError::ImageDecodeFailure)
    ));
}

/// A 58-byte bitmap of a single pixel; its file-size field, which doubles
/// as the tile-grid offset in a level file, is 58.
fn one_pixel_bitmap() -> Vec<u8> {
    let mut bmp = Vec::new();
    bmp.extend_from_slice(b"BM");
    bmp.extend_from_slice(&le(58)); // file size = tile-grid offset
    bmp.extend_from_slice(&le(0)); // reserved = metadata offset
    bmp.extend_from_slice(&le(54)); // pixel data offset
    bmp.extend_from_slice(&le(40)); // header size
    bmp.extend_from_slice(&le(1)); // width
    bmp.extend_from_slice(&le(1)); // height
    bmp.extend_from_slice(&[1, 0]); // planes
    bmp.extend_from_slice(&[24, 0]); // bits per pixel
    bmp.extend_from_slice(&le(0)); // compression
    bmp.extend_from_slice(&le(4)); // image size
    bmp.extend_from_slice(&le(0));
    bmp.extend_from_slice(&le(0));
    bmp.extend_from_slice(&le(0));
    bmp.extend_from_slice(&le(0));
    bmp.extend_from_slice(&[10, 20, 30, 0]); // one pixel, padded
    bmp
}

#[test]
fn real_bitmap_prefix_yields_a_tileset_and_tiles() {
    let mut data = one_pixel_bitmap();
    data.extend_from_slice(&tile_record(1, 1, 42));
    let map = LevelMap::load(&data).unwrap();
    assert!(map.tileset.is_some());
    assert_eq!(map.tile(1, 1), 42);
    assert_eq!(map.tile(0, 0), 0);
}

#[test]
fn load_with_tileset_reads_metadata_and_grid() {
    let mut chunks = Vec::new();
    chunks.extend_from_slice(&chunk(b"ATTR", b"k1=v1"));
    chunks.extend_from_slice(&chunk(b"ATTR", b"k2=v2"));
    let mut region_payload = Vec::new();
    region_payload.extend_from_slice(b"rBSE");
    region_payload.extend_from_slice(&le(0));
    region_payload.extend_from_slice(b"rNAM");
    region_payload.extend_from_slice(&le(4));
    region_payload.extend_from_slice(b"Zone");
    chunks.extend_from_slice(&chunk(b"REGN", &region_payload));
    let mut data = file_with_metadata(&chunks);
    data.extend_from_slice(&tile_record(2, 3, 7));
    let map = LevelMap::load_with_tileset(&data, None).unwrap();
    assert_eq!(map.tile(2, 3), 7);
    assert_eq!(map.elvl.len(), 3);
    match &map.elvl[2] {
        Chunk::Region(region) => {
            assert_eq!(region.name, "Zone");
            assert_eq!(region.flags, 1);
            assert_eq!(region.tile_count, 0);
        }
        _ => panic!("expected a region chunk"),
    }
    let attrs = map.get_attributes();
    assert_eq!(attrs.len(), 2);
    assert_eq!(attrs[0].key, "k1");
    assert_eq!(attrs[0].value, "v1");
    assert_eq!(attrs[1].key, "k2");
    assert_eq!(attrs[1].value, "v2");
}

#[test]
fn declared_metadata_size_larger_than_the_buffer_is_not_an_error() {
    // The header declares far more metadata than the file holds; chunk
    // iteration stops when no complete chunk remains.
    let mut data = Vec::new();
    data.extend_from_slice(b"BM");
    data.extend_from_slice(&le(0));
    data.extend_from_slice(&le(10));
    data.extend_from_slice(b"elvl");
    data.extend_from_slice(&le(100000));
    data.extend_from_slice(&le(0));
    data.extend_from_slice(&chunk(b"XTRA", &[9]));
    let read = elvl_read(&data).unwrap();
    assert_eq!(read.len(), 1);
}
