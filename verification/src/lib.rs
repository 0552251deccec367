//! Decoder for a binary game-level file format: a tile grid packed into
//! 4-byte records, plus an optional "elvl" metadata container holding
//! free-form attributes and named regions whose tile membership is stored
//! with a run-length codec.

use vstd::prelude::*;

pub mod cells;
pub mod elvl;
pub mod encode;
pub mod map;
pub mod rle;
pub mod region;
pub mod text;
pub mod wire;

verus! {

/// The ways a level file can be rejected. Structural absence of optional
/// parts (no bitmap header, no metadata container, a truncated trailing
/// chunk) is not an error; these variants cover genuine corruption inside
/// a structure that declared itself present.
#[derive(Clone, Copy, Debug, PartialEq, Eq, Structural)]
pub enum LoadError {
    /// A declared-present structure is shorter than its header promises.
    TruncatedInput,
    /// An attribute payload has no `=` separator.
    MalformedAttribute,
    /// An attribute or region name is not valid UTF-8.
    InvalidUtf8,
    /// A tile-grid record addresses a cell outside the 1024x1024 grid.
    TileOutOfBounds,
    /// A two-byte run record starts on the last byte of its stream.
    TruncatedRunRecord,
    /// The tileset image bytes could not be decoded.
    ImageDecodeFailure,
}

} // verus!
