//! Error kinds shared by the whole engine.

use vstd::prelude::*;

verus! {

/// Everything that can go wrong while locating, reading, decoding or caching a block.
#[derive(Clone, Copy, Debug, PartialEq, Eq, Structural)]
pub enum Error {
    /// A buffer is shorter than the fixed-size record it should hold.
    NotEnoughBytes,
    /// The magic field of an uberblock matches in neither byte order.
    InvalidMagic,
    /// None of the slots of the uberblock ring holds a valid record.
    NoValidUberblock,
    /// A block pointer names a compression mode that is not known.
    UnsupportedCompression,
    /// A compressed stream refers to bytes it cannot have.
    CorruptStream,
    /// Eviction cannot free enough room for an incoming block.
    CacheExhausted,
    /// The storage accessor failed a seek, a read or a write.
    Io,
}

} // verus!
