//! The uberblock: the versioned root record of a pool.
//!
//! On disk a record is five words of eight bytes (magic, version,
//! transaction group, sum of the device identifiers, time stamp) and the
//! block pointer of the pool's root object, with no padding between them.

use vstd::prelude::*;
use crate::block_ptr::{block_ptr_at, BlockPtr, BLOCK_PTR_BYTES};
use crate::from_bytes::{le_u64, u64_at, FromBytes};
use crate::zfs::Error;

verus! {

/// The magic number of an uberblock.
pub const UBERBLOCK_MAGIC: u64 = 0x00bab10c;
/// The magic number as it reads where the record was written in the other byte order.
pub const UBERBLOCK_MAGIC_SWAPPED: u64 = 0x0cb1ba0000000000;
/// Binary logarithm of the size of a slot of the uberblock ring.
pub const UBERBLOCK_SHIFT: u64 = 10;
/// Bytes that an uberblock takes on disk.
pub const UBERBLOCK_BYTES: usize = 104;

/// The root-of-trust record of a pool.
#[derive(Clone, Copy, Debug)]
pub struct Uberblock {
    pub magic: u64,
    pub version: u64,
    pub txg: u64,
    pub guid_sum: u64,
    pub timestamp: u64,
    pub rootbp: BlockPtr,
}

/// The fields that the front of `d` holds, whatever the magic number.
pub open spec fn uberblock_at(d: Seq<u8>) -> Uberblock {
    Uberblock {
        magic: le_u64(d, 0) as u64,
        version: le_u64(d, 8) as u64,
        txg: le_u64(d, 16) as u64,
        guid_sum: le_u64(d, 24) as u64,
        timestamp: le_u64(d, 32) as u64,
        rootbp: block_ptr_at(d, 40),
    }
}

/// Whether `magic` is the magic number of an uberblock, in either byte order.
pub open spec fn magic_ok(magic: u64) -> bool {
    magic == UBERBLOCK_MAGIC || magic == UBERBLOCK_MAGIC_SWAPPED
}

impl Uberblock {
    /// The magic number with its bytes in the other order.
    pub fn magic_little() -> (r: u64)
        ensures
            r == UBERBLOCK_MAGIC_SWAPPED,
    {
        UBERBLOCK_MAGIC_SWAPPED
    }

    /// The magic number.
    pub fn magic_big() -> (r: u64)
        ensures
            r == UBERBLOCK_MAGIC,
    {
        UBERBLOCK_MAGIC
    }
}

impl FromBytes for Uberblock {
    open spec fn width() -> nat {
        UBERBLOCK_BYTES as nat
    }

    /// A buffer shorter than a record holds none; a longer one holds the
    /// record of its fields where the magic number is right in either byte order.
    open spec fn parsed(data: Seq<u8>) -> Result<Uberblock, Error> {
        if data.len() < UBERBLOCK_BYTES {
            Err(Error::NotEnoughBytes)
        } else if magic_ok(uberblock_at(data).magic) {
            Ok(uberblock_at(data))
        } else {
            Err(Error::InvalidMagic)
        }
    }

    fn record_width() -> (r: usize) {
        UBERBLOCK_BYTES
    }

    fn from_bytes(data: &[u8]) -> (r: Result<Uberblock, Error>) {
        if data.len() >= UBERBLOCK_BYTES {
            let uberblock = Uberblock {
                magic: u64_at(data, 0),
                version: u64_at(data, 8),
                txg: u64_at(data, 16),
                guid_sum: u64_at(data, 24),
                timestamp: u64_at(data, 32),
                rootbp: BlockPtr::read_at(data, 40),
            };
            if uberblock.magic == Uberblock::magic_little() {
                Ok(uberblock)
            } else if uberblock.magic == Uberblock::magic_big() {
                Ok(uberblock)
            } else {
                Err(Error::InvalidMagic)
            }
        } else {
            Err(Error::NotEnoughBytes)
        }
    }
}

} // verus!
