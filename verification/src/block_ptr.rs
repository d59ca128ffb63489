//! Block pointers: where a logical block is stored and how it is encoded.

use vstd::prelude::*;
use crate::dvaddr::DVAddr;
use crate::from_bytes::{le_u64, u64_at};

verus! {

/// Bytes that a block pointer takes on disk: three addresses of two words
/// each, the compression mode and the logical size, each word of eight bytes.
pub const BLOCK_PTR_BYTES: usize = 64;

/// A block pointer: up to three redundant addresses of the block, the mode
/// it is compressed in and its logical size in sectors.
#[derive(Clone, Copy, Debug)]
pub struct BlockPtr {
    pub dvas: [DVAddr; 3],
    pub compression: u64,
    pub lsize: u64,
}

/// The address that the sixteen bytes of `d` from `at` on hold: the first
/// sector, then the allocated size.
pub open spec fn dva_at(d: Seq<u8>, at: int) -> DVAddr {
    DVAddr { sector: le_u64(d, at) as u64, asize: le_u64(d, at + 8) as u64 }
}

/// The block pointer that the bytes of `d` from `at` on hold.
pub open spec fn block_ptr_at(d: Seq<u8>, at: int) -> BlockPtr {
    BlockPtr {
        dvas: [dva_at(d, at), dva_at(d, at + 16), dva_at(d, at + 32)],
        compression: le_u64(d, at + 48) as u64,
        lsize: le_u64(d, at + 56) as u64,
    }
}

impl BlockPtr {
    /// The compression mode of the block.
    pub fn compression(&self) -> (r: u64)
        ensures
            r == self.compression,
    {
        self.compression
    }

    /// The logical size of the block, in sectors.
    pub fn lsize(&self) -> (r: u64)
        ensures
            r == self.lsize,
    {
        self.lsize
    }

    /// Decodes the block pointer that `data` holds from `at` on.
    pub fn read_at(data: &[u8], at: usize) -> (r: BlockPtr)
        requires
            at + BLOCK_PTR_BYTES <= data@.len(),
        ensures
            r == block_ptr_at(data@, at as int),
    {
        let len = data.len();
        assert(at + BLOCK_PTR_BYTES <= len);
        let d0 = DVAddr { sector: u64_at(data, at), asize: u64_at(data, at + 8) };
        let d1 = DVAddr { sector: u64_at(data, at + 16), asize: u64_at(data, at + 24) };
        let d2 = DVAddr { sector: u64_at(data, at + 32), asize: u64_at(data, at + 40) };
        let r = BlockPtr {
            dvas: [d0, d1, d2],
            compression: u64_at(data, at + 48),
            lsize: u64_at(data, at + 56),
        };
        assert(r.dvas@ =~= block_ptr_at(data@, at as int).dvas@);
        r
    }
}

} // verus!
