//! The block reader and the uberblock locator, on bytes that were read
//! from storage.
//!
//! Storage is addressed in sectors of 512 bytes. The uberblock ring holds
//! 128 slots of two sectors each, from sector 256 on.

use vstd::prelude::*;
use crate::block_ptr::BlockPtr;
use crate::dvaddr::DVAddr;
use crate::from_bytes::FromBytes;
use crate::lzjb::{decode, decoding};
use crate::uberblock::Uberblock;
use crate::zfs::Error;

verus! {

/// Number of kinds of request.
pub const NUM_TYPES: usize = 6;
/// Number of kinds of task queue.
pub const NUM_TASKQ_TYPES: usize = 4;
/// Bytes of a sector.
pub const SECTOR_BYTES: u64 = 512;
/// First sector of the uberblock ring.
pub const UBERBLOCK_RING_START: u64 = 256;
/// Slots of the uberblock ring.
pub const UBERBLOCK_SLOTS: u64 = 128;
/// Sectors of one slot of the uberblock ring.
pub const UBERBLOCK_SLOT_SECTORS: u64 = 2;
/// Compression mode of a block that is stored as it is.
pub const COMPRESSION_OFF: u64 = 2;
/// Compression mode of a block in LZJB, as the pool's default.
pub const COMPRESSION_ON: u64 = 1;
/// Compression mode of a block in LZJB, chosen by name.
pub const COMPRESSION_LZJB: u64 = 3;

/// A stretch of storage: `sectors` sectors from the sector `start` on.
#[derive(Clone, Copy, Debug, PartialEq, Eq, Structural)]
pub struct Extent {
    pub start: u64,
    pub sectors: u64,
}

/// The stretch of storage that the block at `dva` takes.
pub fn dva_extent(dva: &DVAddr) -> (r: Extent)
    ensures
        r == (Extent { start: dva.sector, sectors: dva.asize }),
{
    Extent { start: dva.sector(), sectors: dva.asize() }
}

/// The stretch of storage that the block of `block_ptr` takes: that of the
/// first of its addresses.
pub fn block_extent(block_ptr: &BlockPtr) -> (r: Extent)
    ensures
        r == (Extent { start: block_ptr.dvas[0].sector, sectors: block_ptr.dvas[0].asize }),
{
    dva_extent(&block_ptr.dvas[0])
}

/// The stretch of storage that slot `slot` of the uberblock ring takes.
pub fn uberblock_extent(slot: u64) -> (r: Extent)
    requires
        slot < UBERBLOCK_SLOTS,
    ensures
        r == (Extent {
            start: (UBERBLOCK_RING_START + slot * UBERBLOCK_SLOT_SECTORS) as u64,
            sectors: UBERBLOCK_SLOT_SECTORS,
        }),
{
    Extent { start: UBERBLOCK_RING_START + slot * UBERBLOCK_SLOT_SECTORS, sectors: UBERBLOCK_SLOT_SECTORS }
}

/// The logical bytes of the block of `block_ptr`, stored as `data`.
pub open spec fn block_of(block_ptr: BlockPtr, data: Seq<u8>) -> Result<Seq<u8>, Error> {
    if block_ptr.compression == COMPRESSION_OFF {
        Ok(data)
    } else if block_ptr.compression == COMPRESSION_ON || block_ptr.compression == COMPRESSION_LZJB {
        match decoding(data, (block_ptr.lsize * SECTOR_BYTES) as nat) {
            Some(bytes) => Ok(bytes),
            None => Err(Error::CorruptStream),
        }
    } else {
        Err(Error::UnsupportedCompression)
    }
}

/// Turns the bytes `data`, read from the stretch of storage that
/// `block_ptr` names, into the logical block.
///
/// A block that is stored as it is comes back unchanged. A block in LZJB
/// is decoded into as many sectors as its logical size says. Any other
/// compression mode is refused before anything is decoded. The logical
/// size counts only for a block in LZJB, whose bytes must fit in memory.
pub fn read_block(block_ptr: &BlockPtr, data: Vec<u8>) -> (r: Result<Vec<u8>, Error>)
    requires
        block_ptr.compression == COMPRESSION_ON || block_ptr.compression == COMPRESSION_LZJB
            ==> block_ptr.lsize * SECTOR_BYTES <= usize::MAX,
    ensures
        match r {
            Ok(bytes) => block_of(*block_ptr, data@) == Ok::<Seq<u8>, Error>(bytes@),
            Err(e) => block_of(*block_ptr, data@) == Err::<Seq<u8>, Error>(e),
        },
{
    let mode = block_ptr.compression();
    if mode == COMPRESSION_OFF {
        Ok(data)
    } else if mode == COMPRESSION_ON || mode == COMPRESSION_LZJB {
        let capacity = (block_ptr.lsize() * SECTOR_BYTES) as usize;
        match decode(data.as_slice(), capacity) {
            Ok(bytes) => Ok(bytes),
            Err(_) => Err(Error::CorruptStream),
        }
    } else {
        Err(Error::UnsupportedCompression)
    }
}

/// Decodes the record of index `offset` in `data`, an array of records of one width.
pub fn read_type_array<T: FromBytes>(data: &[u8], offset: usize) -> (r: Result<T, Error>)
    ensures
        offset * T::width() <= data@.len() ==> r == T::parsed(
            data@.subrange(offset * T::width(), data@.len() as int),
        ),
        offset * T::width() > data@.len() ==> r == Err::<T, Error>(Error::NotEnoughBytes),
{
    let width = T::record_width();
    let len = data.len();
    if width != 0 && offset > len / width {
        assert(offset * width > len) by (nonlinear_arith)
            requires
                width > 0,
                offset > len / width,
        ;
        return Err(Error::NotEnoughBytes);
    }
    if width == 0 {
        assert(offset * width == 0) by (nonlinear_arith)
            requires
                width == 0,
        ;
        return T::from_bytes(vstd::slice::slice_subrange(data, 0, len));
    }
    assert(offset * width <= usize::MAX) by (nonlinear_arith)
        requires
            width > 0,
            offset <= len / width,
            len <= usize::MAX,
    ;
    let start = offset * width;
    if start > len {
        return Err(Error::NotEnoughBytes);
    }
    T::from_bytes(vstd::slice::slice_subrange(data, start, len))
}

/// The bytes of each slot.
pub open spec fn contents(slots: Seq<Vec<u8>>) -> Seq<Seq<u8>> {
    slots.map_values(|slot: Vec<u8>| slot@)
}

/// Whether slot `i` of `slots` holds a valid uberblock.
pub open spec fn candidate(slots: Seq<Seq<u8>>, i: int) -> bool {
    0 <= i < slots.len() && Uberblock::parsed(slots[i]) is Ok
}

/// The transaction group of the uberblock in slot `i` of `slots`.
pub open spec fn txg_of(slots: Seq<Seq<u8>>, i: int) -> u64 {
    Uberblock::parsed(slots[i])->Ok_0.txg
}

/// Whether slot `i` holds the newest uberblock of `slots`: a valid one
/// whose transaction group no valid one exceeds, and none before it reaches.
pub open spec fn newest(slots: Seq<Seq<u8>>, i: int) -> bool {
    &&& candidate(slots, i)
    &&& forall|j: int| #[trigger]
        candidate(slots, j) ==> txg_of(slots, j) <= txg_of(slots, i) && (j < i ==> txg_of(slots, j)
            < txg_of(slots, i))
}

/// At most one slot holds the newest uberblock.
pub proof fn lemma_newest_unique(slots: Seq<Seq<u8>>, i: int, j: int)
    requires
        newest(slots, i),
        newest(slots, j),
    ensures
        i == j,
{
    assert(candidate(slots, i));
    assert(candidate(slots, j));
}

/// Finds the newest valid uberblock among the slots of the ring, given in
/// the order of the ring.
///
/// A slot that is too short or has the wrong magic number is passed over.
/// Fails with `NoValidUberblock` where no slot holds a valid record.
pub fn uber(slots: &Vec<Vec<u8>>) -> (r: Result<Uberblock, Error>)
    ensures
        match r {
            Ok(uberblock) => exists|i: int| #[trigger]
                newest(contents(slots@), i) && Uberblock::parsed(contents(slots@)[i]) == Ok::<
                    Uberblock,
                    Error,
                >(uberblock),
            Err(e) => e == Error::NoValidUberblock && forall|j: int| !#[trigger] candidate(
                contents(slots@),
                j,
            ),
        },
{
    let ghost ring = contents(slots@);
    let mut newest_uberblock: Option<Uberblock> = None;
    let ghost mut at: int = 0;
    let mut i: usize = 0;
    while i < slots.len()
        invariant
            i <= slots@.len(),
            ring == contents(slots@),
            match newest_uberblock {
                Some(previous) => {
                    &&& 0 <= at < i
                    &&& Uberblock::parsed(ring[at]) == Ok::<Uberblock, Error>(previous)
                    &&& forall|j: int| #[trigger]
                        candidate(ring, j) && j < i ==> txg_of(ring, j) <= previous.txg && (j < at
                            ==> txg_of(ring, j) < previous.txg)
                },
                None => forall|j: int| #[trigger] candidate(ring, j) ==> j >= i,
            },
        decreases slots@.len() - i,
    {
        assert(ring[i as int] == slots@[i as int]@);
        if let Ok(uberblock) = Uberblock::from_bytes(slots[i].as_slice()) {
            let is_newest = match newest_uberblock {
                Some(previous) => uberblock.txg > previous.txg,
                None => true,
            };
            if is_newest {
                newest_uberblock = Some(uberblock);
                proof {
                    at = i as int;
                }
            }
        }
        i += 1;
    }
    match newest_uberblock {
        Some(uberblock) => {
            assert(newest(ring, at));
            Ok(uberblock)
        },
        None => Err(Error::NoValidUberblock),
    }
}

/// Priority of a request.
#[derive(Copy, Clone, PartialEq, Debug)]
pub enum Priority {
    /// Non-queued request
    Now,
    /// Synchronous read
    SyncRead,
    /// Synchronous write
    SyncWrite,
    /// Log write
    LogWrite,
    /// Cache fills
    CacheFill,
    /// Deduplication table prefetch
    DTP,
    /// Free
    Free,
    /// Asynchronous read
    AsyncRead,
    /// Asynchronous write
    AsyncWrite,
    /// Resilver
    Resilver,
    /// Scrub
    Scrub,
}

/// Kind of a request.
#[derive(Copy, Clone, PartialEq)]
pub enum Type {
    /// Nothing
    Null,
    /// Read
    Read,
    /// Write
    Write,
    /// Free data
    Free,
    /// Claim data
    Claim,
    /// Device control
    IoCtl,
}

/// Kind of a task queue.
pub enum TaskqType {
    /// An issue
    Issue,
    /// A high-priority issue
    IssueHigh,
    /// Interrupt
    Interrupt,
    /// High-priority interrupt
    InterruptHigh,
}

} // verus!
