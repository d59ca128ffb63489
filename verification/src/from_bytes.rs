//! Fixed-width records decoded from raw bytes.

use vstd::prelude::*;
use crate::zfs::Error;

verus! {

/// The unsigned number that the eight bytes of `d` from `at` on hold, the
/// lowest byte first.
pub open spec fn le_u64(d: Seq<u8>, at: int) -> int {
    d[at] as int + 256 * (d[at + 1] as int + 256 * (d[at + 2] as int + 256 * (d[at + 3] as int + 256
        * (d[at + 4] as int + 256 * (d[at + 5] as int + 256 * (d[at + 6] as int + 256 * (d[at
        + 7] as int)))))))
}

/// Reads the eight bytes of `data` from `at` on as a number, the lowest byte first.
pub fn u64_at(data: &[u8], at: usize) -> (r: u64)
    requires
        at + 8 <= data@.len(),
    ensures
        r == le_u64(data@, at as int),
{
    let b0 = data[at] as u64;
    let b1 = data[at + 1] as u64;
    let b2 = data[at + 2] as u64;
    let b3 = data[at + 3] as u64;
    let b4 = data[at + 4] as u64;
    let b5 = data[at + 5] as u64;
    let b6 = data[at + 6] as u64;
    let b7 = data[at + 7] as u64;
    b0 + 256 * (b1 + 256 * (b2 + 256 * (b3 + 256 * (b4 + 256 * (b5 + 256 * (b6 + 256 * b7))))))
}

/// A record of fixed width that can be decoded from the front of a byte buffer.
pub trait FromBytes: Sized {
    /// Width of the record in bytes.
    spec fn width() -> nat;

    /// The record that the front of `data` holds, or why it holds none.
    spec fn parsed(data: Seq<u8>) -> Result<Self, Error>;

    /// Width of the record in bytes.
    fn record_width() -> (r: usize)
        ensures
            r == Self::width(),
    ;

    /// Decodes the record at the front of `data`.
    fn from_bytes(data: &[u8]) -> (r: Result<Self, Error>)
        ensures
            r == Self::parsed(data@),
            data@.len() < Self::width() ==> r == Err::<Self, Error>(Error::NotEnoughBytes),
    ;
}

impl FromBytes for u64 {
    open spec fn width() -> nat {
        8
    }

    open spec fn parsed(data: Seq<u8>) -> Result<u64, Error> {
        if data.len() < 8 {
            Err(Error::NotEnoughBytes)
        } else {
            Ok(le_u64(data, 0) as u64)
        }
    }

    fn record_width() -> (r: usize) {
        8
    }

    fn from_bytes(data: &[u8]) -> (r: Result<u64, Error>) {
        if data.len() >= 8 {
            Ok(u64_at(data, 0))
        } else {
            Err(Error::NotEnoughBytes)
        }
    }
}

} // verus!
