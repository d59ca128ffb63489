//! The dataset layer's handle on a pool.

use vstd::prelude::*;
use crate::zfs::Error;

verus! {

/// What the dataset layer keeps of an open pool.
pub struct DslPool {
    pub root_dir_obj: u64,
    pub dp_dirty_total: u32,
}

impl DslPool {
    /// Object number of the pool's root directory.
    pub open spec fn root(&self) -> u64 {
        self.root_dir_obj
    }

    /// Bytes that are dirty in the pool.
    pub open spec fn dirty(&self) -> u32 {
        self.dp_dirty_total
    }

    /// Opens the pool as of the transaction group `txg`: nothing is dirty yet.
    pub fn init(txg: u64) -> (r: Result<DslPool, Error>)
        ensures
            r is Ok,
            r->Ok_0.root() == 0,
            r->Ok_0.dirty() == 0,
    {
        Self::open_impl(txg)
    }

    fn open_impl(txg: u64) -> (r: Result<DslPool, Error>)
        ensures
            r is Ok,
            r->Ok_0.root() == 0,
            r->Ok_0.dirty() == 0,
    {
        Ok(DslPool { root_dir_obj: 0, dp_dirty_total: 0 })
    }

    /// A pool handle with no root directory and nothing dirty.
    pub fn new() -> (r: DslPool)
        ensures
            r.root() == 0,
            r.dirty() == 0,
    {
        DslPool { root_dir_obj: 0, dp_dirty_total: 0 }
    }
}

} // verus!
