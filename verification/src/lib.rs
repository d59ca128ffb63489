//! Read-side storage engine of a copy-on-write pooled filesystem: the LZJB
//! codec, the uberblock locator, the block reader and the adaptive
//! replacement cache.

pub mod zfs;
pub mod lzjb;
pub mod dvaddr;
pub mod arcache;
pub mod from_bytes;
pub mod block_ptr;
pub mod uberblock;
pub mod dsl_pool;
pub mod zio;
