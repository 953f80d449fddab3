//! Building blocks of a parallel, range-based HTTP file downloader.
//!
//! The library decides what to request and where to write it: it splits a
//! file into byte ranges, renders `Range` header values, reads
//! `Content-Length` values, classifies server replies and drives the
//! per-chunk download state machines. Network and file I/O are left to the
//! caller.

pub mod decimal;
pub mod byte_range;
pub mod async_downloader;
pub mod sync_downloader;

use vstd::prelude::*;

verus! {

/// The number of bytes in `size` mebibytes.
pub fn mb_to_kb(size: u64) -> (bytes: u64)
    requires
        size * 1024 * 1024 <= u64::MAX,
    ensures
        bytes == size * 1024 * 1024,
{
    size * 1024 * 1024
}

} // verus!
