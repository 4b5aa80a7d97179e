use vstd::prelude::*;

pub mod bencode;
pub mod digest;
pub mod error;
pub mod peer;
pub mod torrent;
pub mod tracker;
pub mod download;

verus! {

/// Largest number of bytes transferred per block request (16 KiB).
pub const BLOCK_MAX: usize = 16384;

} // verus!
