//! Core bookkeeping of an LSM-tree key-value store: the crash-consistent
//! MANIFEST log of live sorted-string tables, and the ordered skiplist
//! memtable that buffers writes, backed by an arena of 32-bit offsets.

pub mod arena;
pub mod codec;
pub mod cursor;
pub mod errors;
pub mod manifest;
pub mod manifest_file;
pub mod node;
pub mod skl;
pub mod value;

use vstd::prelude::*;

verus! {

} // verus!
