//! Reading CUE sheets into the files, tracks and indexes they describe, with
//! timestamps turned into sector offsets, and merging binary files into one
//! image, byte for byte.
//!
//! The library decides; its caller does the file work. `sheet::SheetReader`
//! takes a sheet one line at a time and hands each `FILE` name back to be
//! resolved and looked up. `merge::Merger` says which file to create, open,
//! read or write next, and is told what came of it.

use vstd::prelude::*;

pub mod timestamp;
pub mod directive;
pub mod sheet;
pub mod merge;

verus! {

} // verus!
