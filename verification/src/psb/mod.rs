//! M2 PSB: the binary structured-data format of the M2 engine.
use vstd::prelude::*;

pub mod encoding;
pub mod float;
pub mod format;
pub mod layout;
pub mod reader;
pub mod roundtrip;
pub mod trie;
pub mod writer;
pub mod value;

verus! {

/// Why a PSB file could not be read.
#[derive(Debug, Clone, Copy, PartialEq, Eq)]
pub enum Error {
    BadMagic,
    Truncated(usize),
    UnknownType { ty: u8, pos: usize },
    InvalidUintType(u8),
    InvalidUtf8,
}

} // verus!
