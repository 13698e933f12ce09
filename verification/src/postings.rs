//! Posting entries.

use vstd::prelude::*;

verus! {

/// A posting entry from the .sfxpost file.
#[derive(Debug, Clone, Copy, PartialEq, Eq, Structural)]
pub struct SfxPostingEntry {
    /// Document ID containing this posting.
    pub doc_id: u32,
    /// Token position within the document.
    pub token_index: u32,
    /// Start byte offset of the token in the original text.
    pub byte_from: u32,
    /// End byte offset (exclusive) of the token in the original text.
    pub byte_to: u32,
}

/// One occurrence, by position only.
#[derive(Debug, Clone, Copy, PartialEq, Eq, PartialOrd, Ord, Structural)]
pub struct PositionEntry {
    /// Document containing this occurrence.
    pub doc_id: u32,
    /// Token position within the document.
    pub token_index: u32,
}

} // verus!
