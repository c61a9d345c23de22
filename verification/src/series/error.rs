use vstd::prelude::*;

use crate::index::Index;
use crate::traits::Label;
use crate::traits::Storable;

verus! {

/// A `Series` was asked to pair an index and a value column of different
/// lengths. Both halves are handed back so the caller can mend the input
/// and retry.
#[derive(Debug)]
pub struct LengthMismatch<L: Label, V: Storable> {
    pub index: Index<L>,
    pub values: Vec<V>,
}

/// The pairs handed to a checked constructor repeat an index label. The
/// first label found twice is handed back; nothing partially built is
/// exposed.
#[derive(Debug)]
pub struct DuplicateIndexLabel<L: Label> {
    pub label: L,
}

/// Two series to be concatenated share at least one index label.
#[derive(Debug)]
pub struct OverlappingIndex;

} // verus!
