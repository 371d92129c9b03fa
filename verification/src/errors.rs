use vstd::prelude::*;

verus! {

/// A malformed serialized artifact: a truncated table or payload, a length
/// prefix past the end of the buffer, an out-of-range trailer byte, a bit
/// stream that ends in the middle of a tree walk, or an escape marker whose
/// code has no table entry.
#[derive(Debug, PartialEq, Eq)]
pub struct FormatError;

} // verus!
