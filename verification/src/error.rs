use vstd::prelude::*;

verus! {

/// The ways an operation of this library can fail.
///
/// End of input is never an error: the streaming reader signals it with an
/// empty record, and the lazy record sequence simply ends.
#[derive(Clone, Copy, Debug, PartialEq, Eq, Structural)]
pub enum Error {
    /// Malformed text: a record that does not start with `>`, a record
    /// without an id token or with non-ASCII sequence bytes, or a malformed
    /// index row.
    Format,
    /// A range read named a sequence that the index does not list.
    UnknownSequence,
    /// A range read asked for `[start, stop)` with `start > stop` or with
    /// `stop` past the sequence length.
    RangeOutOfBounds,
    /// The data ends before the bytes that the index points at.
    Truncated,
}

} // verus!
