use vstd::prelude::*;

verus! {

/// Input-validation failures surfaced by the identifier operations.
///
/// Every operation is a pure function: it either fully succeeds or rejects
/// its input with one of these values; nothing is retried and nothing aborts.
#[derive(Clone, Copy, Debug, PartialEq, Eq, Structural)]
pub enum Error {
    /// A numeric identifier exceeds 34! - 1, so it has no permutation form.
    OutOfRange,
    /// A byte sequence is not a permutation of the 34 symbols 0..=33.
    InvalidPermutation,
    /// A text identifier holds a byte outside the 62-symbol alphabet.
    InvalidSymbol,
    /// A text identifier is not exactly 22 symbols long.
    InvalidLength,
}

} // verus!
