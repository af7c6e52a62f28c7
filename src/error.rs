use vstd::prelude::*;

verus! {

/// Failures reported when a decoder is constructed.
#[derive(Debug, Clone, Copy, PartialEq, Eq, Structural)]
pub enum Error {
    /// A bit width larger than 32 was given.
    BitWidthTooLarge,
    /// The buffer cannot supply the values that were asked for.
    BufferTooShort,
    /// A row selection holds an empty interval, or intervals out of order,
    /// overlapping or past the end of the source.
    InvalidSelection,
}

} // verus!
