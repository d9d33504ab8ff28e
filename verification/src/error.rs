//! What can go wrong while a class file is rewritten.

use vstd::prelude::*;

verus! {

/// Why a compiled unit could not be rewritten.
#[derive(Clone, Copy, Debug, PartialEq, Eq, Structural)]
pub enum FormatError {
    /// The buffer ends before a field that it declares.
    Truncated,
    /// A renamed text no longer fits the 16-bit length field of its record.
    TextTooLong,
}

} // verus!
