//! The table from a constant-pool tag to the size of the record's payload.

use vstd::prelude::*;

verus! {

/// The size of what follows a record's tag byte.
#[derive(Clone, Copy, Debug, PartialEq, Eq, Structural)]
pub enum PayloadLength {
    /// A 16-bit big-endian length, then that many bytes of text.
    Variable,
    /// Exactly this many bytes.
    Fixed(usize),
}

/// The tag of a text record.
pub const TAG_UTF8: u8 = 1;

/// The payload size that belongs to `tag`.
pub open spec fn payload_length(tag: u8) -> PayloadLength {
    if tag == 1 {
        PayloadLength::Variable
    } else if tag == 5 || tag == 6 {
        PayloadLength::Fixed(8)
    } else if tag == 15 {
        PayloadLength::Fixed(3)
    } else if tag == 19 {
        PayloadLength::Fixed(5)
    } else if tag == 3 || tag == 4 || (9 <= tag && tag <= 12) || tag == 14 || tag == 17 || tag
        == 18 {
        PayloadLength::Fixed(4)
    } else if tag == 0 {
        PayloadLength::Fixed(0)
    } else {
        PayloadLength::Fixed(2)
    }
}

/// The number of payload bytes of a record that is not text; 0 for the text tag.
pub open spec fn fixed_length(tag: u8) -> nat {
    match payload_length(tag) {
        PayloadLength::Variable => 0,
        PayloadLength::Fixed(n) => n as nat,
    }
}

/// Looks up the payload size of a record by its tag. Tags that the table does
/// not list carry two bytes; tag 0 carries none.
pub fn length_for(tag: u8) -> (r: PayloadLength)
    ensures
        r == payload_length(tag),
        r is Variable <==> tag == TAG_UTF8,
        r matches PayloadLength::Fixed(n) ==> n <= 8,
{
    match tag {
        1 => PayloadLength::Variable,
        5 | 6 => PayloadLength::Fixed(8),
        19 => PayloadLength::Fixed(5),
        3 | 4 | 9..=12 | 14 | 17 | 18 => PayloadLength::Fixed(4),
        15 => PayloadLength::Fixed(3),
        0 => PayloadLength::Fixed(0),
        _ => PayloadLength::Fixed(2),
    }
}

} // verus!
