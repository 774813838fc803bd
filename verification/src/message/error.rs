//! The ways in which decoding a datagram or building a value can fail.

use vstd::prelude::*;

verus! {

/// Why a byte sequence is not a DNS message.
#[derive(Clone, Copy, Debug, PartialEq, Eq, Structural)]
pub enum DecodeError {
    /// Fewer than twelve octets: there is no complete header.
    ShortHeader,
    /// A name runs past the end of the buffer.
    ShortBuffer,
    /// The fixed fields or the data of a record run past the end of the buffer.
    ShortRecord,
    /// A length octet whose top two bits are `01` or `10`.
    BadLabelTag,
    /// A compression pointer that does not point before the start of its name.
    BadPointer,
    /// More compression pointers in one name than a decoder will follow.
    PointerLoop,
    /// A name whose expanded form, with its terminator, exceeds 255 octets.
    NameTooLong,
}

/// Why a value cannot be constructed.
#[derive(Clone, Copy, Debug, PartialEq, Eq, Structural)]
pub enum BuildError {
    /// A header field that does not fit the bits it has on the wire.
    FieldOutOfRange,
    /// A label with no octets: a leading, trailing or doubled dot, or an
    /// empty domain string.
    EmptyLabel,
    /// A label of more than 63 octets.
    LabelTooLong,
    /// A domain string whose wire form, with its terminator, exceeds 255 octets.
    NameTooLong,
}

} // verus!
