//! What can go wrong when a noun is read as something it is not, or when a
//! bit stream does not spell a noun.

use vstd::prelude::*;

verus! {

/// Why a noun or an atom could not be read as the requested kind of value.
#[derive(Clone, Copy, Debug, PartialEq, Eq, Structural)]
pub enum AccessError {
    /// The noun is an atom where a cell was asked for, or a cell where an atom was.
    WrongVariant,
    /// The atom has more bytes than the requested integer type.
    Overflow,
    /// The atom's bytes are not valid UTF-8.
    InvalidEncoding,
}

/// Why a bit stream could not be decoded.
#[derive(Clone, Copy, Debug, PartialEq, Eq, Structural)]
pub enum DecodeError {
    /// The stream ended inside a tag, a length code or a payload.
    UnexpectedEnd,
    /// A length code announces a length of 2^63 or more.
    LengthTooLarge,
    /// A backreference names an offset at which no node was decoded.
    DanglingBackref,
    /// A backreference's offset takes more than eight bytes.
    BackrefTooWide,
}

/// Why a noun could not be encoded.
#[derive(Clone, Copy, Debug, PartialEq, Eq, Structural)]
pub enum EncodeError {
    /// The sink refused bits. One that writes into a vector never does.
    Sink,
    /// An atom has 2^63 bits or more, which no length code can announce.
    LengthTooLarge,
}

} // verus!
