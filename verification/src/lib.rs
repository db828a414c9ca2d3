//! Nouns: binary trees whose leaves are arbitrary-precision unsigned
//! integers, with the bit-level codec that packs them into a stream.

pub mod atom;
pub mod bits;
pub mod cell;
pub mod convert;
pub mod dedup;
pub mod error;
pub mod jam;
pub mod noun;
pub mod round_trip;
pub mod serdes;
pub mod stream;
