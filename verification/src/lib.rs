//! Conversions between 64-bit integers, their LEB128 byte encodings and
//! hexadecimal text.
//!
//! [`leb`] defines what a byte sequence means as a LEB128 number and what the
//! canonical encoding of a number is; [`leb_laws`] proves how the two relate.
//! [`hexadecimal`] and [`hexadecimal_laws`] do the same for hexadecimal text.
//! [`convert`] holds the executable conversions, whose contracts are stated
//! over those definitions.

pub mod convert;
pub mod hexadecimal;
pub mod hexadecimal_laws;
pub mod leb;
pub mod leb_laws;
