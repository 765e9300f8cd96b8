//! Bit-packed records: a byte buffer, fields of 1 to 128 bits at arbitrary
//! bit offsets, closed sets of symbolic values, and the layout rules that
//! make a sequence of field widths a well-formed record.

pub mod bits;
pub mod checks;
pub mod codec;
pub mod enum_codec;
pub mod error;
pub mod gen_bit_type;
pub mod layout;
pub mod record;
pub mod specifier;
pub mod storage;
pub mod typed;
pub mod validate;

pub use crate::specifier::{BType, BitfieldSpecifier, Bits, Specifier};
