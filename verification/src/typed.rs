//! Field values in their backing type: a field of `width` bits is handed out
//! as the smallest native unsigned integer that holds `width` bits.

use vstd::prelude::*;
use vstd::arithmetic::power2::{lemma2_to64, lemma_pow2_strictly_increases, pow2};
use crate::bits::{bits_of, field_value, written};
use crate::codec::FieldCodec;
use crate::gen_bit_type::{data_type_of, is_supported, DataType};

verus! {

/// An unsigned number in one of the native unsigned integer types.
#[derive(Clone, Copy, Debug, PartialEq, Eq, Structural)]
pub enum FieldValue {
    /// A number of at most 8 bits.
    U8(u8),
    /// A number of at most 16 bits.
    U16(u16),
    /// A number of at most 32 bits.
    U32(u32),
    /// A number of at most 64 bits.
    U64(u64),
    /// A number of at most 128 bits.
    U128(u128),
}

impl FieldValue {
    /// The number.
    pub open spec fn number(self) -> nat {
        match self {
            FieldValue::U8(v) => v as nat,
            FieldValue::U16(v) => v as nat,
            FieldValue::U32(v) => v as nat,
            FieldValue::U64(v) => v as nat,
            FieldValue::U128(v) => v as nat,
        }
    }

    /// The type that holds the number.
    pub open spec fn data_type(self) -> DataType {
        match self {
            FieldValue::U8(_) => DataType::U8,
            FieldValue::U16(_) => DataType::U16,
            FieldValue::U32(_) => DataType::U32,
            FieldValue::U64(_) => DataType::U64,
            FieldValue::U128(_) => DataType::U128,
        }
    }

    /// The number, widened to 128 bits.
    pub fn to_u128(self) -> (v: u128)
        ensures
            v == self.number(),
    {
        match self {
            FieldValue::U8(v) => v as u128,
            FieldValue::U16(v) => v as u128,
            FieldValue::U32(v) => v as u128,
            FieldValue::U64(v) => v as u128,
            FieldValue::U128(v) => v,
        }
    }
}

/// A number below `2^width` is below `2^limit` when `width <= limit`.
proof fn lemma_below_pow2(value: nat, width: nat, limit: nat)
    requires
        value < pow2(width),
        width <= limit,
    ensures
        value < pow2(limit),
{
    if width < limit {
        lemma_pow2_strictly_increases(width, limit);
    }
}

/// Reads the field of `width` bits that starts at bit `start`, as a value
/// of the smallest native unsigned integer type that holds `width` bits.
pub fn get_typed(storage: &[u8], start: usize, width: usize) -> (value: FieldValue)
    requires
        is_supported(width as nat),
        start + width <= usize::MAX,
        start + width <= 8 * storage@.len(),
    ensures
        value.number() == field_value(storage@, start as int, width as int),
        value.data_type() == data_type_of(width as nat),
{
    let raw: u128 = FieldCodec::get(storage, start, width);
    proof {
        lemma2_to64();
    }
    if width <= 8 {
        proof {
            lemma_below_pow2(raw as nat, width as nat, 8);
        }
        FieldValue::U8(raw as u8)
    } else if width <= 16 {
        proof {
            lemma_below_pow2(raw as nat, width as nat, 16);
        }
        FieldValue::U16(raw as u16)
    } else if width <= 32 {
        proof {
            lemma_below_pow2(raw as nat, width as nat, 32);
        }
        FieldValue::U32(raw as u32)
    } else if width <= 64 {
        proof {
            lemma_below_pow2(raw as nat, width as nat, 64);
        }
        FieldValue::U64(raw as u64)
    } else {
        FieldValue::U128(raw)
    }
}

/// Writes the `width` low bits of a typed value into the field of `width`
/// bits that starts at bit `start`, joining them by "or" with what is there.
pub fn set_typed(storage: &mut [u8], start: usize, width: usize, value: FieldValue)
    requires
        is_supported(width as nat),
        start + width <= usize::MAX,
        start + width <= 8 * old(storage)@.len(),
    ensures
        final(storage)@.len() == old(storage)@.len(),
        bits_of(final(storage)@) == written(
            bits_of(old(storage)@),
            start as int,
            width as nat,
            value.number(),
        ),
{
    FieldCodec::set(storage, start, width, value.to_u128());
}

} // verus!
