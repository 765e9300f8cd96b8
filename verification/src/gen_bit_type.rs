//! The family of unsigned field types, one for each width of a range, each
//! with the smallest native unsigned integer that holds it.

use vstd::prelude::*;
use crate::error::LayoutError;

verus! {

/// A native unsigned integer type.
#[derive(Clone, Copy, Debug, PartialEq, Eq, Structural)]
pub enum DataType {
    /// `u8`.
    U8,
    /// `u16`.
    U16,
    /// `u32`.
    U32,
    /// `u64`.
    U64,
    /// `u128`.
    U128,
}

impl DataType {
    /// The number of bits of the type.
    pub open spec fn width(self) -> nat {
        match self {
            DataType::U8 => 8,
            DataType::U16 => 16,
            DataType::U32 => 32,
            DataType::U64 => 64,
            DataType::U128 => 128,
        }
    }

    /// The number of bits of the type.
    pub fn bits(self) -> (bits: usize)
        ensures
            bits == self.width(),
    {
        match self {
            DataType::U8 => 8,
            DataType::U16 => 16,
            DataType::U32 => 32,
            DataType::U64 => 64,
            DataType::U128 => 128,
        }
    }
}

/// A field of `bit_count` bits can be backed by a native unsigned integer.
pub open spec fn is_supported(bit_count: nat) -> bool {
    1 <= bit_count <= 128
}

/// The smallest native unsigned integer type of at least `bit_count` bits.
pub open spec fn data_type_of(bit_count: nat) -> DataType {
    if bit_count <= 8 {
        DataType::U8
    } else if bit_count <= 16 {
        DataType::U16
    } else if bit_count <= 32 {
        DataType::U32
    } else if bit_count <= 64 {
        DataType::U64
    } else {
        DataType::U128
    }
}

/// The backing type of a field of `bit_count` bits: the smallest native
/// unsigned integer type that holds them. A width of zero or of more than
/// 128 bits has none.
pub fn gen_data_type(bit_count: usize) -> (r: Result<DataType, LayoutError>)
    ensures
        match r {
            Ok(data_type) => is_supported(bit_count as nat) && data_type == data_type_of(
                bit_count as nat,
            ),
            Err(e) => !is_supported(bit_count as nat) && e == (LayoutError::UnsupportedWidth {
                width: bit_count,
            }),
        },
{
    if bit_count == 0 || bit_count > 128 {
        Err(LayoutError::UnsupportedWidth { width: bit_count })
    } else if bit_count <= 8 {
        Ok(DataType::U8)
    } else if bit_count <= 16 {
        Ok(DataType::U16)
    } else if bit_count <= 32 {
        Ok(DataType::U32)
    } else if bit_count <= 64 {
        Ok(DataType::U64)
    } else {
        Ok(DataType::U128)
    }
}

/// The backing type is the smallest one that holds the field.
pub proof fn lemma_data_type_is_minimal(bit_count: nat, other: DataType)
    requires
        is_supported(bit_count),
        bit_count <= other.width(),
    ensures
        bit_count <= data_type_of(bit_count).width() <= other.width(),
{
}

/// One unsigned field type: its width and its backing type.
#[derive(Clone, Copy, Debug, PartialEq, Eq, Structural)]
pub struct BitType {
    /// The width of the field type, in bits.
    pub bits: usize,
    /// The native integer that its accessors take and return.
    pub data_type: DataType,
}

/// Generates the unsigned field types of the widths `start..end`.
pub struct BTypeGenerator {
    /// The first width.
    pub start: usize,
    /// The width after the last one.
    pub end: usize,
}

/// `width` is the first width from `start` on, below `end`, that has no
/// backing type.
pub open spec fn is_first_unsupported(start: nat, end: nat, width: nat) -> bool {
    &&& start <= width < end
    &&& !is_supported(width)
    &&& forall|w: nat| start <= w < width ==> is_supported(w)
}

impl BTypeGenerator {
    /// A generator for the widths `start..end`.
    pub fn new(start: usize, end: usize) -> (generator: BTypeGenerator)
        ensures
            generator.start == start,
            generator.end == end,
    {
        BTypeGenerator { start, end }
    }

    /// The field types of the range, by rising width, each with its backing
    /// type; or the first width of the range that has no backing type.
    pub fn bit_types(&self) -> (r: Result<Vec<BitType>, LayoutError>)
        ensures
            match r {
                Ok(types) => {
                    &&& self.start <= self.end ==> types@.len() == self.end - self.start
                    &&& self.end < self.start ==> types@.len() == 0
                    &&& forall|k: int|
                        0 <= k < types@.len() ==> (#[trigger] types@[k]).bits == self.start + k
                            && is_supported((self.start + k) as nat) && types@[k].data_type
                            == data_type_of((self.start + k) as nat)
                },
                Err(LayoutError::UnsupportedWidth { width }) => is_first_unsupported(
                    self.start as nat,
                    self.end as nat,
                    width as nat,
                ),
                Err(_) => false,
            },
    {
        let mut types: Vec<BitType> = Vec::new();
        let mut idx: usize = self.start;
        while idx < self.end
            invariant
                self.start <= idx,
                idx <= self.end || (self.end < self.start && idx == self.start),
                types@.len() == idx - self.start,
                forall|k: int|
                    0 <= k < types@.len() ==> (#[trigger] types@[k]).bits == self.start + k
                        && is_supported((self.start + k) as nat) && types@[k].data_type
                        == data_type_of((self.start + k) as nat),
            decreases self.end - idx,
        {
            match gen_data_type(idx) {
                Ok(data_type) => {
                    types.push(BitType { bits: idx, data_type });
                },
                Err(e) => {
                    proof {
                        assert forall|w: nat| self.start <= w < idx implies is_supported(w) by {
                            assert(types@[w - self.start].bits == w);
                        }
                    }
                    return Err(e);
                },
            }
            idx = idx + 1;
        }
        Ok(types)
    }
}

} // verus!
