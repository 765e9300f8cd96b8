//! The byte buffer that holds the packed bits of one record.

use vstd::prelude::*;
use vstd::arithmetic::power2::pow2;
use crate::bits::{bits_of, field_value, is_clear, written};
use crate::codec::{FieldCodec, MAX_WIDTH};
use crate::error::LayoutError;

verus! {

/// A buffer of whole bytes whose length is fixed when it is made. Bit `i` is
/// bit `i % 8`, counted from the most significant one, of byte `i / 8`.
pub struct BitStorage {
    bytes: Vec<u8>,
}

impl View for BitStorage {
    type V = Seq<u8>;

    /// The bytes of the buffer.
    closed spec fn view(&self) -> Seq<u8> {
        self.bytes@
    }
}

impl BitStorage {
    /// A zero-filled buffer of `total_bits / 8` bytes. A number of bits that
    /// is not a multiple of eight is refused, with the remainder.
    pub fn new(total_bits: usize) -> (r: Result<BitStorage, LayoutError>)
        ensures
            match r {
                Ok(storage) => {
                    &&& total_bits % 8 == 0
                    &&& storage@ == Seq::new((total_bits / 8) as nat, |i: int| 0u8)
                },
                Err(e) => {
                    &&& total_bits % 8 != 0
                    &&& e == (LayoutError::NotByteAligned { remainder: (total_bits % 8) as usize })
                },
            },
    {
        let remainder: usize = total_bits % 8;
        if remainder != 0 {
            return Err(LayoutError::NotByteAligned { remainder });
        }
        let bytes: Vec<u8> = vec![0u8; total_bits / 8];
        proof {
            assert(bytes@ =~= Seq::new((total_bits / 8) as nat, |i: int| 0u8));
        }
        Ok(BitStorage { bytes })
    }

    /// The number of bytes.
    pub fn len(&self) -> (n: usize)
        ensures
            n == self@.len(),
    {
        self.bytes.len()
    }

    /// The bytes of the buffer.
    pub fn as_bytes(&self) -> (bytes: &[u8])
        ensures
            bytes@ == self@,
    {
        self.bytes.as_slice()
    }

    /// Reads the field of `width` bits that starts at bit `start`.
    pub fn get(&self, start: usize, width: usize) -> (value: u128)
        requires
            width <= MAX_WIDTH,
            start + width <= usize::MAX,
            start + width <= 8 * self@.len(),
        ensures
            value as nat == field_value(self@, start as int, width as int),
            value < pow2(width as nat),
    {
        FieldCodec::get(self.bytes.as_slice(), start, width)
    }

    /// Writes the `width` low bits of `value` into the field of `width` bits
    /// that starts at bit `start`, joining them by "or" with what is there.
    pub fn set(&mut self, start: usize, width: usize, value: u128)
        requires
            width <= MAX_WIDTH,
            start + width <= usize::MAX,
            start + width <= 8 * old(self)@.len(),
        ensures
            final(self)@.len() == old(self)@.len(),
            bits_of(final(self)@) == written(
                bits_of(old(self)@),
                start as int,
                width as nat,
                value as nat,
            ),
            is_clear(bits_of(old(self)@), start as int, width as int) ==> field_value(
                final(self)@,
                start as int,
                width as int,
            ) == value as nat % pow2(width as nat),
    {
        FieldCodec::set(self.bytes.as_mut_slice(), start, width, value);
    }
}

} // verus!
