//! A packed record: a dense layout of fields over one byte buffer, with an
//! accessor pair for each field.

use vstd::prelude::*;
use vstd::arithmetic::power2::pow2;
use crate::bits::{
    bits_of, field_bits, field_value, is_clear, lemma_zero_bytes_are_clear, written,
};
use crate::codec::MAX_WIDTH;
use crate::error::LayoutError;
use crate::layout::{
    is_plan_of, lemma_field_within_total, lemma_set_keeps_other_fields, offset_of, plan_layout,
    total_width, FieldDescriptor,
};
use crate::storage::BitStorage;

verus! {

/// `i` is the first field that is wider than the widest supported field.
pub open spec fn is_first_too_wide(widths: Seq<usize>, i: int) -> bool {
    &&& 0 <= i < widths.len()
    &&& widths[i] > MAX_WIDTH
    &&& forall|j: int| 0 <= j < i ==> widths[j] <= MAX_WIDTH
}

/// No field is wider than the widest supported field.
pub open spec fn all_supported(widths: Seq<usize>) -> bool {
    forall|j: int| 0 <= j < widths.len() ==> widths[j] <= MAX_WIDTH
}

/// A record of bit-packed fields.
pub struct Record {
    fields: Vec<FieldDescriptor>,
    storage: BitStorage,
}

impl Record {
    /// The widths of the fields, in declaration order.
    pub closed spec fn widths(&self) -> Seq<usize> {
        Seq::new(self.fields@.len(), |i: int| self.fields@[i].bit_width)
    }

    /// The bytes that hold the fields.
    pub closed spec fn bytes(&self) -> Seq<u8> {
        self.storage@
    }

    /// The layout is dense, no field is wider than 128 bits, a `usize` can
    /// count the bits, and the buffer holds exactly the bits of the fields.
    pub closed spec fn wf(&self) -> bool {
        &&& is_plan_of(self.fields@, self.widths())
        &&& all_supported(self.widths())
        &&& total_width(self.widths()) <= usize::MAX
        &&& 8 * self.storage@.len() == total_width(self.widths())
    }

    /// The number held by field `i`.
    pub open spec fn value(&self, i: int) -> nat {
        field_value(self.bytes(), offset_of(self.widths(), i) as int, self.widths()[i] as int)
    }

    /// Every bit of field `i` is zero.
    pub open spec fn is_unset(&self, i: int) -> bool {
        is_clear(
            bits_of(self.bytes()),
            offset_of(self.widths(), i) as int,
            self.widths()[i] as int,
        )
    }

    /// A record of fields of the given widths, all bits zero. Refused are, in
    /// this order: a total that a `usize` cannot count, a field wider than
    /// 128 bits (the first such width is reported), and a total that is not
    /// a multiple of eight (reported with the remainder).
    pub fn new(widths: &[usize]) -> (r: Result<Record, LayoutError>)
        ensures
            match r {
                Ok(record) => {
                    &&& record.wf()
                    &&& record.widths() == widths@
                    &&& record.bytes() == Seq::new(
                        (total_width(widths@) / 8) as nat,
                        |i: int| 0u8,
                    )
                    &&& all_supported(widths@)
                    &&& total_width(widths@) % 8 == 0
                    &&& forall|i: int| 0 <= i < widths@.len() ==> #[trigger] record.is_unset(i)
                },
                Err(LayoutError::TooLarge) => total_width(widths@) > usize::MAX,
                Err(LayoutError::UnsupportedWidth { width }) => {
                    &&& total_width(widths@) <= usize::MAX
                    &&& exists|i: int| is_first_too_wide(widths@, i) && widths@[i] == width
                },
                Err(LayoutError::NotByteAligned { remainder }) => {
                    &&& total_width(widths@) <= usize::MAX
                    &&& all_supported(widths@)
                    &&& remainder == total_width(widths@) % 8
                    &&& remainder != 0
                },
                Err(_) => false,
            },
    {
        let layout = match plan_layout(widths) {
            Some(layout) => layout,
            None => {
                return Err(LayoutError::TooLarge);
            },
        };
        let mut i: usize = 0;
        while i < widths.len()
            invariant
                i <= widths@.len(),
                is_plan_of(layout.fields@, widths@),
                layout.total_bits == total_width(widths@),
                forall|j: int| 0 <= j < i ==> widths@[j] <= MAX_WIDTH,
            decreases widths@.len() - i,
        {
            if widths[i] > MAX_WIDTH {
                proof {
                    assert(is_first_too_wide(widths@, i as int));
                }
                return Err(LayoutError::UnsupportedWidth { width: widths[i] });
            }
            i = i + 1;
        }
        let storage = match BitStorage::new(layout.total_bits) {
            Ok(storage) => storage,
            Err(e) => {
                return Err(e);
            },
        };
        let record = Record { fields: layout.fields, storage };
        proof {
            assert(record.widths() =~= widths@);
            assert forall|i: int| 0 <= i < widths@.len() implies #[trigger] record.is_unset(i) by {
                lemma_field_within_total(widths@, i);
                lemma_zero_bytes_are_clear(
                    record.bytes(),
                    offset_of(widths@, i) as int,
                    widths@[i] as int,
                );
            }
        }
        Ok(record)
    }

    /// The number of fields.
    pub fn field_count(&self) -> (count: usize)
        ensures
            count == self.widths().len(),
    {
        self.fields.len()
    }

    /// The width and the start of field `field`.
    pub fn descriptor(&self, field: usize) -> (d: FieldDescriptor)
        requires
            self.wf(),
            field < self.widths().len(),
        ensures
            d.bit_width == self.widths()[field as int],
            d.start_offset == offset_of(self.widths(), field as int),
    {
        self.fields[field]
    }

    /// The bytes that hold the fields.
    pub fn as_bytes(&self) -> (bytes: &[u8])
        ensures
            bytes@ == self.bytes(),
    {
        self.storage.as_bytes()
    }

    /// Reads field `field`.
    pub fn get(&self, field: usize) -> (value: u128)
        requires
            self.wf(),
            field < self.widths().len(),
        ensures
            value as nat == self.value(field as int),
            value < pow2(self.widths()[field as int] as nat),
    {
        let d: FieldDescriptor = self.fields[field];
        proof {
            lemma_field_within_total(self.widths(), field as int);
        }
        self.storage.get(d.start_offset, d.bit_width)
    }

    /// Writes the low bits of `value` into field `field`, joining them by
    /// "or" with what the field holds. Every other field keeps its value.
    pub fn set(&mut self, field: usize, value: u128)
        requires
            old(self).wf(),
            field < old(self).widths().len(),
        ensures
            final(self).wf(),
            final(self).widths() == old(self).widths(),
            bits_of(final(self).bytes()) == written(
                bits_of(old(self).bytes()),
                offset_of(old(self).widths(), field as int) as int,
                old(self).widths()[field as int] as nat,
                value as nat,
            ),
            forall|j: int|
                0 <= j < old(self).widths().len() && j != field ==> final(self).value(j) == old(
                    self,
                ).value(j),
            forall|j: int|
                0 <= j < old(self).widths().len() && j != field ==> final(self).is_unset(j) == old(
                    self,
                ).is_unset(j),
            old(self).is_unset(field as int) ==> final(self).value(field as int) == value as nat
                % pow2(old(self).widths()[field as int] as nat),
    {
        let d: FieldDescriptor = self.fields[field];
        let ghost widths = self.widths();
        let ghost before = self.bytes();
        proof {
            lemma_field_within_total(widths, field as int);
        }
        self.storage.set(d.start_offset, d.bit_width, value);
        proof {
            let after = self.bytes();
            assert forall|j: int| 0 <= j < widths.len() && j != field implies field_value(
                after,
                offset_of(widths, j) as int,
                widths[j] as int,
            ) == field_value(before, offset_of(widths, j) as int, widths[j] as int) && is_clear(
                bits_of(after),
                offset_of(widths, j) as int,
                widths[j] as int,
            ) == is_clear(bits_of(before), offset_of(widths, j) as int, widths[j] as int) by {
                lemma_set_keeps_other_fields(widths, before, after, field as int, j, value as nat);
                lemma_field_within_total(widths, j);
                let start = offset_of(widths, j) as int;
                let width = widths[j] as int;
                assert forall|i: int| start <= i < start + width implies bits_of(after)[i]
                    == bits_of(before)[i] by {
                    assert(field_bits(after, start, width)[i - start] == bits_of(after)[i]);
                    assert(field_bits(before, start, width)[i - start] == bits_of(before)[i]);
                }
            }
        }
    }
}

} // verus!
