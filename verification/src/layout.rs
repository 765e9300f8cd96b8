//! Planning a dense layout: each field starts where the one before it ends.

use vstd::prelude::*;
use crate::bits::{bits_of, field_bits, field_value, written};
use crate::codec::lemma_set_keeps_disjoint_field;

verus! {

/// The sum of a sequence of widths.
pub open spec fn total_width(widths: Seq<usize>) -> nat
    decreases widths.len(),
{
    if widths.len() == 0 {
        0
    } else {
        total_width(widths.drop_last()) + widths.last() as nat
    }
}

/// Where field `i` starts: the sum of the widths of the fields before it.
pub open spec fn offset_of(widths: Seq<usize>, i: int) -> nat {
    total_width(widths.take(i))
}

/// One field of a planned layout.
#[derive(Clone, Copy, Debug, PartialEq, Eq, Structural)]
pub struct FieldDescriptor {
    /// The number of bits of the field.
    pub bit_width: usize,
    /// The index of the first bit of the field.
    pub start_offset: usize,
}

/// `plan` lists, in order, each field of `widths` with its width and with
/// the sum of the widths before it as its start.
pub open spec fn is_plan_of(plan: Seq<FieldDescriptor>, widths: Seq<usize>) -> bool {
    &&& plan.len() == widths.len()
    &&& forall|i: int|
        0 <= i < widths.len() ==> (#[trigger] plan[i]).bit_width == widths[i] && plan[i].start_offset
            == offset_of(widths, i)
}

/// A planned layout: the fields in declaration order and the total width.
pub struct Layout {
    /// The fields, in declaration order.
    pub fields: Vec<FieldDescriptor>,
    /// The sum of all widths.
    pub total_bits: usize,
}

/// Field `i + 1` starts where field `i` ends.
pub proof fn lemma_offset_step(widths: Seq<usize>, i: int)
    requires
        0 <= i < widths.len(),
    ensures
        offset_of(widths, i + 1) == offset_of(widths, i) + widths[i],
{
    assert(widths.take(i + 1).drop_last() =~= widths.take(i));
}

/// A field that comes earlier ends before or where a later one starts.
pub proof fn lemma_offsets_ordered(widths: Seq<usize>, i: int, j: int)
    requires
        0 <= i < j <= widths.len(),
    ensures
        offset_of(widths, i) + widths[i] <= offset_of(widths, j),
    decreases j - i,
{
    lemma_offset_step(widths, j - 1);
    if i < j - 1 {
        lemma_offsets_ordered(widths, i, j - 1);
    }
}

/// Every field ends within the total width.
pub proof fn lemma_field_within_total(widths: Seq<usize>, i: int)
    requires
        0 <= i < widths.len(),
    ensures
        offset_of(widths, i) + widths[i] <= total_width(widths),
{
    lemma_offsets_ordered(widths, i, widths.len() as int);
    assert(widths.take(widths.len() as int) =~= widths);
}

/// Two different fields of a dense layout share no bit.
pub proof fn lemma_fields_disjoint(widths: Seq<usize>, i: int, j: int)
    requires
        0 <= i < widths.len(),
        0 <= j < widths.len(),
        i != j,
    ensures
        offset_of(widths, i) + widths[i] <= offset_of(widths, j) || offset_of(widths, j)
            + widths[j] <= offset_of(widths, i),
{
    if i < j {
        lemma_offsets_ordered(widths, i, j);
    } else {
        lemma_offsets_ordered(widths, j, i);
    }
}

/// Adjacency: in a dense layout whose widths add up to whole bytes, writing
/// field `i` leaves the bits and the value of every other field `j` as they
/// were, whatever value is written.
pub proof fn lemma_set_keeps_other_fields(
    widths: Seq<usize>,
    before: Seq<u8>,
    after: Seq<u8>,
    i: int,
    j: int,
    value: nat,
)
    requires
        total_width(widths) % 8 == 0,
        8 * before.len() == total_width(widths),
        after.len() == before.len(),
        0 <= i < widths.len(),
        0 <= j < widths.len(),
        i != j,
        bits_of(after) == written(
            bits_of(before),
            offset_of(widths, i) as int,
            widths[i] as nat,
            value,
        ),
    ensures
        field_bits(after, offset_of(widths, j) as int, widths[j] as int) == field_bits(
            before,
            offset_of(widths, j) as int,
            widths[j] as int,
        ),
        field_value(after, offset_of(widths, j) as int, widths[j] as int) == field_value(
            before,
            offset_of(widths, j) as int,
            widths[j] as int,
        ),
{
    lemma_fields_disjoint(widths, i, j);
    lemma_field_within_total(widths, j);
    lemma_set_keeps_disjoint_field(
        before,
        after,
        offset_of(widths, i) as int,
        widths[i] as nat,
        value,
        offset_of(widths, j) as int,
        widths[j] as nat,
    );
}

/// Plans the layout of fields of the given widths, in declaration order: the
/// first field starts at bit 0 and each other field starts where the one
/// before it ends. The result is `None` exactly when the widths add up to
/// more than a `usize` holds.
pub fn plan_layout(widths: &[usize]) -> (plan: Option<Layout>)
    ensures
        match plan {
            Some(layout) => {
                &&& is_plan_of(layout.fields@, widths@)
                &&& layout.total_bits == total_width(widths@)
            },
            None => total_width(widths@) > usize::MAX,
        },
{
    let mut fields: Vec<FieldDescriptor> = Vec::new();
    let mut next: usize = 0;
    let mut i: usize = 0;
    proof {
        assert(widths@.take(0) =~= Seq::<usize>::empty());
    }
    while i < widths.len()
        invariant
            i <= widths@.len(),
            next == offset_of(widths@, i as int),
            is_plan_of(fields@, widths@.take(i as int)),
        decreases widths@.len() - i,
    {
        let width: usize = widths[i];
        proof {
            lemma_offset_step(widths@, i as int);
            lemma_field_within_total(widths@, i as int);
        }
        if width > usize::MAX - next {
            return None;
        }
        let ghost before = fields@;
        fields.push(FieldDescriptor { bit_width: width, start_offset: next });
        proof {
            let done = widths@.take(i as int);
            let more = widths@.take(i + 1);
            assert forall|k: int| 0 <= k < more.len() implies (#[trigger] fields@[k]).bit_width
                == more[k] && fields@[k].start_offset == offset_of(more, k) by {
                assert(more.take(k) =~= widths@.take(k));
                if k < i {
                    assert(fields@[k] == before[k]);
                    assert(done.take(k) =~= widths@.take(k));
                }
            }
        }
        next = next + width;
        i = i + 1;
    }
    proof {
        assert(widths@.take(widths@.len() as int) =~= widths@);
    }
    Some(Layout { fields, total_bits: next })
}

} // verus!
