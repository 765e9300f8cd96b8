//! The checks that make a sequence of fields a well-formed record: the
//! widths add up to whole bytes, every explicit width annotation agrees with
//! the width of the field's type, and every discriminant of an enumeration
//! used as a field fits the bits allotted to it.

use vstd::prelude::*;
use vstd::arithmetic::power2::pow2;
use crate::enum_codec::{packed_width_of, width_and_reach};
use crate::error::LayoutError;
use crate::layout::total_width;

verus! {

/// What the byte-alignment check reports: nothing when the widths add up to
/// whole bytes, else one error with the total modulo eight.
pub open spec fn alignment_errors(widths: Seq<usize>) -> Seq<LayoutError> {
    if total_width(widths) % 8 == 0 {
        Seq::empty()
    } else {
        seq![LayoutError::NotByteAligned { remainder: (total_width(widths) % 8) as usize }]
    }
}

/// Field `i` carries an annotation that differs from its width.
pub open spec fn is_mismatch(widths: Seq<usize>, declared: Seq<Option<usize>>, i: int) -> bool {
    &&& 0 <= i < widths.len()
    &&& i < declared.len()
    &&& declared[i] is Some
    &&& declared[i]->0 != widths[i]
}

/// What the annotation check reports for the first `n` fields: one error,
/// in field order, for each annotation that differs from the field's width.
pub open spec fn width_errors(widths: Seq<usize>, declared: Seq<Option<usize>>, n: int) -> Seq<
    LayoutError,
>
    decreases n,
{
    if n <= 0 {
        Seq::empty()
    } else {
        let before = width_errors(widths, declared, n - 1);
        if is_mismatch(widths, declared, n - 1) {
            before.push(
                LayoutError::WidthMismatch {
                    field: (n - 1) as usize,
                    declared: declared[n - 1]->0,
                    actual: widths[n - 1],
                },
            )
        } else {
            before
        }
    }
}

/// What the range check reports for the first `n` variants of enumeration
/// number `enumeration`: one error, in declaration order, for each
/// discriminant that is not below `2^B`, `B` the packed width of the
/// enumeration.
pub open spec fn variant_errors(discriminants: Seq<u128>, enumeration: int, n: int) -> Seq<
    LayoutError,
>
    decreases n,
{
    if n <= 0 {
        Seq::empty()
    } else {
        let before = variant_errors(discriminants, enumeration, n - 1);
        if discriminants[n - 1] >= pow2(packed_width_of(discriminants.len())) {
            before.push(
                LayoutError::DiscriminantOutOfRange {
                    enumeration: enumeration as usize,
                    variant: (n - 1) as usize,
                },
            )
        } else {
            before
        }
    }
}

/// What the range check reports for the first `n` enumerations.
pub open spec fn discriminant_errors(enums: Seq<Seq<u128>>, n: int) -> Seq<LayoutError>
    decreases n,
{
    if n <= 0 {
        Seq::empty()
    } else {
        discriminant_errors(enums, n - 1) + variant_errors(
            enums[n - 1],
            n - 1,
            enums[n - 1].len() as int,
        )
    }
}

/// The discriminants of each enumeration.
pub open spec fn discriminants_of(enums: Seq<Vec<u128>>) -> Seq<Seq<u128>> {
    Seq::new(enums.len(), |e: int| enums[e]@)
}

/// Everything the three checks report: alignment first, then annotations in
/// field order, then discriminants by enumeration and variant.
pub open spec fn layout_errors(
    widths: Seq<usize>,
    declared: Seq<Option<usize>>,
    enums: Seq<Seq<u128>>,
) -> Seq<LayoutError> {
    alignment_errors(widths) + width_errors(widths, declared, widths.len() as int)
        + discriminant_errors(enums, enums.len() as int)
}

/// Every discriminant of the enumeration fits its packed width.
pub open spec fn discriminants_fit(discriminants: Seq<u128>) -> bool {
    forall|v: int|
        0 <= v < discriminants.len() ==> (#[trigger] discriminants[v]) < pow2(
            packed_width_of(discriminants.len()),
        )
}

/// The record is well formed: the widths add up to whole bytes, no
/// annotation differs from the width of its field, and every discriminant of
/// every enumeration fits.
pub open spec fn is_well_formed(
    widths: Seq<usize>,
    declared: Seq<Option<usize>>,
    enums: Seq<Seq<u128>>,
) -> bool {
    &&& total_width(widths) % 8 == 0
    &&& forall|i: int| 0 <= i < widths.len() ==> !is_mismatch(widths, declared, i)
    &&& forall|e: int| 0 <= e < enums.len() ==> discriminants_fit(#[trigger] enums[e])
}

/// The annotation check reports nothing for the first `n` fields exactly
/// when none of them has an annotation that differs from its width.
pub proof fn lemma_width_errors_empty(widths: Seq<usize>, declared: Seq<Option<usize>>, n: int)
    requires
        0 <= n <= widths.len(),
    ensures
        width_errors(widths, declared, n).len() == 0 <==> forall|i: int|
            0 <= i < n ==> !is_mismatch(widths, declared, i),
    decreases n,
{
    if n > 0 {
        lemma_width_errors_empty(widths, declared, n - 1);
        if width_errors(widths, declared, n).len() == 0 {
            assert forall|i: int| 0 <= i < n implies !is_mismatch(widths, declared, i) by {
                if i == n - 1 {
                    assert(!is_mismatch(widths, declared, n - 1));
                }
            }
        }
    }
}

/// The range check reports nothing for the first `n` variants exactly when
/// each of their discriminants fits.
pub proof fn lemma_variant_errors_empty(discriminants: Seq<u128>, enumeration: int, n: int)
    requires
        0 <= n <= discriminants.len(),
    ensures
        variant_errors(discriminants, enumeration, n).len() == 0 <==> forall|v: int|
            0 <= v < n ==> (#[trigger] discriminants[v]) < pow2(
                packed_width_of(discriminants.len()),
            ),
    decreases n,
{
    if n > 0 {
        lemma_variant_errors_empty(discriminants, enumeration, n - 1);
        if variant_errors(discriminants, enumeration, n).len() == 0 {
            assert forall|v: int| 0 <= v < n implies (#[trigger] discriminants[v]) < pow2(
                packed_width_of(discriminants.len()),
            ) by {
                if v == n - 1 {
                    assert(discriminants[n - 1] < pow2(packed_width_of(discriminants.len())));
                }
            }
        }
    }
}

/// The range check reports nothing for the first `n` enumerations exactly
/// when every discriminant of each of them fits.
pub proof fn lemma_discriminant_errors_empty(enums: Seq<Seq<u128>>, n: int)
    requires
        0 <= n <= enums.len(),
    ensures
        discriminant_errors(enums, n).len() == 0 <==> forall|e: int|
            0 <= e < n ==> discriminants_fit(#[trigger] enums[e]),
    decreases n,
{
    if n > 0 {
        lemma_discriminant_errors_empty(enums, n - 1);
        lemma_variant_errors_empty(enums[n - 1], n - 1, enums[n - 1].len() as int);
        if discriminant_errors(enums, n).len() == 0 {
            assert forall|e: int| 0 <= e < n implies discriminants_fit(#[trigger] enums[e]) by {
                if e == n - 1 {
                    assert(discriminants_fit(enums[n - 1]));
                }
            }
        } else if discriminant_errors(enums, n - 1).len() == 0 {
            assert(!discriminants_fit(enums[n - 1]));
        }
    }
}

/// The three checks report nothing exactly when the record is well formed;
/// and widths that do not add up to whole bytes are reported first, with the
/// remainder.
pub proof fn lemma_no_errors_iff_well_formed(
    widths: Seq<usize>,
    declared: Seq<Option<usize>>,
    enums: Seq<Seq<u128>>,
)
    ensures
        layout_errors(widths, declared, enums).len() == 0 <==> is_well_formed(
            widths,
            declared,
            enums,
        ),
        total_width(widths) % 8 != 0 ==> layout_errors(widths, declared, enums).len() > 0
            && layout_errors(widths, declared, enums)[0] == (LayoutError::NotByteAligned {
            remainder: (total_width(widths) % 8) as usize,
        }),
{
    lemma_width_errors_empty(widths, declared, widths.len() as int);
    lemma_discriminant_errors_empty(enums, enums.len() as int);
}

/// Remainders modulo eight add up.
proof fn lemma_remainders_add(a: nat, b: nat)
    ensures
        (a % 8 + b % 8) % 8 == (a + b) % 8,
{
}

/// The sum of the widths modulo eight.
pub fn total_remainder(widths: &[usize]) -> (remainder: usize)
    ensures
        remainder == total_width(widths@) % 8,
{
    let mut remainder: usize = 0;
    let mut i: usize = 0;
    proof {
        assert(widths@.take(0) =~= Seq::<usize>::empty());
    }
    while i < widths.len()
        invariant
            i <= widths@.len(),
            remainder == total_width(widths@.take(i as int)) % 8,
        decreases widths@.len() - i,
    {
        proof {
            assert(widths@.take(i + 1).drop_last() =~= widths@.take(i as int));
            assert(total_width(widths@.take(i + 1)) == total_width(widths@.take(i as int))
                + widths@[i as int]);
            lemma_remainders_add(total_width(widths@.take(i as int)), widths@[i as int] as nat);
        }
        remainder = (remainder + widths[i] % 8) % 8;
        i = i + 1;
    }
    proof {
        assert(widths@.take(widths@.len() as int) =~= widths@);
    }
    remainder
}

/// Byte alignment: the widths must add up to a multiple of eight. A total
/// that is not is refused, with the remainder.
pub fn check_alignment(widths: &[usize]) -> (r: Result<(), LayoutError>)
    ensures
        r is Ok <==> total_width(widths@) % 8 == 0,
        r is Err ==> r->Err_0 == (LayoutError::NotByteAligned {
            remainder: (total_width(widths@) % 8) as usize,
        }),
{
    let remainder: usize = total_remainder(widths);
    if remainder == 0 {
        Ok(())
    } else {
        Err(LayoutError::NotByteAligned { remainder })
    }
}

/// Explicit widths: appends one error, in field order, for each field whose
/// annotation differs from its width. `declared[i]` is the annotation of
/// field `i`, if it has one; a field beyond the end of `declared` has none.
pub fn check_declared_widths(
    widths: &[usize],
    declared: &[Option<usize>],
    errors: &mut Vec<LayoutError>,
)
    ensures
        final(errors)@ == old(errors)@ + width_errors(widths@, declared@, widths@.len() as int),
{
    let ghost start = errors@;
    let mut i: usize = 0;
    proof {
        assert(errors@ =~= start + width_errors(widths@, declared@, 0));
    }
    while i < widths.len()
        invariant
            i <= widths@.len(),
            errors@ == start + width_errors(widths@, declared@, i as int),
        decreases widths@.len() - i,
    {
        let ghost before = errors@;
        if i < declared.len() {
            match declared[i] {
                Some(bits) => {
                    if bits != widths[i] {
                        errors.push(
                            LayoutError::WidthMismatch { field: i, declared: bits, actual: widths[i] },
                        );
                    }
                },
                None => {},
            }
        }
        proof {
            assert(errors@ =~= start + width_errors(widths@, declared@, i + 1));
        }
        i = i + 1;
    }
}

/// Discriminant range for one enumeration: appends one error, in declaration
/// order, for each variant whose discriminant is not below `2^B`, `B` the
/// packed width of the enumeration.
pub fn check_discriminants(
    discriminants: &[u128],
    enumeration: usize,
    errors: &mut Vec<LayoutError>,
)
    ensures
        final(errors)@ == old(errors)@ + variant_errors(
            discriminants@,
            enumeration as int,
            discriminants@.len() as int,
        ),
{
    let ghost start = errors@;
    let (_, reach) = width_and_reach(discriminants.len());
    let mut v: usize = 0;
    proof {
        assert(errors@ =~= start + variant_errors(discriminants@, enumeration as int, 0));
    }
    while v < discriminants.len()
        invariant
            v <= discriminants@.len(),
            reach == pow2(packed_width_of(discriminants@.len())),
            errors@ == start + variant_errors(discriminants@, enumeration as int, v as int),
        decreases discriminants@.len() - v,
    {
        if discriminants[v] >= reach {
            errors.push(LayoutError::DiscriminantOutOfRange { enumeration, variant: v });
        }
        proof {
            assert(errors@ =~= start + variant_errors(
                discriminants@,
                enumeration as int,
                v + 1,
            ));
        }
        v = v + 1;
    }
}

/// Runs the three checks on a record and lists what they report: the
/// alignment error, if any; then the annotation errors in field order; then
/// the discriminant errors by enumeration and variant. The record is well
/// formed exactly when the list is empty.
pub fn validate_layout(widths: &[usize], declared: &[Option<usize>], enums: &[Vec<u128>]) -> (errors:
    Vec<LayoutError>)
    ensures
        errors@ == layout_errors(widths@, declared@, discriminants_of(enums@)),
{
    let mut errors: Vec<LayoutError> = Vec::new();
    match check_alignment(widths) {
        Ok(()) => {},
        Err(e) => {
            errors.push(e);
        },
    }
    proof {
        assert(errors@ =~= alignment_errors(widths@));
    }
    check_declared_widths(widths, declared, &mut errors);
    let ghost head = errors@;
    let ghost all = discriminants_of(enums@);
    let mut e: usize = 0;
    proof {
        assert(errors@ =~= head + discriminant_errors(all, 0));
    }
    while e < enums.len()
        invariant
            e <= enums@.len(),
            all == discriminants_of(enums@),
            errors@ == head + discriminant_errors(all, e as int),
        decreases enums@.len() - e,
    {
        let ghost before = errors@;
        check_discriminants(enums[e].as_slice(), e, &mut errors);
        proof {
            assert(all[e as int] == enums@[e as int]@);
            assert(errors@ =~= head + discriminant_errors(all, e + 1));
        }
        e = e + 1;
    }
    errors
}

} // verus!
