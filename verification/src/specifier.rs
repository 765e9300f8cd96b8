//! Field types: what a field of a record holds, how wide it is, and how its
//! values are read from and written to a byte buffer.

use vstd::prelude::*;
use vstd::arithmetic::power2::{lemma2_to64, pow2};
use crate::bits::{bits_of, field_value, is_clear, written};
use crate::codec::{lemma_field_value_fits, lemma_get_after_set, FieldCodec, MAX_WIDTH};

verus! {

/// A type that can be the type of a field.
pub trait Specifier {
    /// The width of a field of this type, in bits.
    const BITS: usize;

    /// What an accessor of a field of this type takes and returns.
    type Type;

    /// The number that stands in storage for `value`.
    spec fn encode(value: Self::Type) -> nat;

    /// The value that the number `raw` stands for.
    spec fn decode(raw: nat) -> Self::Type;

    /// Some value is stored as `raw`.
    spec fn accepts(raw: nat) -> bool;

    /// A value is what the number that stands for it is read as.
    proof fn lemma_decode_of_encode(value: Self::Type)
        ensures
            Self::accepts(Self::encode(value)),
            Self::decode(Self::encode(value)) == value,
    ;

    /// A number that fits the field and stands for some value is what stands
    /// for the value it is read as.
    proof fn lemma_encode_of_decode(raw: nat)
        requires
            Self::accepts(raw),
            raw < pow2(Self::BITS as nat),
            raw <= u128::MAX,
        ensures
            Self::encode(Self::decode(raw)) == raw,
    ;

    /// Reads the value held by the field of `remain_bits` bits that starts
    /// at bit `start_index`.
    fn get_data(bits: &[u8], start_index: usize, remain_bits: usize) -> (value: Self::Type)
        requires
            remain_bits <= MAX_WIDTH,
            start_index + remain_bits <= usize::MAX,
            start_index + remain_bits <= 8 * bits@.len(),
            Self::accepts(field_value(bits@, start_index as int, remain_bits as int)),
        ensures
            value == Self::decode(field_value(bits@, start_index as int, remain_bits as int)),
    ;

    /// Writes `arg` into the field of `remain_bits` bits that starts at bit
    /// `start_index`: the low `remain_bits` bits of the number that stands
    /// for `arg` are joined by "or" with the bits of the field.
    fn set_data(bits: &mut [u8], start_index: usize, remain_bits: usize, arg: Self::Type)
        requires
            remain_bits <= MAX_WIDTH,
            start_index + remain_bits <= usize::MAX,
            start_index + remain_bits <= 8 * old(bits)@.len(),
        ensures
            final(bits)@.len() == old(bits)@.len(),
            bits_of(final(bits)@) == written(
                bits_of(old(bits)@),
                start_index as int,
                remain_bits as nat,
                Self::encode(arg),
            ),
    ;
}

/// An unsigned integer of `BITS` bits.
pub struct Bits<const BITS: usize>;

/// A width that names the field type of that width.
pub trait BType {
    /// The field type.
    type Type: Specifier;
}

impl<const BITS: usize> BType for Bits<BITS> {
    type Type = Bits<BITS>;
}

impl<const WIDTH: usize> Specifier for Bits<WIDTH> {
    const BITS: usize = WIDTH;

    type Type = u128;

    open spec fn encode(value: u128) -> nat {
        value as nat
    }

    open spec fn decode(raw: nat) -> u128 {
        raw as u128
    }

    open spec fn accepts(raw: nat) -> bool {
        true
    }

    proof fn lemma_decode_of_encode(value: u128) {
    }

    proof fn lemma_encode_of_decode(raw: nat) {
    }

    fn get_data(bits: &[u8], start_index: usize, remain_bits: usize) -> (value: u128) {
        FieldCodec::get(bits, start_index, remain_bits)
    }

    fn set_data(bits: &mut [u8], start_index: usize, remain_bits: usize, arg: u128) {
        FieldCodec::set(bits, start_index, remain_bits, arg);
    }
}

impl Specifier for bool {
    const BITS: usize = 1;

    type Type = bool;

    open spec fn encode(value: bool) -> nat {
        if value {
            1
        } else {
            0
        }
    }

    open spec fn decode(raw: nat) -> bool {
        raw == 1
    }

    open spec fn accepts(raw: nat) -> bool {
        true
    }

    proof fn lemma_decode_of_encode(value: bool) {
    }

    proof fn lemma_encode_of_decode(raw: nat) {
        lemma2_to64();
    }

    fn get_data(bits: &[u8], start_index: usize, remain_bits: usize) -> (value: bool) {
        let raw: u128 = Bits::<8>::get_data(bits, start_index, remain_bits);
        proof {
            lemma_field_value_fits(bits@, start_index as int, remain_bits as int);
        }
        raw == 1
    }

    fn set_data(bits: &mut [u8], start_index: usize, remain_bits: usize, arg: bool) {
        if arg {
            Bits::<8>::set_data(bits, start_index, remain_bits, 1)
        } else {
            Bits::<8>::set_data(bits, start_index, remain_bits, 0)
        }
    }
}

/// A closed set of symbolic values that can be the type of a field: each
/// value has a discriminant, and no two values share one.
pub trait BitfieldSpecifier: Sized {
    /// The width of the set, as a width that names a field type.
    type BType: BType;

    /// The discriminant of a value.
    spec fn discriminant(&self) -> nat;

    /// Some value of the set has the discriminant `raw`.
    spec fn is_discriminant(raw: nat) -> bool;

    /// The discriminant of a value, as the field type of the set stores it.
    fn raw_value(&self) -> (raw: <<Self::BType as BType>::Type as Specifier>::Type)
        ensures
            <<Self::BType as BType>::Type as Specifier>::encode(raw) == self.discriminant(),
            Self::is_discriminant(self.discriminant()),
    ;

    /// The value with the discriminant that `value` stands for, which must
    /// be the discriminant of some value of the set.
    fn from_raw_value(value: <<Self::BType as BType>::Type as Specifier>::Type) -> (v: Self)
        requires
            Self::is_discriminant(<<Self::BType as BType>::Type as Specifier>::encode(value)),
        ensures
            v.discriminant() == <<Self::BType as BType>::Type as Specifier>::encode(value),
    ;

    /// No two values share a discriminant.
    proof fn lemma_discriminants_differ(a: Self, b: Self)
        requires
            a.discriminant() == b.discriminant(),
        ensures
            a == b,
    ;

    /// Every discriminant fits the width of the set.
    proof fn lemma_discriminant_fits(x: Self)
        ensures
            x.discriminant() < pow2(<<Self::BType as BType>::Type as Specifier>::BITS as nat),
    ;
}

/// The two truth values as a closed set: `false` is 0 and `true` is 1.
impl BitfieldSpecifier for bool {
    type BType = Bits<1>;

    open spec fn discriminant(&self) -> nat {
        if *self {
            1
        } else {
            0
        }
    }

    open spec fn is_discriminant(raw: nat) -> bool {
        raw <= 1
    }

    fn raw_value(&self) -> (raw: u128) {
        if *self {
            1
        } else {
            0
        }
    }

    fn from_raw_value(value: u128) -> (v: bool) {
        value == 1
    }

    proof fn lemma_discriminants_differ(a: bool, b: bool) {
    }

    proof fn lemma_discriminant_fits(x: bool) {
        lemma2_to64();
    }
}

/// Reads a value of a closed set from the field of `remain_bits` bits that
/// starts at bit `start_index`: the field type of the set reads the number,
/// which must stand for the discriminant of some value of the set.
pub fn get_enum<E: BitfieldSpecifier>(bits: &[u8], start_index: usize, remain_bits: usize) -> (value:
    E)
    requires
        remain_bits <= MAX_WIDTH,
        start_index + remain_bits <= usize::MAX,
        start_index + remain_bits <= 8 * bits@.len(),
        <<E::BType as BType>::Type as Specifier>::accepts(
            field_value(bits@, start_index as int, remain_bits as int),
        ),
        E::is_discriminant(
            <<E::BType as BType>::Type as Specifier>::encode(
                <<E::BType as BType>::Type as Specifier>::decode(
                    field_value(bits@, start_index as int, remain_bits as int),
                ),
            ),
        ),
    ensures
        value.discriminant() == <<E::BType as BType>::Type as Specifier>::encode(
            <<E::BType as BType>::Type as Specifier>::decode(
                field_value(bits@, start_index as int, remain_bits as int),
            ),
        ),
{
    let raw = <<E::BType as BType>::Type as Specifier>::get_data(bits, start_index, remain_bits);
    E::from_raw_value(raw)
}

/// Writes a value of a closed set into the field of `remain_bits` bits that
/// starts at bit `start_index`: the field type of the set writes the
/// discriminant.
pub fn set_enum<E: BitfieldSpecifier>(
    bits: &mut [u8],
    start_index: usize,
    remain_bits: usize,
    arg: &E,
)
    requires
        remain_bits <= MAX_WIDTH,
        start_index + remain_bits <= usize::MAX,
        start_index + remain_bits <= 8 * old(bits)@.len(),
    ensures
        final(bits)@.len() == old(bits)@.len(),
        bits_of(final(bits)@) == written(
            bits_of(old(bits)@),
            start_index as int,
            remain_bits as nat,
            arg.discriminant(),
        ),
{
    let raw = arg.raw_value();
    <<E::BType as BType>::Type as Specifier>::set_data(bits, start_index, remain_bits, raw);
}

/// Round trip of a typed field: after `set_data` has written `arg` into a
/// field that was all zero and that the number standing for `arg` fits,
/// `get_data` on that field may be called and reads `arg`.
pub proof fn lemma_get_data_after_set_data<S: Specifier>(
    before: Seq<u8>,
    after: Seq<u8>,
    start: int,
    width: nat,
    arg: S::Type,
)
    requires
        0 <= start,
        start + width <= 8 * before.len(),
        after.len() == before.len(),
        bits_of(after) == written(bits_of(before), start, width, S::encode(arg)),
        is_clear(bits_of(before), start, width as int),
        S::encode(arg) < pow2(width),
    ensures
        S::accepts(field_value(after, start, width as int)),
        S::decode(field_value(after, start, width as int)) == arg,
{
    lemma_get_after_set(before, after, start, width, S::encode(arg));
    S::lemma_decode_of_encode(arg);
}

/// Round trip of an enum field: after `set_enum` has written `x` into a
/// field of the width of its set that was all zero, `get_enum` on that field
/// may be called, and what it reads is `x`.
pub proof fn lemma_get_enum_after_set_enum<E: BitfieldSpecifier>(
    before: Seq<u8>,
    after: Seq<u8>,
    start: int,
    x: E,
    raw: <<E::BType as BType>::Type as Specifier>::Type,
    y: E,
)
    requires
        0 <= start,
        <<E::BType as BType>::Type as Specifier>::BITS <= MAX_WIDTH,
        start + <<E::BType as BType>::Type as Specifier>::BITS <= 8 * before.len(),
        after.len() == before.len(),
        bits_of(after) == written(
            bits_of(before),
            start,
            <<E::BType as BType>::Type as Specifier>::BITS as nat,
            x.discriminant(),
        ),
        is_clear(bits_of(before), start, <<E::BType as BType>::Type as Specifier>::BITS as int),
        <<E::BType as BType>::Type as Specifier>::encode(raw) == x.discriminant(),
        E::is_discriminant(x.discriminant()),
        y.discriminant() == <<E::BType as BType>::Type as Specifier>::encode(
            <<E::BType as BType>::Type as Specifier>::decode(
                field_value(after, start, <<E::BType as BType>::Type as Specifier>::BITS as int),
            ),
        ),
    ensures
        field_value(after, start, <<E::BType as BType>::Type as Specifier>::BITS as int)
            == x.discriminant(),
        <<E::BType as BType>::Type as Specifier>::accepts(
            field_value(after, start, <<E::BType as BType>::Type as Specifier>::BITS as int),
        ),
        E::is_discriminant(
            <<E::BType as BType>::Type as Specifier>::encode(
                <<E::BType as BType>::Type as Specifier>::decode(
                    field_value(
                        after,
                        start,
                        <<E::BType as BType>::Type as Specifier>::BITS as int,
                    ),
                ),
            ),
        ),
        y == x,
{
    let width = <<E::BType as BType>::Type as Specifier>::BITS as nat;
    E::lemma_discriminant_fits(x);
    lemma_get_after_set(before, after, start, width, x.discriminant());
    lemma_field_value_fits(after, start, width as int);
    <<E::BType as BType>::Type as Specifier>::lemma_decode_of_encode(raw);
    <<E::BType as BType>::Type as Specifier>::lemma_encode_of_decode(x.discriminant());
    E::lemma_discriminants_differ(y, x);
}

/// Enum round trip: every value of a closed set is what `from_raw_value`
/// gives for its `raw_value`.
pub fn round_trip<E: BitfieldSpecifier>(x: &E) -> (y: E)
    ensures
        y == *x,
{
    let raw = x.raw_value();
    let y = E::from_raw_value(raw);
    proof {
        E::lemma_discriminants_differ(y, *x);
    }
    y
}

} // verus!
