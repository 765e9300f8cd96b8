//! The mathematical model: a byte buffer seen as a sequence of bits, most
//! significant bit of each byte first, and the number that a run of bits
//! spells when read most significant bit first.

use vstd::prelude::*;
use vstd::arithmetic::div_mod::{lemma_div_denominator, lemma_mod_breakdown};
use vstd::arithmetic::power2::{lemma2_to64, lemma_pow2_pos, lemma_pow2_unfold, pow2};

verus! {

/// Binary digit `k` of `v`, counted from the least significant one.
pub open spec fn digit(v: nat, k: nat) -> bool {
    (v / pow2(k)) % 2 == 1
}

/// The `n` binary digits of `v` that start at digit `lo`, most significant
/// first: digits `lo + n - 1` down to `lo`.
pub open spec fn digits(v: nat, lo: nat, n: nat) -> Seq<bool> {
    Seq::new(n, |k: int| digit(v, (lo + n - 1 - k) as nat))
}

/// The `width` low binary digits of `v`, most significant first.
pub open spec fn bits_from(v: nat, width: nat) -> Seq<bool> {
    digits(v, 0, width)
}

/// Bit `p` of a byte, counted from its most significant bit (`p` in `0..8`).
pub open spec fn byte_bit(b: u8, p: int) -> bool {
    digit(b as nat, (7 - p) as nat)
}

/// The bits of a byte buffer: bit `i` is bit `i % 8` of byte `i / 8`.
pub open spec fn bits_of(bytes: Seq<u8>) -> Seq<bool> {
    Seq::new(8 * bytes.len(), |i: int| byte_bit(bytes[i / 8], i % 8))
}

/// The number spelled by a run of bits, most significant bit first.
pub open spec fn value_of(bits: Seq<bool>) -> nat
    decreases bits.len(),
{
    if bits.len() == 0 {
        0
    } else {
        2 * value_of(bits.drop_last()) + if bits.last() { 1nat } else { 0nat }
    }
}

/// The bits of the field that starts at bit `start` and is `width` bits wide.
pub open spec fn field_bits(bytes: Seq<u8>, start: int, width: int) -> Seq<bool> {
    bits_of(bytes).subrange(start, start + width)
}

/// The number held by the field that starts at bit `start` and is `width`
/// bits wide.
pub open spec fn field_value(bytes: Seq<u8>, start: int, width: int) -> nat {
    value_of(field_bits(bytes, start, width))
}

/// What a run of bits becomes when the `width` low digits of `value` are
/// written at `start`: inside the field each bit is joined by "or" with the
/// digit that lands on it; every other bit stays.
pub open spec fn written(bits: Seq<bool>, start: int, width: nat, value: nat) -> Seq<bool> {
    Seq::new(
        bits.len(),
        |i: int|
            if start <= i < start + width {
                bits[i] || bits_from(value, width)[i - start]
            } else {
                bits[i]
            },
    )
}

/// Every bit of the field at `start` of width `width` is zero.
pub open spec fn is_clear(bits: Seq<bool>, start: int, width: int) -> bool {
    forall|i: int| start <= i < start + width ==> !#[trigger] bits[i]
}

/// A buffer of zero bytes has no bit set.
pub proof fn lemma_zero_bytes_are_clear(bytes: Seq<u8>, start: int, width: int)
    requires
        0 <= start,
        start + width <= 8 * bytes.len(),
        forall|k: int| 0 <= k < bytes.len() ==> bytes[k] == 0,
    ensures
        is_clear(bits_of(bytes), start, width),
{
    assert forall|i: int| start <= i < start + width implies !#[trigger] bits_of(bytes)[i] by {
        let k = (7 - i % 8) as nat;
        lemma_pow2_pos(k);
        assert(0int / (pow2(k) as int) == 0) by (nonlinear_arith)
            requires
                pow2(k) > 0,
        ;
    }
}

/// A run of `n` bits spells a number below `2^n`.
pub proof fn lemma_value_of_bound(bits: Seq<bool>)
    ensures
        value_of(bits) < pow2(bits.len()),
    decreases bits.len(),
{
    if bits.len() == 0 {
        lemma_pow2_pos(0);
    } else {
        lemma_value_of_bound(bits.drop_last());
        lemma_pow2_unfold(bits.len());
    }
}

/// Reading two runs one after the other shifts the first left by the
/// length of the second.
pub proof fn lemma_value_of_concat(a: Seq<bool>, b: Seq<bool>)
    ensures
        value_of(a + b) == value_of(a) * pow2(b.len()) + value_of(b),
    decreases b.len(),
{
    if b.len() == 0 {
        assert(a + b =~= a);
        lemma2_to64();
        assert(value_of(b) == 0);
        assert(value_of(a) * 1 == value_of(a));
    } else {
        let front = b.drop_last();
        assert((a + b).drop_last() =~= a + front);
        assert((a + b).last() == b.last());
        lemma_value_of_concat(a, front);
        lemma_pow2_unfold(b.len());
        let x = value_of(a);
        let p = pow2(front.len());
        assert(pow2(b.len()) == 2 * p);
        assert(2 * (x * p) == x * (2 * p)) by (nonlinear_arith);
    }
}

/// The digits `lo .. lo + n` of `v` spell `(v / 2^lo) mod 2^n`.
pub proof fn lemma_value_of_digits(v: nat, lo: nat, n: nat)
    ensures
        value_of(digits(v, lo, n)) == (v / pow2(lo)) % pow2(n),
    decreases n,
{
    lemma_pow2_pos(lo);
    lemma_pow2_pos(n);
    let a: nat = v / pow2(lo);
    if n == 0 {
        lemma2_to64();
    } else {
        let m: nat = (n - 1) as nat;
        assert(digits(v, lo, n).drop_last() =~= digits(v, lo + 1, m));
        assert(digits(v, lo, n).last() == digit(v, lo));
        lemma_value_of_digits(v, lo + 1, m);
        lemma_pow2_pos(m);
        lemma_pow2_unfold(n);
        lemma_pow2_unfold(lo + 1);
        lemma_div_denominator(v as int, pow2(lo) as int, 2);
        assert(v / pow2(lo + 1) == a / 2) by {
            assert(pow2(lo) * 2 == pow2(lo + 1));
        }
        lemma_mod_breakdown(a as int, 2, pow2(m) as int);
        assert(a % 2 == 0 || a % 2 == 1);
    }
}

/// The `width` low digits of `v` spell `v mod 2^width`.
pub proof fn lemma_value_of_bits_from(v: nat, width: nat)
    ensures
        value_of(bits_from(v, width)) == v % pow2(width),
{
    lemma_value_of_digits(v, 0, width);
    lemma2_to64();
}

} // verus!
