//! Reading and writing one field: an unsigned number of up to 128 bits at an
//! arbitrary bit offset of a byte buffer, most significant bit first.

use vstd::prelude::*;
use vstd::arithmetic::power2::{
    lemma2_to64, lemma_pow2_adds, lemma_pow2_pos, lemma_pow2_strictly_increases,
    lemma_pow2_unfold, pow2,
};
use vstd::bits::{lemma_u128_shr_is_div, lemma_u32_shr_is_div};
use crate::bits::{
    bits_from, bits_of, byte_bit, digit, digits, field_bits, field_value, is_clear,
    lemma_value_of_bits_from, lemma_value_of_bound, lemma_value_of_concat, lemma_value_of_digits,
    written,
};

verus! {

/// The widest field, in bits.
pub const MAX_WIDTH: usize = 128;

/// `2^128` is one more than the largest `u128`.
proof fn lemma_pow2_128()
    ensures
        pow2(128) == u128::MAX + 1,
{
    lemma2_to64();
    lemma_pow2_adds(64, 64);
    assert(0x1_0000_0000_0000_0000int * 0x1_0000_0000_0000_0000int
        == 0x1_0000_0000_0000_0000_0000_0000_0000_0000int) by (nonlinear_arith);
}

/// `2^a <= 2^b` for `a <= b`.
proof fn lemma_pow2_monotone(a: nat, b: nat)
    requires
        a <= b,
    ensures
        pow2(a) <= pow2(b),
{
    if a < b {
        lemma_pow2_strictly_increases(a, b);
    }
}

/// On `u128`, a left shift that loses no bit multiplies by a power of two.
proof fn lemma_shl_is_mul(x: u128, s: u128)
    requires
        s < 128,
        x * pow2(s as nat) <= u128::MAX,
    ensures
        (x << s) == x * pow2(s as nat),
    decreases s,
{
    if s == 0 {
        assert(x << 0 == x) by (bit_vector);
        lemma2_to64();
    } else {
        let t: u128 = (s - 1) as u128;
        lemma_pow2_unfold(s as nat);
        lemma_pow2_pos(t as nat);
        let p = pow2(t as nat);
        assert(x * (2 * p) == (x * p) * 2) by (nonlinear_arith);
        lemma_shl_is_mul(x, t);
        let y: u128 = x << t;
        assert(x << s == (y << 1)) by (bit_vector)
            requires
                1 <= s < 128,
                t == s - 1,
                y == x << t,
        ;
        assert(y << 1 == y * 2) by (bit_vector)
            requires
                y <= 0x7fff_ffff_ffff_ffff_ffff_ffff_ffff_ffffu128,
        ;
    }
}

/// Appending a chunk of `t` bits to an accumulator that has room for it.
proof fn lemma_append_chunk(acc: u128, t: u128, chunk: u128, n: nat)
    requires
        1 <= t <= 8,
        n + t <= 128,
        acc < pow2(n),
        chunk < pow2(t as nat),
    ensures
        ((acc << t) | chunk) == acc * pow2(t as nat) + chunk,
{
    let p = pow2(t as nat);
    lemma_pow2_pos(t as nat);
    lemma_pow2_adds(n, t as nat);
    lemma_pow2_monotone(n + t as nat, 128);
    lemma_pow2_128();
    assert(acc * p <= u128::MAX) by (nonlinear_arith)
        requires
            acc < pow2(n),
            pow2(n) * p <= u128::MAX + 1,
            p > 0,
    ;
    lemma_shl_is_mul(acc, t);
    lemma_pow2_monotone(t as nat, 8);
    lemma2_to64();
    lemma_shl_is_mul(1, t);
    assert(1 * p == p);
    let shifted: u128 = acc << t;
    let one: u128 = 1u128 << t;
    assert((shifted | chunk) == shifted + chunk) by (bit_vector)
        requires
            1 <= t <= 8,
            shifted == acc << t,
            one == 1u128 << t,
            chunk < one,
    ;
}

/// Masking with the `t` low bits of a byte-sized word is the remainder
/// modulo `2^t`.
proof fn lemma_low_mask(y: u32, n: u32, t: u32)
    requires
        1 <= t <= 8,
        n + t == 8,
        y < 256,
    ensures
        (y & (0xFFu32 >> n)) == (y as nat) % pow2(t as nat),
{
    lemma_pow2_monotone(t as nat, 8);
    lemma2_to64();
    assert(1 * pow2(t as nat) == pow2(t as nat));
    vstd::bits::lemma_u32_shl_is_mul(1, t);
    let one: u32 = 1u32 << t;
    assert((y & (0xFFu32 >> n)) == y % one) by (bit_vector)
        requires
            1 <= t <= 8,
            n + t == 8,
            y < 256,
            one == 1u32 << t,
    ;
}

/// The bits of a field that lies inside one byte are digits of that byte.
proof fn lemma_field_in_byte(bytes: Seq<u8>, cursor: int, take: int)
    requires
        0 <= cursor,
        0 <= take,
        cursor % 8 + take <= 8,
        cursor + take <= 8 * bytes.len(),
    ensures
        field_bits(bytes, cursor, take) == digits(
            bytes[cursor / 8] as nat,
            (8 - cursor % 8 - take) as nat,
            take as nat,
        ),
{
    let byte = bytes[cursor / 8];
    let m = cursor % 8;
    let lo = (8 - m - take) as nat;
    assert forall|k: int| 0 <= k < take implies field_bits(bytes, cursor, take)[k] == digits(
        byte as nat,
        lo,
        take as nat,
    )[k] by {
        assert((cursor + k) / 8 == cursor / 8);
        assert((cursor + k) % 8 == m + k);
        assert(bits_of(bytes)[cursor + k] == byte_bit(byte, m + k));
    }
    assert(field_bits(bytes, cursor, take) =~= digits(byte as nat, lo, take as nat));
}

/// The chunk that `get` cuts out of one byte is the number held by the bits
/// it covers.
proof fn lemma_chunk_value(bytes: Seq<u8>, cursor: int, take: int, sh: u32, n: u32, chunk: u32)
    requires
        0 <= cursor,
        1 <= take,
        cursor % 8 + take <= 8,
        cursor + take <= 8 * bytes.len(),
        sh == 8 - cursor % 8 - take,
        n == 8 - take,
        chunk == ((bytes[cursor / 8] as u32) >> sh) & (0xFFu32 >> n),
    ensures
        chunk as nat == field_value(bytes, cursor, take),
        chunk < pow2(take as nat),
{
    let word: u32 = bytes[cursor / 8] as u32;
    lemma_field_in_byte(bytes, cursor, take);
    lemma_value_of_digits(word as nat, sh as nat, take as nat);
    lemma_u32_shr_is_div(word, sh);
    let y: u32 = word >> sh;
    lemma_pow2_pos(sh as nat);
    assert(y < 256) by {
        vstd::arithmetic::div_mod::lemma_div_is_ordered(word as int, 255, pow2(sh as nat) as int);
        vstd::arithmetic::div_mod::lemma_div_pos_is_pos(word as int, pow2(sh as nat) as int);
        assert(255int / (pow2(sh as nat) as int) <= 255) by (nonlinear_arith)
            requires
                pow2(sh as nat) > 0,
        ;
    }
    lemma_low_mask(y, n, take as u32);
    lemma_value_of_bound(field_bits(bytes, cursor, take));
}

/// A field of at most 128 bits holds a number that a `u128` can hold.
pub proof fn lemma_field_value_fits(bytes: Seq<u8>, start: int, width: int)
    requires
        0 <= width <= MAX_WIDTH,
        0 <= start,
        start + width <= 8 * bytes.len(),
    ensures
        field_value(bytes, start, width) < pow2(width as nat),
        field_value(bytes, start, width) <= u128::MAX,
{
    lemma_value_of_bound(field_bits(bytes, start, width));
    lemma_pow2_monotone(width as nat, 128);
    lemma_pow2_128();
}

/// On `u128`, binary digit `k` is bit `k`.
proof fn lemma_digit_is_bit(x: u128, k: u128)
    requires
        k < 128,
    ensures
        digit(x as nat, k as nat) == ((x >> k) & 1 == 1),
{
    lemma_u128_shr_is_div(x, k);
    let y: u128 = x >> k;
    assert((y & 1) == y % 2) by (bit_vector);
}

/// Outside the chunk, merging leaves each bit of the byte as it was.
proof fn lemma_merge_outside(old: u128, v: u128, rest: u128, n: u128, t: u128, sh: u128, q: u128)
    by (bit_vector)
    requires
        old < 256,
        1 <= t <= 8,
        n + t == 8,
        sh + t <= 8,
        rest < 128,
        q < 8,
        q < sh || q >= sh + t,
    ensures
        (((old | (((v >> rest) & (0xFFu128 >> n)) << sh)) >> q) & 1) == ((old >> q) & 1),
{
}

/// A byte with a chunk merged into it is still a byte.
proof fn lemma_merge_fits(old: u128, v: u128, rest: u128, n: u128, t: u128, sh: u128)
    by (bit_vector)
    requires
        old < 256,
        1 <= t <= 8,
        n + t == 8,
        sh + t <= 8,
        rest < 128,
    ensures
        (old | (((v >> rest) & (0xFFu128 >> n)) << sh)) < 256,
{
}

/// Inside the chunk, merging joins each bit of the byte with the bit of the
/// value that lands on it.
proof fn lemma_merge_inside(
    old: u128,
    v: u128,
    rest: u128,
    n: u128,
    t: u128,
    sh: u128,
    q: u128,
    src: u128,
)
    by (bit_vector)
    requires
        old < 256,
        1 <= t <= 8,
        n + t == 8,
        sh + t <= 8,
        rest + t <= 128,
        sh <= q < sh + t,
        src + sh == rest + q,
    ensures
        (((old | (((v >> rest) & (0xFFu128 >> n)) << sh)) >> q) & 1) == (((old >> q) & 1) | ((v
            >> src) & 1)),
{
}

/// The bits of a byte after a chunk of `value` was merged into it: bits
/// `m .. m + t` are joined with digits `rest + t - 1` down to `rest` of
/// `value`, the others stay.
proof fn lemma_merge_byte(old: u8, value: u128, rest: u128, t: u128, m: int, merged: u128)
    requires
        1 <= t <= 8,
        0 <= m,
        m + t <= 8,
        rest + t <= 128,
        merged == (old as u128) | (((value >> rest) & (0xFFu128 >> ((8 - t) as u128))) << ((8 - m
            - t) as u128)),
    ensures
        merged < 256,
        forall|p: int|
            0 <= p < 8 ==> #[trigger] byte_bit(merged as u8, p) == (byte_bit(old, p) || (m <= p < m
                + t && digit(value as nat, (rest + m + t - 1 - p) as nat))),
{
    let wide: u128 = old as u128;
    let n: u128 = (8 - t) as u128;
    let sh: u128 = (8 - m - t) as u128;
    lemma_merge_fits(wide, value, rest, n, t, sh);
    assert forall|p: int| 0 <= p < 8 implies #[trigger] byte_bit(merged as u8, p) == (byte_bit(
        old,
        p,
    ) || (m <= p < m + t && digit(value as nat, (rest + m + t - 1 - p) as nat))) by {
        let q: u128 = (7 - p) as u128;
        lemma_digit_is_bit(merged, q);
        lemma_digit_is_bit(wide, q);
        if m <= p < m + t {
            let src: u128 = (rest + m + t - 1 - p) as u128;
            lemma_merge_inside(wide, value, rest, n, t, sh, q, src);
            lemma_digit_is_bit(value, src);
            let a: u128 = (wide >> q) & 1;
            let b: u128 = (value >> src) & 1;
            assert(((a | b) == 1 <==> (a == 1 || b == 1))) by (bit_vector)
                requires
                    a == (wide >> q) & 1,
                    b == (value >> src) & 1,
            ;
        } else {
            lemma_merge_outside(wide, value, rest, n, t, sh, q);
        }
    }
}

/// A byte is the number that its eight bits spell.
pub proof fn lemma_byte_is_its_field(bytes: Seq<u8>, k: int)
    requires
        0 <= k < bytes.len(),
    ensures
        field_value(bytes, 8 * k, 8) == bytes[k],
{
    lemma_field_in_byte(bytes, 8 * k, 8);
    lemma_value_of_digits(bytes[k] as nat, 0, 8);
    lemma2_to64();
}

/// The bits of a buffer determine its bytes: two buffers with the same bits
/// are the same buffer.
pub proof fn lemma_bits_determine_bytes(a: Seq<u8>, b: Seq<u8>)
    requires
        bits_of(a) == bits_of(b),
    ensures
        a == b,
{
    assert(bits_of(a).len() == 8 * a.len());
    assert(bits_of(b).len() == 8 * b.len());
    assert forall|k: int| 0 <= k < a.len() implies a[k] == b[k] by {
        lemma_byte_is_its_field(a, k);
        lemma_byte_is_its_field(b, k);
    }
    assert(a =~= b);
}

/// Round trip: after `set` has written `value` into a field that was all
/// zero, `get` on that field reads the `width` low bits of `value`, which is
/// `value` itself when it fits the field; and no bit outside the field has
/// changed.
pub proof fn lemma_get_after_set(
    before: Seq<u8>,
    after: Seq<u8>,
    start: int,
    width: nat,
    value: nat,
)
    requires
        0 <= start,
        start + width <= 8 * before.len(),
        after.len() == before.len(),
        bits_of(after) == written(bits_of(before), start, width, value),
        is_clear(bits_of(before), start, width as int),
    ensures
        field_value(after, start, width as int) == value % pow2(width),
        value < pow2(width) ==> field_value(after, start, width as int) == value,
        forall|i: int|
            0 <= i < 8 * before.len() && !(start <= i < start + width) ==> bits_of(after)[i]
                == bits_of(before)[i],
{
    assert forall|k: int| 0 <= k < width implies field_bits(after, start, width as int)[k]
        == bits_from(value, width)[k] by {
        assert(bits_of(after)[start + k] == (bits_of(before)[start + k] || bits_from(
            value,
            width,
        )[k]));
    }
    assert(field_bits(after, start, width as int) =~= bits_from(value, width));
    lemma_value_of_bits_from(value, width);
    lemma_pow2_pos(width);
    if value < pow2(width) {
        vstd::arithmetic::div_mod::lemma_small_mod(value, pow2(width));
    }
}

/// Writing one field leaves every field that shares no bit with it as it was.
pub proof fn lemma_set_keeps_disjoint_field(
    before: Seq<u8>,
    after: Seq<u8>,
    start: int,
    width: nat,
    value: nat,
    other_start: int,
    other_width: nat,
)
    requires
        0 <= start,
        0 <= other_start,
        other_start + other_width <= 8 * before.len(),
        after.len() == before.len(),
        bits_of(after) == written(bits_of(before), start, width, value),
        start + width <= other_start || other_start + other_width <= start,
    ensures
        field_bits(after, other_start, other_width as int) == field_bits(
            before,
            other_start,
            other_width as int,
        ),
        field_value(after, other_start, other_width as int) == field_value(
            before,
            other_start,
            other_width as int,
        ),
{
    assert forall|k: int| 0 <= k < other_width implies field_bits(
        after,
        other_start,
        other_width as int,
    )[k] == field_bits(before, other_start, other_width as int)[k] by {
        assert(bits_of(after)[other_start + k] == bits_of(before)[other_start + k]);
    }
    assert(field_bits(after, other_start, other_width as int) =~= field_bits(
        before,
        other_start,
        other_width as int,
    ));
}

/// The codec of unsigned fields: reads and writes a number of up to 128 bits
/// at any bit offset of a byte buffer.
pub struct FieldCodec;

impl FieldCodec {
    /// Reads the field of `width` bits that starts at bit `start`, most
    /// significant bit first, walking the buffer byte by byte.
    pub fn get(storage: &[u8], start: usize, width: usize) -> (value: u128)
        requires
            width <= MAX_WIDTH,
            start + width <= usize::MAX,
            start + width <= 8 * storage@.len(),
        ensures
            value as nat == field_value(storage@, start as int, width as int),
            value < pow2(width as nat),
    {
        let mut result: u128 = 0;
        let mut cursor: usize = start;
        let mut remaining: usize = width;
        proof {
            assert(field_bits(storage@, start as int, 0) =~= Seq::<bool>::empty());
        }
        while remaining > 0
            invariant
                width <= MAX_WIDTH,
                start + width <= usize::MAX,
                start + width <= 8 * storage@.len(),
                start <= cursor,
                cursor + remaining == start + width,
                result as nat == field_value(storage@, start as int, cursor - start),
            decreases remaining,
        {
            let index: usize = cursor / 8;
            let offset: usize = cursor % 8;
            let avail: usize = 8 - offset;
            let take: usize = if remaining < avail { remaining } else { avail };
            let word: u32 = storage[index] as u32;
            let sh: u32 = (avail - take) as u32;
            let n: u32 = (8 - take) as u32;
            let chunk: u32 = (word >> sh) & (0xFFu32 >> n);
            let t: u128 = take as u128;
            proof {
                let done = field_bits(storage@, start as int, cursor - start);
                let next = field_bits(storage@, cursor as int, take as int);
                lemma_chunk_value(storage@, cursor as int, take as int, sh, n, chunk);
                lemma_value_of_bound(done);
                lemma_value_of_concat(done, next);
                assert(done + next =~= field_bits(storage@, start as int, cursor + take - start));
                lemma_append_chunk(result, t, chunk as u128, (cursor - start) as nat);
            }
            result = (result << t) | (chunk as u128);
            cursor = cursor + take;
            remaining = remaining - take;
        }
        proof {
            lemma_value_of_bound(field_bits(storage@, start as int, width as int));
        }
        result
    }

    /// Writes the `width` low bits of `value` into the field of `width` bits that
    /// starts at bit `start`, most significant bit first. Each bit of the field
    /// is joined by "or" with the bit that lands on it, so a field that was all
    /// zero holds exactly those bits afterwards; no bit outside the field changes.
    pub fn set(storage: &mut [u8], start: usize, width: usize, value: u128)
        requires
            width <= MAX_WIDTH,
            start + width <= usize::MAX,
            start + width <= 8 * old(storage)@.len(),
        ensures
            final(storage)@.len() == old(storage)@.len(),
            bits_of(final(storage)@) == written(
                bits_of(old(storage)@),
                start as int,
                width as nat,
                value as nat,
            ),
            is_clear(bits_of(old(storage)@), start as int, width as int) ==> field_value(
                final(storage)@,
                start as int,
                width as int,
            ) == value as nat % pow2(width as nat),
    {
        let ghost before = storage@;
        let mut cursor: usize = start;
        let mut remaining: usize = width;
        while remaining > 0
            invariant
                width <= MAX_WIDTH,
                start + width <= usize::MAX,
                start + width <= 8 * before.len(),
                storage@.len() == before.len(),
                start <= cursor,
                cursor + remaining == start + width,
                forall|i: int|
                    0 <= i < 8 * before.len() ==> #[trigger] bits_of(storage@)[i] == (if start <= i
                        < cursor {
                        bits_of(before)[i] || digit(value as nat, (start + width - 1 - i) as nat)
                    } else {
                        bits_of(before)[i]
                    }),
            decreases remaining,
        {
            let index: usize = cursor / 8;
            let offset: usize = cursor % 8;
            let avail: usize = 8 - offset;
            let take: usize = if remaining < avail { remaining } else { avail };
            let rest: usize = remaining - take;
            let chunk: u128 = (value >> (rest as u128)) & (0xFFu128 >> ((8 - take) as u128));
            let current: u8 = storage[index];
            let merged: u128 = (current as u128) | (chunk << ((avail - take) as u128));
            let ghost prev = storage@;
            proof {
                lemma_merge_byte(current, value, rest as u128, take as u128, offset as int, merged);
            }
            storage[index] = merged as u8;
            proof {
                let next = storage@;
                assert forall|i: int| 0 <= i < 8 * before.len() implies #[trigger] bits_of(next)[i] == (
                if start <= i < cursor + take {
                    bits_of(before)[i] || digit(value as nat, (start + width - 1 - i) as nat)
                } else {
                    bits_of(before)[i]
                }) by {
                    assert(bits_of(prev)[i] == byte_bit(prev[i / 8], i % 8));
                    if i / 8 == index {
                        let p = i % 8;
                        assert(byte_bit(merged as u8, p) == (byte_bit(current, p) || (offset <= p
                            < offset + take && digit(
                            value as nat,
                            (rest + offset + take - 1 - p) as nat,
                        ))));
                        assert(i == 8 * index + p);
                        assert(cursor == 8 * index + offset);
                    } else {
                        assert(next[i / 8] == prev[i / 8]);
                    }
                }
            }
            cursor = cursor + take;
            remaining = rest;
        }
        proof {
            assert(bits_of(storage@) =~= written(
                bits_of(before),
                start as int,
                width as nat,
                value as nat,
            ));
            if is_clear(bits_of(before), start as int, width as int) {
                lemma_get_after_set(before, storage@, start as int, width as nat, value as nat);
            }
        }
    }
}

} // verus!
