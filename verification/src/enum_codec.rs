//! Closed sets of symbolic values, packed as discriminants of minimal width.
//!
//! A set of `N` variants takes the smallest number of bits `B` with
//! `2^B >= N`, whether its discriminants are given or follow from the
//! position of each variant; `N` must be a power of two, and every
//! discriminant must be below `2^B`.

use vstd::prelude::*;
use vstd::arithmetic::power2::{
    lemma2_to64, lemma_pow2_strictly_increases, lemma_pow2_unfold, pow2,
};
use crate::bits::{bits_of, field_value, is_clear, written};
use crate::codec::FieldCodec;

verus! {

/// `bits` is the packed width of a set of `count` values: the smallest
/// number of bits `B` with `2^B >= count`.
pub open spec fn is_packed_width(count: nat, bits: nat) -> bool {
    &&& count <= pow2(bits)
    &&& bits > 0 ==> pow2((bits - 1) as nat) < count
}

/// The packed width of a set of `count` values.
pub open spec fn packed_width_of(count: nat) -> nat {
    choose|bits: nat| is_packed_width(count, bits)
}

/// `n` is `2^k` for some `k`.
pub open spec fn is_power_of_two(n: nat) -> bool {
    exists|k: nat| pow2(k) == n
}

/// `variant` is the first variant, in declaration order, whose discriminant
/// is `value`.
pub open spec fn is_variant_of(discriminants: Seq<u128>, value: nat, variant: int) -> bool {
    &&& 0 <= variant < discriminants.len()
    &&& discriminants[variant] == value
    &&& forall|j: int| 0 <= j < variant ==> discriminants[j] != value
}

/// Variant `a` comes before variant `b` when the variants are ordered by
/// discriminant, variants with the same discriminant in declaration order.
pub open spec fn comes_before(discriminants: Seq<u128>, a: int, b: int) -> bool {
    discriminants[a] < discriminants[b] || (discriminants[a] == discriminants[b] && a < b)
}

/// Variant `v` is listed in `order`.
pub open spec fn occurs(order: Seq<usize>, v: int) -> bool {
    exists|k: int| 0 <= k < order.len() && #[trigger] order[k] == v
}

/// `order` lists every one of the first `n` variants once, ordered by
/// discriminant, variants with the same discriminant in declaration order.
pub open spec fn is_discriminant_order(discriminants: Seq<u128>, order: Seq<usize>, n: int) -> bool {
    &&& order.len() == n
    &&& forall|k: int| 0 <= k < n ==> (#[trigger] order[k]) < n
    &&& forall|a: int, b: int|
        0 <= a < b < n ==> comes_before(discriminants, #[trigger] order[a] as int, #[trigger] order[b] as int)
    &&& forall|v: int| 0 <= v < n ==> #[trigger] occurs(order, v)
}

/// Some variant has the discriminant `value`.
pub open spec fn is_known(discriminants: Seq<u128>, value: nat) -> bool {
    exists|j: int| 0 <= j < discriminants.len() && discriminants[j] == value
}

/// Why a set of variants cannot be packed.
#[derive(Clone, Copy, Debug, PartialEq, Eq, Structural)]
pub enum EnumError {
    /// The number of variants, `count`, is not a power of two.
    NotPowerOfTwo { count: usize },
    /// The discriminant of variant `variant` does not fit the packed width.
    DiscriminantOutOfRange { variant: usize },
}

/// `2^a <= 2^b` exactly when `a <= b`.
proof fn lemma_pow2_order(a: nat, b: nat)
    ensures
        a <= b <==> pow2(a) <= pow2(b),
{
    if a < b {
        lemma_pow2_strictly_increases(a, b);
    } else if b < a {
        lemma_pow2_strictly_increases(b, a);
    }
}

/// The packed width of a count is unique, and the count is a power of two
/// exactly when it reaches `2^bits`.
pub proof fn lemma_packed_width_unique(count: nat, bits: nat, other: nat)
    requires
        is_packed_width(count, bits),
    ensures
        is_packed_width(count, other) ==> other == bits,
        is_power_of_two(count) <==> count == pow2(bits),
{
    if is_packed_width(count, other) {
        if other < bits {
            lemma_pow2_order(other, (bits - 1) as nat);
        } else if bits < other {
            lemma_pow2_order(bits, (other - 1) as nat);
        }
    }
    if is_power_of_two(count) {
        let k = choose|k: nat| pow2(k) == count;
        lemma_pow2_order(k, bits);
        if k < bits {
            lemma_pow2_order(k, (bits - 1) as nat);
        }
    }
}

/// The packed width of a set of `count` values, and `2^width`.
pub fn width_and_reach(count: usize) -> (r: (usize, u128))
    ensures
        is_packed_width(count as nat, r.0 as nat),
        r.0 == packed_width_of(count as nat),
        r.0 <= 64,
        r.1 == pow2(r.0 as nat),
{
    let mut bits: usize = 0;
    let mut reach: u128 = 1;
    proof {
        lemma2_to64();
    }
    while reach < count as u128
        invariant
            reach == pow2(bits as nat),
            reach >= 1,
            bits <= 64,
            bits > 0 ==> pow2((bits - 1) as nat) < count,
        decreases 64 - bits,
    {
        proof {
            lemma2_to64();
            lemma_pow2_order(64, bits as nat);
            lemma_pow2_unfold((bits + 1) as nat);
        }
        reach = reach * 2;
        bits = bits + 1;
    }
    proof {
        lemma_packed_width_unique(
            count as nat,
            bits as nat,
            packed_width_of(count as nat),
        );
    }
    (bits, reach)
}

/// The packed width of a set of `count` values: the smallest number of bits
/// `B` with `2^B >= count`.
pub fn packed_width(count: usize) -> (bits: usize)
    ensures
        is_packed_width(count as nat, bits as nat),
        bits == packed_width_of(count as nat),
        bits <= 64,
{
    width_and_reach(count).0
}

/// A closed set of variants, named by their position in declaration order,
/// each with its discriminant.
pub struct EnumCodec {
    discriminants: Vec<u128>,
    bits: usize,
}

impl View for EnumCodec {
    type V = Seq<u128>;

    /// The discriminant of each variant, in declaration order.
    closed spec fn view(&self) -> Seq<u128> {
        self.discriminants@
    }
}

impl EnumCodec {
    /// The packed width of the set.
    pub closed spec fn width(&self) -> nat {
        self.bits as nat
    }

    /// The number of variants is a power of two, the width is the packed
    /// width of that number, and every discriminant fits the width.
    pub open spec fn wf(&self) -> bool {
        &&& is_power_of_two(self@.len())
        &&& is_packed_width(self@.len(), self.width())
        &&& self.width() <= 64
        &&& forall|j: int| 0 <= j < self@.len() ==> (#[trigger] self@[j]) < pow2(self.width())
    }

    /// Packs a set of variants with the given discriminants, in declaration
    /// order. A count that is not a power of two is refused first; then the
    /// first variant whose discriminant does not fit the packed width, that
    /// is, one that is not below the count: a count `2^B` has the packed
    /// width `B`.
    pub fn new(discriminants: Vec<u128>) -> (r: Result<EnumCodec, EnumError>)
        ensures
            match r {
                Ok(codec) => {
                    &&& codec@ == discriminants@
                    &&& codec.wf()
                },
                Err(EnumError::NotPowerOfTwo { count }) => {
                    &&& !is_power_of_two(discriminants@.len())
                    &&& count == discriminants@.len()
                },
                Err(EnumError::DiscriminantOutOfRange { variant }) => {
                    &&& is_power_of_two(discriminants@.len())
                    &&& variant < discriminants@.len()
                    &&& discriminants@[variant as int] >= discriminants@.len()
                    &&& forall|j: int| 0 <= j < variant ==> discriminants@[j] < discriminants@.len()
                },
            },
    {
        let count: usize = discriminants.len();
        let (bits, reach) = width_and_reach(count);
        proof {
            lemma_packed_width_unique(count as nat, bits as nat, bits as nat);
        }
        if reach != count as u128 {
            return Err(EnumError::NotPowerOfTwo { count });
        }
        let mut i: usize = 0;
        while i < count
            invariant
                i <= count,
                count == discriminants@.len(),
                reach == count,
                reach == pow2(bits as nat),
                bits <= 64,
                is_power_of_two(count as nat),
                is_packed_width(count as nat, bits as nat),
                forall|j: int| 0 <= j < i ==> discriminants@[j] < reach,
            decreases count - i,
        {
            if discriminants[i] >= reach {
                return Err(EnumError::DiscriminantOutOfRange { variant: i });
            }
            i = i + 1;
        }
        Ok(EnumCodec { discriminants, bits })
    }

    /// Packs a set of `count` variants whose discriminants are their
    /// positions in declaration order.
    pub fn implicit(count: usize) -> (r: Result<EnumCodec, EnumError>)
        ensures
            match r {
                Ok(codec) => {
                    &&& is_power_of_two(count as nat)
                    &&& codec@ == Seq::new(count as nat, |j: int| j as u128)
                    &&& codec.wf()
                },
                Err(e) => {
                    &&& !is_power_of_two(count as nat)
                    &&& e == (EnumError::NotPowerOfTwo { count })
                },
            },
    {
        let mut discriminants: Vec<u128> = Vec::new();
        let mut i: usize = 0;
        while i < count
            invariant
                i <= count,
                discriminants@ == Seq::new(i as nat, |j: int| j as u128),
            decreases count - i,
        {
            discriminants.push(i as u128);
            proof {
                assert(discriminants@ =~= Seq::new((i + 1) as nat, |j: int| j as u128));
            }
            i = i + 1;
        }
        match EnumCodec::new(discriminants) {
            Ok(codec) => Ok(codec),
            Err(EnumError::NotPowerOfTwo { count: _ }) => Err(EnumError::NotPowerOfTwo { count }),
            Err(EnumError::DiscriminantOutOfRange { variant }) => {
                proof {
                    assert(discriminants@[variant as int] == variant as u128);
                }
                Err(EnumError::NotPowerOfTwo { count })
            },
        }
    }

    /// The number of variants.
    pub fn variant_count(&self) -> (count: usize)
        ensures
            count == self@.len(),
    {
        self.discriminants.len()
    }

    /// The packed width of the set, in bits.
    pub fn bits(&self) -> (bits: usize)
        ensures
            bits == self.width(),
    {
        self.bits
    }

    /// The discriminant of a variant.
    pub fn raw_value(&self, variant: usize) -> (raw: u128)
        requires
            variant < self@.len(),
        ensures
            raw == self@[variant as int],
    {
        self.discriminants[variant]
    }

    /// The variants ordered by discriminant; variants with the same
    /// discriminant keep their declaration order.
    pub fn variants_by_discriminant(&self) -> (order: Vec<usize>)
        ensures
            is_discriminant_order(self@, order@, self@.len() as int),
    {
        let mut order: Vec<usize> = Vec::new();
        let mut i: usize = 0;
        while i < self.discriminants.len()
            invariant
                i <= self@.len(),
                is_discriminant_order(self@, order@, i as int),
            decreases self@.len() - i,
        {
            let key: u128 = self.discriminants[i];
            let mut pos: usize = 0;
            while pos < order.len() && self.discriminants[order[pos]] <= key
                invariant
                    i < self@.len(),
                    key == self@[i as int],
                    pos <= order@.len(),
                    is_discriminant_order(self@, order@, i as int),
                    forall|k: int| 0 <= k < pos ==> self@[(#[trigger] order@[k]) as int] <= key,
                decreases order@.len() - pos,
            {
                pos = pos + 1;
            }
            let ghost before = order@;
            order.insert(pos, i);
            proof {
                let after = order@;
                assert(after.len() == i + 1);
                assert forall|k: int| 0 <= k < i + 1 implies (#[trigger] after[k]) < i + 1 by {
                    if k < pos {
                        assert(after[k] == before[k]);
                    } else if k > pos {
                        assert(after[k] == before[k - 1]);
                    }
                }
                assert forall|a: int, b: int| 0 <= a < b < i + 1 implies comes_before(
                    self@,
                    #[trigger] after[a] as int,
                    #[trigger] after[b] as int,
                ) by {
                    if a < pos {
                        assert(after[a] == before[a]);
                    } else if a > pos {
                        assert(after[a] == before[a - 1]);
                    }
                    if b < pos {
                        assert(after[b] == before[b]);
                    } else if b > pos {
                        assert(after[b] == before[b - 1]);
                        if pos < before.len() {
                            assert(self@[before[pos as int] as int] > key);
                            if b - 1 > pos {
                                assert(comes_before(
                                    self@,
                                    before[pos as int] as int,
                                    before[b - 1] as int,
                                ));
                            }
                        }
                    }
                }
                assert forall|v: int| 0 <= v < i + 1 implies #[trigger] occurs(after, v) by {
                    if v == i {
                        assert(after[pos as int] == v);
                    } else {
                        assert(occurs(before, v));
                        let k = choose|k: int| 0 <= k < before.len() && #[trigger] before[k] == v;
                        if k < pos {
                            assert(after[k] == v);
                        } else {
                            assert(after[k + 1] == before[k]);
                        }
                    }
                }
            }
            i = i + 1;
        }
        order
    }

    /// The first variant with the discriminant `value`, if there is one.
    pub fn try_from_raw(&self, value: u128) -> (found: Option<usize>)
        ensures
            match found {
                Some(variant) => is_variant_of(self@, value as nat, variant as int),
                None => !is_known(self@, value as nat),
            },
    {
        let mut i: usize = 0;
        while i < self.discriminants.len()
            invariant
                i <= self@.len(),
                forall|j: int| 0 <= j < i ==> self@[j] != value,
            decreases self@.len() - i,
        {
            if self.discriminants[i] == value {
                return Some(i);
            }
            i = i + 1;
        }
        None
    }

    /// The variant with the discriminant `value`, which must be the
    /// discriminant of some variant.
    pub fn from_raw(&self, value: u128) -> (variant: usize)
        requires
            is_known(self@, value as nat),
        ensures
            is_variant_of(self@, value as nat, variant as int),
    {
        match self.try_from_raw(value) {
            Some(variant) => variant,
            None => {
                proof {
                    assert(false);
                }
                0
            },
        }
    }

    /// Reads the variant held by the field that starts at bit `start`. The
    /// number in the field must be the discriminant of some variant.
    pub fn get_data(&self, storage: &[u8], start: usize) -> (variant: usize)
        requires
            self.wf(),
            start + self.width() <= usize::MAX,
            start + self.width() <= 8 * storage@.len(),
            is_known(self@, field_value(storage@, start as int, self.width() as int)),
        ensures
            is_variant_of(
                self@,
                field_value(storage@, start as int, self.width() as int),
                variant as int,
            ),
    {
        let raw: u128 = FieldCodec::get(storage, start, self.bits);
        self.from_raw(raw)
    }

    /// Writes the discriminant of `variant` into the field that starts at
    /// bit `start`. A field that was all zero holds the discriminant
    /// afterwards.
    pub fn set_data(&self, storage: &mut [u8], start: usize, variant: usize)
        requires
            self.wf(),
            variant < self@.len(),
            start + self.width() <= usize::MAX,
            start + self.width() <= 8 * old(storage)@.len(),
        ensures
            final(storage)@.len() == old(storage)@.len(),
            bits_of(final(storage)@) == written(
                bits_of(old(storage)@),
                start as int,
                self.width(),
                self@[variant as int] as nat,
            ),
            is_clear(bits_of(old(storage)@), start as int, self.width() as int) ==> field_value(
                final(storage)@,
                start as int,
                self.width() as int,
            ) == self@[variant as int],
    {
        let raw: u128 = self.raw_value(variant);
        FieldCodec::set(storage, start, self.bits, raw);
        proof {
            vstd::arithmetic::div_mod::lemma_small_mod(raw as nat, pow2(self.width()));
        }
    }
}

/// Enum round trip: a variant whose discriminant no earlier variant shares
/// is what `from_raw` finds for its `raw_value`.
pub proof fn lemma_from_raw_of_raw_value(discriminants: Seq<u128>, variant: int, found: int)
    requires
        0 <= variant < discriminants.len(),
        forall|j: int| 0 <= j < variant ==> discriminants[j] != discriminants[variant],
        is_variant_of(discriminants, discriminants[variant] as nat, found),
    ensures
        found == variant,
        is_known(discriminants, discriminants[variant] as nat),
{
}

} // verus!
