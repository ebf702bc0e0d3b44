//! Bits of bytes, in both orders, and the number of bits that a bound takes.

use vstd::arithmetic::div_mod::lemma_div_denominator;
use vstd::arithmetic::power2::*;
use vstd::prelude::*;

use crate::target::BYTE_BITS;

verus! {

/// The smallest number of bits `k` with `n <= 2^k`.
pub open spec fn ceil_log2(n: nat) -> nat
    decreases n,
{
    if n <= 1 {
        0
    } else {
        1 + ceil_log2((n + 1) / 2)
    }
}

/// `ceil_log2(n)` is the smallest exponent whose power of two reaches `n`.
pub proof fn ceil_log2_is_least(n: nat)
    ensures
        n <= pow2(ceil_log2(n)),
        forall|k: nat| n <= #[trigger] pow2(k) ==> ceil_log2(n) <= k,
    decreases n,
{
    lemma2_to64();
    if n > 1 {
        let half = (n + 1) / 2;
        let e = ceil_log2(half);
        ceil_log2_is_least(half);
        lemma_pow2_unfold(1 + e);
        assert forall|k: nat| n <= #[trigger] pow2(k) implies ceil_log2(n) <= k by {
            if k > 0 {
                lemma_pow2_unfold(k);
                assert(half <= pow2((k - 1) as nat));
            }
        }
    }
}

/// The number of bits that `n` values take: the base-two logarithm, rounded up.
pub fn bits_for(n: usize) -> (k: usize)
    ensures
        k == ceil_log2(n as nat),
        n <= pow2(k as nat),
        k > 0 ==> pow2((k - 1) as nat) < n,
{
    let mut rest: usize = n;
    let mut k: usize = 0;
    while rest > 1
        invariant
            k + ceil_log2(rest as nat) == ceil_log2(n as nat),
            k + rest <= n,
        decreases rest,
    {
        rest = rest / 2 + rest % 2;
        k = k + 1;
    }
    proof {
        ceil_log2_is_least(n as nat);
    }
    k
}

/// The number with the given bits, least significant first.
pub open spec fn le_value(bits: Seq<nat>) -> nat
    decreases bits.len(),
{
    if bits.len() == 0 {
        0
    } else {
        bits[0] + 2 * le_value(bits.skip(1))
    }
}

/// The bit of weight `2^k` of `v`.
pub open spec fn bit(v: nat, k: nat) -> nat {
    (v / pow2(k)) % 2
}

/// The bits of a sequence of bytes, least significant bit of each byte first.
pub open spec fn bits_le(bytes: Seq<nat>) -> Seq<nat> {
    Seq::new(
        bytes.len() * BYTE_BITS as nat,
        |i: int| bit(bytes[i / BYTE_BITS as int], (i % BYTE_BITS as int) as nat),
    )
}

/// The bits of a sequence of bytes, most significant bit of each byte first.
pub open spec fn bits_be(bytes: Seq<nat>) -> Seq<nat> {
    Seq::new(
        bytes.len() * BYTE_BITS as nat,
        |i: int|
            bit(bytes[i / BYTE_BITS as int], (BYTE_BITS - 1 - i % BYTE_BITS as int) as nat),
    )
}

/// The bytes with the given bits, most significant bit of each byte first.
pub open spec fn bytes_be(bits: Seq<nat>) -> Seq<nat> {
    Seq::new(
        bits.len() / BYTE_BITS as nat,
        |j: int| le_value(bits.subrange(j * BYTE_BITS, (j + 1) * BYTE_BITS).reverse()),
    )
}

/// Every element is a byte.
pub open spec fn are_bytes(values: Seq<nat>) -> bool {
    forall|i: int| 0 <= i < values.len() ==> #[trigger] values[i] < pow2(BYTE_BITS as nat)
}

/// Bits are determined by the number that they make up.
pub proof fn le_value_bits(bits: Seq<nat>)
    requires
        forall|k: int| 0 <= k < bits.len() ==> #[trigger] bits[k] <= 1,
    ensures
        le_value(bits) < pow2(bits.len()),
        forall|k: int| 0 <= k < bits.len() ==> #[trigger] bits[k] == bit(le_value(bits), k as nat),
    decreases bits.len(),
{
    lemma2_to64();
    if bits.len() > 0 {
        let rest = bits.skip(1);
        le_value_bits(rest);
        lemma_pow2_unfold(bits.len());
        let v = le_value(bits);
        assert(v / 2 == le_value(rest) && v % 2 == bits[0]);
        assert forall|k: int| 0 <= k < bits.len() implies #[trigger] bits[k] == bit(
            v,
            k as nat,
        ) by {
            if k > 0 {
                assert(rest[k - 1] == bit(le_value(rest), (k - 1) as nat));
                lemma_pow2_unfold(k as nat);
                lemma_pow2_pos((k - 1) as nat);
                lemma_div_denominator(v as int, 2, pow2((k - 1) as nat) as int);
                assert(bits[k] == rest[k - 1]);
                assert(v / pow2(k as nat) == (v / 2) / pow2((k - 1) as nat));
            } else {
                assert(v / pow2(0) == v);
            }
        }
    }
}

/// The bits of a number make it up again.
pub proof fn le_value_of_bits(v: nat, n: nat)
    requires
        v < pow2(n),
    ensures
        le_value(Seq::new(n, |k: int| bit(v, k as nat))) == v,
    decreases n,
{
    lemma2_to64();
    let bits = Seq::new(n, |k: int| bit(v, k as nat));
    if n > 0 {
        lemma_pow2_unfold(n);
        le_value_of_bits(v / 2, (n - 1) as nat);
        let rest = Seq::new((n - 1) as nat, |k: int| bit(v / 2, k as nat));
        assert forall|k: int| 0 <= k < n - 1 implies #[trigger] bits.skip(1)[k] == rest[k] by {
            lemma_pow2_unfold((k + 1) as nat);
            lemma_pow2_pos(k as nat);
            lemma_div_denominator(v as int, 2, pow2(k as nat) as int);
        }
        assert(bits.skip(1) =~= rest);
    }
}

/// Bytes survive the way to bits, most significant first, and back.
pub proof fn bytes_bits_round_trip(bytes: Seq<nat>)
    requires
        are_bytes(bytes),
    ensures
        bytes_be(bits_be(bytes)) == bytes,
{
    let bits = bits_be(bytes);
    assert forall|j: int| 0 <= j < bytes.len() implies #[trigger] bytes_be(bits)[j] == bytes[j] by {
        let part = bits.subrange(j * BYTE_BITS, (j + 1) * BYTE_BITS).reverse();
        assert(part =~= Seq::new(BYTE_BITS as nat, |k: int| bit(bytes[j], k as nat)));
        le_value_of_bits(bytes[j], BYTE_BITS as nat);
    }
    assert(bytes_be(bits) =~= bytes);
}

/// Bits, most significant first, survive the way to bytes and back.
pub proof fn bits_bytes_round_trip(bits: Seq<nat>)
    requires
        bits.len() % BYTE_BITS as nat == 0,
        forall|i: int| 0 <= i < bits.len() ==> #[trigger] bits[i] <= 1,
    ensures
        are_bytes(bytes_be(bits)),
        bits_be(bytes_be(bits)) == bits,
{
    let bytes = bytes_be(bits);
    assert forall|j: int| 0 <= j < bytes.len() implies #[trigger] bytes[j] < pow2(
        BYTE_BITS as nat,
    ) by {
        let part = bits.subrange(j * BYTE_BITS, (j + 1) * BYTE_BITS).reverse();
        le_value_bits(part);
    }
    assert forall|i: int| 0 <= i < bits.len() implies #[trigger] bits_be(bytes)[i] == bits[i] by {
        let j = i / BYTE_BITS as int;
        let k = i % BYTE_BITS as int;
        let part = bits.subrange(j * BYTE_BITS, (j + 1) * BYTE_BITS).reverse();
        le_value_bits(part);
        assert(part[BYTE_BITS - 1 - k] == bits[i]);
    }
    assert(bits_be(bytes) =~= bits);
}

} // verus!
