//! Bit sequences and the numbers they spell, least significant bit first.

use vstd::arithmetic::power2::{lemma_pow2_unfold, pow2};
use vstd::prelude::*;

verus! {

/// The number spelled by `bits`, the first bit being the least significant.
pub open spec fn bits_value(bits: Seq<bool>) -> nat
    decreases bits.len(),
{
    if bits.len() == 0 {
        0
    } else {
        (if bits[0] { 1nat } else { 0nat }) + 2 * bits_value(bits.skip(1))
    }
}

/// The `n` low bits of `v`, least significant first.
pub open spec fn value_bits(v: nat, n: nat) -> Seq<bool>
    decreases n,
{
    if n == 0 {
        Seq::empty()
    } else {
        seq![v % 2 == 1] + value_bits(v / 2, (n - 1) as nat)
    }
}

/// The bits of a byte string: eight per byte, each byte least significant bit first.
pub open spec fn bytes_bits(bytes: Seq<u8>) -> Seq<bool>
    decreases bytes.len(),
{
    if bytes.len() == 0 {
        Seq::empty()
    } else {
        value_bits(bytes[0] as nat, 8) + bytes_bits(bytes.skip(1))
    }
}

/// `n` bits `true`.
pub open spec fn ones(n: nat) -> Seq<bool> {
    Seq::new(n, |i: int| true)
}

/// The number of `true` bits at the front of `bits`.
pub open spec fn leading_ones(bits: Seq<bool>) -> nat
    decreases bits.len(),
{
    if bits.len() == 0 || !bits[0] {
        0
    } else {
        1 + leading_ones(bits.skip(1))
    }
}

/// `n` low bits are `n` bits.
pub proof fn lemma_value_bits_len(v: nat, n: nat)
    ensures
        value_bits(v, n).len() == n,
    decreases n,
{
    if n > 0 {
        lemma_value_bits_len(v / 2, (n - 1) as nat);
    }
}

/// A byte string has eight bits to the byte.
pub proof fn lemma_bytes_bits_len(bytes: Seq<u8>)
    ensures
        bytes_bits(bytes).len() == 8 * bytes.len(),
    decreases bytes.len(),
{
    if bytes.len() > 0 {
        lemma_value_bits_len(bytes[0] as nat, 8);
        lemma_bytes_bits_len(bytes.skip(1));
    }
}

/// The bits of a byte string with one more byte are the bits of the string,
/// then the eight bits of that byte.
pub proof fn lemma_bytes_bits_push(bytes: Seq<u8>, byte: u8)
    ensures
        bytes_bits(bytes.push(byte)) == bytes_bits(bytes) + value_bits(byte as nat, 8),
    decreases bytes.len(),
{
    let longer = bytes.push(byte);
    if bytes.len() == 0 {
        assert(longer.skip(1).len() == 0);
        assert(longer[0] == byte);
        assert(bytes_bits(longer.skip(1)).len() == 0);
        assert(bytes_bits(bytes).len() == 0);
        assert(bytes_bits(longer) =~= value_bits(byte as nat, 8));
        assert(bytes_bits(bytes) + value_bits(byte as nat, 8) =~= value_bits(byte as nat, 8));
    } else {
        assert(longer.skip(1) == bytes.skip(1).push(byte));
        lemma_bytes_bits_push(bytes.skip(1), byte);
        assert(bytes_bits(longer) =~= bytes_bits(bytes) + value_bits(byte as nat, 8));
    }
}

/// The first `m` of the `n` low bits of a number are its `m` low bits.
pub proof fn lemma_value_bits_take(v: nat, n: nat, m: nat)
    requires
        m <= n,
    ensures
        value_bits(v, n).take(m as int) == value_bits(v, m),
    decreases m,
{
    lemma_value_bits_len(v, n);
    if m == 0 {
        assert(value_bits(v, n).take(0) =~= value_bits(v, 0));
    } else {
        lemma_value_bits_take(v / 2, (n - 1) as nat, (m - 1) as nat);
        lemma_value_bits_len(v / 2, (n - 1) as nat);
        let rest = value_bits(v / 2, (n - 1) as nat);
        assert(value_bits(v, n).take(m as int) =~= seq![v % 2 == 1] + rest.take(m - 1));
    }
}

/// A run of leading `true` bits is no longer than the sequence.
pub proof fn lemma_leading_ones_bound(bits: Seq<bool>)
    ensures
        leading_ones(bits) <= bits.len(),
        leading_ones(bits) < bits.len() ==> !bits[leading_ones(bits) as int],
        forall|i: int| 0 <= i < leading_ones(bits) ==> bits[i],
    decreases bits.len(),
{
    if bits.len() != 0 && bits[0] {
        let rest = bits.skip(1);
        lemma_leading_ones_bound(rest);
        assert forall|i: int| 0 <= i < leading_ones(bits) implies bits[i] by {
            if i > 0 {
                assert(rest[i - 1]);
            }
        }
    }
}

/// `n` bits spell a number below two to the `n`.
pub proof fn lemma_bits_value_bound(bits: Seq<bool>)
    ensures
        bits_value(bits) < pow2(bits.len()),
    decreases bits.len(),
{
    if bits.len() == 0 {
        lemma_pow2_unfold(1);
        assert(pow2(0) == 1) by {
            vstd::arithmetic::power2::lemma2_to64();
        }
    } else {
        lemma_bits_value_bound(bits.skip(1));
        lemma_pow2_unfold(bits.len());
    }
}

/// The number of bits needed to write `v`: zero for zero, else the index of the
/// highest set bit plus one.
pub open spec fn bit_length(v: nat) -> nat
    decreases v,
{
    if v == 0 {
        0
    } else {
        1 + bit_length(v / 2)
    }
}

/// Powers of two grow with the exponent.
pub proof fn lemma_pow2_le(a: nat, b: nat)
    requires
        a <= b,
    ensures
        pow2(a) <= pow2(b),
{
    if a < b {
        vstd::arithmetic::power2::lemma_pow2_strictly_increases(a, b);
    }
}

/// Shifting one left by `k` gives two to the `k`.
pub proof fn lemma_shift_is_pow2(k: u32)
    requires
        k < 64,
    ensures
        (1u64 << k) == pow2(k as nat),
{
    vstd::arithmetic::power2::lemma_pow2_strictly_increases(k as nat, 64);
    vstd::arithmetic::power2::lemma2_to64();
    vstd::bits::lemma_u64_shl_is_mul(1, k as u64);
    assert(1u64 << k == 1u64 << (k as u64)) by (bit_vector);
}

/// A number that is not zero lies between the two powers of two that its
/// number of bits names.
pub proof fn lemma_bit_length_bounds(v: nat)
    requires
        v > 0,
    ensures
        bit_length(v) >= 1,
        pow2((bit_length(v) - 1) as nat) <= v < pow2(bit_length(v)),
    decreases v,
{
    vstd::arithmetic::power2::lemma2_to64();
    if v > 1 {
        lemma_bit_length_bounds(v / 2);
        lemma_pow2_unfold(bit_length(v));
        lemma_pow2_unfold(bit_length(v / 2));
    } else {
        assert(bit_length(1) == 1 + bit_length(0));
    }
}

/// A number below two to the `n` has at most `n` bits.
pub proof fn lemma_bit_length_le(v: nat, n: nat)
    requires
        v < pow2(n),
    ensures
        bit_length(v) <= n,
    decreases n,
{
    vstd::arithmetic::power2::lemma2_to64();
    if v > 0 {
        lemma_pow2_unfold(n);
        lemma_bit_length_le(v / 2, (n - 1) as nat);
    }
}

/// The `n` low bits of a number below two to the `n` spell it.
pub proof fn lemma_value_bits_value(v: nat, n: nat)
    requires
        v < pow2(n),
    ensures
        bits_value(value_bits(v, n)) == v,
        value_bits(v, n).len() == n,
    decreases n,
{
    vstd::arithmetic::power2::lemma2_to64();
    lemma_value_bits_len(v, n);
    if n > 0 {
        lemma_pow2_unfold(n);
        lemma_value_bits_value(v / 2, (n - 1) as nat);
        let bits = value_bits(v, n);
        assert(bits.skip(1) == value_bits(v / 2, (n - 1) as nat));
    }
}

/// The number of bits of `v`.
pub fn bit_len_u64(v: u64) -> (n: u32)
    ensures
        n == bit_length(v as nat),
        n <= 64,
{
    let mut n: u32 = 0;
    let mut top: u64 = v;
    proof {
        vstd::arithmetic::power2::lemma2_to64();
        lemma_bit_length_le(v as nat, 64);
    }
    while top > 0
        invariant
            bit_length(v as nat) == n + bit_length(top as nat),
            bit_length(v as nat) <= 64,
        decreases top,
    {
        top = top / 2;
        n += 1;
    }
    n
}

} // verus!
