//! Packing a noun into a bit stream.

use crate::atom::{is_minimal, Atom};
use crate::bits::{
    bit_len_u64, bit_length, bytes_bits, lemma_bit_length_bounds, lemma_bit_length_le,
    lemma_bytes_bits_len, lemma_bytes_bits_push, lemma_shift_is_pow2, lemma_value_bits_len,
    lemma_value_bits_take, lemma_value_bits_value, leading_ones, ones, value_bits,
};
use crate::error::{DecodeError, EncodeError};
use crate::noun::{Noun, Tree};
use crate::serdes::{len_code, LenCode};
use crate::stream::{write_bit, write_bits, write_unary0, written, BitSink};
use vstd::arithmetic::power2::{lemma_pow2_unfold, pow2};
use vstd::prelude::*;

verus! {

/// The length code of `len`, which is at least one: with `k` one less than the
/// number of bits of `len`, `k` ones and a zero, then the `k` low bits of
/// `len`, least significant first.
pub open spec fn len_bits(len: nat) -> Seq<bool> {
    let k = (bit_length(len) - 1) as nat;
    ones(k).push(false) + value_bits((len - pow2(k)) as nat, k)
}

/// `k` ones and a zero, followed by anything, start with exactly `k` ones.
pub proof fn lemma_leading_ones_unary(k: nat, rest: Seq<bool>)
    ensures
        leading_ones(ones(k).push(false) + rest) == k,
    decreases k,
{
    let bits = ones(k).push(false) + rest;
    if k > 0 {
        assert(bits.skip(1) == ones((k - 1) as nat).push(false) + rest);
        lemma_leading_ones_unary((k - 1) as nat, rest);
    }
}

/// Decoding the length code of a length gives that length back, and takes as
/// many bits as the code has, whatever follows the code.
pub proof fn lemma_len_code_round_trip(len: nat, rest: Seq<bool>)
    requires
        1 <= len < pow2(63),
    ensures
        len_code(len_bits(len) + rest) == Ok::<LenCode, DecodeError>(
            LenCode { len, used: len_bits(len).len() },
        ),
        len_bits(len).len() == 2 * (bit_length(len) - 1) + 1,
        bit_length(len) <= 63,
{
    let k = (bit_length(len) - 1) as nat;
    let low = (len - pow2(k)) as nat;
    lemma_bit_length_bounds(len);
    lemma_bit_length_le(len, 63);
    lemma_pow2_unfold(bit_length(len));
    lemma_value_bits_value(low, k);
    let bits = len_bits(len) + rest;
    assert(bits == ones(k).push(false) + (value_bits(low, k) + rest));
    lemma_leading_ones_unary(k, value_bits(low, k) + rest);
    assert(bits.subrange(k as int + 1, 2 * k as int + 1) == value_bits(low, k));
}

/// Writes the length code of `len`, and says how many bits it took.
pub fn encode_len(sink: &mut BitSink, len: u64) -> (done: Result<u32, EncodeError>)
    requires
        1 <= len < 0x8000_0000_0000_0000,
    ensures
        done matches Ok(used) && written(*final(sink)) == written(*old(sink)) + len_bits(
            len as nat,
        ) && used == len_bits(len as nat).len() && used <= 125,
{
    proof {
        vstd::arithmetic::power2::lemma2_to64_rest();
        lemma_bit_length_bounds(len as nat);
        lemma_bit_length_le(len as nat, 63);
    }
    let k = bit_len_u64(len) - 1;
    proof {
        lemma_shift_is_pow2(k);
        lemma_pow2_unfold((k + 1) as nat);
    }
    if !write_unary0(sink, k) {
        return Err(EncodeError::Sink);
    }
    if !write_bits(sink, k, len - (1u64 << k)) {
        return Err(EncodeError::Sink);
    }
    proof {
        let low = value_bits((len - pow2(k as nat)) as nat, k as nat);
        assert(written(*old(sink)) + ones(k as nat).push(false) + low == written(*old(sink)) + (
        ones(k as nat).push(false) + low));
        lemma_value_bits_len((len - pow2(k as nat)) as nat, k as nat);
    }
    Ok(2 * k + 1)
}

/// The number of payload bits of an atom with the minimal bytes `bytes`: one
/// for zero, else the number of bits of its value.
pub open spec fn payload_len(bytes: Seq<u8>) -> nat {
    if bytes.len() == 0 || bytes.last() == 0 {
        1
    } else {
        (8 * (bytes.len() - 1) + bit_length(bytes.last() as nat)) as nat
    }
}

/// The code of an atom behind its tag: the length code of the number of
/// payload bits, then that many bits of its bytes.
pub open spec fn atom_bits(bytes: Seq<u8>) -> Seq<bool> {
    len_bits(payload_len(bytes)) + bytes_bits(bytes).take(payload_len(bytes) as int)
}

/// The code of a tree without references: an atom is `0` and its code, a cell
/// is `1 0`, the code of its head and the code of its tail.
pub open spec fn node_bits(tree: Tree) -> Seq<bool>
    decreases tree,
{
    match tree {
        Tree::Atom(bytes) => seq![false] + atom_bits(bytes),
        Tree::Cell(head, tail) => seq![true, false] + node_bits(*head) + node_bits(*tail),
    }
}

/// Whether every atom of the tree has fewer than 2^63 payload bits, so that a
/// length code can announce them.
pub open spec fn fits(tree: Tree) -> bool
    decreases tree,
{
    match tree {
        Tree::Atom(bytes) => payload_len(bytes) < pow2(63),
        Tree::Cell(head, tail) => fits(*head) && fits(*tail),
    }
}

/// Writes the code of an atom behind its tag, and says how many bits it took.
pub fn encode_atom(sink: &mut BitSink, atom: &Atom) -> (done: Result<u64, EncodeError>)
    ensures
        payload_len(atom@) < pow2(63) ==> (done matches Ok(used) && written(*final(sink))
            == written(*old(sink)) + atom_bits(atom@) && used == atom_bits(atom@).len()),
        payload_len(atom@) >= pow2(63) ==> done == Err::<u64, EncodeError>(
            EncodeError::LengthTooLarge,
        ) && written(*final(sink)) == written(*old(sink)),
        is_minimal(atom@),
{
    let bytes = atom.as_bytes();
    let n = bytes.len();
    let last = bytes[n - 1];
    let last_bits: u32 = if last == 0 {
        1
    } else {
        bit_len_u64(last as u64)
    };
    proof {
        vstd::arithmetic::power2::lemma2_to64();
        vstd::arithmetic::power2::lemma2_to64_rest();
        lemma_bit_length_le(last as nat, 8);
        if last != 0 {
            lemma_bit_length_bounds(last as nat);
        }
    }
    let byte_len: u64 = n as u64;
    if byte_len > 0x1000_0000_0000_0000 {
        return Err(EncodeError::LengthTooLarge);
    }
    let len: u64 = 8 * (byte_len - 1) + last_bits as u64;
    if len >= 0x8000_0000_0000_0000 {
        return Err(EncodeError::LengthTooLarge);
    }
    let len_bits_used = match encode_len(sink, len) {
        Ok(used) => used,
        Err(e) => {
            return Err(e);
        },
    };
    let ghost start = written(*sink);
    let mut i: usize = 0;
    while i < n - 1
        invariant
            i <= n - 1,
            n == bytes@.len(),
            bytes@ == atom@,
            is_minimal(atom@),
            payload_len(atom@) < pow2(63),
            written(*sink) == start + bytes_bits(bytes@.take(i as int)),
        decreases n - i,
    {
        proof {
            vstd::arithmetic::power2::lemma2_to64();
            lemma_bytes_bits_push(bytes@.take(i as int), bytes@[i as int]);
            assert(bytes@.take(i + 1) == bytes@.take(i as int).push(bytes@[i as int]));
        }
        if !write_bits(sink, 8, bytes[i] as u64) {
            return Err(EncodeError::Sink);
        }
        proof {
            assert(start + bytes_bits(bytes@.take(i as int)) + value_bits(bytes@[i as int] as nat, 8)
                == start + (bytes_bits(bytes@.take(i as int)) + value_bits(
                bytes@[i as int] as nat,
                8,
            )));
        }
        i += 1;
    }
    if !write_bits(sink, last_bits, last as u64) {
        return Err(EncodeError::Sink);
    }
    proof {
        let front = bytes@.take(n - 1);
        assert(bytes@ == front.push(last));
        lemma_bytes_bits_push(front, last);
        lemma_bytes_bits_len(front);
        lemma_value_bits_len(last as nat, 8);
        lemma_value_bits_take(last as nat, 8, last_bits as nat);
        let payload = bytes_bits(bytes@).take(len as int);
        assert(payload =~= bytes_bits(front) + value_bits(last as nat, last_bits as nat));
        assert(written(*sink) == written(*old(sink)) + (len_bits(len as nat) + payload));
        lemma_bytes_bits_len(bytes@);
    }
    Ok(len_bits_used as u64 + len)
}

/// Writes the code of a noun, without references: what a noun shares in memory
/// is written once for each place where it stands.
pub fn encode(sink: &mut BitSink, noun: &Noun) -> (done: Result<(), EncodeError>)
    ensures
        fits(noun@) ==> done is Ok && written(*final(sink)) == written(*old(sink)) + node_bits(
            noun@,
        ) && noun@.minimal(),
        !fits(noun@) ==> done == Err::<(), EncodeError>(EncodeError::LengthTooLarge),
    decreases noun@.size(),
{
    match noun {
        Noun::Atom(atom) => {
            if !write_bit(sink, false) {
                return Err(EncodeError::Sink);
            }
            let done = encode_atom(sink, atom);
            proof {
                assert(written(*old(sink)).push(false) + atom_bits(atom@) == written(*old(sink))
                    + (seq![false] + atom_bits(atom@)));
            }
            match done {
                Ok(_) => Ok(()),
                Err(e) => Err(e),
            }
        },
        Noun::Cell(cell) => {
            if !write_bit(sink, true) {
                return Err(EncodeError::Sink);
            }
            if !write_bit(sink, false) {
                return Err(EncodeError::Sink);
            }
            match encode(sink, cell.head_as_noun()) {
                Ok(()) => {},
                Err(e) => {
                    return Err(e);
                },
            }
            match encode(sink, cell.tail_as_noun()) {
                Ok(()) => {},
                Err(e) => {
                    return Err(e);
                },
            }
            proof {
                let head = node_bits(cell.head_tree());
                let tail = node_bits(cell.tail_tree());
                assert(written(*old(sink)).push(true).push(false) + head + tail == written(
                    *old(sink),
                ) + (seq![true, false] + head + tail));
            }
            Ok(())
        },
    }
}

} // verus!
