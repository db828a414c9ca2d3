//! What was packed is what is read back.

use crate::atom::{is_minimal, minimal_form};
use crate::bits::{
    bytes_bits, lemma_bit_length_bounds, lemma_bit_length_le, lemma_bytes_bits_len,
    lemma_value_bits_len, lemma_value_bits_take, lemma_value_bits_value, value_bits,
};
use crate::error::{DecodeError, EncodeError};
use crate::jam::{
    atom_bits, encode, fits, lemma_len_code_round_trip, len_bits, node_bits, payload_len,
};
use crate::noun::{Noun, Tree};
use crate::stream::{padded, written, BitSink};
use crate::serdes::{
    atom_code, bits_bytes, cell_code, lemma_node_code_used, node_code, noun_code, packed_code,
    AtomCode, Decoded,
};
use vstd::arithmetic::power2::pow2;
use vstd::prelude::*;

verus! {

/// The payload bits of an atom pack back into its bytes.
pub proof fn lemma_payload_bytes(bytes: Seq<u8>)
    requires
        is_minimal(bytes),
    ensures
        payload_len(bytes) <= 8 * bytes.len(),
        bits_bytes(bytes_bits(bytes).take(payload_len(bytes) as int)) == bytes,
    decreases bytes.len(),
{
    vstd::arithmetic::power2::lemma2_to64();
    let len = payload_len(bytes);
    let first = bytes[0];
    let rest = bytes.skip(1);
    lemma_bytes_bits_len(bytes);
    lemma_bytes_bits_len(rest);
    lemma_value_bits_len(first as nat, 8);
    lemma_bit_length_le(bytes.last() as nat, 8);
    let payload = bytes_bits(bytes).take(len as int);
    if bytes.len() == 1 {
        if first != 0 {
            lemma_bit_length_bounds(first as nat);
        }
        lemma_value_bits_take(first as nat, 8, len);
        assert(payload =~= value_bits(first as nat, len));
        lemma_value_bits_value(first as nat, len);
        assert(bits_bytes(payload) =~= bytes);
    } else {
        assert(rest.last() == bytes.last());
        lemma_bit_length_bounds(bytes.last() as nat);
        lemma_payload_bytes(rest);
        assert(payload.take(8) =~= value_bits(first as nat, 8));
        lemma_value_bits_value(first as nat, 8);
        assert(payload.skip(8) =~= bytes_bits(rest).take(payload_len(rest) as int));
        assert(bits_bytes(payload) =~= seq![first] + rest);
        assert(seq![first] + rest =~= bytes);
    }
}

/// Decoding the code of an atom gives its bytes back, and takes as many bits
/// as the code has, whatever follows the code.
pub proof fn lemma_atom_code_round_trip(bytes: Seq<u8>, rest: Seq<bool>)
    requires
        is_minimal(bytes),
        payload_len(bytes) < pow2(63),
    ensures
        atom_code(atom_bits(bytes) + rest) == Ok::<AtomCode, DecodeError>(
            AtomCode { bytes, used: atom_bits(bytes).len() },
        ),
{
    let len = payload_len(bytes);
    let payload = bytes_bits(bytes).take(len as int);
    lemma_payload_bytes(bytes);
    lemma_bytes_bits_len(bytes);
    lemma_len_code_round_trip(len, payload + rest);
    let bits = atom_bits(bytes) + rest;
    assert(bits == len_bits(len) + (payload + rest));
    let used = len_bits(len).len();
    assert(bits.subrange(used as int, (used + len) as int) =~= payload);
    if bytes.last() == 0 {
        assert(bytes.drop_last().len() == 0);
        assert(minimal_form(bytes.drop_last()) == seq![0u8]);
        assert(bytes =~= seq![0u8]);
    }
    assert(minimal_form(bytes) == bytes);
}

/// A stream that starts with `0` codes an atom.
proof fn lemma_node_code_atom(bits: Seq<bool>, pos: nat, memo: Map<nat, Tree>, code: AtomCode)
    requires
        bits.len() > 0,
        !bits[0],
        atom_code(bits.skip(1)) == Ok::<AtomCode, DecodeError>(code),
    ensures
        node_code(bits, pos, memo) matches Ok(node) && node.tree == Tree::Atom(code.bytes)
            && node.used == 1 + code.used,
{
}

/// A stream that starts with `1 0` codes a cell: its head, then its tail.
pub proof fn lemma_node_code_cell(
    bits: Seq<bool>,
    pos: nat,
    memo: Map<nat, Tree>,
    head: Decoded,
    tail: Decoded,
)
    requires
        bits.len() >= 2,
        bits[0],
        !bits[1],
        node_code(bits.skip(2), pos + 2, memo) == Ok::<Decoded, DecodeError>(head),
        1 <= head.used <= bits.skip(2).len(),
        node_code(bits.skip(2).skip(head.used as int), pos + 2 + head.used, head.memo) == Ok::<
            Decoded,
            DecodeError,
        >(tail),
    ensures
        node_code(bits, pos, memo) matches Ok(node) && node.tree == Tree::Cell(
            Box::new(head.tree),
            Box::new(tail.tree),
        ) && node.used == 2 + head.used + tail.used && node.memo == tail.memo.insert(
            pos,
            node.tree,
        ),
{
    assert(cell_code(bits.skip(2), pos + 2, memo) is Ok);
}

/// The code of an atom, with its tag, is decoded to the atom.
proof fn lemma_round_trip_atom(bytes: Seq<u8>, rest: Seq<bool>, pos: nat, memo: Map<nat, Tree>)
    requires
        is_minimal(bytes),
        payload_len(bytes) < pow2(63),
    ensures
        node_code(node_bits(Tree::Atom(bytes)) + rest, pos, memo) matches Ok(node) && node.tree
            == Tree::Atom(bytes) && node.used == node_bits(Tree::Atom(bytes)).len(),
{
    let code = atom_bits(bytes);
    let bits = node_bits(Tree::Atom(bytes)) + rest;
    lemma_atom_code_round_trip(bytes, rest);
    assert(node_bits(Tree::Atom(bytes)) == seq![false] + code);
    assert(bits.len() > 0 && !bits[0]);
    assert(bits.skip(1) =~= code + rest);
    lemma_node_code_atom(bits, pos, memo, AtomCode { bytes, used: code.len() });
}

/// The code of a cell is decoded to the cell, once the codes of its head and
/// of its tail are decoded to them.
proof fn lemma_round_trip_cell(
    head: Tree,
    tail: Tree,
    rest: Seq<bool>,
    pos: nat,
    memo: Map<nat, Tree>,
    first: Decoded,
    second: Decoded,
)
    requires
        node_code(node_bits(head) + (node_bits(tail) + rest), pos + 2, memo) == Ok::<
            Decoded,
            DecodeError,
        >(first),
        first.tree == head,
        first.used == node_bits(head).len(),
        first.used >= 1,
        node_code(node_bits(tail) + rest, pos + 2 + first.used, first.memo) == Ok::<
            Decoded,
            DecodeError,
        >(second),
        second.tree == tail,
        second.used == node_bits(tail).len(),
    ensures
        node_code(node_bits(Tree::Cell(Box::new(head), Box::new(tail))) + rest, pos, memo) matches Ok(
            node,
        ) && node.tree == Tree::Cell(Box::new(head), Box::new(tail)) && node.used == node_bits(
            Tree::Cell(Box::new(head), Box::new(tail)),
        ).len(),
{
    let tree = Tree::Cell(Box::new(head), Box::new(tail));
    let head_bits = node_bits(head);
    let tail_bits = node_bits(tail);
    let bits = node_bits(tree) + rest;
    assert(node_bits(tree) == seq![true, false] + head_bits + tail_bits);
    assert(bits.len() >= 2 && bits[0] && !bits[1]);
    assert(bits.skip(2) =~= head_bits + (tail_bits + rest));
    assert(bits.skip(2).skip(first.used as int) =~= tail_bits + rest);
    lemma_node_code_cell(bits, pos, memo, first, second);
}

/// Decoding the code of a tree gives the tree back, and takes as many bits as
/// the code has, whatever follows the code, wherever the code stands and
/// whatever was decoded before it.
#[verifier::rlimit(40)]
pub proof fn lemma_node_code_round_trip(
    tree: Tree,
    rest: Seq<bool>,
    pos: nat,
    memo: Map<nat, Tree>,
)
    requires
        tree.minimal(),
        fits(tree),
    ensures
        node_code(node_bits(tree) + rest, pos, memo) matches Ok(node) && node.tree == tree
            && node.used == node_bits(tree).len(),
    decreases tree,
{
    match tree {
        Tree::Atom(bytes) => {
            lemma_round_trip_atom(bytes, rest, pos, memo);
        },
        Tree::Cell(head, tail) => {
            let inner = node_bits(*head) + (node_bits(*tail) + rest);
            lemma_node_code_round_trip(*head, node_bits(*tail) + rest, pos + 2, memo);
            lemma_node_code_used(inner, pos + 2, memo);
            let first = node_code(inner, pos + 2, memo)->Ok_0;
            lemma_node_code_round_trip(*tail, rest, pos + 2 + first.used, first.memo);
            let second = node_code(node_bits(*tail) + rest, pos + 2 + first.used, first.memo)->Ok_0;
            lemma_round_trip_cell(*head, *tail, rest, pos, memo, first, second);
        },
    }
}

/// Reading back the code of a tree gives the tree, whatever follows the code.
pub proof fn lemma_cue_jam(tree: Tree, rest: Seq<bool>)
    requires
        tree.minimal(),
        fits(tree),
    ensures
        noun_code(node_bits(tree) + rest) == Ok::<Tree, DecodeError>(tree),
{
    lemma_node_code_round_trip(tree, rest, 0, Map::empty());
}

impl Noun {
    /// Packs the noun into bytes without references: what the noun shares in
    /// memory is written once for each place where it stands. Each byte is
    /// filled from its least significant bit up and the last one filled up
    /// with zero bits. Reading the bytes back gives the noun's tree. The one
    /// noun that cannot be packed is one with an atom too long for a length
    /// code.
    pub fn jam_unshared(&self) -> (bytes: Result<Vec<u8>, EncodeError>)
        ensures
            fits(self@) ==> (bytes matches Ok(packed) && bytes_bits(packed@) == padded(
                node_bits(self@),
            ) && packed_code(bytes_bits(packed@), self@) && noun_code(bytes_bits(packed@)) == Ok::<
                Tree,
                DecodeError,
            >(self@)),
            !fits(self@) ==> bytes == Err::<Vec<u8>, EncodeError>(EncodeError::LengthTooLarge),
    {
        let mut sink = BitSink::new();
        match encode(&mut sink, self) {
            Ok(()) => {},
            Err(e) => {
                return Err(e);
            },
        }
        proof {
            let code = node_bits(self@);
            assert(written(sink) =~= code);
            lemma_cue_jam(self@, padded(code).skip(code.len() as int));
            lemma_node_code_round_trip(
                self@,
                padded(code).skip(code.len() as int),
                0,
                Map::empty(),
            );
            assert(padded(code) =~= code + padded(code).skip(code.len() as int));
            assert(padded(code).take(code.len() as int) =~= code);
        }
        match sink.finish() {
            Some(packed) => Ok(packed),
            None => Err(EncodeError::Sink),
        }
    }
}

} // verus!
