//! The wire format, and reading a noun back from it.
//!
//! A stream is read from its first bit on. A node starts with a tag: `0` for an
//! atom, `1 0` for a cell, `1 1` for a reference to a node that started at an
//! earlier offset of the same stream. The spec functions of this module say
//! what a stream codes; the decoding functions are proved to compute it.
//!
//! The decoder counts the bits of a node in 32 bits, and so does the bit
//! reader below it when it counts a run of ones. A source therefore holds at
//! most `u32::MAX` bits when it is handed to a function of this module.

use crate::atom::{le_value, minimal_form, Atom};
use crate::bits::{
    bits_value, bytes_bits, lemma_bits_value_bound, lemma_bytes_bits_len,
    lemma_leading_ones_bound, lemma_pow2_le, lemma_shift_is_pow2, leading_ones,
};
use crate::cell::Cell;
use crate::error::DecodeError;
use crate::noun::{Noun, Tree};
use crate::stream::{padded, pending, read_bit, read_bits, read_unary0, BitSource};
use std::collections::HashMap;
use std::rc::Rc;
use vstd::arithmetic::power2::pow2;
use vstd::prelude::*;

verus! {

/// A length and the number of bits that its code took.
pub struct LenCode {
    pub len: nat,
    pub used: nat,
}

/// The length code at the front of `bits`: `k` ones and a zero, then the `k`
/// low bits of the length, whose leading one is left out. It takes `2k + 1`
/// bits, and `k` is at most 62.
pub open spec fn len_code(bits: Seq<bool>) -> Result<LenCode, DecodeError> {
    let k = leading_ones(bits);
    if k >= bits.len() {
        Err(DecodeError::UnexpectedEnd)
    } else if k >= 63 {
        Err(DecodeError::LengthTooLarge)
    } else if bits.len() < 2 * k + 1 {
        Err(DecodeError::UnexpectedEnd)
    } else {
        Ok(
            LenCode {
                len: pow2(k) + bits_value(bits.subrange(k as int + 1, 2 * k as int + 1)),
                used: 2 * k + 1,
            },
        )
    }
}

/// Decodes the length code at the front of the source: the length, and the
/// number of bits that its code took.
pub fn decode_len(src: &mut BitSource) -> (decoded: Result<(u64, u32), DecodeError>)
    requires
        pending(*old(src)).len() <= u32::MAX,
    ensures
        match len_code(pending(*old(src))) {
            Ok(code) => decoded == Ok::<(u64, u32), DecodeError>((code.len as u64, code.used as u32))
                && 1 <= code.len < pow2(63) && pending(*final(src)) == pending(*old(src)).skip(
                code.used as int,
            ),
            Err(e) => decoded == Err::<(u64, u32), DecodeError>(e),
        },
{
    let ghost bits = pending(*src);
    proof {
        lemma_leading_ones_bound(bits);
    }
    let k = match read_unary0(src) {
        Some(k) => k,
        None => {
            return Err(DecodeError::UnexpectedEnd);
        },
    };
    if k >= 63 {
        return Err(DecodeError::LengthTooLarge);
    }
    let low = match read_bits(src, k) {
        Some(low) => low,
        None => {
            return Err(DecodeError::UnexpectedEnd);
        },
    };
    proof {
        let rest = bits.skip(k as int + 1);
        assert(rest.take(k as int) == bits.subrange(k + 1, 2 * k + 1));
        lemma_bits_value_bound(rest.take(k as int));
        assert(rest.skip(k as int) == bits.skip(2 * k + 1));
        lemma_shift_is_pow2(k);
        let top = 1u64 << k;
        assert(low < top && k < 63 ==> (top | low) == top + low && top + low < 0x8000_0000_0000_0000)
            by (bit_vector)
            requires
                top == 1u64 << k,
        ;
        vstd::arithmetic::power2::lemma2_to64_rest();
    }
    Ok(((1u64 << k) | low, 2 * k + 1))
}

/// The bytes that `bits` pack: eight bits to a byte, the first bit of each
/// group being the least significant, and a last group of fewer than eight
/// filled up with zero bits.
pub open spec fn bits_bytes(bits: Seq<bool>) -> Seq<u8>
    decreases bits.len(),
{
    if bits.len() == 0 {
        Seq::empty()
    } else if bits.len() <= 8 {
        seq![bits_value(bits) as u8]
    } else {
        seq![bits_value(bits.take(8)) as u8] + bits_bytes(bits.skip(8))
    }
}

/// The bytes of an atom and the number of bits that its code took.
pub struct AtomCode {
    pub bytes: Seq<u8>,
    pub used: nat,
}

/// The atom whose code stands at the front of `bits`, behind its tag: a length
/// code for the number of payload bits, then the payload.
pub open spec fn atom_code(bits: Seq<bool>) -> Result<AtomCode, DecodeError> {
    match len_code(bits) {
        Err(e) => Err(e),
        Ok(code) => if bits.len() < code.used + code.len {
            Err(DecodeError::UnexpectedEnd)
        } else {
            Ok(
                AtomCode {
                    bytes: minimal_form(
                        bits_bytes(bits.subrange(code.used as int, (code.used + code.len) as int)),
                    ),
                    used: code.used + code.len,
                },
            )
        },
    }
}

/// Decodes the atom whose code stands at the front of the source, behind its
/// tag: the atom, and the number of bits that its code took.
pub fn decode_atom(src: &mut BitSource) -> (decoded: Result<(Atom, u32), DecodeError>)
    requires
        pending(*old(src)).len() <= u32::MAX,
    ensures
        match atom_code(pending(*old(src))) {
            Ok(code) => decoded matches Ok((atom, used)) && atom@ == code.bytes && used
                == code.used && pending(*final(src)) == pending(*old(src)).skip(code.used as int),
            Err(e) => decoded == Err::<(Atom, u32), DecodeError>(e),
        },
{
    let ghost bits = pending(*src);
    let (len, len_bits) = match decode_len(src) {
        Ok(code) => code,
        Err(e) => {
            return Err(e);
        },
    };
    let ghost body = pending(*src);
    let ghost code = len_code(bits)->Ok_0;
    proof {
        vstd::arithmetic::power2::lemma2_to64_rest();
    }
    let mut bit_len: u64 = len;
    let mut bits_read: u32 = len_bits;
    let mut val: Vec<u8> = Vec::new();
    while bit_len > 8
        invariant
            1 <= bit_len <= len,
            bits == pending(*old(src)),
            len_code(bits) == Ok::<LenCode, DecodeError>(code),
            code.len == len,
            code.used == len_bits,
            body == bits.skip(len_bits as int),
            len_bits <= bits.len() <= u32::MAX,
            len - bit_len <= body.len(),
            bits_read == len_bits + (len - bit_len),
            pending(*src) == body.skip(len - bit_len),
            body.len() >= len ==> val@ + bits_bytes(body.subrange(len - bit_len, len as int))
                == bits_bytes(body.take(len as int)),
        decreases bit_len,
    {
        let ghost done = len - bit_len;
        let byte = match read_bits(src, 8) {
            Some(byte) => byte,
            None => {
                return Err(DecodeError::UnexpectedEnd);
            },
        };
        proof {
            let rest = body.skip(done);
            lemma_bits_value_bound(rest.take(8));
            vstd::arithmetic::power2::lemma2_to64();
            assert(rest.skip(8) == body.skip(done + 8));
            if body.len() >= len {
                let group = body.subrange(done, len as int);
                assert(group.take(8) == rest.take(8));
                assert(group.skip(8) == body.subrange(done + 8, len as int));
                let low = seq![bits_value(group.take(8)) as u8];
                assert(val@.push(byte as u8) + bits_bytes(group.skip(8)) == val@ + (low
                    + bits_bytes(group.skip(8))));
            }
        }
        bits_read += 8;
        val.push(byte as u8);
        bit_len -= 8;
    }
    let ghost done = len - bit_len;
    let byte = match read_bits(src, bit_len as u32) {
        Some(byte) => byte,
        None => {
            return Err(DecodeError::UnexpectedEnd);
        },
    };
    proof {
        let rest = body.skip(done);
        let group = body.subrange(done, len as int);
        assert(group == rest.take(bit_len as int));
        lemma_bits_value_bound(group);
        lemma_pow2_le(bit_len as nat, 8);
        vstd::arithmetic::power2::lemma2_to64();
        assert(rest.skip(bit_len as int) == bits.skip(len_bits + len));
        assert(val@.push(byte as u8) == val@ + seq![byte as u8]);
        assert(body.take(len as int) == bits.subrange(len_bits as int, len_bits + len));
    }
    bits_read += bit_len as u32;
    val.push(byte as u8);
    Ok((Atom::from(val), bits_read))
}

/// A decoded node: its tree, the number of bits that its code took, and the
/// table of decoded nodes after it.
pub struct Decoded {
    pub tree: Tree,
    pub used: nat,
    pub memo: Map<nat, Tree>,
}

/// The node that a reference at the front of `bits`, behind its tag, points to:
/// the reference is coded like an atom, whose value is the offset of the tag of
/// a node in `memo`.
pub open spec fn backref_code(bits: Seq<bool>, memo: Map<nat, Tree>) -> Result<
    Decoded,
    DecodeError,
> {
    match atom_code(bits) {
        Err(e) => Err(e),
        Ok(code) => if code.bytes.len() > 8 {
            Err(DecodeError::BackrefTooWide)
        } else if !memo.contains_key(le_value(code.bytes)) {
            Err(DecodeError::DanglingBackref)
        } else {
            Ok(Decoded { tree: memo[le_value(code.bytes)], used: code.used, memo })
        },
    }
}

/// The cell whose head and tail are coded at the front of `bits`, behind the
/// cell's tag, the head's tag standing at offset `pos` of the stream. (A node
/// takes at least one bit and no more than there are; the definition says so
/// for the sake of its own termination.)
pub open spec fn cell_code(bits: Seq<bool>, pos: nat, memo: Map<nat, Tree>) -> Result<
    Decoded,
    DecodeError,
>
    decreases bits.len(), 1nat,
{
    match node_code(bits, pos, memo) {
        Err(e) => Err(e),
        Ok(head) => if head.used == 0 || head.used > bits.len() {
            Err(DecodeError::UnexpectedEnd)
        } else {
            match node_code(bits.skip(head.used as int), pos + head.used, head.memo) {
                Err(e) => Err(e),
                Ok(tail) => Ok(
                    Decoded {
                        tree: Tree::Cell(Box::new(head.tree), Box::new(tail.tree)),
                        used: head.used + tail.used,
                        memo: tail.memo,
                    },
                ),
            }
        },
    }
}

/// The node coded at the front of `bits`, its tag standing at offset `pos` of
/// the stream, given the nodes decoded so far. Every decoded node is entered
/// in the table at the offset of its tag; for a reference, that is the node it
/// points to.
pub open spec fn node_code(bits: Seq<bool>, pos: nat, memo: Map<nat, Tree>) -> Result<
    Decoded,
    DecodeError,
>
    decreases bits.len(), 0nat,
{
    if bits.len() == 0 {
        Err(DecodeError::UnexpectedEnd)
    } else if !bits[0] {
        match atom_code(bits.skip(1)) {
            Err(e) => Err(e),
            Ok(code) => Ok(
                Decoded {
                    tree: Tree::Atom(code.bytes),
                    used: 1 + code.used,
                    memo: memo.insert(pos, Tree::Atom(code.bytes)),
                },
            ),
        }
    } else if bits.len() == 1 {
        Err(DecodeError::UnexpectedEnd)
    } else if bits[1] {
        match backref_code(bits.skip(2), memo) {
            Err(e) => Err(e),
            Ok(found) => Ok(
                Decoded {
                    tree: found.tree,
                    used: 2 + found.used,
                    memo: memo.insert(pos, found.tree),
                },
            ),
        }
    } else {
        match cell_code(bits.skip(2), pos + 2, memo) {
            Err(e) => Err(e),
            Ok(cell) => Ok(
                Decoded {
                    tree: cell.tree,
                    used: 2 + cell.used,
                    memo: cell.memo.insert(pos, cell.tree),
                },
            ),
        }
    }
}

/// The table that decoding the head and the tail of a cell leaves, whether it
/// goes through or not: the nodes decoded before, and every node, however
/// deep, that was decoded whole.
pub open spec fn cell_table(bits: Seq<bool>, pos: nat, memo: Map<nat, Tree>) -> Map<nat, Tree>
    decreases bits.len(), 1nat,
{
    match node_code(bits, pos, memo) {
        Err(_) => node_table(bits, pos, memo),
        Ok(head) => if head.used == 0 || head.used > bits.len() {
            head.memo
        } else {
            node_table(bits.skip(head.used as int), pos + head.used, head.memo)
        },
    }
}

/// The table that decoding a node leaves, whether it goes through or not. A
/// node that is decoded whole leaves its table. One that is not leaves the
/// table as it was, unless it is a cell: that leaves what its head and tail
/// left.
pub open spec fn node_table(bits: Seq<bool>, pos: nat, memo: Map<nat, Tree>) -> Map<nat, Tree>
    decreases bits.len(), 0nat,
{
    match node_code(bits, pos, memo) {
        Ok(node) => node.memo,
        Err(_) => if bits.len() >= 2 && bits[0] && !bits[1] {
            cell_table(bits.skip(2), pos + 2, memo)
        } else {
            memo
        },
    }
}

/// The noun that a whole stream codes: the node at its front. Bits behind that
/// node are not looked at.
pub open spec fn noun_code(bits: Seq<bool>) -> Result<Tree, DecodeError> {
    match node_code(bits, 0, Map::empty()) {
        Err(e) => Err(e),
        Ok(node) => Ok(node.tree),
    }
}

/// Whether `bits` are one code of `tree` and, behind it, nothing but the zero
/// bits, fewer than eight, that fill up its last byte.
pub open spec fn packed_code(bits: Seq<bool>, tree: Tree) -> bool {
    node_code(bits, 0, Map::empty()) matches Ok(node) && node.tree == tree && node.used
        <= bits.len() && bits == padded(bits.take(node.used as int))
}

/// The trees of the nodes in a decoder's table, by offset.
pub open spec fn memo_of(cache: Map<u64, Rc<Noun>>) -> Map<nat, Tree> {
    Map::new(
        |pos: nat| pos <= u64::MAX && cache.contains_key(pos as u64),
        |pos: nat| cache[pos as u64]@,
    )
}

/// Entering a node in the table enters its tree.
proof fn lemma_memo_insert(cache: Map<u64, Rc<Noun>>, pos: u64, noun: Rc<Noun>)
    ensures
        memo_of(cache.insert(pos, noun)) == memo_of(cache).insert(pos as nat, noun@),
{
    assert(memo_of(cache.insert(pos, noun)) =~= memo_of(cache).insert(pos as nat, noun@));
}

/// A length code takes at least one bit, and no more than there are.
pub proof fn lemma_atom_code_used(bits: Seq<bool>)
    ensures
        atom_code(bits) matches Ok(code) ==> 2 <= code.used <= bits.len(),
{
    vstd::arithmetic::power2::lemma_pow2_pos(leading_ones(bits));
}

/// A node takes at least one bit, and no more than there are.
pub proof fn lemma_node_code_used(bits: Seq<bool>, pos: nat, memo: Map<nat, Tree>)
    ensures
        node_code(bits, pos, memo) matches Ok(node) ==> 1 <= node.used <= bits.len(),
    decreases bits.len(),
{
    if bits.len() >= 1 && !bits[0] {
        lemma_atom_code_used(bits.skip(1));
    } else if bits.len() >= 2 && bits[1] {
        lemma_atom_code_used(bits.skip(2));
    } else if bits.len() >= 2 {
        let rest = bits.skip(2);
        lemma_node_code_used(rest, pos + 2, memo);
        if let Ok(head) = node_code(rest, pos + 2, memo) {
            lemma_node_code_used(rest.skip(head.used as int), pos + 2 + head.used, head.memo);
        }
    }
}

/// A reference dangles exactly when the table holds no node at its offset:
/// where the reference's code is complete and not too wide, decoding it fails
/// with `DanglingBackref` if the table lacks the offset, and else gives the
/// node that the table holds there.
pub proof fn lemma_dangling_backref(bits: Seq<bool>, memo: Map<nat, Tree>)
    requires
        atom_code(bits) is Ok,
        atom_code(bits)->Ok_0.bytes.len() <= 8,
    ensures
        !memo.contains_key(le_value(atom_code(bits)->Ok_0.bytes)) <==> backref_code(bits, memo)
            == Err::<Decoded, DecodeError>(DecodeError::DanglingBackref),
        memo.contains_key(le_value(atom_code(bits)->Ok_0.bytes)) <==> backref_code(bits, memo)
            == Ok::<Decoded, DecodeError>(
            Decoded {
                tree: memo[le_value(atom_code(bits)->Ok_0.bytes)],
                used: atom_code(bits)->Ok_0.used,
                memo,
            },
        ),
{
}

/// Enters a node in the table at the offset of its tag.
fn register(cache: &mut HashMap<u64, Rc<Noun>>, pos: u64, noun: &Rc<Noun>)
    ensures
        memo_of(final(cache)@) == memo_of(old(cache)@).insert(pos as nat, noun@),
{
    broadcast use vstd::std_specs::hash::group_hash_axioms;

    proof {
        lemma_memo_insert(cache@, pos, *noun);
    }
    cache.insert(pos, noun.clone());
}

/// The node that the table holds at an offset, shared.
fn lookup(cache: &HashMap<u64, Rc<Noun>>, pos: u64) -> (found: Option<Rc<Noun>>)
    ensures
        memo_of(cache@).contains_key(pos as nat) ==> (found matches Some(noun) && noun@
            == memo_of(cache@)[pos as nat]),
        !memo_of(cache@).contains_key(pos as nat) ==> found is None,
{
    broadcast use vstd::std_specs::hash::group_hash_axioms;

    match cache.get(&pos) {
        Some(noun) => Some(noun.clone()),
        None => None,
    }
}

/// Decodes the reference whose code stands at the front of the source, behind
/// its tag: the node it points to, shared, and the number of bits that the
/// code took.
pub fn decode_backref(src: &mut BitSource, cache: &HashMap<u64, Rc<Noun>>) -> (decoded: Result<
    (Rc<Noun>, u32),
    DecodeError,
>)
    requires
        pending(*old(src)).len() <= u32::MAX,
    ensures
        match backref_code(pending(*old(src)), memo_of(cache@)) {
            Ok(found) => decoded matches Ok((noun, used)) && noun@ == found.tree && used
                == found.used && pending(*final(src)) == pending(*old(src)).skip(found.used as int),
            Err(e) => decoded == Err::<(Rc<Noun>, u32), DecodeError>(e),
        },
{
    let (atom, bits_read) = match decode_atom(src) {
        Ok(code) => code,
        Err(e) => {
            return Err(e);
        },
    };
    let idx = match atom.as_u64() {
        Ok(idx) => idx,
        Err(_) => {
            return Err(DecodeError::BackrefTooWide);
        },
    };
    match lookup(cache, idx) {
        Some(noun) => Ok((noun, bits_read)),
        None => Err(DecodeError::DanglingBackref),
    }
}

/// Decodes the cell whose head and tail are coded at the front of the source,
/// behind the cell's tag: the cell, and the number of bits that the two codes
/// took. `pos` is the offset of the head's tag. Where it fails, the nodes that
/// were decoded whole before it failed stay in the table.
pub fn decode_cell(src: &mut BitSource, cache: &mut HashMap<u64, Rc<Noun>>, pos: u64) -> (decoded:
    Result<(Rc<Noun>, u32), DecodeError>)
    requires
        pending(*old(src)).len() <= u32::MAX,
        pos + pending(*old(src)).len() <= u64::MAX,
    ensures
        match cell_code(pending(*old(src)), pos as nat, memo_of(old(cache)@)) {
            Ok(cell) => decoded matches Ok((noun, used)) && noun@ == cell.tree && used == cell.used
                && pending(*final(src)) == pending(*old(src)).skip(cell.used as int) && memo_of(
                final(cache)@,
            ) == cell.memo,
            Err(e) => decoded == Err::<(Rc<Noun>, u32), DecodeError>(e),
        },
        memo_of(final(cache)@) == cell_table(pending(*old(src)), pos as nat, memo_of(old(cache)@)),
    decreases pending(*old(src)).len(), 1nat,
{
    let ghost bits = pending(*src);
    let ghost memo = memo_of(cache@);
    proof {
        lemma_node_code_used(bits, pos as nat, memo);
    }
    let (head, head_bits) = match decode(src, cache, pos) {
        Ok(node) => node,
        Err(e) => {
            return Err(e);
        },
    };
    let ghost head_memo = memo_of(cache@);
    proof {
        lemma_node_code_used(bits.skip(head_bits as int), (pos + head_bits) as nat, head_memo);
    }
    let (tail, tail_bits) = match decode(src, cache, pos + head_bits as u64) {
        Ok(node) => node,
        Err(e) => {
            return Err(e);
        },
    };
    proof {
        assert(bits.skip(head_bits as int).skip(tail_bits as int) == bits.skip(
            head_bits + tail_bits,
        ));
    }
    let cell = Rc::new(Cell::new(head, tail).into_noun());
    Ok((cell, head_bits + tail_bits))
}

/// Decodes the node whose code stands at the front of the source: the node,
/// and the number of bits that its code took. `pos` is the offset of the
/// node's tag in the stream. The node is entered in the table at `pos`. Where
/// it fails, the table is as it was, but for the nodes below a cell that were
/// decoded whole before it failed.
#[verifier::rlimit(40)]
pub fn decode(src: &mut BitSource, cache: &mut HashMap<u64, Rc<Noun>>, pos: u64) -> (decoded:
    Result<(Rc<Noun>, u32), DecodeError>)
    requires
        pending(*old(src)).len() <= u32::MAX,
        pos + pending(*old(src)).len() <= u64::MAX,
    ensures
        match node_code(pending(*old(src)), pos as nat, memo_of(old(cache)@)) {
            Ok(node) => decoded matches Ok((noun, used)) && noun@ == node.tree && used == node.used
                && pending(*final(src)) == pending(*old(src)).skip(node.used as int) && memo_of(
                final(cache)@,
            ) == node.memo,
            Err(e) => decoded == Err::<(Rc<Noun>, u32), DecodeError>(e),
        },
        memo_of(final(cache)@) == node_table(pending(*old(src)), pos as nat, memo_of(old(cache)@)),
    decreases pending(*old(src)).len(), 0nat,
{
    let ghost bits = pending(*src);
    let ghost memo = memo_of(cache@);
    proof {
        lemma_node_code_used(bits, pos as nat, memo);
    }
    let first = match read_bit(src) {
        Some(bit) => bit,
        None => {
            return Err(DecodeError::UnexpectedEnd);
        },
    };
    if !first {
        let (atom, bits_read) = match decode_atom(src) {
            Ok(code) => code,
            Err(e) => {
                return Err(e);
            },
        };
        let noun = Rc::new(atom.into_noun());
        proof {
            assert(bits.skip(1).skip(bits_read as int) == bits.skip(1 + bits_read));
        }
        register(cache, pos, &noun);
        return Ok((noun, 1 + bits_read));
    }
    let second = match read_bit(src) {
        Some(bit) => bit,
        None => {
            return Err(DecodeError::UnexpectedEnd);
        },
    };
    proof {
        assert(bits.skip(1).skip(1) == bits.skip(2));
    }
    let (noun, bits_read) = if second {
        match decode_backref(src, cache) {
            Ok(found) => found,
            Err(e) => {
                return Err(e);
            },
        }
    } else {
        match decode_cell(src, cache, pos + 2) {
            Ok(cell) => cell,
            Err(e) => {
                return Err(e);
            },
        }
    };
    proof {
        assert(bits.skip(2).skip(bits_read as int) == bits.skip(2 + bits_read));
    }
    register(cache, pos, &noun);
    Ok((noun, 2 + bits_read))
}

/// Deserialize a bit stream into a noun.
pub trait Cue: Sized + View<V = Tree> {
    /// Decodes the noun at the front of a source. Bits behind it are no
    /// error. The bits are counted in 32 bits, so the source holds no more
    /// than can be counted.
    fn cue(src: BitSource) -> (noun: Result<Self, DecodeError>)
        requires
            pending(src).len() <= u32::MAX,
        ensures
            match noun_code(pending(src)) {
                Ok(tree) => noun matches Ok(n) && n@ == tree,
                Err(e) => noun == Err::<Self, DecodeError>(e),
            },
    ;
}

impl Cue for Noun {
    fn cue(src: BitSource) -> (noun: Result<Noun, DecodeError>) {
        let mut src = src;
        let noun = {
            let mut cache: HashMap<u64, Rc<Noun>> = HashMap::new();
            proof {
                assert(memo_of(cache@) =~= Map::empty());
            }
            match decode(&mut src, &mut cache, 0) {
                Ok((noun, _)) => noun,
                Err(e) => {
                    return Err(e);
                },
            }
        };
        // The table is gone: the top node has one owner left and can be moved out.
        match Rc::try_unwrap(noun) {
            Ok(noun) => Ok(noun),
            Err(shared) => Ok((*shared).clone()),
        }
    }
}

impl Noun {
    /// Decodes the noun at the front of a byte string, each byte read from its
    /// least significant bit up. Bytes behind it are no error. The bits are
    /// counted in 32 bits, so the string holds no more than can be counted.
    pub fn cue_bytes(bytes: &[u8]) -> (noun: Result<Noun, DecodeError>)
        requires
            8 * bytes@.len() <= u32::MAX,
        ensures
            match noun_code(bytes_bits(bytes@)) {
                Ok(tree) => noun matches Ok(n) && n@ == tree,
                Err(e) => noun == Err::<Noun, DecodeError>(e),
            },
    {
        proof {
            lemma_bytes_bits_len(bytes@);
        }
        Noun::cue(BitSource::new(bytes))
    }
}

} // verus!
