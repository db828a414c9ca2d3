//! Packing a noun so that a node which stands in several places, as one
//! allocation, is written once and referred to afterwards.

use crate::atom::{atom_bytes, is_minimal, lemma_uint_round_trip, Atom};
use crate::bits::{bytes_bits, lemma_bit_length_le};
use crate::error::{DecodeError, EncodeError};
use crate::jam::{atom_bits, encode_atom, fits, node_bits, payload_len};
use crate::noun::{same_node, Noun, Tree};
use crate::round_trip::{
    lemma_atom_code_round_trip, lemma_node_code_cell, lemma_node_code_round_trip,
};
use crate::serdes::{
    backref_code, lemma_node_code_used, node_code, noun_code, packed_code, Decoded,
};
use crate::stream::{padded, write_bit, written, BitSink};
use std::collections::HashMap;
use std::mem::swap;
use std::rc::Rc;
use vstd::arithmetic::power2::pow2;
use vstd::prelude::*;

verus! {

/// `Rc::as_ptr`: where a handle's allocation lies. Nothing is claimed of the
/// number: it serves to look a node up, and `same_node` decides.
#[verifier::external_body]
fn address(node: &Rc<Noun>) -> usize {
    Rc::as_ptr(node) as usize
}

/// The nodes written so far that may be referred to, each with the offset of
/// its tag. The nodes are kept, so that no allocation is given up and used
/// anew while it is noted.
pub struct Seen {
    nodes: Vec<(Rc<Noun>, u64)>,
    /// Where an allocation lies, to its place in `nodes`.
    places: HashMap<usize, usize>,
}

impl View for Seen {
    type V = Seq<(Tree, nat)>;

    /// The trees of the nodes and the offsets of their tags.
    closed spec fn view(&self) -> Seq<(Tree, nat)> {
        Seq::new(self.nodes@.len(), |i: int| (self.nodes@[i].0@, self.nodes@[i].1 as nat))
    }
}

impl Seen {
    /// Every place is a place in `nodes`.
    #[verifier::type_invariant]
    spec fn placed(&self) -> bool {
        forall|at: usize| #[trigger]
            self.places@.contains_key(at) ==> self.places@[at] < self.nodes@.len()
    }

    /// No node yet.
    pub fn new() -> (seen: Seen)
        ensures
            seen@.len() == 0,
    {
        Seen { nodes: Vec::new(), places: HashMap::new() }
    }

    /// The offset at which this very allocation was written, if it was.
    fn find(&self, node: &Rc<Noun>) -> (found: Option<u64>)
        ensures
            found matches Some(offset) ==> exists|i: int|
                0 <= i < self@.len() && self@[i] == (node@, offset as nat),
    {
        broadcast use vstd::std_specs::hash::group_hash_axioms;

        proof {
            use_type_invariant(self);
        }
        match self.places.get(&address(node)) {
            Some(place) => {
                let i = *place;
                if same_node(&self.nodes[i].0, node) {
                    assert(self@[i as int] == (node@, self.nodes@[i as int].1 as nat));
                    Some(self.nodes[i].1)
                } else {
                    None
                }
            },
            None => None,
        }
    }

    /// Notes that `node` was written with its tag at `offset`.
    fn note(&mut self, node: Rc<Noun>, offset: u64)
        ensures
            final(self)@ == old(self)@.push((node@, offset as nat)),
    {
        broadcast use vstd::std_specs::hash::group_hash_axioms;

        proof {
            use_type_invariant(&*self);
        }
        // Both fields are taken out, filled and put back, the places first out
        // and last in: no place is ever without its node.
        let mut places: HashMap<usize, usize> = HashMap::new();
        let mut nodes: Vec<(Rc<Noun>, u64)> = Vec::new();
        swap(&mut self.places, &mut places);
        swap(&mut self.nodes, &mut nodes);
        places.insert(address(&node), nodes.len());
        nodes.push((node, offset));
        swap(&mut self.nodes, &mut nodes);
        swap(&mut self.places, &mut places);
        assert(self@ =~= old(self)@.push((node@, offset as nat)));
    }
}

/// Whether a decoder's table holds every noted node at its offset.
pub open spec fn agrees(memo: Map<nat, Tree>, seen: Seq<(Tree, nat)>) -> bool {
    forall|i: int|
        0 <= i < seen.len() ==> memo.contains_key((#[trigger] seen[i]).1) && memo[seen[i].1]
            == seen[i].0
}

/// Whether every noted node stands before offset `end`, and can be coded.
pub open spec fn settled(seen: Seq<(Tree, nat)>, end: nat) -> bool {
    forall|i: int| 0 <= i < seen.len() ==> (#[trigger] seen[i]).1 < end && fits(seen[i].0)
}

/// Whether `after` is `before` with more nodes noted, each of them at an
/// offset from `lo` up and below `hi`.
pub open spec fn extends(
    after: Seq<(Tree, nat)>,
    before: Seq<(Tree, nat)>,
    lo: nat,
    hi: nat,
) -> bool {
    &&& before.len() <= after.len()
    &&& after.take(before.len() as int) == before
    &&& forall|i: int|
        before.len() <= i < after.len() ==> lo <= (#[trigger] after[i]).1 < hi && fits(after[i].0)
}

/// Whether `code`, standing at offset `pos` and followed by `rest`, is decoded
/// to `tree`, whole and no further, by a decoder whose table is `memo`, and
/// leaves a table that holds the nodes of `after`.
pub open spec fn reads_back_at(
    code: Seq<bool>,
    rest: Seq<bool>,
    pos: nat,
    memo: Map<nat, Tree>,
    tree: Tree,
    after: Seq<(Tree, nat)>,
) -> bool {
    node_code(code + rest, pos, memo) matches Ok(node) && node.tree == tree && node.used
        == code.len() && agrees(node.memo, after)
}

/// Whether `code`, standing at offset `pos`, is decoded to `tree` whatever
/// follows it, by every decoder whose table holds the nodes of `before`.
pub open spec fn reads_back(
    code: Seq<bool>,
    pos: nat,
    before: Seq<(Tree, nat)>,
    tree: Tree,
    after: Seq<(Tree, nat)>,
) -> bool {
    forall|memo: Map<nat, Tree>, rest: Seq<bool>|
        agrees(memo, before) ==> #[trigger] reads_back_at(code, rest, pos, memo, tree, after)
}

/// What writing a node does: the stream grows by a code that is decoded to
/// `tree`, and the nodes noted meanwhile stand inside that code, from its
/// offset plus `first` on.
pub open spec fn packs(
    bits_before: Seq<bool>,
    bits_after: Seq<bool>,
    seen_before: Seq<(Tree, nat)>,
    seen_after: Seq<(Tree, nat)>,
    tree: Tree,
    first: nat,
) -> bool {
    let start = bits_before.len();
    let code = bits_after.skip(start as int);
    &&& bits_before.len() < bits_after.len()
    &&& bits_after == bits_before + code
    &&& extends(seen_after, seen_before, start + first, bits_after.len())
    &&& reads_back(code, start, seen_before, tree, seen_after)
}

/// Decoding a node enters it in the table at its offset, and leaves the table
/// below that offset as it was.
pub proof fn lemma_node_code_keeps(bits: Seq<bool>, pos: nat, memo: Map<nat, Tree>)
    ensures
        node_code(bits, pos, memo) matches Ok(node) ==> node.memo.contains_key(pos)
            && node.memo[pos] == node.tree && forall|k: nat|
            k < pos && #[trigger] memo.contains_key(k) ==> node.memo.contains_key(k)
                && node.memo[k] == memo[k],
    decreases bits.len(),
{
    if bits.len() >= 2 && bits[0] && !bits[1] {
        let inner = bits.skip(2);
        lemma_node_code_keeps(inner, pos + 2, memo);
        lemma_node_code_used(inner, pos + 2, memo);
        if let Ok(head) = node_code(inner, pos + 2, memo) {
            lemma_node_code_keeps(inner.skip(head.used as int), pos + 2 + head.used, head.memo);
        }
    }
}

/// More nodes noted inside the stream leave all noted nodes inside it.
proof fn lemma_settled_extends(
    before: Seq<(Tree, nat)>,
    after: Seq<(Tree, nat)>,
    end_before: nat,
    lo: nat,
    end: nat,
)
    requires
        settled(before, end_before),
        extends(after, before, lo, end),
        end_before <= end,
    ensures
        settled(after, end),
{
    assert forall|i: int| 0 <= i < after.len() implies (#[trigger] after[i]).1 < end && fits(
        after[i].0,
    ) by {
        if i < before.len() {
            assert(after[i] == after.take(before.len() as int)[i]);
            assert(before[i].1 < end_before);
        }
    }
}

/// A table that holds the nodes noted before offset `start` still holds them
/// after a node was decoded at `start` or behind it.
proof fn lemma_agrees_kept(
    bits: Seq<bool>,
    pos: nat,
    memo: Map<nat, Tree>,
    seen: Seq<(Tree, nat)>,
)
    requires
        agrees(memo, seen),
        settled(seen, pos),
        node_code(bits, pos, memo) is Ok,
    ensures
        agrees(node_code(bits, pos, memo)->Ok_0.memo, seen),
{
    lemma_node_code_keeps(bits, pos, memo);
    let after = node_code(bits, pos, memo)->Ok_0.memo;
    assert forall|i: int| 0 <= i < seen.len() implies after.contains_key((#[trigger] seen[i]).1)
        && after[seen[i].1] == seen[i].0 by {
        assert(memo.contains_key(seen[i].1));
    }
}

/// Writing the tag and the code of an atom packs the atom.
proof fn lemma_packs_atom(
    bits_before: Seq<bool>,
    bits_after: Seq<bool>,
    seen: Seq<(Tree, nat)>,
    bytes: Seq<u8>,
)
    requires
        bits_after == bits_before.push(false) + atom_bits(bytes),
        is_minimal(bytes),
        payload_len(bytes) < pow2(63),
        settled(seen, bits_before.len()),
    ensures
        packs(bits_before, bits_after, seen, seen, Tree::Atom(bytes), 1),
{
    let start = bits_before.len();
    let tree = Tree::Atom(bytes);
    let code = bits_after.skip(start as int);
    assert(code =~= node_bits(tree));
    assert(bits_after =~= bits_before + code);
    assert(seen.take(seen.len() as int) =~= seen);
    assert forall|memo: Map<nat, Tree>, rest: Seq<bool>| agrees(memo, seen) implies #[trigger] reads_back_at(
        code,
        rest,
        start,
        memo,
        tree,
        seen,
    ) by {
        lemma_node_code_round_trip(tree, rest, start, memo);
        lemma_agrees_kept(code + rest, start, memo, seen);
    }
}

/// Writing the reference tag and the offset of a noted node packs that node.
proof fn lemma_packs_backref(
    bits_before: Seq<bool>,
    bits_after: Seq<bool>,
    seen: Seq<(Tree, nat)>,
    tree: Tree,
    offset: nat,
    at: int,
)
    requires
        bits_after == bits_before.push(true).push(true) + atom_bits(atom_bytes(offset)),
        offset <= u64::MAX,
        0 <= at < seen.len(),
        seen[at] == (tree, offset),
        settled(seen, bits_before.len()),
    ensures
        packs(bits_before, bits_after, seen, seen, tree, 0),
        payload_len(atom_bytes(offset)) < pow2(63),
{
    let start = bits_before.len();
    let index = atom_bytes(offset);
    let code = bits_after.skip(start as int);
    vstd::arithmetic::power2::lemma2_to64();
    vstd::arithmetic::power2::lemma2_to64_rest();
    lemma_uint_round_trip(offset, 8);
    lemma_bit_length_le(index.last() as nat, 8);
    assert(code =~= seq![true, true] + atom_bits(index));
    assert(bits_after =~= bits_before + code);
    assert(seen.take(seen.len() as int) =~= seen);
    assert forall|memo: Map<nat, Tree>, rest: Seq<bool>| agrees(memo, seen) implies #[trigger] reads_back_at(
        code,
        rest,
        start,
        memo,
        tree,
        seen,
    ) by {
        let bits = code + rest;
        lemma_atom_code_round_trip(index, rest);
        assert(bits.skip(2) =~= atom_bits(index) + rest);
        assert(bits[0] && bits[1]);
        assert(memo.contains_key(seen[at].1));
        assert(backref_code(bits.skip(2), memo) == Ok::<Decoded, DecodeError>(
            Decoded { tree, used: atom_bits(index).len(), memo },
        ));
        assert(node_code(bits, start, memo) is Ok);
        lemma_agrees_kept(bits, start, memo, seen);
    }
}

/// A table that holds noted nodes still holds them with a node entered at an
/// offset where none of them stands.
proof fn lemma_agrees_insert(memo: Map<nat, Tree>, seen: Seq<(Tree, nat)>, pos: nat, tree: Tree)
    requires
        agrees(memo, seen),
        forall|i: int| 0 <= i < seen.len() ==> (#[trigger] seen[i]).1 != pos,
    ensures
        agrees(memo.insert(pos, tree), seen),
{
    let last = memo.insert(pos, tree);
    assert forall|i: int| 0 <= i < seen.len() implies last.contains_key((#[trigger] seen[i]).1)
        && last[seen[i].1] == seen[i].0 by {
        assert(memo.contains_key(seen[i].1));
    }
}

/// The code of a cell is decoded to the cell by a decoder that decodes the
/// codes of its head and of its tail to them.
proof fn lemma_cell_reads_back_at(
    head_code: Seq<bool>,
    tail_code: Seq<bool>,
    rest: Seq<bool>,
    start: nat,
    memo: Map<nat, Tree>,
    head: Tree,
    tail: Tree,
    seen_head: Seq<(Tree, nat)>,
    seen_after: Seq<(Tree, nat)>,
)
    requires
        head_code.len() >= 1,
        reads_back_at(head_code, tail_code + rest, start + 2, memo, head, seen_head),
        reads_back_at(
            tail_code,
            rest,
            start + 2 + head_code.len(),
            node_code(head_code + (tail_code + rest), start + 2, memo)->Ok_0.memo,
            tail,
            seen_after,
        ),
        forall|i: int| 0 <= i < seen_after.len() ==> (#[trigger] seen_after[i]).1 != start,
    ensures
        reads_back_at(
            seq![true, false] + head_code + tail_code,
            rest,
            start,
            memo,
            Tree::Cell(Box::new(head), Box::new(tail)),
            seen_after,
        ),
{
    let code = seq![true, false] + head_code + tail_code;
    let tree = Tree::Cell(Box::new(head), Box::new(tail));
    let bits = code + rest;
    let first = node_code(head_code + (tail_code + rest), start + 2, memo)->Ok_0;
    let second = node_code(tail_code + rest, start + 2 + head_code.len(), first.memo)->Ok_0;
    assert(bits.skip(2) =~= head_code + (tail_code + rest));
    assert(bits.skip(2).skip(head_code.len() as int) =~= tail_code + rest);
    assert(bits.len() >= 2 && bits[0] && !bits[1]);
    lemma_node_code_cell(bits, start, memo, first, second);
    lemma_agrees_insert(second.memo, seen_after, start, tree);
    assert(code.len() == 2 + head_code.len() + tail_code.len());
}

/// Nodes noted while the head and then the tail of a cell were written were
/// noted while the cell was written, behind its tag.
proof fn lemma_extends_twice(
    before: Seq<(Tree, nat)>,
    middle: Seq<(Tree, nat)>,
    after: Seq<(Tree, nat)>,
    lo: nat,
    mid: nat,
    hi: nat,
)
    requires
        extends(middle, before, lo + 1, mid),
        extends(after, middle, mid, hi),
        lo + 1 <= mid <= hi,
    ensures
        extends(after, before, lo, hi),
{
    assert(after.take(before.len() as int) =~= before) by {
        assert forall|i: int| 0 <= i < before.len() implies after[i] == before[i] by {
            assert(after[i] == after.take(middle.len() as int)[i]);
            assert(middle[i] == middle.take(before.len() as int)[i]);
        }
    }
    assert forall|i: int| before.len() <= i < after.len() implies lo <= (#[trigger] after[i]).1 < hi
        && fits(after[i].0) by {
        if i < middle.len() {
            assert(after[i] == after.take(middle.len() as int)[i]);
            assert(lo + 1 <= middle[i].1 < mid);
        }
    }
}

/// Writing the cell tag, then the head and the tail, packs the cell.
#[verifier::rlimit(40)]
proof fn lemma_packs_cell(
    bits_before: Seq<bool>,
    bits_head: Seq<bool>,
    bits_tail: Seq<bool>,
    bits_after: Seq<bool>,
    seen_before: Seq<(Tree, nat)>,
    seen_head: Seq<(Tree, nat)>,
    seen_after: Seq<(Tree, nat)>,
    head: Tree,
    tail: Tree,
)
    requires
        bits_head == bits_before.push(true).push(false),
        packs(bits_head, bits_tail, seen_before, seen_head, head, 0),
        packs(bits_tail, bits_after, seen_head, seen_after, tail, 0),
        settled(seen_before, bits_before.len()),
    ensures
        packs(
            bits_before,
            bits_after,
            seen_before,
            seen_after,
            Tree::Cell(Box::new(head), Box::new(tail)),
            1,
        ),
{
    let start = bits_before.len();
    let tree = Tree::Cell(Box::new(head), Box::new(tail));
    let code = bits_after.skip(start as int);
    let head_code = bits_tail.skip(bits_head.len() as int);
    let tail_code = bits_after.skip(bits_tail.len() as int);
    assert(code =~= seq![true, false] + head_code + tail_code);
    assert(bits_after =~= bits_before + code);
    lemma_extends_twice(
        seen_before,
        seen_head,
        seen_after,
        start + 1,
        bits_tail.len(),
        bits_after.len(),
    );
    assert forall|i: int| 0 <= i < seen_after.len() implies (#[trigger] seen_after[i]).1
        != start by {
        if i < seen_before.len() {
            assert(seen_after[i] == seen_after.take(seen_before.len() as int)[i]);
            assert(seen_before[i].1 < start);
        }
    }
    assert forall|memo: Map<nat, Tree>, rest: Seq<bool>|
        agrees(memo, seen_before) implies #[trigger] reads_back_at(
        code,
        rest,
        start,
        memo,
        tree,
        seen_after,
    ) by {
        assert(reads_back_at(head_code, tail_code + rest, start + 2, memo, head, seen_head));
        let first = node_code(head_code + (tail_code + rest), start + 2, memo)->Ok_0;
        assert(reads_back_at(
            tail_code,
            rest,
            start + 2 + head_code.len(),
            first.memo,
            tail,
            seen_after,
        ));
        lemma_cell_reads_back_at(
            head_code,
            tail_code,
            rest,
            start,
            memo,
            head,
            tail,
            seen_head,
            seen_after,
        );
    }
}

/// Once a node is packed, it can be noted at the offset of its tag.
proof fn lemma_packs_noted(
    bits_before: Seq<bool>,
    bits_after: Seq<bool>,
    seen_before: Seq<(Tree, nat)>,
    seen_after: Seq<(Tree, nat)>,
    tree: Tree,
)
    requires
        packs(bits_before, bits_after, seen_before, seen_after, tree, 1),
        fits(tree),
    ensures
        packs(
            bits_before,
            bits_after,
            seen_before,
            seen_after.push((tree, bits_before.len())),
            tree,
            0,
        ),
{
    let start = bits_before.len();
    let code = bits_after.skip(start as int);
    let noted = seen_after.push((tree, start));
    assert(noted.take(seen_before.len() as int) =~= seen_after.take(seen_before.len() as int));
    assert forall|memo: Map<nat, Tree>, rest: Seq<bool>|
        agrees(memo, seen_before) implies #[trigger] reads_back_at(
        code,
        rest,
        start,
        memo,
        tree,
        noted,
    ) by {
        assert(reads_back_at(code, rest, start, memo, tree, seen_after));
        lemma_node_code_keeps(code + rest, start, memo);
    }
}

/// A packed node whose inner nodes stand behind its tag stands from its tag on.
proof fn lemma_packs_unnoted(
    bits_before: Seq<bool>,
    bits_after: Seq<bool>,
    seen_before: Seq<(Tree, nat)>,
    seen_after: Seq<(Tree, nat)>,
    tree: Tree,
)
    requires
        packs(bits_before, bits_after, seen_before, seen_after, tree, 1),
    ensures
        packs(bits_before, bits_after, seen_before, seen_after, tree, 0),
{
}

/// The number of bits written, as an offset: `len`, as long as offsets were
/// counted up to here and `len` can still be counted.
pub open spec fn counted(pos: Option<u64>, len: nat) -> Option<u64> {
    if pos is Some && len <= u64::MAX {
        Some(len as u64)
    } else {
        None
    }
}

/// The offset `used` bits further on, as long as it can be counted.
fn advance(pos: Option<u64>, used: u64) -> (next: Option<u64>)
    ensures
        next == (match pos {
            Some(p) => if p + used <= u64::MAX {
                Some((p + used) as u64)
            } else {
                None
            },
            None => None,
        }),
{
    match pos {
        Some(p) => if used <= u64::MAX - p {
            Some(p + used)
        } else {
            None
        },
        None => None,
    }
}

/// Writes a node that stands below a cell: a reference, if this very
/// allocation was written before; else its code, and notes it. `pos` is the
/// number of bits written so far, as long as it can be counted; nodes written
/// behind that are not noted.
pub fn encode_child(sink: &mut BitSink, seen: &mut Seen, node: &Rc<Noun>, pos: Option<u64>) -> (done:
    Result<Option<u64>, EncodeError>)
    requires
        pos matches Some(p) ==> p == written(*old(sink)).len(),
        settled(old(seen)@, written(*old(sink)).len()),
    ensures
        fits(node@) ==> (done matches Ok(end) && packs(
            written(*old(sink)),
            written(*final(sink)),
            old(seen)@,
            final(seen)@,
            node@,
            0,
        ) && end == counted(pos, written(*final(sink)).len())),
        !fits(node@) ==> done == Err::<Option<u64>, EncodeError>(EncodeError::LengthTooLarge),
    decreases node@.size(), 1nat,
{
    if let Some(offset) = seen.find(node) {
        let ghost at = choose|i: int| 0 <= i < seen@.len() && seen@[i] == (node@, offset as nat);
        proof {
            assert(fits(seen@[at].0));
            lemma_packs_backref(
                written(*sink),
                written(*sink).push(true).push(true) + atom_bits(atom_bytes(offset as nat)),
                seen@,
                node@,
                offset as nat,
                at,
            );
        }
        if !write_bit(sink, true) {
            return Err(EncodeError::Sink);
        }
        if !write_bit(sink, true) {
            return Err(EncodeError::Sink);
        }
        let used = match encode_atom(sink, &Atom::from_u64(offset)) {
            Ok(used) => used,
            Err(_) => {
                return Err(EncodeError::Sink);
            },
        };
        return Ok(advance(advance(pos, 2), used));
    }
    let end = match encode_node(sink, seen, &**node, pos) {
        Ok(end) => end,
        Err(e) => {
            return Err(e);
        },
    };
    match pos {
        Some(offset) => {
            proof {
                lemma_packs_noted(written(*old(sink)), written(*sink), old(seen)@, seen@, node@);
            }
            seen.note(node.clone(), offset);
        },
        None => {
            proof {
                lemma_packs_unnoted(written(*old(sink)), written(*sink), old(seen)@, seen@, node@);
            }
        },
    }
    Ok(end)
}

/// Writes the code of a noun; what stands below its cells is written as
/// `encode_child` says. `pos` is the number of bits written so far, as long
/// as it can be counted.
pub fn encode_node(sink: &mut BitSink, seen: &mut Seen, noun: &Noun, pos: Option<u64>) -> (done:
    Result<Option<u64>, EncodeError>)
    requires
        pos matches Some(p) ==> p == written(*old(sink)).len(),
        settled(old(seen)@, written(*old(sink)).len()),
    ensures
        fits(noun@) ==> (done matches Ok(end) && packs(
            written(*old(sink)),
            written(*final(sink)),
            old(seen)@,
            final(seen)@,
            noun@,
            1,
        ) && end == counted(pos, written(*final(sink)).len())),
        fits(noun@) && noun@ is Atom ==> written(*final(sink)) == written(*old(sink)) + node_bits(
            noun@,
        ),
        !fits(noun@) ==> done == Err::<Option<u64>, EncodeError>(EncodeError::LengthTooLarge),
    decreases noun@.size(), 0nat,
{
    match noun {
        Noun::Atom(atom) => {
            if !write_bit(sink, false) {
                return Err(EncodeError::Sink);
            }
            let used = match encode_atom(sink, atom) {
                Ok(used) => used,
                Err(e) => {
                    return Err(e);
                },
            };
            proof {
                lemma_packs_atom(written(*old(sink)), written(*sink), seen@, atom@);
            }
            Ok(advance(advance(pos, 1), used))
        },
        Noun::Cell(cell) => {
            if !write_bit(sink, true) {
                return Err(EncodeError::Sink);
            }
            if !write_bit(sink, false) {
                return Err(EncodeError::Sink);
            }
            let ghost bits_head = written(*sink);
            let at_head = advance(pos, 2);
            let at_tail = match encode_child(sink, seen, cell.head(), at_head) {
                Ok(end) => end,
                Err(e) => {
                    return Err(e);
                },
            };
            let ghost bits_tail = written(*sink);
            let ghost seen_head = seen@;
            proof {
                lemma_settled_extends(
                    old(seen)@,
                    seen_head,
                    bits_head.len(),
                    bits_head.len(),
                    bits_tail.len(),
                );
            }
            let end = match encode_child(sink, seen, cell.tail(), at_tail) {
                Ok(end) => end,
                Err(e) => {
                    return Err(e);
                },
            };
            proof {
                lemma_packs_cell(
                    written(*old(sink)),
                    bits_head,
                    bits_tail,
                    written(*sink),
                    old(seen)@,
                    seen_head,
                    seen@,
                    cell.head_tree(),
                    cell.tail_tree(),
                );
            }
            Ok(end)
        },
    }
}

/// Serialize a noun into a bit stream.
pub trait Jam: View<V = Tree> {
    /// Packs the noun into bytes, each byte filled from its least significant
    /// bit up and the last one filled up with zero bits. A node that stands in
    /// several places as one allocation is written once, and referred to from
    /// the other places. The bytes hold one code and no more, and reading them
    /// back gives the noun's tree. An atom is written as its plain code. The
    /// one noun that cannot be packed is one with an atom too long for a
    /// length code.
    fn jam(&self) -> (bytes: Result<Vec<u8>, EncodeError>)
        ensures
            fits(self@) ==> (bytes matches Ok(packed) && packed_code(bytes_bits(packed@), self@)
                && noun_code(bytes_bits(packed@)) == Ok::<Tree, DecodeError>(self@)),
            fits(self@) && self@ is Atom ==> (bytes matches Ok(packed) && bytes_bits(packed@)
                == padded(node_bits(self@))),
            !fits(self@) ==> bytes == Err::<Vec<u8>, EncodeError>(EncodeError::LengthTooLarge),
    ;
}

impl Jam for Noun {
    fn jam(&self) -> (bytes: Result<Vec<u8>, EncodeError>) {
        let mut sink = BitSink::new();
        let mut seen = Seen::new();
        match encode_node(&mut sink, &mut seen, self, Some(0)) {
            Ok(_) => {},
            Err(e) => {
                return Err(e);
            },
        }
        proof {
            let code = written(sink);
            let rest = padded(code).skip(code.len() as int);
            assert(code.skip(0) =~= code);
            assert(agrees(Map::<nat, Tree>::empty(), Seq::<(Tree, nat)>::empty()));
            assert(reads_back_at(code, rest, 0, Map::empty(), self@, seen@));
            assert(padded(code) =~= code + rest);
            assert(padded(code).take(code.len() as int) =~= code);
        }
        match sink.finish() {
            Some(packed) => Ok(packed),
            None => Err(EncodeError::Sink),
        }
    }
}

} // verus!
