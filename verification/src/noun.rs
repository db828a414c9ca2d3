//! Nouns: an atom, or a cell of two nouns.

use crate::atom::{is_minimal, Atom};
use crate::bits::{bit_len_u64, lemma_bit_length_bounds};
use crate::cell::Cell;
use crate::error::AccessError;
use std::rc::Rc;
use vstd::arithmetic::power2::{lemma_pow2_unfold, pow2};
use vstd::prelude::*;
use vstd::std_specs::cmp::PartialEqSpecImpl;

verus! {

/// The shape and leaf values of a noun, whatever its nodes share in memory.
pub enum Tree {
    /// A leaf, with the bytes of its atom, least significant first.
    Atom(Seq<u8>),
    /// A pair of trees.
    Cell(Box<Tree>, Box<Tree>),
}

impl Tree {
    /// Whether every atom of the tree is in minimal form, as the atoms of a
    /// noun are.
    pub open spec fn minimal(self) -> bool
        decreases self,
    {
        match self {
            Tree::Atom(bytes) => is_minimal(bytes),
            Tree::Cell(head, tail) => head.minimal() && tail.minimal(),
        }
    }

    /// The number of nodes of the tree.
    pub open spec fn size(self) -> nat
        decreases self,
    {
        match self {
            Tree::Atom(_) => 1,
            Tree::Cell(head, tail) => 1 + head.size() + tail.size(),
        }
    }
}

/// An atom, or a cell of two nouns.
#[derive(Debug, Hash)]
pub enum Noun {
    Atom(Atom),
    Cell(Cell),
}

impl View for Noun {
    type V = Tree;

    /// The noun's tree.
    open spec fn view(&self) -> Tree
        decreases self, 1nat,
    {
        match self {
            Noun::Atom(atom) => Tree::Atom(atom@),
            Noun::Cell(cell) => Tree::Cell(Box::new(cell.head_tree()), Box::new(cell.tail_tree())),
        }
    }
}

/// The tree that `axis` names inside `tree`: 1 names the whole tree, `2n` the
/// head of what `n` names and `2n + 1` its tail. Nothing is named by 0, nor
/// below an atom.
pub open spec fn tree_at(tree: Tree, axis: nat) -> Option<Tree>
    decreases axis,
{
    if axis == 0 {
        None
    } else if axis == 1 {
        Some(tree)
    } else {
        match tree_at(tree, axis / 2) {
            Some(Tree::Cell(head, tail)) => Some(
                if axis % 2 == 0 {
                    *head
                } else {
                    *tail
                },
            ),
            _ => None,
        }
    }
}

/// Below an axis that names nothing, or names an atom, no axis names anything.
pub proof fn lemma_tree_at_dead(tree: Tree, axis: nat, depth: nat)
    requires
        axis / pow2(depth) >= 1,
        depth >= 1,
        !(tree_at(tree, axis / pow2(depth)) matches Some(Tree::Cell(_, _))),
    ensures
        tree_at(tree, axis) is None,
    decreases depth,
{
    vstd::arithmetic::power2::lemma2_to64();
    lemma_pow2_unfold(depth);
    let above = pow2((depth - 1) as nat);
    vstd::arithmetic::power2::lemma_pow2_pos((depth - 1) as nat);
    vstd::arithmetic::div_mod::lemma_div_denominator(axis as int, above as int, 2);
    let next = axis / above;
    assert(next / 2 == axis / pow2(depth)) by (nonlinear_arith)
        requires
            (axis as int / above as int) / 2 == axis as int / (above as int * 2),
            pow2(depth) == 2 * above,
            next == axis / above,
    ;
    assert(tree_at(tree, next) is None);
    if depth > 1 {
        lemma_tree_at_dead(tree, axis, (depth - 1) as nat);
    }
}

/// `Rc::ptr_eq`: whether two handles point to one allocation. Two handles to
/// one allocation hold one noun.
#[verifier::external_body]
pub(crate) fn same_node(a: &Rc<Noun>, b: &Rc<Noun>) -> (same: bool)
    ensures
        same ==> a@ == b@,
{
    Rc::ptr_eq(a, b)
}

/// Whether two shared nouns have the same shape and the same leaf values. One
/// allocation is not compared with itself.
pub(crate) fn same_shared(left: &Rc<Noun>, right: &Rc<Noun>) -> (same: bool)
    ensures
        same == (left@ == right@),
    decreases left@.size(), 1nat,
{
    same_node(left, right) || same_tree(&**left, &**right)
}

/// Whether two nouns have the same shape and the same leaf values, whatever
/// they share in memory.
pub fn same_tree(left: &Noun, right: &Noun) -> (same: bool)
    ensures
        same == (left@ == right@),
    decreases left@.size(), 0nat,
{
    match (left, right) {
        (Noun::Atom(a), Noun::Atom(b)) => a == b,
        (Noun::Cell(a), Noun::Cell(b)) => {
            same_shared(a.head(), b.head()) && same_shared(a.tail(), b.tail())
        },
        _ => false,
    }
}

impl Noun {
    /// The noun that `axis` names inside this one: 1 names this noun, `2n`
    /// the head of what `n` names and `2n + 1` its tail. `None` for 0 and for
    /// an axis that leads below an atom.
    pub fn get(&self, axis: usize) -> (found: Option<&Noun>)
        ensures
            match tree_at(self@, axis as nat) {
                Some(tree) => found matches Some(noun) && noun@ == tree,
                None => found is None,
            },
    {
        if axis == 0 {
            return None;
        }
        let path: u64 = axis as u64;
        let mut below: u32 = bit_len_u64(path) - 1;
        let mut cur: &Noun = self;
        proof {
            lemma_bit_length_bounds(path as nat);
            vstd::arithmetic::power2::lemma_pow2_unfold((below + 1) as nat);
            vstd::bits::lemma_u64_shr_is_div(path, below as u64);
            assert(path / (pow2(below as nat) as u64) == 1) by (nonlinear_arith)
                requires
                    pow2(below as nat) <= path < 2 * pow2(below as nat),
                    pow2(below as nat) <= u64::MAX,
            ;
        }
        while below > 0
            invariant
                below < 64,
                path == axis,
                path as nat / pow2(below as nat) >= 1,
                tree_at(self@, path as nat / pow2(below as nat)) == Some(cur@),
            decreases below,
        {
            let cell = match cur {
                Noun::Cell(cell) => cell,
                Noun::Atom(_) => {
                    proof {
                        lemma_tree_at_dead(self@, path as nat, below as nat);
                    }
                    return None;
                },
            };
            below -= 1;
            let step = (path >> below) & 1;
            proof {
                let above = pow2(below as nat);
                vstd::arithmetic::power2::lemma_pow2_pos(below as nat);
                vstd::arithmetic::power2::lemma_pow2_unfold((below + 1) as nat);
                vstd::arithmetic::power2::lemma_pow2_strictly_increases(below as nat, 64);
                vstd::arithmetic::power2::lemma2_to64();
                vstd::bits::lemma_u64_shr_is_div(path, below as u64);
                vstd::arithmetic::div_mod::lemma_div_denominator(path as int, above as int, 2);
                let next = path >> below;
                assert(next & 1 == next % 2) by (bit_vector);
                assert(next as nat / 2 == path as nat / pow2((below + 1) as nat));
                assert(next >= 2);
            }
            cur = if step == 0 {
                cell.head_as_noun()
            } else {
                cell.tail_as_noun()
            };
        }
        proof {
            vstd::arithmetic::power2::lemma2_to64();
            assert(pow2(below as nat) == 1);
            assert(path as nat / 1 == axis as nat);
        }
        Some(cur)
    }

    /// The noun as an atom, if it is one.
    pub fn as_atom(&self) -> (atom: Result<&Atom, AccessError>)
        ensures
            match *self {
                Noun::Atom(a) => atom == Ok::<&Atom, AccessError>(&a),
                Noun::Cell(_) => atom == Err::<&Atom, AccessError>(AccessError::WrongVariant),
            },
    {
        match self {
            Noun::Atom(atom) => Ok(atom),
            Noun::Cell(_) => Err(AccessError::WrongVariant),
        }
    }

    /// The noun as a cell, if it is one.
    pub fn as_cell(&self) -> (cell: Result<&Cell, AccessError>)
        ensures
            match *self {
                Noun::Cell(c) => cell == Ok::<&Cell, AccessError>(&c),
                Noun::Atom(_) => cell == Err::<&Cell, AccessError>(AccessError::WrongVariant),
            },
    {
        match self {
            Noun::Cell(cell) => Ok(cell),
            Noun::Atom(_) => Err(AccessError::WrongVariant),
        }
    }

    /// The atom that the noun is; the noun itself, handed back, if it is a cell.
    pub fn into_atom(self) -> (atom: Result<Atom, Noun>)
        ensures
            match self {
                Noun::Atom(a) => atom == Ok::<Atom, Noun>(a),
                Noun::Cell(_) => atom == Err::<Atom, Noun>(self),
            },
    {
        match self {
            Noun::Atom(atom) => Ok(atom),
            noun => Err(noun),
        }
    }

    /// The cell that the noun is; the noun itself, handed back, if it is an atom.
    pub fn into_cell(self) -> (cell: Result<Cell, Noun>)
        ensures
            match self {
                Noun::Cell(c) => cell == Ok::<Cell, Noun>(c),
                Noun::Atom(_) => cell == Err::<Cell, Noun>(self),
            },
    {
        match self {
            Noun::Cell(cell) => Ok(cell),
            noun => Err(noun),
        }
    }
}

impl Clone for Noun {
    /// A noun of the same tree, which shares what lies below a cell.
    fn clone(&self) -> (copy: Noun)
        ensures
            copy@ == self@,
    {
        match self {
            Noun::Atom(atom) => Noun::Atom(atom.clone()),
            Noun::Cell(cell) => Noun::Cell(cell.clone()),
        }
    }
}

impl PartialEq for Noun {
    fn eq(&self, other: &Noun) -> (equal: bool) {
        same_tree(self, other)
    }
}

impl Eq for Noun {}

impl PartialEqSpecImpl for Noun {
    open spec fn obeys_eq_spec() -> bool {
        true
    }

    open spec fn eq_spec(&self, other: &Noun) -> bool {
        self@ == other@
    }
}

} // verus!
