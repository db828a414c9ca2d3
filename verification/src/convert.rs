//! Turning nouns into other values and back.

use crate::atom::{atom_bytes, Atom};
use crate::cell::Cell;
use crate::error::AccessError;
use crate::noun::{Noun, Tree};
use vstd::prelude::*;

verus! {

/// Equality that may use a context to unify what it compares.
pub trait UnifyEq<C>: Eq {
    fn eq(&self, other: &Self, _ctx: C) -> bool;
}

/// Convert a noun into the implementing type.
pub trait FromNoun: Sized {
    fn from_noun_ref(noun: &Noun) -> Result<Self, AccessError>;

    fn from_noun(noun: Noun) -> (converted: Result<Self, AccessError>)
        ensures
            call_ensures(Self::from_noun_ref, (&noun,), converted),
    {
        Self::from_noun_ref(&noun)
    }
}

/// Convert the implementing type into a noun.
pub trait IntoNoun: Sized {
    /// The tree of the noun that the value converts to.
    spec fn tree(&self) -> Tree;

    fn as_noun(&self) -> (noun: Result<Noun, AccessError>)
        ensures
            noun matches Ok(n) ==> n@ == self.tree(),
    ;

    fn into_noun(self) -> (noun: Result<Noun, AccessError>)
        ensures
            noun matches Ok(n) ==> n@ == self.tree(),
    ;
}

impl FromNoun for Atom {
    /// A copy of the atom that the noun is.
    fn from_noun_ref(noun: &Noun) -> (atom: Result<Atom, AccessError>)
        ensures
            match *noun {
                Noun::Atom(a) => atom matches Ok(copy) && copy@ == a@,
                Noun::Cell(_) => atom == Err::<Atom, AccessError>(AccessError::WrongVariant),
            },
    {
        match noun {
            Noun::Atom(atom) => Ok(atom.clone()),
            Noun::Cell(_) => Err(AccessError::WrongVariant),
        }
    }
}

impl FromNoun for Cell {
    /// A cell that shares the head and tail of the cell that the noun is.
    fn from_noun_ref(noun: &Noun) -> (cell: Result<Cell, AccessError>)
        ensures
            match *noun {
                Noun::Cell(c) => cell matches Ok(copy) && copy.head_tree() == c.head_tree()
                    && copy.tail_tree() == c.tail_tree(),
                Noun::Atom(_) => cell == Err::<Cell, AccessError>(AccessError::WrongVariant),
            },
    {
        match noun {
            Noun::Cell(cell) => Ok(cell.clone()),
            Noun::Atom(_) => Err(AccessError::WrongVariant),
        }
    }
}

impl FromNoun for u64 {
    /// The value of the atom that the noun is, if it fits in 64 bits.
    fn from_noun_ref(noun: &Noun) -> (uint: Result<u64, AccessError>)
        ensures
            match *noun {
                Noun::Atom(a) => if a@.len() <= 8 {
                    uint == Ok::<u64, AccessError>(a.value() as u64) && a.value() <= u64::MAX
                } else {
                    uint == Err::<u64, AccessError>(AccessError::Overflow)
                },
                Noun::Cell(_) => uint == Err::<u64, AccessError>(AccessError::WrongVariant),
            },
    {
        match noun {
            Noun::Atom(atom) => atom.as_u64(),
            Noun::Cell(_) => Err(AccessError::WrongVariant),
        }
    }
}

impl IntoNoun for u64 {
    open spec fn tree(&self) -> Tree {
        Tree::Atom(atom_bytes(*self as nat))
    }

    /// The atom of this value.
    fn as_noun(&self) -> (noun: Result<Noun, AccessError>)
        ensures
            noun is Ok,
    {
        Ok(Noun::Atom(Atom::from_u64(*self)))
    }

    /// The atom of this value.
    fn into_noun(self) -> (noun: Result<Noun, AccessError>)
        ensures
            noun is Ok,
    {
        Ok(Noun::Atom(Atom::from_u64(self)))
    }
}

} // verus!
