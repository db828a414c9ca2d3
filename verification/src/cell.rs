//! Cells: ordered pairs of nouns.

use crate::noun::{same_shared, Noun, Tree};
use std::rc::Rc;
use vstd::prelude::*;
use vstd::std_specs::cmp::PartialEqSpecImpl;

verus! {

/// An ordered pair of nouns. Both sides are shared, never copied, and fixed
/// once the cell is made.
#[derive(Debug, Hash)]
pub struct Cell {
    head: Rc<Noun>,
    tail: Rc<Noun>,
}

impl Cell {
    /// The tree under the cell's head.
    pub closed spec fn head_tree(&self) -> Tree
        decreases self, 0nat,
    {
        (*self.head)@
    }

    /// The tree under the cell's tail.
    pub closed spec fn tail_tree(&self) -> Tree
        decreases self, 0nat,
    {
        (*self.tail)@
    }

    /// The cell of `head` and `tail`.
    pub fn new(head: Rc<Noun>, tail: Rc<Noun>) -> (cell: Cell)
        ensures
            cell.head_tree() == head@,
            cell.tail_tree() == tail@,
    {
        Cell { head, tail }
    }

    /// The cell's head.
    pub fn head(&self) -> (head: &Rc<Noun>)
        ensures
            head@ == self.head_tree(),
    {
        &self.head
    }

    /// The cell's tail.
    pub fn tail(&self) -> (tail: &Rc<Noun>)
        ensures
            tail@ == self.tail_tree(),
    {
        &self.tail
    }

    /// The cell's head, as a noun.
    pub fn head_as_noun(&self) -> (head: &Noun)
        ensures
            head@ == self.head_tree(),
    {
        &*self.head
    }

    /// The cell's tail, as a noun.
    pub fn tail_as_noun(&self) -> (tail: &Noun)
        ensures
            tail@ == self.tail_tree(),
    {
        &*self.tail
    }

    /// The cell's head and tail.
    pub fn as_parts(&self) -> (parts: (&Rc<Noun>, &Rc<Noun>))
        ensures
            parts.0@ == self.head_tree(),
            parts.1@ == self.tail_tree(),
    {
        (self.head(), self.tail())
    }

    /// Takes the cell apart into its head and tail.
    pub fn into_parts(self) -> (parts: (Rc<Noun>, Rc<Noun>))
        ensures
            parts.0@ == self.head_tree(),
            parts.1@ == self.tail_tree(),
    {
        (self.head, self.tail)
    }

    /// The cell as a noun.
    pub fn into_noun(self) -> (noun: Noun)
        ensures
            noun == Noun::Cell(self),
    {
        Noun::Cell(self)
    }
}

impl Clone for Cell {
    /// A cell that shares this cell's head and tail.
    fn clone(&self) -> (copy: Cell)
        ensures
            copy.head_tree() == self.head_tree(),
            copy.tail_tree() == self.tail_tree(),
    {
        Cell { head: self.head.clone(), tail: self.tail.clone() }
    }
}

impl PartialEq for Cell {
    fn eq(&self, other: &Cell) -> (equal: bool) {
        same_shared(&self.head, &other.head) && same_shared(&self.tail, &other.tail)
    }
}

impl Eq for Cell {}

impl PartialEqSpecImpl for Cell {
    open spec fn obeys_eq_spec() -> bool {
        true
    }

    open spec fn eq_spec(&self, other: &Cell) -> bool {
        self.head_tree() == other.head_tree() && self.tail_tree() == other.tail_tree()
    }
}

} // verus!
