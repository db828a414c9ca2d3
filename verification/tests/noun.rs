use noun::atom::Atom;
use noun::cell::Cell;
use noun::convert::{FromNoun, IntoNoun};
use noun::error::AccessError;
use noun::noun::Noun;
use std::rc::Rc;

fn atom(v: u64) -> Rc<Noun> {
    Rc::new(Atom::from_u64(v).into_noun())
}

fn cell(head: Rc<Noun>, tail: Rc<Noun>) -> Rc<Noun> {
    Rc::new(Cell::new(head, tail).into_noun())
}

/// [[1 2] [3 [4 5]]]
fn sample() -> Rc<Noun> {
    cell(cell(atom(1), atom(2)), cell(atom(3), cell(atom(4), atom(5))))
}

#[test]
fn axis_one_is_the_noun() {
    let noun = sample();
    assert_eq!(noun.get(1), Some(&*noun));
}

#[test]
fn axis_zero_names_nothing() {
    assert_eq!(sample().get(0), None);
    assert_eq!(atom(3).get(0), None);
}

#[test]
fn axes_follow_heads_and_tails() {
    let noun = sample();
    assert_eq!(noun.get(2), Some(&*cell(atom(1), atom(2))));
    assert_eq!(noun.get(3), Some(&*cell(atom(3), cell(atom(4), atom(5)))));
    assert_eq!(noun.get(4), Some(&*atom(1)));
    assert_eq!(noun.get(5), Some(&*atom(2)));
    assert_eq!(noun.get(6), Some(&*atom(3)));
    assert_eq!(noun.get(7), Some(&*cell(atom(4), atom(5))));
    assert_eq!(noun.get(14), Some(&*atom(4)));
    assert_eq!(noun.get(15), Some(&*atom(5)));
}

#[test]
fn axes_below_an_atom_name_nothing() {
    let noun = sample();
    assert_eq!(noun.get(8), None);
    assert_eq!(noun.get(9), None);
    assert_eq!(noun.get(12), None);
    assert_eq!(noun.get(28), None);
    assert_eq!(noun.get(31), None);
    assert_eq!(noun.get(usize::MAX), None);
    assert_eq!(atom(1).get(2), None);
    assert_eq!(atom(1).get(3), None);
}

#[test]
fn an_atom_is_no_cell() {
    let noun = Atom::from_u8(9).into_noun();
    assert_eq!(noun.as_atom(), Ok(&Atom::from_u8(9)));
    assert_eq!(noun.as_cell(), Err(AccessError::WrongVariant));
    let back = noun.into_cell();
    assert_eq!(back, Err(Atom::from_u8(9).into_noun()));
}

#[test]
fn a_cell_is_no_atom() {
    let pair = Cell::new(atom(1), atom(2));
    let noun = pair.clone().into_noun();
    assert_eq!(noun.as_cell(), Ok(&pair));
    assert_eq!(noun.as_atom(), Err(AccessError::WrongVariant));
    assert_eq!(noun.clone().into_atom(), Err(noun.clone()));
    assert_eq!(noun.into_cell(), Ok(pair));
}

#[test]
fn into_atom_hands_out_the_atom() {
    let noun = Atom::from_u8(9).into_noun();
    assert_eq!(noun.into_atom(), Ok(Atom::from_u8(9)));
}

#[test]
fn cell_parts_are_head_and_tail() {
    let pair = Cell::new(atom(1), cell(atom(2), atom(3)));
    assert_eq!(**pair.head(), *atom(1));
    assert_eq!(**pair.tail(), *cell(atom(2), atom(3)));
    assert_eq!(*pair.head_as_noun(), *atom(1));
    assert_eq!(*pair.tail_as_noun(), *cell(atom(2), atom(3)));
    let (head, tail) = pair.as_parts();
    assert_eq!(**head, *atom(1));
    assert_eq!(**tail, *cell(atom(2), atom(3)));
    let (head, tail) = pair.into_parts();
    assert_eq!(*head, *atom(1));
    assert_eq!(*tail, *cell(atom(2), atom(3)));
}

#[test]
fn cell_parts_are_shared_not_copied() {
    let head = atom(1);
    let pair = Cell::new(head.clone(), atom(2));
    assert!(Rc::ptr_eq(pair.head(), &head));
    let copy = pair.clone();
    assert!(Rc::ptr_eq(copy.head(), &head));
}

#[test]
fn equality_is_by_shape_and_leaves() {
    let shared = atom(7);
    let one = cell(shared.clone(), shared.clone());
    let other = cell(atom(7), atom(7));
    assert_eq!(*one, *other);
    assert_ne!(*one, *cell(atom(7), atom(8)));
    assert_ne!(*one, *cell(atom(8), atom(7)));
    assert_ne!(*one, *atom(7));
    assert_ne!(*atom(7), *one);
    assert_ne!(*cell(one.clone(), atom(1)), *cell(atom(1), one.clone()));
}

#[test]
fn nouns_convert_to_atoms_cells_and_integers() {
    let noun = Atom::from_u64(500).into_noun();
    assert_eq!(Atom::from_noun_ref(&noun), Ok(Atom::from_u64(500)));
    assert_eq!(u64::from_noun_ref(&noun), Ok(500));
    assert_eq!(Cell::from_noun_ref(&noun), Err(AccessError::WrongVariant));
    assert_eq!(u64::from_noun(noun), Ok(500));

    let pair = Cell::new(atom(1), atom(2)).into_noun();
    assert_eq!(Cell::from_noun_ref(&pair), Ok(Cell::new(atom(1), atom(2))));
    assert_eq!(Atom::from_noun_ref(&pair), Err(AccessError::WrongVariant));
    assert_eq!(u64::from_noun(pair), Err(AccessError::WrongVariant));

    let wide = Atom::from_u128(1 << 64).into_noun();
    assert_eq!(u64::from_noun(wide), Err(AccessError::Overflow));
}

#[test]
fn integers_convert_to_nouns() {
    assert_eq!(500u64.as_noun(), Ok(Atom::from_u64(500).into_noun()));
    assert_eq!(IntoNoun::into_noun(0u64), Ok(Atom::from_u8(0).into_noun()));
}

#[test]
fn a_noun_equals_what_shares_its_nodes() {
    // a chain in which every cell holds the one before it twice
    let mut noun = atom(5);
    for _ in 0..60 {
        noun = cell(noun.clone(), noun);
    }
    assert_eq!(*noun, (*noun).clone());
    let pair = noun.as_cell().unwrap();
    assert_eq!(*pair, pair.clone());
}
