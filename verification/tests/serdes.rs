use noun::atom::Atom;
use noun::cell::Cell;
use noun::error::{DecodeError, EncodeError};
use noun::dedup::Jam;
use noun::jam::{encode, encode_atom, encode_len};
use noun::noun::Noun;
use noun::serdes::{decode, decode_atom, decode_backref, decode_cell, decode_len, Cue};
use noun::stream::{BitSink, BitSource};
use std::collections::HashMap;
use std::rc::Rc;

/// Packs bits, given in stream order, into bytes, low bit first.
fn pack(bits: &[u8]) -> Vec<u8> {
    let mut bytes = vec![0u8; (bits.len() + 7) / 8];
    for (i, bit) in bits.iter().enumerate() {
        if *bit != 0 {
            bytes[i / 8] |= 1 << (i % 8);
        }
    }
    bytes
}

fn atom(v: u64) -> Rc<Noun> {
    Rc::new(Atom::from_u64(v).into_noun())
}

fn cell(head: Rc<Noun>, tail: Rc<Noun>) -> Rc<Noun> {
    Rc::new(Cell::new(head, tail).into_noun())
}

fn len_code_of(len: u64) -> Vec<u8> {
    let mut sink = BitSink::new();
    let k = 63 - len.leading_zeros();
    assert_eq!(encode_len(&mut sink, len), Ok(2 * k + 1));
    sink.finish().unwrap()
}

#[test]
fn atom_zero_is_two_bits_behind_its_tag() {
    let bytes = pack(&[0, 0]);
    let mut src = BitSource::new(&bytes);
    assert_eq!(decode_atom(&mut src), Ok((Atom::from_u8(0), 2)));
}

#[test]
fn atom_zero_cues_from_a_zero_byte() {
    let noun = Noun::cue_bytes(&pack(&[0, 0, 0])).unwrap();
    assert_eq!(noun, Atom::from_u8(0).into_noun());
    let mut src = BitSource::new(&[0u8]);
    let mut cache = HashMap::new();
    let (node, used) = decode(&mut src, &mut cache, 0).unwrap();
    assert_eq!(*node, Atom::from_u8(0).into_noun());
    assert_eq!(used, 3);
}

#[test]
fn atom_zero_jams_to_a_zero_byte() {
    assert_eq!(Atom::from_u8(0).into_noun().jam(), Ok(vec![0u8]));
}

#[test]
fn atom_seven_cues_from_its_code() {
    // tag 0; length 3 as 1 0 and the low bit 1; payload 1 1 1
    let bytes = pack(&[0, 1, 0, 1, 1, 1, 1]);
    assert_eq!(bytes, vec![0x7au8]);
    assert_eq!(Noun::cue_bytes(&bytes), Ok(Atom::from_u8(7).into_noun()));
}

#[test]
fn atom_seven_jams_to_its_code() {
    assert_eq!(Atom::from_u8(7).into_noun().jam(), Ok(vec![0x7au8]));
}

#[test]
fn length_codes_are_read_back() {
    for len in [1u64, 2, 3, 4, 7, 8, 9, 255, 256, 1 << 20, (1 << 40) + 12345, (1 << 63) - 1] {
        let code = len_code_of(len);
        let mut src = BitSource::new(&code);
        let k = 63 - len.leading_zeros();
        assert_eq!(decode_len(&mut src), Ok((len, 2 * k + 1)));
    }
}

#[test]
fn length_code_of_three_is_one_zero_one() {
    assert_eq!(len_code_of(3), pack(&[1, 0, 1]));
    assert_eq!(len_code_of(1), pack(&[0]));
    assert_eq!(len_code_of(2), pack(&[1, 0, 0]));
    assert_eq!(len_code_of(6), pack(&[1, 1, 0, 0, 1]));
}

#[test]
fn length_code_stops_where_it_ends() {
    // the code of 5 (1 1 0, then 1 0), then the code of 1 (0)
    let bytes = pack(&[1, 1, 0, 1, 0, 0]);
    let mut src = BitSource::new(&bytes);
    assert_eq!(decode_len(&mut src), Ok((5, 5)));
    assert_eq!(decode_len(&mut src), Ok((1, 1)));
}

#[test]
fn backreference_shares_the_node() {
    // cell tag; atom 7 at offset 2; reference to offset 2
    let bytes = pack(&[1, 0, 0, 1, 0, 1, 1, 1, 1, 1, 1, 1, 0, 0, 0, 1]);
    assert_eq!(bytes, vec![0xe9u8, 0x8f]);
    let noun = Noun::cue_bytes(&bytes).unwrap();
    let pair = noun.as_cell().unwrap();
    assert_eq!(**pair.head(), *atom(7));
    assert_eq!(**pair.tail(), *atom(7));
    assert!(Rc::ptr_eq(pair.head(), pair.tail()));
}

#[test]
fn backreference_to_a_cell() {
    // [[1 1] ref]: outer cell at 0, inner cell at 2, atoms at 4 and 7
    let mut bits = vec![1, 0, 1, 0, 0, 0, 1, 0, 0, 1];
    // reference to offset 2: tag 1 1, length 2 as 1 0 0, payload 0 1
    bits.extend_from_slice(&[1, 1, 1, 0, 0, 0, 1]);
    let noun = Noun::cue_bytes(&pack(&bits)).unwrap();
    assert_eq!(noun, *cell(cell(atom(1), atom(1)), cell(atom(1), atom(1))));
    let pair = noun.as_cell().unwrap();
    assert!(Rc::ptr_eq(pair.head(), pair.tail()));
}

#[test]
fn empty_stream_ends_unexpectedly() {
    assert_eq!(Noun::cue_bytes(&[]), Err(DecodeError::UnexpectedEnd));
}

#[test]
fn stream_cut_inside_a_length_code_ends_unexpectedly() {
    // atom tag, then ones without end
    assert_eq!(Noun::cue_bytes(&[0b1111_1110]), Err(DecodeError::UnexpectedEnd));
    // atom tag, k = 9 announced, but fewer than nine bits follow
    let bytes = pack(&[0, 1, 1, 1, 1, 1, 1, 1, 1, 1, 0, 1, 1, 1, 1, 1]);
    assert_eq!(Noun::cue_bytes(&bytes), Err(DecodeError::UnexpectedEnd));
    let mut src = BitSource::new(&[0xffu8, 0xff]);
    assert_eq!(decode_len(&mut src), Err(DecodeError::UnexpectedEnd));
}

#[test]
fn stream_cut_inside_a_payload_ends_unexpectedly() {
    // atom tag, length 12 (1 1 1 0, then 0 0 1), then only one more bit
    let bytes = pack(&[0, 1, 1, 1, 0, 0, 0, 1]);
    assert_eq!(Noun::cue_bytes(&bytes), Err(DecodeError::UnexpectedEnd));
    // length 20, only twelve payload bits
    let mut bits = vec![0, 1, 1, 1, 1, 0, 0, 0, 1, 0];
    bits.extend_from_slice(&[1; 14]);
    assert_eq!(Noun::cue_bytes(&pack(&bits)), Err(DecodeError::UnexpectedEnd));
}

#[test]
fn stream_cut_inside_a_tag_or_a_cell_ends_unexpectedly() {
    let mut src = BitSource::new(&[]);
    let mut cache = HashMap::new();
    assert_eq!(decode(&mut src, &mut cache, 0), Err(DecodeError::UnexpectedEnd));
    // a cell whose head is atom 0 and whose tail never ends
    assert_eq!(Noun::cue_bytes(&[0b1110_0001]), Err(DecodeError::UnexpectedEnd));
    let mut src = BitSource::new(&[]);
    assert_eq!(decode_cell(&mut src, &mut cache, 2), Err(DecodeError::UnexpectedEnd));
}

#[test]
fn backreference_to_an_unseen_offset_dangles() {
    // reference tag, then offset 5
    let bytes = pack(&[1, 1, 1, 0, 1, 1, 0, 1]);
    assert_eq!(Noun::cue_bytes(&bytes), Err(DecodeError::DanglingBackref));
    // [7 ref] with the reference to offset 3, where no tag stood
    let bytes = pack(&[1, 0, 0, 1, 0, 1, 1, 1, 1, 1, 1, 1, 0, 0, 1, 1]);
    assert_eq!(Noun::cue_bytes(&bytes), Err(DecodeError::DanglingBackref));
}

#[test]
fn backreference_looks_up_the_table() {
    let mut cache = HashMap::new();
    cache.insert(5u64, atom(99));
    let bytes = pack(&[1, 0, 1, 1, 0, 1]);
    let mut src = BitSource::new(&bytes);
    let (node, used) = decode_backref(&mut src, &cache).unwrap();
    assert_eq!(*node, *atom(99));
    assert_eq!(used, 6);
    assert!(Rc::ptr_eq(&node, &cache[&5]));
}

#[test]
fn backreference_wider_than_eight_bytes_is_refused() {
    // reference tag; length 65 as six ones, a zero and 1 0 0 0 0 0; 64 zeros and a one
    let mut bits = vec![1, 1, 1, 1, 1, 1, 1, 1, 0, 1, 0, 0, 0, 0, 0];
    bits.extend_from_slice(&[0; 64]);
    bits.push(1);
    assert_eq!(Noun::cue_bytes(&pack(&bits)), Err(DecodeError::BackrefTooWide));
}

#[test]
fn length_of_64_bits_is_too_large() {
    // atom tag, 63 ones, a zero
    let mut bits = vec![0];
    bits.extend_from_slice(&[1; 63]);
    bits.push(0);
    bits.extend_from_slice(&[0; 70]);
    assert_eq!(Noun::cue_bytes(&pack(&bits)), Err(DecodeError::LengthTooLarge));
    // 70 ones, a zero
    let mut bits = vec![1; 70];
    bits.push(0);
    let bytes = pack(&bits);
    let mut src = BitSource::new(&bytes);
    assert_eq!(decode_len(&mut src), Err(DecodeError::LengthTooLarge));
}

#[test]
fn length_of_63_bits_is_read() {
    // 62 ones, a zero, 62 bits of which the first is set: 2^62 + 1
    let mut bits = vec![1; 62];
    bits.push(0);
    bits.push(1);
    bits.extend_from_slice(&[0; 61]);
    let bytes = pack(&bits);
    let mut src = BitSource::new(&bytes);
    assert_eq!(decode_len(&mut src), Ok(((1 << 62) + 1, 125)));
}

#[test]
fn trailing_bits_are_no_error() {
    let bytes = vec![0x7au8, 0x0d, 0x12];
    assert_eq!(Noun::cue_bytes(&bytes), Ok(Atom::from_u8(7).into_noun()));
    let mut src = BitSource::new(&bytes);
    let mut cache = HashMap::new();
    let (_, used) = decode(&mut src, &mut cache, 0).unwrap();
    assert_eq!(used, 7);
    // what follows is still there to be read: a zero, then 1 0 1
    assert_eq!(decode_len(&mut src), Ok((1, 1)));
    assert_eq!(decode_len(&mut src), Ok((3, 3)));
}

#[test]
fn payload_with_high_zero_bits_is_a_minimal_atom() {
    // atom tag, length 9 (1 1 1 0, then 1 0 0), payload 1 and eight zeros
    let bits = [0, 1, 1, 1, 0, 1, 0, 0, 1, 0, 0, 0, 0, 0, 0, 0, 0];
    let noun = Noun::cue_bytes(&pack(&bits)).unwrap();
    assert_eq!(noun.as_atom().unwrap().as_bytes(), &[1u8]);
}

#[test]
fn atom_codes_are_read_back() {
    for v in [0u64, 1, 2, 7, 8, 255, 256, 257, 65_535, 1 << 33, u64::MAX] {
        let value = Atom::from_u64(v);
        let len = if v == 0 { 1 } else { 64 - v.leading_zeros() };
        let k = 31 - len.leading_zeros();
        let mut sink = BitSink::new();
        assert_eq!(encode_atom(&mut sink, &value), Ok(u64::from(2 * k + 1 + len)));
        let bytes = sink.finish().unwrap();
        let mut src = BitSource::new(&bytes);
        let (back, used) = decode_atom(&mut src).unwrap();
        assert_eq!(back, value);
        assert_eq!(used, 2 * k + 1 + len);
    }
}

#[test]
fn cell_of_two_atoms_jams_to_its_code() {
    // [1 2]: 1 0, then 0 0 1, then 0 1 0 0 0 1
    let noun = cell(atom(1), atom(2));
    assert_eq!(noun.jam(), Ok(pack(&[1, 0, 0, 0, 1, 0, 1, 0, 0, 0, 1])));
}

#[test]
fn encode_appends_to_what_the_sink_holds() {
    let mut sink = BitSink::new();
    assert_eq!(encode(&mut sink, &atom(1)), Ok(()));
    assert_eq!(encode(&mut sink, &atom(7)), Ok(()));
    assert_eq!(sink.finish(), Some(pack(&[0, 0, 1, 0, 1, 0, 1, 1, 1, 1])));
}

#[test]
fn nouns_are_read_back() {
    let big = Rc::new(Atom::from(vec![0xabu8; 1000]).into_noun());
    let nouns = [
        atom(0),
        atom(1),
        atom(u64::MAX),
        big.clone(),
        cell(atom(0), atom(0)),
        cell(cell(atom(1), atom(2)), cell(atom(3), cell(atom(4), atom(5)))),
        cell(big.clone(), cell(big, atom(6))),
        cell(cell(cell(cell(atom(9), atom(8)), atom(7)), atom(6)), atom(5)),
    ];
    for noun in nouns {
        let bytes = noun.jam().unwrap();
        assert_eq!(Noun::cue_bytes(&bytes), Ok((*noun).clone()));
        assert_eq!(Noun::cue(BitSource::new(&bytes)), Ok((*noun).clone()));
        let bytes = noun.jam_unshared().unwrap();
        assert_eq!(Noun::cue_bytes(&bytes), Ok((*noun).clone()));
    }
}

#[test]
fn unshared_jam_writes_every_place() {
    let shared = atom(1000);
    let noun = cell(shared.clone(), shared);
    // 1 0, then twice: 0, length 10 as 1 1 1 0 and 0 1 0, 1000 in ten bits
    let mut bits = vec![1, 0];
    for _ in 0..2 {
        bits.extend_from_slice(&[0, 1, 1, 1, 0, 0, 1, 0, 0, 0, 0, 1, 0, 1, 1, 1, 1, 1]);
    }
    let bytes = noun.jam_unshared().unwrap();
    assert_eq!(bytes, pack(&bits));
    assert_eq!(Noun::cue_bytes(&bytes), Ok((*noun).clone()));
}

#[test]
fn jam_refers_to_an_allocation_written_before() {
    let shared = atom(1000);
    let noun = cell(shared.clone(), shared);
    // 1 0; the atom at offset 2; then 1 1 and the offset: length 2 as 1 0 0, then 0 1
    let mut bits = vec![1, 0, 0, 1, 1, 1, 0, 0, 1, 0, 0, 0, 0, 1, 0, 1, 1, 1, 1, 1];
    bits.extend_from_slice(&[1, 1, 1, 0, 0, 0, 1]);
    let bytes = noun.jam().unwrap();
    assert_eq!(bytes, pack(&bits));
    let back = Noun::cue_bytes(&bytes).unwrap();
    assert_eq!(back, *noun);
    let pair = back.as_cell().unwrap();
    assert!(Rc::ptr_eq(pair.head(), pair.tail()));
}

#[test]
fn jam_does_not_refer_to_an_equal_noun_elsewhere() {
    let noun = cell(atom(1000), atom(1000));
    assert_eq!(noun.jam(), noun.jam_unshared());
    let back = Noun::cue_bytes(&noun.jam().unwrap()).unwrap();
    let pair = back.as_cell().unwrap();
    assert!(!Rc::ptr_eq(pair.head(), pair.tail()));
}

#[test]
fn jam_refers_to_a_shared_cell() {
    let inner = cell(atom(1), cell(atom(2), atom(3)));
    let noun = cell(cell(inner.clone(), atom(4)), cell(inner.clone(), inner));
    let bytes = noun.jam().unwrap();
    assert!(bytes.len() < noun.jam_unshared().unwrap().len());
    let back = Noun::cue_bytes(&bytes).unwrap();
    assert_eq!(back, *noun);
    let left = back.get(4).unwrap();
    assert!(std::ptr::eq(left, back.get(6).unwrap()));
    assert!(std::ptr::eq(left, back.get(7).unwrap()));
}

#[test]
fn jam_of_many_shared_nodes_is_read_back() {
    // a chain in which every cell holds the one before it twice
    let mut noun = atom(12345);
    for _ in 0..40 {
        noun = cell(noun.clone(), noun);
    }
    let bytes = noun.jam().unwrap();
    assert!(bytes.len() < 200);
    let back = Noun::cue_bytes(&bytes).unwrap();
    let pair = back.as_cell().unwrap();
    assert!(Rc::ptr_eq(pair.head(), pair.tail()));
    assert_eq!(back.jam(), Ok(bytes));
}

#[test]
fn text_atom_is_read_back() {
    let noun = Atom::from("hello, world").into_noun();
    let bytes = noun.jam().unwrap();
    let back = Noun::cue_bytes(&bytes).unwrap();
    assert_eq!(back.as_atom().unwrap().as_str(), Ok("hello, world"));
}

#[test]
fn jam_never_reports_a_length_that_fits() {
    let noun = cell(atom(1), Rc::new(Atom::from(vec![1u8; 4096]).into_noun()));
    assert_ne!(noun.jam(), Err(EncodeError::LengthTooLarge));
}

#[test]
fn full_bytes_finish_as_they_are() {
    assert_eq!(BitSink::new().finish(), Some(Vec::new()));
    let mut sink = BitSink::new();
    // 1 + 3 + 5 + 13 + 3 + 3 + 3 + 1 bits: four full bytes
    assert_eq!(encode_len(&mut sink, 1), Ok(1));
    assert_eq!(encode_len(&mut sink, 3), Ok(3));
    assert_eq!(encode_len(&mut sink, 5), Ok(5));
    assert_eq!(encode_len(&mut sink, 70), Ok(13));
    assert_eq!(encode_len(&mut sink, 3), Ok(3));
    assert_eq!(encode_len(&mut sink, 2), Ok(3));
    assert_eq!(encode_len(&mut sink, 2), Ok(3));
    assert_eq!(encode_len(&mut sink, 1), Ok(1));
    let bytes = sink.finish().unwrap();
    assert_eq!(bytes.len(), 4);
    let mut src = BitSource::new(&bytes);
    for len in [1u64, 3, 5, 70, 3, 2, 2, 1] {
        assert_eq!(decode_len(&mut src).map(|code| code.0), Ok(len));
    }
    assert_eq!(decode_len(&mut src), Err(DecodeError::UnexpectedEnd));
}

#[test]
fn failed_decoding_of_nothing_leaves_the_table_empty() {
    let mut src = BitSource::new(&[]);
    let mut cache: HashMap<u64, Rc<Noun>> = HashMap::new();
    assert_eq!(decode(&mut src, &mut cache, 0), Err(DecodeError::UnexpectedEnd));
    assert!(cache.is_empty());
    // an atom that is cut off, and a reference into nothing
    let mut src = BitSource::new(&[0b1111_1110]);
    assert_eq!(decode(&mut src, &mut cache, 0), Err(DecodeError::UnexpectedEnd));
    assert!(cache.is_empty());
    let bytes = pack(&[1, 1, 1, 0, 1, 1, 0, 1]);
    let mut src = BitSource::new(&bytes);
    assert_eq!(decode(&mut src, &mut cache, 0), Err(DecodeError::DanglingBackref));
    assert!(cache.is_empty());
}

#[test]
fn failed_decoding_of_a_cell_keeps_what_was_decoded_whole() {
    // [[1 2] cut]: cells at 0 and 2, atoms 1 at 4 and 2 at 7, then a tag 1 and the end
    let bytes = pack(&[1, 0, 1, 0, 0, 0, 1, 0, 1, 0, 0, 0, 1, 1]);
    let mut src = BitSource::new(&bytes);
    let mut cache: HashMap<u64, Rc<Noun>> = HashMap::new();
    assert_eq!(decode(&mut src, &mut cache, 0), Err(DecodeError::UnexpectedEnd));
    assert_eq!(cache.len(), 3);
    assert_eq!(*cache[&4], *atom(1));
    assert_eq!(*cache[&7], *atom(2));
    assert_eq!(*cache[&2], *cell(atom(1), atom(2)));
}

#[test]
fn jam_writes_one_code_and_fills_its_last_byte() {
    let shared = cell(atom(77), atom(1 << 40));
    let nouns = [
        atom(0),
        atom(255),
        cell(atom(1), atom(2)),
        cell(shared.clone(), cell(shared.clone(), shared)),
    ];
    for noun in nouns {
        let bytes = noun.jam().unwrap();
        let mut src = BitSource::new(&bytes);
        let mut cache = HashMap::new();
        let (_, used) = decode(&mut src, &mut cache, 0).unwrap();
        let used = used as usize;
        assert_eq!(bytes.len(), (used + 7) / 8);
        for at in used..8 * bytes.len() {
            assert_eq!(bytes[at / 8] >> (at % 8) & 1, 0);
        }
    }
}

#[test]
fn jam_of_an_atom_is_its_plain_code() {
    for v in [0u64, 1, 7, 256, u64::MAX] {
        let noun = Atom::from_u64(v).into_noun();
        assert_eq!(noun.jam(), noun.jam_unshared());
    }
    // 256: tag 0; length 9 as 1 1 1 0 and 1 0 0; eight zeros and a one
    let noun = Atom::from_u64(256).into_noun();
    let bits = [0, 1, 1, 1, 0, 1, 0, 0, 0, 0, 0, 0, 0, 0, 0, 0, 1];
    assert_eq!(noun.jam(), Ok(pack(&bits)));
}

#[test]
fn every_write_is_done() {
    let mut sink = BitSink::new();
    for len in 1..200u64 {
        assert!(encode_len(&mut sink, len * len * len).is_ok());
    }
    assert!(encode(&mut sink, &cell(atom(3), atom(4))).is_ok());
    assert!(sink.finish().is_some());
    let big = Rc::new(Atom::from(vec![0x5au8; 100_000]).into_noun());
    assert!(cell(big.clone(), big).jam().is_ok());
}
