use noun::atom::Atom;
use noun::error::AccessError;
use noun::serdes::decode_len;

#[test]
fn from_uint() -> Result<(), AccessError> {
    {
        let val = u8::MAX;
        let atom = Atom::from_u8(val);
        assert_eq!(atom.as_u8()?, val);
    }

    {
        let val = u16::MAX;
        let atom = Atom::from_u16(val);
        assert_eq!(atom.as_u16()?, val);
    }

    {
        let val = u32::MAX;
        let atom = Atom::from_u32(val);
        assert_eq!(atom.as_u32()?, val);
    }

    {
        let val = u64::MAX;
        let atom = Atom::from_u64(val);
        assert_eq!(atom.as_u64()?, val);
    }

    {
        let val = u128::MAX;
        let atom = Atom::from_u128(val);
        assert_eq!(atom.as_u128()?, val);
    }

    {
        let val = usize::MAX;
        let atom = Atom::from_usize(val);
        assert_eq!(atom.as_usize()?, val);
    }

    Ok(())
}

#[test]
fn partialeq() {
    {
        let vec = vec![b'h', b'e', b'l', b'l', b'o'];
        let atom = Atom::from(vec);
        assert_eq!(atom, "hello");
    }
}

#[test]
fn bytes_are_kept_when_minimal() {
    let atom = Atom::from(vec![1u8, 2, 3]);
    assert_eq!(atom.as_bytes(), &[1u8, 2, 3]);
    assert_eq!(atom.byte_len(), 3);
}

#[test]
fn trailing_zero_bytes_are_stripped() {
    let atom = Atom::from(vec![1u8, 0, 2, 0, 0]);
    assert_eq!(atom.as_bytes(), &[1u8, 0, 2]);
}

#[test]
fn all_zero_bytes_become_one_zero_byte() {
    assert_eq!(Atom::from(vec![0u8, 0, 0]).as_bytes(), &[0u8]);
    assert_eq!(Atom::from(vec![0u8]).as_bytes(), &[0u8]);
    assert_eq!(Atom::from(Vec::new()).as_bytes(), &[0u8]);
}

#[test]
fn zero_of_any_width_is_one_zero_byte() {
    assert_eq!(Atom::from_u8(0).as_bytes(), &[0u8]);
    assert_eq!(Atom::from_u16(0).as_bytes(), &[0u8]);
    assert_eq!(Atom::from_u32(0).as_bytes(), &[0u8]);
    assert_eq!(Atom::from_u64(0).as_bytes(), &[0u8]);
    assert_eq!(Atom::from_u128(0).as_bytes(), &[0u8]);
    assert_eq!(Atom::from_usize(0).as_bytes(), &[0u8]);
}

#[test]
fn integers_are_little_endian_and_minimal() {
    assert_eq!(Atom::from_u32(0x0102).as_bytes(), &[0x02u8, 0x01]);
    assert_eq!(Atom::from_u64(0x01_0000_0000).as_bytes(), &[0u8, 0, 0, 0, 1]);
    assert_eq!(Atom::from_u128(1u128 << 64).as_bytes(), &[0u8, 0, 0, 0, 0, 0, 0, 0, 1]);
}

#[test]
fn small_values_fit_wider_types() {
    let atom = Atom::from_u8(200);
    assert_eq!(atom.as_u8(), Ok(200));
    assert_eq!(atom.as_u16(), Ok(200));
    assert_eq!(atom.as_u32(), Ok(200));
    assert_eq!(atom.as_u64(), Ok(200));
    assert_eq!(atom.as_u128(), Ok(200));
    assert_eq!(atom.as_usize(), Ok(200));
}

#[test]
fn integer_round_trip_on_assorted_values() {
    for v in [0u64, 1, 255, 256, 65_535, 65_536, 0xdead_beef, u64::MAX - 1] {
        assert_eq!(Atom::from_u64(v).as_u64(), Ok(v));
        assert_eq!(Atom::from_u128(v as u128).as_u128(), Ok(v as u128));
    }
}

#[test]
fn too_wide_values_overflow() {
    assert_eq!(Atom::from_u16(256).as_u8(), Err(AccessError::Overflow));
    assert_eq!(Atom::from_u32(65_536).as_u16(), Err(AccessError::Overflow));
    assert_eq!(Atom::from_u64(1 << 32).as_u32(), Err(AccessError::Overflow));
    assert_eq!(Atom::from_u128(1 << 64).as_u64(), Err(AccessError::Overflow));
    assert_eq!(Atom::from_u128(1 << 64).as_usize(), Err(AccessError::Overflow));
    let wide = Atom::from(vec![1u8; 17]);
    assert_eq!(wide.as_u128(), Err(AccessError::Overflow));
}

#[test]
fn bit_len_of_seven_is_three() {
    assert_eq!(Atom::from_u8(7).bit_len(), 3);
}

#[test]
fn bit_len_of_139_is_eight() {
    assert_eq!(Atom::from_u8(139).bit_len(), 8);
}

#[test]
fn bit_len_of_256_is_nine() {
    assert_eq!(Atom::from_u16(256).bit_len(), 9);
}

#[test]
fn bit_len_of_zero_is_zero() {
    assert_eq!(Atom::from_u8(0).bit_len(), 0);
    assert_eq!(Atom::from_u8(1).bit_len(), 1);
    assert_eq!(Atom::from_u64(u64::MAX).bit_len(), 64);
}

#[test]
fn text_is_read_back() {
    let atom = Atom::from("hello");
    assert_eq!(atom.as_str(), Ok("hello"));
    assert_eq!(atom.as_bytes(), b"hello");
}

#[test]
fn invalid_utf8_is_no_text() {
    let atom = Atom::from(vec![0xffu8, 0xfe]);
    assert_eq!(atom.as_str(), Err(AccessError::InvalidEncoding));
    assert!(atom != "hello");
}

#[test]
fn atom_differs_from_other_text() {
    let atom = Atom::from("hello");
    assert!(atom != "hellp");
    assert!(atom != "hell");
    assert!(atom == *"hello");
}

#[test]
fn equal_atoms_have_equal_bytes() {
    assert_eq!(Atom::from_u32(77), Atom::from(vec![77u8, 0, 0]));
    assert_ne!(Atom::from_u32(77), Atom::from_u32(78));
    assert_ne!(Atom::from_u32(77), Atom::from_u32(77 + 256));
    let atom = Atom::from_u64(123_456);
    assert_eq!(atom.clone(), atom);
}

#[test]
fn atom_bits_are_its_bytes_low_bit_first() {
    // 0b0000_0110: a zero, two ones, a zero: the length code of k = 0 at the
    // front, which announces one bit.
    let atom = Atom::from_u8(0b0000_0110);
    let mut src = atom.as_bits();
    assert_eq!(decode_len(&mut src), Ok((1, 1)));
    // then 1, 1, 0 and the low bit 0 of the length: k = 2.
    assert_eq!(decode_len(&mut src), Ok((4, 5)));
}
