//! Atoms: unsigned integers of any size, kept as their shortest little-endian
//! byte string.

use crate::error::AccessError;
use crate::bits::{bit_len_u64, bit_length, bytes_bits, lemma_bit_length_le, lemma_pow2_le};
use crate::noun::Noun;
use crate::stream::{pending, BitSource};
use vstd::arithmetic::power2::pow2;
use vstd::prelude::*;
use vstd::std_specs::cmp::PartialEqSpecImpl;
use vstd::std_specs::convert::FromSpecImpl;
use vstd::string::StringSliceAdditionalSpecFns;
use vstd::utf8::valid_utf8;

verus! {

/// The number that `bytes` spell, the first byte being the least significant.
pub open spec fn le_value(bytes: Seq<u8>) -> nat
    decreases bytes.len(),
{
    if bytes.len() == 0 {
        0
    } else {
        bytes[0] as nat + 256 * le_value(bytes.skip(1))
    }
}

/// The little-endian bytes of `v` up to its last nonzero byte; none for zero.
pub open spec fn le_bytes(v: nat) -> Seq<u8>
    decreases v,
{
    if v == 0 {
        Seq::empty()
    } else {
        seq![(v % 256) as u8] + le_bytes(v / 256)
    }
}

/// The byte string that an atom of value `v` holds: `le_bytes(v)`, but a single
/// zero byte for zero.
pub open spec fn atom_bytes(v: nat) -> Seq<u8> {
    if v == 0 {
        seq![0u8]
    } else {
        le_bytes(v)
    }
}

/// A byte string is minimal when it is not empty and its last byte is nonzero,
/// or when it is the single zero byte.
pub open spec fn is_minimal(bytes: Seq<u8>) -> bool {
    bytes.len() >= 1 && (bytes.len() == 1 || bytes.last() != 0)
}

/// `bytes` without its trailing zero bytes; the single zero byte when nothing
/// else is left.
pub open spec fn minimal_form(bytes: Seq<u8>) -> Seq<u8>
    decreases bytes.len(),
{
    if bytes.len() == 0 {
        seq![0u8]
    } else if bytes.last() == 0 {
        minimal_form(bytes.drop_last())
    } else {
        bytes
    }
}

/// An unsigned integer of any size.
#[derive(Debug, Hash)]
pub struct Atom {
    bytes: Vec<u8>,
}

impl View for Atom {
    type V = Seq<u8>;

    /// The atom's bytes, least significant first.
    closed spec fn view(&self) -> Seq<u8> {
        self.bytes@
    }
}

impl Atom {
    #[verifier::type_invariant]
    spec fn minimal(&self) -> bool {
        is_minimal(self.bytes@)
    }

    /// The atom's value.
    pub open spec fn value(&self) -> nat {
        le_value(self@)
    }

    /// The atom's bytes, least significant first, in minimal form.
    pub fn as_bytes(&self) -> (bytes: &[u8])
        ensures
            bytes@ == self@,
            is_minimal(self@),
    {
        proof {
            use_type_invariant(self);
        }
        self.bytes.as_slice()
    }

    /// The atom as a noun.
    pub fn into_noun(self) -> (noun: Noun)
        ensures
            noun == Noun::Atom(self),
    {
        Noun::Atom(self)
    }

    /// A source that hands out the bits of the atom's bytes, least significant first.
    pub fn as_bits(&self) -> (src: BitSource<'_>)
        ensures
            pending(src) == bytes_bits(self@),
    {
        BitSource::new(self.as_bytes())
    }

    /// The number of bytes of the atom's minimal form.
    pub fn byte_len(&self) -> (len: usize)
        ensures
            len == self@.len(),
            len >= 1,
    {
        proof {
            use_type_invariant(self);
        }
        self.bytes.len()
    }
}

impl Atom {
    /// The atom of value `uint`.
    pub fn from_u128(uint: u128) -> (atom: Atom)
        ensures
            atom@ == atom_bytes(uint as nat),
    {
        let mut bytes: Vec<u8> = Vec::new();
        let mut rest: u128 = uint;
        while rest > 0
            invariant
                le_bytes(uint as nat) == bytes@ + le_bytes(rest as nat),
            decreases rest,
        {
            let ghost before = bytes@;
            bytes.push((rest % 256) as u8);
            proof {
                let low = seq![(rest % 256) as u8];
                assert(bytes@ == before + low);
                assert(bytes@ + le_bytes((rest / 256) as nat) == before + (low + le_bytes(
                    (rest / 256) as nat,
                )));
            }
            rest = rest / 256;
        }
        proof {
            lemma_le_bytes(uint as nat);
            assert(bytes@ == le_bytes(uint as nat));
        }
        if bytes.len() == 0 {
            bytes.push(0);
            assert(bytes@ == seq![0u8]);
        }
        Atom { bytes }
    }

    /// The atom's value, if its bytes are at most `width` many.
    fn to_u128(&self, width: usize) -> (value: Option<u128>)
        requires
            width <= 16,
        ensures
            self@.len() <= width ==> value == Some(self.value() as u128) && self.value() < pow2(
                8 * width as nat,
            ),
            self@.len() > width ==> value is None,
    {
        let len = self.bytes.len();
        if len > width {
            return None;
        }
        let mut acc: u128 = 0;
        let mut i: usize = len;
        while i > 0
            invariant
                i <= len,
                len == self.bytes@.len(),
                len <= 16,
                acc == le_value(self.bytes@.skip(i as int)),
            decreases i,
        {
            i -= 1;
            proof {
                let tail = self.bytes@.skip(i as int);
                assert(tail.skip(1) == self.bytes@.skip(i + 1));
                lemma_le_value_bound(tail.skip(1));
                lemma_le_value_bound(tail);
                vstd::arithmetic::power2::lemma_pow2_adds(8, 8 * tail.skip(1).len());
                lemma_pow2_le(8 * tail.len(), 128);
                vstd::arithmetic::power2::lemma2_to64();
                lemma_pow2_128();
            }
            acc = acc * 256 + self.bytes[i] as u128;
        }
        proof {
            assert(self.bytes@.skip(0) == self.bytes@);
            lemma_le_value_bound(self.bytes@);
            lemma_pow2_le(8 * len as nat, 8 * width as nat);
        }
        Some(acc)
    }

    /// The atom of value `uint`.
    pub fn from_u8(uint: u8) -> (atom: Atom)
        ensures
            atom@ == atom_bytes(uint as nat),
    {
        Atom::from_u128(uint as u128)
    }

    /// The atom of value `uint`.
    pub fn from_u16(uint: u16) -> (atom: Atom)
        ensures
            atom@ == atom_bytes(uint as nat),
    {
        Atom::from_u128(uint as u128)
    }

    /// The atom of value `uint`.
    pub fn from_u32(uint: u32) -> (atom: Atom)
        ensures
            atom@ == atom_bytes(uint as nat),
    {
        Atom::from_u128(uint as u128)
    }

    /// The atom of value `uint`.
    pub fn from_u64(uint: u64) -> (atom: Atom)
        ensures
            atom@ == atom_bytes(uint as nat),
    {
        Atom::from_u128(uint as u128)
    }

    /// The atom of value `uint`.
    pub fn from_usize(uint: usize) -> (atom: Atom)
        ensures
            atom@ == atom_bytes(uint as nat),
    {
        Atom::from_u128(uint as u128)
    }

    /// The atom's value as a `u8`; `Overflow` if it has more than one byte.
    pub fn as_u8(&self) -> (uint: Result<u8, AccessError>)
        ensures
            self@.len() <= 1 ==> uint == Ok::<u8, AccessError>(self.value() as u8) && self.value()
                <= u8::MAX,
            self@.len() > 1 ==> uint == Err::<u8, AccessError>(AccessError::Overflow),
    {
        proof {
            vstd::arithmetic::power2::lemma2_to64();
        }
        match self.to_u128(1) {
            Some(value) => Ok(value as u8),
            None => Err(AccessError::Overflow),
        }
    }

    /// The atom's value as a `u16`; `Overflow` if it has more than two bytes.
    pub fn as_u16(&self) -> (uint: Result<u16, AccessError>)
        ensures
            self@.len() <= 2 ==> uint == Ok::<u16, AccessError>(self.value() as u16)
                && self.value() <= u16::MAX,
            self@.len() > 2 ==> uint == Err::<u16, AccessError>(AccessError::Overflow),
    {
        proof {
            vstd::arithmetic::power2::lemma2_to64();
        }
        match self.to_u128(2) {
            Some(value) => Ok(value as u16),
            None => Err(AccessError::Overflow),
        }
    }

    /// The atom's value as a `u32`; `Overflow` if it has more than four bytes.
    pub fn as_u32(&self) -> (uint: Result<u32, AccessError>)
        ensures
            self@.len() <= 4 ==> uint == Ok::<u32, AccessError>(self.value() as u32)
                && self.value() <= u32::MAX,
            self@.len() > 4 ==> uint == Err::<u32, AccessError>(AccessError::Overflow),
    {
        proof {
            vstd::arithmetic::power2::lemma2_to64();
        }
        match self.to_u128(4) {
            Some(value) => Ok(value as u32),
            None => Err(AccessError::Overflow),
        }
    }

    /// The atom's value as a `u64`; `Overflow` if it has more than eight bytes.
    pub fn as_u64(&self) -> (uint: Result<u64, AccessError>)
        ensures
            self@.len() <= 8 ==> uint == Ok::<u64, AccessError>(self.value() as u64)
                && self.value() <= u64::MAX,
            self@.len() > 8 ==> uint == Err::<u64, AccessError>(AccessError::Overflow),
    {
        proof {
            vstd::arithmetic::power2::lemma2_to64();
        }
        match self.to_u128(8) {
            Some(value) => Ok(value as u64),
            None => Err(AccessError::Overflow),
        }
    }

    /// The atom's value as a `usize`; `Overflow` if it has more bytes than a `usize`.
    pub fn as_usize(&self) -> (uint: Result<usize, AccessError>)
        ensures
            self@.len() <= usize::BITS / 8 ==> uint == Ok::<usize, AccessError>(
                self.value() as usize,
            ) && self.value() <= usize::MAX,
            self@.len() > usize::BITS / 8 ==> uint == Err::<usize, AccessError>(
                AccessError::Overflow,
            ),
    {
        proof {
            vstd::arithmetic::power2::lemma2_to64();
        }
        let width: usize = (usize::BITS / 8) as usize;
        match self.to_u128(width) {
            Some(value) => Ok(value as usize),
            None => Err(AccessError::Overflow),
        }
    }

    /// The number of bits of the atom's value: zero for zero, else the index
    /// of its highest set bit plus one.
    pub fn bit_len(&self) -> (len: usize)
        requires
            8 * self@.len() <= usize::MAX,
        ensures
            len == bit_length(self.value()),
    {
        proof {
            use_type_invariant(self);
            lemma_bit_length_bytes(self.bytes@);
            vstd::arithmetic::power2::lemma2_to64();
            lemma_bit_length_le(self.bytes@.last() as nat, 8);
        }
        let n = self.bytes.len();
        let last = self.bytes[n - 1];
        if last == 0 {
            0
        } else {
            8 * (n - 1) + bit_len_u64(last as u64) as usize
        }
    }

    /// The atom's bytes as text; `InvalidEncoding` if they are not valid UTF-8.
    pub fn as_str(&self) -> (text: Result<&str, AccessError>)
        ensures
            valid_utf8(self@) ==> (text matches Ok(s) && s.spec_bytes() == self@),
            !valid_utf8(self@) ==> text == Err::<&str, AccessError>(AccessError::InvalidEncoding),
    {
        match utf8_text(self.as_bytes()) {
            Some(text) => Ok(text),
            None => Err(AccessError::InvalidEncoding),
        }
    }

    /// The atom's value as a `u128`; `Overflow` if it has more than sixteen bytes.
    pub fn as_u128(&self) -> (uint: Result<u128, AccessError>)
        ensures
            self@.len() <= 16 ==> uint == Ok::<u128, AccessError>(self.value() as u128)
                && self.value() <= u128::MAX,
            self@.len() > 16 ==> uint == Err::<u128, AccessError>(AccessError::Overflow),
    {
        proof {
            lemma_pow2_128();
        }
        match self.to_u128(16) {
            Some(value) => Ok(value),
            None => Err(AccessError::Overflow),
        }
    }
}

/// Two to the 128 is one more than the largest `u128`.
proof fn lemma_pow2_128()
    ensures
        pow2(128) == u128::MAX + 1,
{
    vstd::arithmetic::power2::lemma2_to64();
    vstd::arithmetic::power2::lemma_pow2_adds(64, 64);
    assert(0x10000000000000000int * 0x10000000000000000int == u128::MAX + 1) by (nonlinear_arith);
}

/// `std::str::from_utf8`: the bytes as text, when they are valid UTF-8; the
/// text then has those very bytes.
#[verifier::external_body]
fn utf8_text(bytes: &[u8]) -> (text: Option<&str>)
    ensures
        text is Some <==> valid_utf8(bytes@),
        text matches Some(s) ==> s.spec_bytes() == bytes@,
{
    std::str::from_utf8(bytes).ok()
}

/// Whether two byte strings are the same.
fn same_bytes(a: &[u8], b: &[u8]) -> (same: bool)
    ensures
        same == (a@ == b@),
{
    if a.len() != b.len() {
        return false;
    }
    let mut i: usize = 0;
    while i < a.len()
        invariant
            i <= a.len(),
            a.len() == b.len(),
            a@.take(i as int) == b@.take(i as int),
        decreases a.len() - i,
    {
        if a[i] != b[i] {
            assert(a@[i as int] != b@[i as int]);
            return false;
        }
        i += 1;
        assert(a@.take(i as int) == a@.take(i - 1).push(a@[i - 1]));
        assert(b@.take(i as int) == b@.take(i - 1).push(b@[i - 1]));
    }
    assert(a@ == a@.take(i as int) && b@ == b@.take(i as int));
    true
}

/// Below a byte that is not zero, each byte adds eight bits.
pub proof fn lemma_bit_length_scaled(low: nat, high: nat, n: nat)
    requires
        low < pow2(n),
        high > 0,
    ensures
        bit_length(low + pow2(n) * high) == n + bit_length(high),
    decreases n,
{
    vstd::arithmetic::power2::lemma2_to64();
    if n > 0 {
        vstd::arithmetic::power2::lemma_pow2_unfold(n);
        let half = pow2((n - 1) as nat);
        assert((low + (2 * half) * high) / 2 == low / 2 + half * high) by (nonlinear_arith);
        assert(low + pow2(n) * high > 0) by (nonlinear_arith)
            requires
                high > 0,
                pow2(n) > 0,
        ;
        lemma_bit_length_scaled(low / 2, high, (n - 1) as nat);
    } else {
        assert(low + 1 * high == high);
    }
}

/// The number of bits of an atom's value, from its bytes: eight for each byte
/// but the last, and the bits of the last.
pub proof fn lemma_bit_length_bytes(bytes: Seq<u8>)
    requires
        is_minimal(bytes),
    ensures
        bit_length(le_value(bytes)) == if bytes.last() == 0 {
            0
        } else {
            8 * (bytes.len() - 1) + bit_length(bytes.last() as nat)
        },
    decreases bytes.len(),
{
    vstd::arithmetic::power2::lemma2_to64();
    let rest = bytes.skip(1);
    if bytes.len() == 1 {
        assert(le_value(rest) == 0);
    } else {
        assert(rest.last() == bytes.last());
        lemma_bit_length_bytes(rest);
        assert(bit_length(bytes.last() as nat) >= 1);
        lemma_bit_length_scaled(bytes[0] as nat, le_value(rest), 8);
    }
}

/// One more byte at the end adds its value above the bytes before it.
pub proof fn lemma_le_value_push(bytes: Seq<u8>, byte: u8)
    ensures
        le_value(bytes.push(byte)) == le_value(bytes) + byte * pow2(8 * bytes.len()),
    decreases bytes.len(),
{
    vstd::arithmetic::power2::lemma2_to64();
    let longer = bytes.push(byte);
    if bytes.len() == 0 {
        assert(longer.skip(1).len() == 0);
        assert(le_value(longer.skip(1)) == 0);
        assert(longer[0] == byte);
        assert(byte * pow2(0) == byte);
    } else {
        assert(longer.skip(1) == bytes.skip(1).push(byte));
        assert(longer[0] == bytes[0]);
        lemma_le_value_push(bytes.skip(1), byte);
        vstd::arithmetic::power2::lemma_pow2_adds(8, 8 * bytes.skip(1).len());
        let high = pow2(8 * bytes.skip(1).len());
        assert(8 + 8 * bytes.skip(1).len() == 8 * bytes.len());
        assert(pow2(8 * bytes.len()) == 256 * high);
        assert(256 * (le_value(bytes.skip(1)) + byte * high) == 256 * le_value(bytes.skip(1)) + byte
            * (256 * high)) by (nonlinear_arith);
    }
}

/// The minimal form of a byte string is minimal and spells the same number.
/// It is the single zero byte when every byte is zero; otherwise it is the
/// string up to its last nonzero byte. A minimal string is its own minimal
/// form.
pub proof fn lemma_minimal_form(bytes: Seq<u8>)
    ensures
        is_minimal(minimal_form(bytes)),
        le_value(minimal_form(bytes)) == le_value(bytes),
        is_minimal(bytes) ==> minimal_form(bytes) == bytes,
        (forall|i: int| 0 <= i < bytes.len() ==> bytes[i] == 0) ==> minimal_form(bytes) == seq![
            0u8,
        ],
        (exists|i: int| 0 <= i < bytes.len() && bytes[i] != 0) ==> {
            let kept = minimal_form(bytes).len() as int;
            &&& 1 <= kept <= bytes.len()
            &&& minimal_form(bytes) == bytes.take(kept)
            &&& bytes[kept - 1] != 0
            &&& forall|i: int| kept <= i < bytes.len() ==> bytes[i] == 0
        },
    decreases bytes.len(),
{
    let zero = seq![0u8];
    assert(zero.skip(1).len() == 0);
    assert(le_value(zero.skip(1)) == 0);
    assert(le_value(zero) == 0);
    if bytes.len() == 0 {
    } else if bytes.last() == 0 {
        let front = bytes.drop_last();
        lemma_minimal_form(front);
        assert(bytes == front.push(0u8));
        lemma_le_value_push(front, 0u8);
        if is_minimal(bytes) {
            assert(front.len() == 0);
            assert(bytes =~= zero);
        }
        if exists|i: int| 0 <= i < bytes.len() && bytes[i] != 0 {
            let i = choose|i: int| 0 <= i < bytes.len() && bytes[i] != 0;
            assert(front[i] != 0);
            let kept = minimal_form(front).len() as int;
            assert(front.take(kept) =~= bytes.take(kept));
        }
    } else {
        assert(bytes.take(bytes.len() as int) =~= bytes);
    }
}

/// An integer is read back from its atom by every type that is wide enough for
/// it, and by no other: the atom of `v` spells `v`, and it has at most `width`
/// bytes exactly when `v` is below two to the `8 * width`.
pub proof fn lemma_uint_round_trip(v: nat, width: nat)
    requires
        width >= 1,
    ensures
        is_minimal(atom_bytes(v)),
        le_value(atom_bytes(v)) == v,
        v < pow2(8 * width) <==> atom_bytes(v).len() <= width,
{
    lemma_le_bytes(v);
    lemma_le_bytes_len(v, width);
}

/// A number has at most `width` bytes exactly when it is below two to the
/// `8 * width`.
pub proof fn lemma_le_bytes_len(v: nat, width: nat)
    ensures
        v < pow2(8 * width) <==> le_bytes(v).len() <= width,
    decreases width,
{
    vstd::arithmetic::power2::lemma2_to64();
    if width == 0 {
        lemma_le_bytes(v);
    } else if v > 0 {
        lemma_le_bytes_len(v / 256, (width - 1) as nat);
        vstd::arithmetic::power2::lemma_pow2_adds(8, (8 * (width - 1)) as nat);
        let high = pow2((8 * (width - 1)) as nat);
        assert(v < 256 * high <==> v / 256 < high) by (nonlinear_arith);
        assert(le_bytes(v).len() == 1 + le_bytes(v / 256).len());
    } else {
        vstd::arithmetic::power2::lemma_pow2_pos(8 * width);
    }
}

/// `n` bytes spell a number below two to the `8n`.
pub proof fn lemma_le_value_bound(bytes: Seq<u8>)
    ensures
        le_value(bytes) < pow2(8 * bytes.len()),
    decreases bytes.len(),
{
    vstd::arithmetic::power2::lemma2_to64();
    if bytes.len() > 0 {
        lemma_le_value_bound(bytes.skip(1));
        vstd::arithmetic::power2::lemma_pow2_adds(8, 8 * bytes.skip(1).len());
        assert(bytes[0] as nat + 256 * le_value(bytes.skip(1)) < 256 * pow2(
            8 * bytes.skip(1).len(),
        )) by (nonlinear_arith)
            requires
                bytes[0] < 256,
                le_value(bytes.skip(1)) < pow2(8 * bytes.skip(1).len()),
        ;
    }
}

/// The bytes of a number spell it, and end in a nonzero byte.
pub proof fn lemma_le_bytes(v: nat)
    ensures
        le_value(le_bytes(v)) == v,
        v == 0 <==> le_bytes(v).len() == 0,
        v > 0 ==> le_bytes(v).last() != 0,
        is_minimal(atom_bytes(v)),
        le_value(atom_bytes(v)) == v,
    decreases v,
{
    if v > 0 {
        lemma_le_bytes(v / 256);
        let low = seq![(v % 256) as u8];
        let bytes = le_bytes(v);
        assert(bytes == low + le_bytes(v / 256));
        assert(bytes.skip(1) == le_bytes(v / 256));
        if v / 256 > 0 {
            assert(bytes.last() == le_bytes(v / 256).last());
        }
    } else {
        let zero = seq![0u8];
        assert(zero.skip(1).len() == 0);
        assert(le_value(zero.skip(1)) == 0);
        assert(le_value(zero) == 0);
    }
}

impl Clone for Atom {
    fn clone(&self) -> (copy: Atom)
        ensures
            copy@ == self@,
    {
        proof {
            use_type_invariant(self);
        }
        Atom { bytes: self.bytes.clone() }
    }
}

impl From<Vec<u8>> for Atom {
    /// The atom whose value `bytes` spell, least significant byte first.
    /// Trailing zero bytes are dropped.
    fn from(bytes: Vec<u8>) -> (atom: Atom)
        ensures
            atom@ == minimal_form(bytes@),
    {
        let mut kept = bytes;
        let ghost given = kept@;
        while kept.len() > 0 && kept[kept.len() - 1] == 0
            invariant
                minimal_form(kept@) == minimal_form(given),
            decreases kept.len(),
        {
            kept.pop();
        }
        if kept.len() == 0 {
            kept.push(0);
        }
        Atom { bytes: kept }
    }
}

impl FromSpecImpl<Vec<u8>> for Atom {
    open spec fn obeys_from_spec() -> bool {
        false
    }

    open spec fn from_spec(bytes: Vec<u8>) -> Atom {
        arbitrary()
    }
}

impl PartialEq for Atom {
    fn eq(&self, other: &Atom) -> (equal: bool) {
        same_bytes(self.as_bytes(), other.as_bytes())
    }
}

impl Eq for Atom {}

impl PartialEqSpecImpl for Atom {
    open spec fn obeys_eq_spec() -> bool {
        true
    }

    open spec fn eq_spec(&self, other: &Atom) -> bool {
        self@ == other@
    }
}

impl From<&str> for Atom {
    /// The atom whose bytes are those of `text`. Trailing zero bytes are dropped.
    fn from(text: &str) -> (atom: Atom)
        ensures
            atom@ == minimal_form(text.spec_bytes()),
    {
        Atom::from(vstd::slice::slice_to_vec(text.as_bytes()))
    }
}

impl FromSpecImpl<&str> for Atom {
    open spec fn obeys_from_spec() -> bool {
        false
    }

    open spec fn from_spec(text: &str) -> Atom {
        arbitrary()
    }
}

impl PartialEq<str> for Atom {
    fn eq(&self, other: &str) -> (equal: bool) {
        same_bytes(self.as_bytes(), other.as_bytes())
    }
}

impl PartialEqSpecImpl<str> for Atom {
    open spec fn obeys_eq_spec() -> bool {
        true
    }

    open spec fn eq_spec(&self, other: &str) -> bool {
        self@ == other.spec_bytes()
    }
}

impl PartialEq<&str> for Atom {
    fn eq(&self, other: &&str) -> (equal: bool) {
        same_bytes(self.as_bytes(), other.as_bytes())
    }
}

impl PartialEqSpecImpl<&str> for Atom {
    open spec fn obeys_eq_spec() -> bool {
        true
    }

    open spec fn eq_spec(&self, other: &&str) -> bool {
        self@ == other.spec_bytes()
    }
}

} // verus!
