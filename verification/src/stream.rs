//! The bit reader that the decoder pulls from, and the bit writer that the
//! encoder fills.
//!
//! Both are `bitstream_io`'s, in little-endian bit order. What a function of
//! this module with a body that Verus does not read says of them is taken from
//! their source and is believed, not proved: that a reader hands out the bits
//! of its bytes in order, and that a writer lays down the bits it is given.
//!
//! The writer fails only where it is handed more bits than a number has, or a
//! number too large for its bits, or where what it writes into fails. The
//! first two are left out by `requires`, and it writes into a vector, which
//! takes every byte. So every write here is done, and says so.

use crate::bits::{bits_value, bytes_bits, leading_ones, ones, value_bits};
use bitstream_io::{BitRead, BitReader, BitWrite, BitWriter, LittleEndian};
use vstd::prelude::*;

verus! {

/// A `bitstream_io::BitReader` over a byte slice, reading each byte from its
/// least significant bit up.
#[verifier::external_body]
pub struct BitSource<'a> {
    inner: BitReader<&'a [u8], LittleEndian>,
}

/// The bits that a source has not handed out yet, in the order in which it will.
pub uninterp spec fn pending(src: BitSource) -> Seq<bool>;

impl<'a> BitSource<'a> {
    /// A source that hands out the bits of `bytes`, each byte from its least
    /// significant bit up.
    pub fn new(bytes: &'a [u8]) -> (src: BitSource<'a>)
        ensures
            pending(src) == bytes_bits(bytes@),
    {
        open_source(bytes)
    }
}

/// `BitReader::new` over a byte slice: nothing is consumed yet, so every bit of
/// every byte is pending, each byte from its least significant bit up.
#[verifier::external_body]
fn open_source<'a>(bytes: &'a [u8]) -> (src: BitSource<'a>)
    ensures
        pending(src) == bytes_bits(bytes@),
{
    BitSource { inner: BitReader::new(bytes) }
}

/// `BitRead::read_bit`: hands out the next pending bit, or fails when none is left.
#[verifier::external_body]
pub(crate) fn read_bit(src: &mut BitSource) -> (bit: Option<bool>)
    ensures
        pending(*old(src)).len() == 0 ==> bit is None,
        pending(*old(src)).len() > 0 ==> bit == Some(pending(*old(src))[0]) && pending(*final(src))
            == pending(*old(src)).skip(1),
{
    src.inner.read_bit().ok()
}

/// `BitRead::read_unary0`: counts the `true` bits up to the first `false` bit and
/// consumes them together with that `false` bit; fails when the pending bits
/// hold no `false` bit. The count is kept in 32 bits, so the pending bits must
/// be few enough to be counted.
#[verifier::external_body]
pub(crate) fn read_unary0(src: &mut BitSource) -> (count: Option<u32>)
    requires
        pending(*old(src)).len() <= u32::MAX,
    ensures
        leading_ones(pending(*old(src))) == pending(*old(src)).len() ==> count is None,
        leading_ones(pending(*old(src))) < pending(*old(src)).len() ==> count == Some(
            leading_ones(pending(*old(src))) as u32,
        ) && pending(*final(src)) == pending(*old(src)).skip(
            leading_ones(pending(*old(src))) as int + 1,
        ),
{
    src.inner.read_unary0().ok()
}

/// `BitRead::read::<u64>`: hands out the next `n` pending bits as a number, the
/// first bit read being the least significant; fails when fewer than `n` are left.
#[verifier::external_body]
pub(crate) fn read_bits(src: &mut BitSource, n: u32) -> (value: Option<u64>)
    requires
        n <= 64,
    ensures
        pending(*old(src)).len() < n ==> value is None,
        pending(*old(src)).len() >= n ==> value == Some(
            bits_value(pending(*old(src)).take(n as int)) as u64,
        ) && pending(*final(src)) == pending(*old(src)).skip(n as int),
{
    src.inner.read::<u64>(n).ok()
}

/// A `bitstream_io::BitWriter` into a byte vector, filling each byte from its
/// least significant bit up.
#[verifier::external_body]
pub struct BitSink {
    inner: BitWriter<Vec<u8>, LittleEndian>,
}

/// The bits that a sink has taken so far, in the order in which it took them.
pub uninterp spec fn written(sink: BitSink) -> Seq<bool>;

impl BitSink {
    /// A sink that has taken no bit yet.
    pub fn new() -> (sink: BitSink)
        ensures
            written(sink).len() == 0,
    {
        open_sink()
    }

    /// The bytes that the sink's bits fill, the last one filled up with zero
    /// bits. They are always there: a vector takes every bit.
    pub fn finish(self) -> (bytes: Option<Vec<u8>>)
        ensures
            bytes matches Some(filled) && bytes_bits(filled@) == padded(written(self)),
    {
        let mut sink = self;
        if !byte_align(&mut sink) {
            return None;
        }
        proof {
            let aligned = written(sink);
            assert(aligned.take(aligned.len() as int) == aligned);
            assert(aligned == padded(written(self))) by {
                lemma_padded(written(self), aligned);
            }
        }
        Some(into_bytes(sink))
    }
}

/// `bits`, filled up with `false` to the next multiple of eight.
pub open spec fn padded(bits: Seq<bool>) -> Seq<bool> {
    bits + Seq::new(((8 - bits.len() % 8) % 8) as nat, |i: int| false)
}

/// What fills `bits` up with fewer than eight `false` bits to a multiple of
/// eight is `padded(bits)`.
proof fn lemma_padded(bits: Seq<bool>, aligned: Seq<bool>)
    requires
        aligned.len() % 8 == 0,
        bits.len() <= aligned.len() < bits.len() + 8,
        aligned.take(bits.len() as int) == bits,
        forall|i: int| bits.len() <= i < aligned.len() ==> !aligned[i],
    ensures
        aligned == padded(bits),
{
    assert(aligned.len() == bits.len() + (8 - bits.len() % 8) % 8);
    assert forall|i: int| 0 <= i < aligned.len() implies aligned[i] == padded(bits)[i] by {
        if i < bits.len() {
            assert(aligned.take(bits.len() as int)[i] == aligned[i]);
        }
    }
    assert(aligned =~= padded(bits));
}

/// `BitWriter::new` over an empty vector: no bit is written yet.
#[verifier::external_body]
fn open_sink() -> (sink: BitSink)
    ensures
        written(sink).len() == 0,
{
    BitSink { inner: BitWriter::new(Vec::new()) }
}

/// `BitWrite::write_bit`: appends one bit. It fails only where the vector
/// below fails, which takes every byte: so it is done.
#[verifier::external_body]
pub(crate) fn write_bit(sink: &mut BitSink, bit: bool) -> (done: bool)
    ensures
        done,
        written(*final(sink)) == written(*old(sink)).push(bit),
{
    sink.inner.write_bit(bit).is_ok()
}

/// `BitWrite::write_unary0`: appends `count` bits `true` and one bit `false`.
/// It fails only where the vector below fails, which takes every byte: so it
/// is done.
#[verifier::external_body]
pub(crate) fn write_unary0(sink: &mut BitSink, count: u32) -> (done: bool)
    ensures
        done,
        written(*final(sink)) == written(*old(sink)) + ones(count as nat).push(false),
{
    sink.inner.write_unary0(count).is_ok()
}

/// `BitWrite::write::<u64>`: appends the `n` low bits of `value`, the least
/// significant first. The writer rejects more than 64 bits and a value that
/// does not fit in `n` bits, so callers hand it neither. Else it fails only
/// where the vector below fails, which takes every byte: so it is done.
#[verifier::external_body]
pub(crate) fn write_bits(sink: &mut BitSink, n: u32, value: u64) -> (done: bool)
    requires
        n <= 64,
        n < 64 ==> value < vstd::arithmetic::power2::pow2(n as nat),
    ensures
        done,
        written(*final(sink)) == written(*old(sink)) + value_bits(value as nat, n as nat),
{
    sink.inner.write::<u64>(n, value).is_ok()
}

/// `BitWrite::byte_align`: appends `false` bits until the number of bits is a
/// multiple of eight. It writes them bit by bit, and fails only where the
/// vector below fails, which takes every byte: so it is done.
#[verifier::external_body]
fn byte_align(sink: &mut BitSink) -> (done: bool)
    ensures
        done,
        written(*final(sink)).len() % 8 == 0,
        written(*old(sink)).len() <= written(*final(sink)).len() < written(*old(sink)).len() + 8,
        written(*final(sink)).take(written(*old(sink)).len() as int) == written(*old(sink)),
        forall|i: int|
            written(*old(sink)).len() <= i < written(*final(sink)).len() ==> !written(
                *final(sink),
            )[i],
{
    sink.inner.byte_align().is_ok()
}

/// `BitWriter::into_writer`: the vector that holds the written bits, eight to
/// a byte; bits of a last byte that is not full are dropped.
#[verifier::external_body]
fn into_bytes(sink: BitSink) -> (bytes: Vec<u8>)
    ensures
        bytes_bits(bytes@) == written(sink).take(8 * (written(sink).len() / 8) as int),
{
    sink.inner.into_writer()
}

} // verus!
