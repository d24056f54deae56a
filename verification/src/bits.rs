//! In-memory bit sink and bit source.
//!
//! The coder reads and writes individual bits; the surrounding driver deals
//! in bytes.  [`BitSink`] collects bits most-significant-bit first and packs
//! them into bytes, [`BitSource`] hands out the bits of a byte sequence in
//! the same order.  Both are plain buffers, so a whole encode/decode session
//! is a pure function of its inputs.

use vstd::arithmetic::power2::{lemma2_to64, lemma_pow2_unfold, pow2};
use vstd::prelude::*;

verus! {

/// The value of a bit string, most significant bit first.
pub open spec fn bits_value(s: Seq<bool>) -> int
    decreases s.len(),
{
    if s.len() == 0 {
        0
    } else {
        2 * bits_value(s.drop_last()) + (if s.last() {
            1int
        } else {
            0int
        })
    }
}

/// A bit string's value fits in as many bits as it has.
pub proof fn lemma_bits_value_bound(s: Seq<bool>)
    ensures
        0 <= bits_value(s) < pow2(s.len()),
    decreases s.len(),
{
    if s.len() == 0 {
        assert(pow2(0) == 1) by {
            lemma2_to64();
        }
    } else {
        lemma_bits_value_bound(s.drop_last());
        lemma_pow2_unfold(s.len());
    }
}

/// The bits of one byte, most significant first.
pub open spec fn byte_bits(b: u8) -> Seq<bool> {
    Seq::new(8, |j: int| (b >> ((7 - j) as u8)) & 1 == 1)
}

/// The bits of a byte sequence in order, most significant bit of each byte
/// first.
pub open spec fn bytes_bits(bytes: Seq<u8>) -> Seq<bool>
    decreases bytes.len(),
{
    if bytes.len() == 0 {
        Seq::empty()
    } else {
        byte_bits(bytes[0]) + bytes_bits(bytes.skip(1))
    }
}

/// Appending a byte appends its eight bits.
pub proof fn lemma_bytes_bits_push(s: Seq<u8>, x: u8)
    ensures
        bytes_bits(s.push(x)) == bytes_bits(s) + byte_bits(x),
    decreases s.len(),
{
    if s.len() == 0 {
        assert(s.push(x).skip(1) =~= Seq::<u8>::empty());
        assert(s.push(x)[0] == x);
        assert(byte_bits(x) + bytes_bits(Seq::<u8>::empty()) =~= byte_bits(x));
        assert(bytes_bits(s) + byte_bits(x) =~= byte_bits(x));
    } else {
        lemma_bytes_bits_push(s.skip(1), x);
        assert(s.push(x).skip(1) =~= s.skip(1).push(x));
        assert(s.push(x)[0] == s[0]);
        assert(byte_bits(s[0]) + (bytes_bits(s.skip(1)) + byte_bits(x)) =~= (byte_bits(s[0])
            + bytes_bits(s.skip(1))) + byte_bits(x));
    }
}

/// Each bit of a byte's value is the bit it was packed from.
proof fn lemma_byte_bit_positions(v: u8, x0: u8, x1: u8, x2: u8, x3: u8, x4: u8, x5: u8, x6: u8, x7: u8)
    by (bit_vector)
    requires
        x0 <= 1 && x1 <= 1 && x2 <= 1 && x3 <= 1 && x4 <= 1 && x5 <= 1 && x6 <= 1 && x7 <= 1,
        v == 128 * x0 + 64 * x1 + 32 * x2 + 16 * x3 + 8 * x4 + 4 * x5 + 2 * x6 + x7,
    ensures
        ((v >> 7u8) & 1 == 1) == (x0 == 1),
        ((v >> 6u8) & 1 == 1) == (x1 == 1),
        ((v >> 5u8) & 1 == 1) == (x2 == 1),
        ((v >> 4u8) & 1 == 1) == (x3 == 1),
        ((v >> 3u8) & 1 == 1) == (x4 == 1),
        ((v >> 2u8) & 1 == 1) == (x5 == 1),
        ((v >> 1u8) & 1 == 1) == (x6 == 1),
        ((v >> 0u8) & 1 == 1) == (x7 == 1),
{
}

/// The bits of an eight-bit value are the bits it was read from.
proof fn lemma_byte_bits_of_value(s: Seq<bool>)
    requires
        s.len() == 8,
    ensures
        byte_bits(bits_value(s) as u8) == s,
{
    lemma_bits_value_bound(s);
    lemma2_to64();
    let s7 = s.drop_last();
    let s6 = s7.drop_last();
    let s5 = s6.drop_last();
    let s4 = s5.drop_last();
    let s3 = s4.drop_last();
    let s2 = s3.drop_last();
    let s1 = s2.drop_last();
    let s0 = s1.drop_last();
    assert(s0.len() == 0);
    assert(bits_value(s0) == 0);
    let b = |j: int| (if s[j] { 1u8 } else { 0u8 });
    assert(bits_value(s) == 2 * bits_value(s7) + b(7));
    assert(bits_value(s7) == 2 * bits_value(s6) + b(6));
    assert(bits_value(s6) == 2 * bits_value(s5) + b(5));
    assert(bits_value(s5) == 2 * bits_value(s4) + b(4));
    assert(bits_value(s4) == 2 * bits_value(s3) + b(3));
    assert(bits_value(s3) == 2 * bits_value(s2) + b(2));
    assert(bits_value(s2) == 2 * bits_value(s1) + b(1));
    assert(bits_value(s1) == 2 * bits_value(s0) + b(0));
    assert(bits_value(s) == 128 * b(0) + 64 * b(1) + 32 * b(2) + 16 * b(3) + 8 * b(4) + 4 * b(5)
        + 2 * b(6) + b(7));
    let v = bits_value(s) as u8;
    lemma_byte_bit_positions(v, b(0), b(1), b(2), b(3), b(4), b(5), b(6), b(7));
    assert(byte_bits(v) =~= s);
}

/// Packing a whole number of bytes and unpacking them again restores the
/// bits exactly: what [`BitSink::to_bytes`] hands out,
/// [`BitSource::from_bytes`] reads back unchanged.
pub proof fn lemma_pack_unpack(bits: Seq<bool>, bytes: Seq<u8>)
    requires
        bits.len() % 8 == 0,
        bytes.len() * 8 == bits.len(),
        forall|i: int|
            0 <= i < bytes.len() ==> #[trigger] bytes[i] as int == bits_value(
                bits.subrange(8 * i, 8 * i + 8),
            ),
    ensures
        bytes_bits(bytes) == bits,
    decreases bytes.len(),
{
    if bytes.len() == 0 {
        assert(bytes_bits(bytes) =~= bits);
    } else {
        let head = bits.subrange(0, 8);
        lemma_byte_bits_of_value(head);
        assert(bytes[0] as int == bits_value(head));
        assert(byte_bits(bytes[0]) == head);
        let tail = bits.skip(8);
        assert forall|i: int| 0 <= i < bytes.skip(1).len() implies #[trigger] bytes.skip(1)[i]
            as int == bits_value(tail.subrange(8 * i, 8 * i + 8)) by {
            assert(tail.subrange(8 * i, 8 * i + 8) =~= bits.subrange(8 * (i + 1), 8 * (i + 1) + 8));
        }
        lemma_pack_unpack(tail, bytes.skip(1));
        assert(byte_bits(bytes[0]) + bytes_bits(bytes.skip(1)) =~= bits);
    }
}

/// An output sink that collects single bits and packs them into bytes,
/// most significant bit first.
pub struct BitSink {
    pub bits: Vec<bool>,
}

impl View for BitSink {
    type V = Seq<bool>;

    open spec fn view(&self) -> Seq<bool> {
        self.bits@
    }
}

impl BitSink {
    /// An empty sink.
    pub fn new() -> (r: Self)
        ensures
            r@ == Seq::<bool>::empty(),
    {
        BitSink { bits: Vec::new() }
    }

    /// Appends one bit.
    pub fn write_bit(&mut self, bit: bool)
        ensures
            final(self)@ == old(self)@.push(bit),
    {
        self.bits.push(bit);
    }

    /// The number of bits written so far.
    pub fn len(&self) -> (r: usize)
        ensures
            r == self@.len(),
    {
        self.bits.len()
    }

    /// Appends `0` bits up to the next byte boundary.
    pub fn pad_to_byte(&mut self)
        ensures
            final(self)@ == old(self)@ + Seq::new(
                (((8 - old(self)@.len() as int % 8) % 8)) as nat,
                |i: int| false,
            ),
    {
        let ghost base = self@;
        while self.bits.len() % 8 != 0
            invariant
                base.len() <= self@.len(),
                self@.len() - base.len() <= (8 - base.len() as int % 8) % 8,
                self@ == base + Seq::new((self@.len() - base.len()) as nat, |i: int| false),
            decreases (8 - base.len() as int % 8) % 8 - (self@.len() - base.len()),
        {
            self.bits.push(false);
            proof {
                assert(self@ == base + Seq::new((self@.len() - base.len()) as nat, |i: int| false));
            }
        }
        proof {
            assert(self@ == base + Seq::new((((8 - base.len() as int % 8) % 8)) as nat, |i: int| false));
        }
    }

    /// Packs the collected bits into bytes, most significant bit first.
    /// Requires a whole number of bytes; call [`BitSink::pad_to_byte`] first.
    pub fn to_bytes(&self) -> (r: Vec<u8>)
        requires
            self@.len() % 8 == 0,
        ensures
            r@.len() * 8 == self@.len(),
            forall|i: int|
                0 <= i < r@.len() ==> #[trigger] r@[i] as int == bits_value(
                    self@.subrange(8 * i, 8 * i + 8),
                ),
    {
        let mut out: Vec<u8> = Vec::new();
        let n: usize = self.bits.len() / 8;
        let mut i: usize = 0;
        while i < n
            invariant
                8 * n == self@.len(),
                8 * n <= usize::MAX,
                i <= n,
                out@.len() == i,
                forall|k: int|
                    0 <= k < i ==> #[trigger] out@[k] as int == bits_value(
                        self@.subrange(8 * k, 8 * k + 8),
                    ),
            decreases n - i,
        {
            let mut acc: u8 = 0;
            let mut j: usize = 0;
            while j < 8
                invariant
                    8 * n == self@.len(),
                    8 * n <= usize::MAX,
                    i < n,
                    j <= 8,
                    acc as int == bits_value(self@.subrange(8 * i as int, 8 * i as int + j)),
            decreases 8 - j,
            {
                proof {
                    lemma_bits_value_bound(self@.subrange(8 * i as int, 8 * i as int + j));
                    lemma2_to64();
                    vstd::arithmetic::power2::lemma_pow2_strictly_increases(j as nat, 8);
                    assert(self@.subrange(8 * i as int, 8 * i as int + j + 1).drop_last()
                        == self@.subrange(8 * i as int, 8 * i as int + j));
                }
                let b: bool = self.bits[8 * i + j];
                acc = acc * 2 + (if b {
                    1
                } else {
                    0
                });
                j = j + 1;
            }
            out.push(acc);
            i = i + 1;
        }
        out
    }
}

/// An input source that hands out the bits of a byte sequence one at a
/// time, most significant bit first, and reports exhaustion.
pub struct BitSource {
    pub bits: Vec<bool>,
    pub pos: usize,
}

impl View for BitSource {
    type V = Seq<bool>;

    open spec fn view(&self) -> Seq<bool> {
        self.bits@
    }
}

impl BitSource {
    /// How many bits have been read so far.
    pub open spec fn position(&self) -> int {
        self.pos as int
    }

    /// The read position never runs past the end.
    pub open spec fn wf(&self) -> bool {
        self.pos <= self.bits@.len()
    }

    /// A source over the given bits.
    pub fn from_bits(bits: Vec<bool>) -> (r: Self)
        ensures
            r@ == bits@,
            r.position() == 0,
            r.wf(),
    {
        BitSource { bits, pos: 0 }
    }

    /// A source over the bits of `bytes`, most significant bit first: the
    /// bits of byte `i` are the slice `[8 * i, 8 * i + 8)` of the source.
    pub fn from_bytes(bytes: &Vec<u8>) -> (r: Self)
        ensures
            r@ == bytes_bits(bytes@),
            r@.len() == 8 * bytes@.len(),
            forall|i: int|
                0 <= i < bytes@.len() ==> bits_value(#[trigger] r@.subrange(8 * i, 8 * i + 8))
                    == bytes@[i],
            r.position() == 0,
            r.wf(),
    {
        let mut bits: Vec<bool> = Vec::new();
        let n: usize = bytes.len();
        let mut i: usize = 0;
        proof {
            assert(bytes@.subrange(0, 0) =~= Seq::<u8>::empty());
            assert(bits@ =~= bytes_bits(bytes@.subrange(0, 0)));
        }
        while i < n
            invariant
                n == bytes@.len(),
                i <= n,
                bits@.len() == 8 * i,
                bits@ == bytes_bits(bytes@.subrange(0, i as int)),
                forall|k: int|
                    0 <= k < i ==> bits_value(#[trigger] bits@.subrange(8 * k, 8 * k + 8))
                        == bytes@[k],
            decreases n - i,
        {
            let ghost before = bits@;
            let b: u8 = bytes[i];
            proof {
                assert(b >> 8u8 == 0) by (bit_vector);
                assert(bits@.subrange(before.len() as int, bits@.len() as int)
                    =~= Seq::<bool>::empty());
            }
            let mut j: u8 = 0;
            while j < 8
                invariant
                    j <= 8,
                    bits@.len() == before.len() + j,
                    bits@.subrange(0, before.len() as int) =~= before,
                    bits@.subrange(before.len() as int, bits@.len() as int) == byte_bits(
                        b,
                    ).subrange(0, j as int),
                    bits_value(bits@.subrange(before.len() as int, bits@.len() as int)) == (b >> (
                    (8 - j) as u8)) as int,
                decreases 8 - j,
            {
                let bit: bool = (b >> (7 - j)) & 1 == 1;
                let ghost prev = bits@;
                bits.push(bit);
                proof {
                    assert(bits@.subrange(0, before.len() as int) =~= before);
                    let tail_prev = prev.subrange(before.len() as int, prev.len() as int);
                    let tail_new = bits@.subrange(before.len() as int, bits@.len() as int);
                    assert(tail_new.drop_last() =~= tail_prev);
                    assert(tail_new.last() == bit);
                    assert(byte_bits(b)[j as int] == bit);
                    assert(tail_new =~= byte_bits(b).subrange(0, j as int + 1));
                    assert(b >> ((7 - j) as u8) == 2 * (b >> ((8 - j) as u8)) + (if ((b >> ((7 - j)
                        as u8)) & 1 == 1) {
                        1int
                    } else {
                        0int
                    })) by (bit_vector)
                        requires
                            j < 8,
                    ;
                }
                j = j + 1;
            }
            proof {
                assert(b >> 0u8 == b) by (bit_vector);
                assert(bits@.subrange(8 * i as int, 8 * i as int + 8) =~= bits@.subrange(
                    before.len() as int,
                    bits@.len() as int,
                ));
                assert(byte_bits(b).subrange(0, 8) =~= byte_bits(b));
                lemma_bytes_bits_push(bytes@.subrange(0, i as int), b);
                assert(bytes@.subrange(0, i as int).push(b) =~= bytes@.subrange(0, i as int + 1));
                assert(bits@ =~= before + byte_bits(b));
                assert forall|k: int| 0 <= k < i implies bits_value(
                    #[trigger] bits@.subrange(8 * k, 8 * k + 8),
                ) == bytes@[k] by {
                    assert(bits@.subrange(8 * k, 8 * k + 8) =~= before.subrange(8 * k, 8 * k + 8));
                }
            }
            i = i + 1;
        }
        proof {
            assert(bytes@.subrange(0, n as int) =~= bytes@);
        }
        BitSource { bits, pos: 0 }
    }

    /// Hands out the next bit, or `None` when the source is exhausted.
    pub fn read_bit(&mut self) -> (r: Option<bool>)
        requires
            old(self).wf(),
        ensures
            final(self)@ == old(self)@,
            final(self).wf(),
            old(self).position() < old(self)@.len() ==> r == Some(old(self)@[old(self).position()])
                && final(self).position() == old(self).position() + 1,
            old(self).position() >= old(self)@.len() ==> r is None && final(self).position() == old(
                self,
            ).position(),
    {
        if self.pos < self.bits.len() {
            let b: bool = self.bits[self.pos];
            self.pos = self.pos + 1;
            Some(b)
        } else {
            None
        }
    }
}

} // verus!
