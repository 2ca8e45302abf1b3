//! Bit-level stream primitives: a `BitWriter` that collects single bits and
//! packs them into bytes (least-significant bit of each byte first), and a
//! seekable `BitReader` over an unpacked byte string.

use vstd::prelude::*;

verus! {

/// Bit `i` of a byte, least-significant first; `false` outside `0..8`.
pub open spec fn bit8(b: u8, i: int) -> bool {
    if 0 <= i < 8 {
        (b >> (i as u8)) & 1u8 == 1u8
    } else {
        false
    }
}

/// The eight bits of a byte, least significant first.
pub open spec fn byte_bits(b: u8) -> Seq<bool> {
    Seq::new(8, |i: int| bit8(b, i))
}

/// All bits of a byte string, each byte least-significant bit first.
pub open spec fn stream_bits(bytes: Seq<u8>) -> Seq<bool> {
    Seq::new(8 * bytes.len(), |k: int| bit8(bytes[k / 8], k % 8))
}

/// The byte whose low bits are `bs` (at most eight), higher bits zero.
pub open spec fn byte_of_bits(bs: Seq<bool>) -> u8
    decreases bs.len(),
{
    if bs.len() <= 0 || bs.len() > 8 {
        0u8
    } else if bs.last() {
        byte_of_bits(bs.drop_last()) | (1u8 << ((bs.len() - 1) as u8))
    } else {
        byte_of_bits(bs.drop_last())
    }
}

proof fn lemma_zero_bit(i: u8)
    by (bit_vector)
    requires
        i < 8,
    ensures
        (0u8 >> i) & 1u8 == 0u8,
{
}

proof fn lemma_or_bit(d: u8, k: u8, i: u8)
    by (bit_vector)
    requires
        k < 8,
        i < 8,
    ensures
        i == k ==> ((d | (1u8 << k)) >> i) & 1u8 == 1u8,
        i != k ==> ((d | (1u8 << k)) >> i) & 1u8 == (d >> i) & 1u8,
{
}

/// `byte_of_bits` gives a byte whose bits are exactly the given ones.
pub proof fn lemma_byte_of_bits_bit(bs: Seq<bool>)
    requires
        bs.len() <= 8,
    ensures
        forall|i: int| #[trigger] bit8(byte_of_bits(bs), i) == (0 <= i < bs.len() && bs[i]),
    decreases bs.len(),
{
    if bs.len() <= 0 {
        assert forall|i: int| #[trigger] bit8(byte_of_bits(bs), i) == (0 <= i < bs.len()
            && bs[i]) by {
            assert(byte_of_bits(bs) == 0u8);
            if 0 <= i < 8 {
                lemma_zero_bit(i as u8);
            }
        }
    } else {
        let prev = bs.drop_last();
        let b0 = byte_of_bits(prev);
        let k = bs.len() - 1;
        lemma_byte_of_bits_bit(prev);
        if bs.last() {
            let b = b0 | (1u8 << (k as u8));
            assert(byte_of_bits(bs) == b);
            assert forall|i: int| #[trigger] bit8(byte_of_bits(bs), i) == (0 <= i < bs.len()
                && bs[i]) by {
                assert(bit8(byte_of_bits(prev), i) == (0 <= i < prev.len() && prev[i]));
                assert(bit8(byte_of_bits(bs), i) == bit8(b, i));
                if 0 <= i < 8 {
                    lemma_or_bit(b0, k as u8, i as u8);
                    if i == k {
                        assert(bit8(b, i));
                        assert(bs[i] == bs.last());
                    } else {
                        assert(bit8(b, i) == bit8(b0, i));
                        if 0 <= i < k {
                            assert(prev[i] == bs[i]);
                        }
                    }
                }
            }
        } else {
            assert(byte_of_bits(bs) == b0);
            assert forall|i: int| #[trigger] bit8(byte_of_bits(bs), i) == (0 <= i < bs.len()
                && bs[i]) by {
                assert(bit8(byte_of_bits(prev), i) == (0 <= i < prev.len() && prev[i]));
                assert(bit8(byte_of_bits(bs), i) == bit8(b0, i));
                if i == k {
                    assert(!bs[k]);
                } else if 0 <= i < k {
                    assert(prev[i] == bs[i]);
                }
            }
        }
    }
}

/// Two bytes with the same bits are the same byte.
pub proof fn lemma_byte_bits_injective(x: u8, y: u8)
    requires
        byte_bits(x) == byte_bits(y),
    ensures
        x == y,
{
    assert(bit8(x, 0) == bit8(y, 0)) by {
        assert(byte_bits(x)[0] == bit8(x, 0));
        assert(byte_bits(y)[0] == bit8(y, 0));
        assert(byte_bits(x)[0] == byte_bits(y)[0]);
    }
    assert(bit8(x, 1) == bit8(y, 1)) by {
        assert(byte_bits(x)[1] == bit8(x, 1));
        assert(byte_bits(y)[1] == bit8(y, 1));
        assert(byte_bits(x)[1] == byte_bits(y)[1]);
    }
    assert(bit8(x, 2) == bit8(y, 2)) by {
        assert(byte_bits(x)[2] == bit8(x, 2));
        assert(byte_bits(y)[2] == bit8(y, 2));
        assert(byte_bits(x)[2] == byte_bits(y)[2]);
    }
    assert(bit8(x, 3) == bit8(y, 3)) by {
        assert(byte_bits(x)[3] == bit8(x, 3));
        assert(byte_bits(y)[3] == bit8(y, 3));
        assert(byte_bits(x)[3] == byte_bits(y)[3]);
    }
    assert(bit8(x, 4) == bit8(y, 4)) by {
        assert(byte_bits(x)[4] == bit8(x, 4));
        assert(byte_bits(y)[4] == bit8(y, 4));
        assert(byte_bits(x)[4] == byte_bits(y)[4]);
    }
    assert(bit8(x, 5) == bit8(y, 5)) by {
        assert(byte_bits(x)[5] == bit8(x, 5));
        assert(byte_bits(y)[5] == bit8(y, 5));
        assert(byte_bits(x)[5] == byte_bits(y)[5]);
    }
    assert(bit8(x, 6) == bit8(y, 6)) by {
        assert(byte_bits(x)[6] == bit8(x, 6));
        assert(byte_bits(y)[6] == bit8(y, 6));
        assert(byte_bits(x)[6] == byte_bits(y)[6]);
    }
    assert(bit8(x, 7) == bit8(y, 7)) by {
        assert(byte_bits(x)[7] == bit8(x, 7));
        assert(byte_bits(y)[7] == bit8(y, 7));
        assert(byte_bits(x)[7] == byte_bits(y)[7]);
    }
    assert(x == y) by (bit_vector)
        requires
            ((x >> 0u8) & 1u8 == 1u8) == ((y >> 0u8) & 1u8 == 1u8),
            ((x >> 1u8) & 1u8 == 1u8) == ((y >> 1u8) & 1u8 == 1u8),
            ((x >> 2u8) & 1u8 == 1u8) == ((y >> 2u8) & 1u8 == 1u8),
            ((x >> 3u8) & 1u8 == 1u8) == ((y >> 3u8) & 1u8 == 1u8),
            ((x >> 4u8) & 1u8 == 1u8) == ((y >> 4u8) & 1u8 == 1u8),
            ((x >> 5u8) & 1u8 == 1u8) == ((y >> 5u8) & 1u8 == 1u8),
            ((x >> 6u8) & 1u8 == 1u8) == ((y >> 6u8) & 1u8 == 1u8),
            ((x >> 7u8) & 1u8 == 1u8) == ((y >> 7u8) & 1u8 == 1u8),
    ;
}

/// Packing the bits of a byte gives back the byte.
pub proof fn lemma_byte_of_byte_bits(b: u8)
    ensures
        byte_of_bits(byte_bits(b)) == b,
{
    lemma_byte_of_bits_bit(byte_bits(b));
    assert(byte_bits(byte_of_bits(byte_bits(b))) =~= byte_bits(b));
    lemma_byte_bits_injective(byte_of_bits(byte_bits(b)), b);
}

/// Collects single bits in order and packs them into bytes on request.
pub struct BitWriter {
    bits: Vec<bool>,
}

impl View for BitWriter {
    type V = Seq<bool>;

    closed spec fn view(&self) -> Seq<bool> {
        self.bits@
    }
}

impl BitWriter {
    /// A writer holding no bits yet.
    pub fn new() -> (r: BitWriter)
        ensures
            r@ == Seq::<bool>::empty(),
    {
        BitWriter { bits: Vec::new() }
    }

    /// Appends one bit.
    pub fn write_bit(&mut self, b: bool)
        ensures
            final(self)@ == old(self)@.push(b),
    {
        self.bits.push(b);
    }

    /// Appends the eight bits of a byte, least significant first.
    pub fn write_byte(&mut self, b: u8)
        ensures
            final(self)@ == old(self)@ + byte_bits(b),
    {
        let ghost w0 = self.bits@;
        let mut i: u8 = 0;
        while i < 8
            invariant
                0 <= i <= 8,
                self.bits@ == w0 + byte_bits(b).take(i as int),
            decreases 8 - i,
        {
            let bit = (b >> i) & 1u8 == 1u8;
            self.bits.push(bit);
            proof {
                assert(byte_bits(b)[i as int] == bit8(b, i as int));
                assert(w0 + byte_bits(b).take(i + 1) =~= (w0 + byte_bits(b).take(i as int)).push(
                    bit8(b, i as int),
                ));
            }
            i = i + 1;
        }
        proof {
            assert(byte_bits(b).take(8) =~= byte_bits(b));
        }
    }

    /// Appends a 16-bit value as two bytes, low byte first.
    pub fn write_u16(&mut self, v: u16)
        ensures
            final(self)@ == old(self)@ + byte_bits((v % 256) as u8) + byte_bits((v / 256) as u8),
    {
        let lo = (v % 256) as u8;
        let hi = (v / 256) as u8;
        self.write_byte(lo);
        self.write_byte(hi);
    }

    /// How many bits have been written.
    pub fn len_bits(&self) -> (n: usize)
        ensures
            n == self@.len(),
    {
        self.bits.len()
    }

    /// Packs the bits into bytes, least-significant bit of each byte first;
    /// the last byte is padded with zero bits up to a byte boundary.
    pub fn to_bytes(&self) -> (r: Vec<u8>)
        requires
            self@.len() < usize::MAX - 8,
        ensures
            r@.len() == (self@.len() + 7) / 8,
            stream_bits(r@).len() == 8 * ((self@.len() + 7) / 8),
            forall|k: int| 0 <= k < self@.len() ==> stream_bits(r@)[k] == self@[k],
            forall|k: int| self@.len() <= k < stream_bits(r@).len() ==> !stream_bits(r@)[k],
    {
        let n = self.bits.len();
        let nbytes = n / 8 + (if n % 8 == 0 { 0 } else { 1 });
        assert(nbytes == (n + 7) / 8);
        let mut out: Vec<u8> = Vec::new();
        let mut j: usize = 0;
        while j < nbytes
            invariant
                0 <= j <= nbytes,
                nbytes == (n + 7) / 8,
                n == self@.len(),
                n < usize::MAX - 8,
                out.len() == j,
                forall|jj: int, t: int|
                    0 <= jj < j && 0 <= t < 8 ==> #[trigger] bit8(out@[jj], t) == (8 * jj + t < n
                        && self@[8 * jj + t]),
            decreases nbytes - j,
        {
            let mut byte: u8 = 0;
            let mut t: u8 = 0;
            proof {
                lemma_zero_bits();
            }
            while t < 8
                invariant
                    0 <= t <= 8,
                    n == self@.len(),
                    n < usize::MAX - 8,
                    j < nbytes,
                    nbytes == (n + 7) / 8,
                    forall|q: int|
                        0 <= q < t ==> #[trigger] bit8(byte, q) == (8 * j + q < n && self@[8 * j
                            + q]),
                    forall|q: int| t <= q ==> !(#[trigger] bit8(byte, q)),
                decreases 8 - t,
            {
                let k = j * 8 + (t as usize);
                if k < n && self.bits[k] {
                    let ghost ob = byte;
                    byte = byte | (1u8 << t);
                    proof {
                        lemma_or_bit_set(ob, t, byte);
                    }
                }
                t = t + 1;
            }
            out.push(byte);
            j = j + 1;
        }
        proof {
            assert forall|k: int| 0 <= k < 8 * out@.len() implies stream_bits(out@)[k] == (k < n
                && self@[k]) by {
                let jj = k / 8;
                let t = k % 8;
                assert(k == 8 * jj + t);
                assert(bit8(out@[jj], t) == (8 * jj + t < n && self@[8 * jj + t]));
            }
        }
        out
    }
}

proof fn lemma_or_bit_set(d: u8, k: u8, r: u8)
    requires
        k < 8,
        r == d | (1u8 << k),
    ensures
        forall|q: int| #[trigger] bit8(r, q) == (q == k || bit8(d, q)),
{
    assert forall|q: int| #[trigger] bit8(r, q) == (q == k || bit8(d, q)) by {
        if 0 <= q < 8 {
            lemma_or_bit(d, k, q as u8);
        }
    }
}

proof fn lemma_zero_bits()
    ensures
        forall|q: int| !(#[trigger] bit8(0u8, q)),
{
    assert forall|q: int| !(#[trigger] bit8(0u8, q)) by {
        if 0 <= q < 8 {
            lemma_zero_bit(q as u8);
        }
    }
}

/// Reads bits, bytes, and 16-bit values from a bit string, with an
/// absolute bit cursor that can be repositioned.
pub struct BitReader {
    bits: Vec<bool>,
    pos: usize,
}

impl BitReader {
    /// The bit string being read.
    pub closed spec fn bits(&self) -> Seq<bool> {
        self.bits@
    }

    /// The cursor: how many bits have been consumed.
    pub closed spec fn pos(&self) -> int {
        self.pos as int
    }

    /// The cursor never passes the end of the bit string.
    pub closed spec fn wf(&self) -> bool {
        self.pos <= self.bits@.len()
    }

    /// A reader over all bits of the given bytes, least-significant bit of
    /// each byte first, cursor at the start.
    pub fn from_bytes(bytes: Vec<u8>) -> (r: BitReader)
        requires
            bytes@.len() < usize::MAX / 8,
        ensures
            r.bits() == stream_bits(bytes@),
            r.pos() == 0,
            r.wf(),
    {
        let nbits = bytes.len() * 8;
        BitReader::from_bytes_limited(bytes, nbits)
    }

    /// A reader over the first `nbits` bits of the given bytes: the exact
    /// bit length lets a caller cut trailing padding off the last byte.
    pub fn from_bytes_limited(bytes: Vec<u8>, nbits: usize) -> (r: BitReader)
        requires
            nbits <= 8 * bytes@.len(),
            bytes@.len() < usize::MAX / 8,
        ensures
            r.bits() == stream_bits(bytes@).take(nbits as int),
            r.pos() == 0,
            r.wf(),
    {
        let mut bits: Vec<bool> = Vec::new();
        let mut k: usize = 0;
        while k < nbits
            invariant
                0 <= k <= nbits,
                nbits <= 8 * bytes@.len(),
                bytes@.len() < usize::MAX / 8,
                bits@.len() == k,
                forall|q: int| 0 <= q < k ==> bits@[q] == stream_bits(bytes@)[q],
            decreases nbits - k,
        {
            let byte = bytes[k / 8];
            let sh = (k % 8) as u8;
            let bit = (byte >> sh) & 1u8 == 1u8;
            proof {
                assert(stream_bits(bytes@)[k as int] == bit8(bytes@[k as int / 8], k as int % 8));
            }
            bits.push(bit);
            k = k + 1;
        }
        proof {
            assert(bits@ =~= stream_bits(bytes@).take(nbits as int));
        }
        BitReader { bits, pos: 0 }
    }

    /// Reads one bit and advances; `None` at the end of the string.
    pub fn read_bit(&mut self) -> (r: Option<bool>)
        requires
            old(self).wf(),
        ensures
            final(self).wf(),
            final(self).bits() == old(self).bits(),
            old(self).pos() < old(self).bits().len() ==> r == Some(old(self).bits()[old(self).pos()])
                && final(self).pos() == old(self).pos() + 1,
            old(self).pos() >= old(self).bits().len() ==> r == None::<bool> && final(self).pos()
                == old(self).pos(),
    {
        if self.pos < self.bits.len() {
            let b = self.bits[self.pos];
            self.pos = self.pos + 1;
            Some(b)
        } else {
            None
        }
    }

    /// Reads eight bits as one byte, least-significant bit first; `None`
    /// (with the cursor unmoved) if fewer than eight bits remain.
    pub fn read_byte(&mut self) -> (r: Option<u8>)
        requires
            old(self).wf(),
        ensures
            final(self).wf(),
            final(self).bits() == old(self).bits(),
            old(self).pos() + 8 <= old(self).bits().len() ==> {
                &&& final(self).pos() == old(self).pos() + 8
                &&& r matches Some(b) && byte_bits(b) == old(self).bits().subrange(
                    old(self).pos(),
                    old(self).pos() + 8,
                )
            },
            old(self).pos() + 8 > old(self).bits().len() ==> r == None::<u8> && final(self).pos()
                == old(self).pos(),
    {
        if self.bits.len() - self.pos < 8 {
            return None;
        }
        let start = self.pos;
        let mut byte: u8 = 0;
        let mut t: u8 = 0;
        proof {
            lemma_zero_bits();
        }
        while t < 8
            invariant
                0 <= t <= 8,
                self.bits@ == old(self).bits(),
                start + 8 <= self.bits@.len(),
                self.pos == start + t,
                start == old(self).pos(),
                forall|q: int| 0 <= q < t ==> #[trigger] bit8(byte, q) == self.bits@[start + q],
                forall|q: int| t <= q ==> !(#[trigger] bit8(byte, q)),
            decreases 8 - t,
        {
            if self.bits[self.pos] {
                let ghost ob = byte;
                byte = byte | (1u8 << t);
                proof {
                    lemma_or_bit_set(ob, t, byte);
                }
            }
            let len_now = self.bits.len();
            proof {
                assert(self.pos < len_now);
            }
            self.pos = self.pos + 1;
            t = t + 1;
        }
        proof {
            assert(byte_bits(byte) =~= self.bits@.subrange(start as int, start + 8));
        }
        Some(byte)
    }

    /// Reads a 16-bit value as two bytes, low byte first; `None` (with the
    /// cursor unmoved) if fewer than sixteen bits remain.
    pub fn read_u16(&mut self) -> (r: Option<u16>)
        requires
            old(self).wf(),
        ensures
            final(self).wf(),
            final(self).bits() == old(self).bits(),
            old(self).pos() + 16 <= old(self).bits().len() ==> {
                &&& final(self).pos() == old(self).pos() + 16
                &&& r matches Some(v) && v == byte_of_bits(
                    old(self).bits().subrange(old(self).pos(), old(self).pos() + 8),
                ) + 256 * byte_of_bits(
                    old(self).bits().subrange(old(self).pos() + 8, old(self).pos() + 16),
                )
            },
            old(self).pos() + 16 > old(self).bits().len() ==> r == None::<u16> && final(self).pos()
                == old(self).pos(),
    {
        if self.bits.len() - self.pos < 16 {
            return None;
        }
        let lo = self.read_byte().unwrap();
        let hi = self.read_byte().unwrap();
        proof {
            lemma_byte_of_bits_roundtrip(
                lo,
                old(self).bits().subrange(old(self).pos(), old(self).pos() + 8),
            );
            lemma_byte_of_bits_roundtrip(
                hi,
                old(self).bits().subrange(old(self).pos() + 8, old(self).pos() + 16),
            );
        }
        Some((lo as u16) + 256 * (hi as u16))
    }

    /// Moves the cursor to an absolute bit position; fails (cursor unmoved)
    /// past the end of the string.
    pub fn set_position(&mut self, bit_pos: u64) -> (r: Result<(), ()>)
        requires
            old(self).wf(),
        ensures
            final(self).wf(),
            final(self).bits() == old(self).bits(),
            bit_pos <= old(self).bits().len() ==> r == Ok::<(), ()>(()) && final(self).pos()
                == bit_pos,
            bit_pos > old(self).bits().len() ==> r == Err::<(), ()>(()) && final(self).pos() == old(
                self,
            ).pos(),
    {
        if bit_pos <= self.bits.len() as u64 {
            self.pos = bit_pos as usize;
            Ok(())
        } else {
            Err(())
        }
    }

    /// The bit string fits in memory: its length is bounded by `usize`.
    pub proof fn lemma_bits_len_bound(&self)
        ensures
            self.bits().len() <= usize::MAX,
            self.wf() ==> 0 <= self.pos() <= self.bits().len(),
    {
        assert(vstd::std_specs::vec::spec_vec_len(&self.bits) == self.bits@.len());
    }

    /// How many bits remain before the end of the string.
    pub fn remaining(&self) -> (n: usize)
        requires
            self.wf(),
        ensures
            n == self.bits().len() - self.pos(),
    {
        self.bits.len() - self.pos
    }
}

/// No bit of the zero byte is set.
pub proof fn lemma_zero_bits2()
    ensures
        forall|q: int| !(#[trigger] bit8(0u8, q)),
{
    lemma_zero_bits();
}

/// Setting one low bit by `or` leaves every other bit as it was.
pub proof fn lemma_or_bit_set2(d: u8, k: u8, r: u8)
    requires
        k < 8,
        r == d | (1u8 << k),
    ensures
        forall|q: int| #[trigger] bit8(r, q) == (q == k || bit8(d, q)),
{
    lemma_or_bit_set(d, k, r);
}

/// A byte whose bits match a bit string of length eight is its packing.
pub proof fn lemma_byte_of_bits_roundtrip(b: u8, bs: Seq<bool>)
    requires
        bs.len() == 8,
        byte_bits(b) == bs,
    ensures
        byte_of_bits(bs) == b,
{
    lemma_byte_of_bits_bit(bs);
    assert(byte_bits(byte_of_bits(bs)) =~= bs);
    lemma_byte_bits_injective(byte_of_bits(bs), b);
}

} // verus!
