//! Bit-packed stream writer and reader, MSB-first within each byte.
//!
//! The writer collects single bits into an owned byte buffer; its model is the
//! sequence of bits written so far (`bits()`), and the completed bytes
//! (`bytes()`) hold exactly those bits, MSB-first. The reader walks a borrowed
//! byte buffer bit by bit and returns each group bit-reversed, so that the
//! first bit consumed lands in bit 0 of the result.

use vstd::prelude::*;

use crate::bits::bit_at;
use crate::bits::pack_bits;

verus! {

proof fn lemma_shifted_bit_le_one(x: u8, s: u8)
    by (bit_vector)
    requires
        s < 8,
    ensures
        (x >> s) & 1 <= 1,
{
}

proof fn lemma_push_bit_keeps(c: u8, b: u8, k: u8, t: u8)
    by (bit_vector)
    requires
        b <= 1,
        t < k,
        k <= 7,
        c < (1u8 << k),
    ensures
        (((c << 1) | b) >> ((k - t) as u8)) & 1 == (c >> ((k - 1 - t) as u8)) & 1,
{
}

proof fn lemma_push_bit_last(c: u8, b: u8)
    by (bit_vector)
    requires
        b <= 1,
    ensures
        (((c << 1) | b) >> 0u8) & 1 == b,
{
}

proof fn lemma_push_bit_bound(c: u8, b: u8, k: u8)
    by (bit_vector)
    requires
        b <= 1,
        k <= 6,
        c < (1u8 << k),
    ensures
        ((c << 1) | b) < (1u8 << ((k + 1) as u8)),
{
}

proof fn lemma_flush_bits(c: u8, k: u8, t: u8)
    by (bit_vector)
    requires
        1 <= k,
        k <= 7,
        c < (1u8 << k),
        t < 8,
    ensures
        t < k ==> ((c << ((8 - k) as u8)) >> ((7 - t) as u8)) & 1 == (c >> ((k - 1 - t) as u8))
            & 1,
        t >= k ==> ((c << ((8 - k) as u8)) >> ((7 - t) as u8)) & 1 == 0,
{
}

proof fn lemma_or_bit(r: u8, b: u8, i: u8, t: u8)
    by (bit_vector)
    requires
        b <= 1,
        i < 8,
        t < 8,
    ensures
        t != i ==> ((r | (b << i)) >> t) & 1 == (r >> t) & 1,
        (t == i && (r >> i) & 1 == 0) ==> ((r | (b << i)) >> t) & 1 == b,
        (0u8 >> t) & 1 == 0,
{
}

proof fn lemma_or_bit_bound(r: u8, b: u8, i: u8)
    by (bit_vector)
    requires
        b <= 1,
        i <= 6,
        r < (1u8 << i),
    ensures
        (r | (b << i)) < (1u8 << ((i + 1) as u8)),
{
}

/// Accumulates single bits and packs them MSB-first into an owned byte buffer.
pub struct BitWriter {
    out: Vec<u8>,
    current_byte: u8,
    current_byte_len: usize,
}

impl BitWriter {
    /// The writer holds fewer than 8 pending bits, LSB-justified.
    pub closed spec fn wf(&self) -> bool {
        &&& self.current_byte_len < 8
        &&& self.current_byte < (1u8 << (self.current_byte_len as u8))
    }

    /// All bits written so far, in order of emission.
    pub closed spec fn bits(&self) -> Seq<u8> {
        Seq::new(
            (self.out@.len() * 8 + self.current_byte_len) as nat,
            |i: int|
                if i < self.out@.len() * 8 {
                    bit_at(self.out@, i)
                } else {
                    (self.current_byte >> ((self.current_byte_len - 1 - (i - self.out@.len() * 8))
                        as u8)) & 1
                },
        )
    }

    /// The completed output bytes: the first emitted bit of each is its high bit.
    pub closed spec fn bytes(&self) -> Seq<u8> {
        self.out@
    }

    /// Each completed byte packs eight written bits, MSB-first.
    pub proof fn lemma_bytes_hold_bits(&self)
        requires
            self.wf(),
        ensures
            self.bytes().len() == self.bits().len() / 8,
            forall|i: int|
                0 <= i < self.bytes().len() * 8 ==> #[trigger] bit_at(self.bytes(), i)
                    == self.bits()[i],
    {
        crate::bits::lemma_bit_index(self.out@.len() as int, self.current_byte_len as int);
    }

    /// Every element of the written stream is a single bit.
    pub proof fn lemma_bits_le_one(&self)
        requires
            self.wf(),
        ensures
            forall|i: int| 0 <= i < self.bits().len() ==> #[trigger] self.bits()[i] <= 1,
    {
        assert forall|i: int| 0 <= i < self.bits().len() implies #[trigger] self.bits()[i]
            <= 1 by {
            if i < self.out@.len() * 8 {
                lemma_shifted_bit_le_one(self.out@[i / 8], (7 - (i % 8)) as u8);
            } else {
                lemma_shifted_bit_le_one(
                    self.current_byte,
                    (self.current_byte_len - 1 - (i - self.out@.len() * 8)) as u8,
                );
            }
        }
    }

    pub fn new() -> (w: BitWriter)
        ensures
            w.wf(),
            w.bits() == Seq::<u8>::empty(),
            w.bytes() == Seq::<u8>::empty(),
    {
        let w = BitWriter { out: Vec::new(), current_byte: 0, current_byte_len: 0 };
        proof {
            assert(w.bits() =~= Seq::<u8>::empty());
            assert((1u8 << 0u8) == 1) by (bit_vector);
        }
        w
    }

    /// Append one bit to the stream.
    fn push_bit(&mut self, b: u8)
        requires
            old(self).wf(),
            b <= 1,
        ensures
            final(self).wf(),
            final(self).bits() == old(self).bits() + seq![b],
            old(self).bytes().is_prefix_of(final(self).bytes()),
    {
        let ghost prev = *self;
        if self.current_byte_len == 7 {
            let byte = (self.current_byte << 1u8) | b;
            self.out.push(byte);
            self.current_byte = 0;
            self.current_byte_len = 0;
            proof {
                assert((1u8 << 0u8) == 1) by (bit_vector);
                assert forall|i: int| 0 <= i < self.bits().len() implies self.bits()[i] == (
                prev.bits() + seq![b])[i] by {
                    let base = prev.out@.len() * 8;
                    if i < base {
                        crate::bits::lemma_bit_in_byte(i, prev.out@.len() as int);
                        assert(bit_at(self.out@, i) == bit_at(prev.out@, i));
                    } else {
                        let t = i - base;
                        crate::bits::lemma_bit_index(prev.out@.len() as int, t);
                        assert(self.out@[prev.out@.len() as int] == byte);
                        assert(bit_at(self.out@, i) == (byte >> ((7 - t) as u8)) & 1);
                        if t < 7 {
                            lemma_push_bit_keeps(prev.current_byte, b, 7, t as u8);
                        } else {
                            lemma_push_bit_last(prev.current_byte, b);
                        }
                    }
                }
                assert(self.bits() =~= prev.bits() + seq![b]);
            }
        } else {
            let ghost k = self.current_byte_len as u8;
            self.current_byte = (self.current_byte << 1u8) | b;
            self.current_byte_len = self.current_byte_len + 1;
            proof {
                lemma_push_bit_bound(prev.current_byte, b, k);
                assert forall|i: int| 0 <= i < self.bits().len() implies self.bits()[i] == (
                prev.bits() + seq![b])[i] by {
                    let base = self.out@.len() * 8;
                    if i >= base {
                        let t = i - base;
                        if t < k {
                            lemma_push_bit_keeps(prev.current_byte, b, k, t as u8);
                        } else {
                            lemma_push_bit_last(prev.current_byte, b);
                        }
                    }
                }
                assert(self.bits() =~= prev.bits() + seq![b]);
            }
        }
    }

    /// Append the `nbits` low bits of `val` in bit-reversed order: bit 0 of
    /// `val` is emitted first.
    pub fn write(&mut self, val: u8, nbits: usize)
        requires
            old(self).wf(),
            nbits <= 8,
        ensures
            final(self).wf(),
            final(self).bits() == old(self).bits() + Seq::new(
                nbits as nat,
                |t: int| (val >> (t as u8)) & 1,
            ),
            old(self).bytes().is_prefix_of(final(self).bytes()),
    {
        let ghost prev = *self;
        let mut i: usize = 0;
        while i < nbits
            invariant
                self.wf(),
                i <= nbits,
                nbits <= 8,
                self.bits() == prev.bits() + Seq::new(i as nat, |t: int| (val >> (t as u8)) & 1),
                prev.bytes().is_prefix_of(self.bytes()),
            decreases nbits - i,
        {
            let sh: u8 = i as u8;
            let b = (val >> sh) & 1;
            proof {
                lemma_shifted_bit_le_one(val, sh);
            }
            self.push_bit(b);
            i = i + 1;
            proof {
                assert(self.bits() =~= prev.bits() + Seq::new(
                    i as nat,
                    |t: int| (val >> (t as u8)) & 1,
                ));
            }
        }
    }

    /// Append a sequence of bits, each given as a 0/1 byte, in order:
    /// the first element is emitted first.
    pub fn write_iter(&mut self, bits: &[u8])
        requires
            old(self).wf(),
            forall|i: int| 0 <= i < bits@.len() ==> bits@[i] <= 1,
        ensures
            final(self).wf(),
            final(self).bits() == old(self).bits() + bits@,
            old(self).bytes().is_prefix_of(final(self).bytes()),
    {
        let ghost prev = *self;
        let mut i: usize = 0;
        let n = bits.len();
        while i < n
            invariant
                self.wf(),
                i <= n,
                n == bits@.len(),
                forall|j: int| 0 <= j < bits@.len() ==> bits@[j] <= 1,
                self.bits() == prev.bits() + bits@.take(i as int),
                prev.bytes().is_prefix_of(self.bytes()),
            decreases n - i,
        {
            let b = bits[i];
            self.push_bit(b);
            i = i + 1;
            proof {
                assert(self.bits() =~= prev.bits() + bits@.take(i as int));
            }
        }
        proof {
            assert(bits@.take(n as int) =~= bits@);
        }
    }

    /// If a partial byte is pending, left-shift it so its first bit becomes
    /// the high bit, fill the low bits with zeros, and emit it.
    pub fn flush(&mut self)
        requires
            old(self).wf(),
        ensures
            final(self).wf(),
            final(self).bits().len() % 8 == 0,
            final(self).bits() == old(self).bits() + Seq::new(
                ((8 - old(self).bits().len() % 8) % 8) as nat,
                |t: int| 0u8,
            ),
            final(self).bytes() == pack_bits(old(self).bits()),
    {
        let ghost prev = *self;
        proof {
            prev.lemma_bytes_hold_bits();
            prev.lemma_bits_le_one();
        }
        if self.current_byte_len != 0 {
            let sh: u8 = (8 - self.current_byte_len) as u8;
            let byte = self.current_byte << sh;
            self.out.push(byte);
            self.current_byte = 0;
            self.current_byte_len = 0;
            proof {
                let k = prev.current_byte_len as int;
                assert((1u8 << 0u8) == 1) by (bit_vector);
                assert forall|i: int| 0 <= i < self.bits().len() implies self.bits()[i] == (
                prev.bits() + Seq::new((8 - k) as nat, |t: int| 0u8))[i] by {
                    let base = prev.out@.len() * 8;
                    if i < base {
                        crate::bits::lemma_bit_in_byte(i, prev.out@.len() as int);
                        assert(bit_at(self.out@, i) == bit_at(prev.out@, i));
                    } else {
                        let t = i - base;
                        crate::bits::lemma_bit_index(prev.out@.len() as int, t);
                        assert(self.out@[prev.out@.len() as int] == byte);
                        assert(bit_at(self.out@, i) == (byte >> ((7 - t) as u8)) & 1);
                        lemma_flush_bits(prev.current_byte, k as u8, t as u8);
                    }
                }
                assert(self.bits() =~= prev.bits() + Seq::new((8 - k) as nat, |t: int| 0u8));
                crate::bits::lemma_bit_index(prev.out@.len() as int, k);
                crate::bits::lemma_bit_index(self.out@.len() as int, 0);
                assert(prev.bits().len() % 8 == k);
                assert(self.bits().len() % 8 == 0);
            }
        } else {
            proof {
                crate::bits::lemma_bit_index(self.out@.len() as int, 0);
                assert(self.bits() =~= prev.bits() + Seq::new(0nat, |t: int| 0u8));
            }
        }
        proof {
            self.lemma_bytes_hold_bits();
            assert forall|i: int| 0 <= i < self.bits().len() implies self.bits()[i]
                == crate::bits::bit_or_pad(prev.bits(), i) by {}
            crate::bits::lemma_pack_bits_complete(prev.bits(), self.bits(), self.bytes());
        }
    }

    /// The number of whole bytes emitted so far; pending bits are not counted.
    pub fn len(&self) -> (r: usize)
        requires
            self.wf(),
        ensures
            r == self.bytes().len(),
            r == self.bits().len() / 8,
    {
        proof {
            self.lemma_bytes_hold_bits();
        }
        self.out.len()
    }

    /// Borrow the completed output bytes.
    pub fn as_bytes(&self) -> (r: &Vec<u8>)
        ensures
            r@ == self.bytes(),
    {
        &self.out
    }
}

/// Reads a packed byte buffer bit by bit, MSB-first.
pub struct BitReader<'a> {
    buf: &'a [u8],
    pos: usize,
}

impl<'a> BitReader<'a> {
    /// The underlying byte buffer.
    pub closed spec fn stream(&self) -> Seq<u8> {
        self.buf@
    }

    /// The number of bits consumed so far.
    pub closed spec fn cursor(&self) -> int {
        self.pos as int
    }

    pub fn new(buf: &'a [u8]) -> (r: BitReader<'a>)
        ensures
            r.stream() == buf@,
            r.cursor() == 0,
    {
        BitReader { buf, pos: 0 }
    }

    /// Extract the next `nbits` bits and return them bit-reversed: the first
    /// bit consumed ends up in bit 0 of the result.
    pub fn read(&mut self, nbits: usize) -> (r: u8)
        requires
            nbits <= 8,
            old(self).stream().len() * 8 <= usize::MAX,
            old(self).cursor() + nbits <= old(self).stream().len() * 8,
        ensures
            final(self).stream() == old(self).stream(),
            final(self).cursor() == old(self).cursor() + nbits,
            forall|t: u8|
                t < nbits ==> #[trigger] ((r >> t) & 1) == bit_at(
                    old(self).stream(),
                    old(self).cursor() + t,
                ),
            forall|t: u8| nbits <= t < 8 ==> #[trigger] ((r >> t) & 1) == 0,
            nbits < 8 ==> r < (1u8 << (nbits as u8)),
    {
        let ghost first = *self;
        let ghost start = self.pos as int;
        let mut r: u8 = 0;
        let mut i: usize = 0;
        proof {
            assert forall|t: u8| t < 8 implies #[trigger] ((r >> t) & 1) == 0 by {
                lemma_or_bit(0, 0, 0, t);
            }
            assert(0u8 < (1u8 << 0u8)) by (bit_vector);
        }
        while i < nbits
            invariant
                *self == first,
                i <= nbits,
                nbits <= 8,
                self.pos == start,
                start + nbits <= self.buf@.len() * 8,
                self.buf@.len() * 8 <= usize::MAX,
                i < 8 ==> r < (1u8 << (i as u8)),
                forall|t: u8| t < i ==> #[trigger] ((r >> t) & 1) == bit_at(self.buf@, start + t),
                forall|t: u8| i <= t < 8 ==> #[trigger] ((r >> t) & 1) == 0,
            decreases nbits - i,
        {
            let idx = (self.pos + i) / 8;
            let off = (self.pos + i) % 8;
            proof {
                crate::bits::lemma_bit_in_byte(start + i, self.buf@.len() as int);
            }
            let b = (self.buf[idx] >> ((7 - off) as u8)) & 1;
            proof {
                lemma_shifted_bit_le_one(self.buf@[idx as int], (7 - off) as u8);
                assert(b == bit_at(self.buf@, start + i));
            }
            let ghost old_r = r;
            r = r | (b << (i as u8));
            proof {
                assert forall|t: u8| t < 8 implies #[trigger] ((r >> t) & 1) == (if t == i {
                    b
                } else {
                    (old_r >> t) & 1
                }) by {
                    lemma_or_bit(old_r, b, i as u8, t);
                }
                if i < 7 {
                    lemma_or_bit_bound(old_r, b, i as u8);
                }
            }
            i = i + 1;
        }
        self.pos = self.pos + nbits;
        r
    }

    /// The length of the underlying buffer, in bytes.
    pub fn len(&self) -> (r: usize)
        ensures
            r == self.stream().len(),
    {
        self.buf.len()
    }
}

} // verus!
