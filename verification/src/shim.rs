//! Legacy block-oriented adapter: accepts one-sample-per-byte input, repacks
//! the low bit of each byte into hard-decision bit-packed buffers, feeds them
//! to the decoder in chunks, and hands the decoded bytes out of an internal
//! accumulator.

use vstd::prelude::*;

use crate::bits::bit_at;
use crate::bits::pack_byte;
use crate::decoder::decode_model;
use crate::decoder::Decoder;

verus! {

proof fn lemma_and1(x: u8)
    by (bit_vector)
    ensures
        x & 1 <= 1,
{
}

proof fn lemma_or_byte_is_sum(b0: u8, b1: u8, b2: u8, b3: u8, b4: u8, b5: u8, b6: u8, b7: u8)
    by (bit_vector)
    requires
        b0 <= 1,
        b1 <= 1,
        b2 <= 1,
        b3 <= 1,
        b4 <= 1,
        b5 <= 1,
        b6 <= 1,
        b7 <= 1,
    ensures
        ((b0 << 7u8) | (b1 << 6u8) | (b2 << 5u8) | (b3 << 4u8) | (b4 << 3u8) | (b5 << 2u8) | (b6
            << 1u8) | b7) == (b0 * 128 + b1 * 64 + b2 * 32 + b3 * 16 + b4 * 8 + b5 * 4 + b6 * 2
            + b7) as u8,
        (b0 & 1) == b0,
{
}

/// The low bit of each input sample, as a bit sequence: what the adapter
/// treats as the hard decision of sample `i`.
pub open spec fn sample_bits(encoded: Seq<u8>, n: int) -> Seq<u8> {
    Seq::new(n as nat, |i: int| encoded[i] & 1)
}

/// The packed hard-decision buffer the adapter builds: byte `b` holds the
/// low bits of samples `8b .. 8b + 8`, MSB-first, and the spare byte past
/// the full samples is zero.
pub open spec fn hard_bytes(encoded: Seq<u8>, encoded_bits: int) -> Seq<u8> {
    Seq::new(
        (encoded_bits / 8 + 1) as nat,
        |b: int|
            if b < encoded_bits / 8 {
                pack_byte(sample_bits(encoded, (encoded_bits / 8) * 8), b)
            } else {
                0u8
            },
    )
}

/// Repack one-sample-per-byte input into hard bits: bit `i` of the result is
/// the low bit of input byte `i`, MSB-first, over the first
/// `8 * (encoded_bits / 8)` samples; the remaining bytes stay zero.
pub fn repack_hard(encoded: &[u8], encoded_bits: usize) -> (hard: Vec<u8>)
    requires
        encoded_bits <= encoded@.len(),
        encoded_bits / 8 + 1 <= usize::MAX,
    ensures
        hard@ == hard_bytes(encoded@, encoded_bits as int),
        hard@.len() == encoded_bits / 8 + 1,
        forall|i: int|
            0 <= i < (encoded_bits / 8) * 8 ==> #[trigger] bit_at(hard@, i) == (encoded@[i] & 1),
        forall|b: int| encoded_bits / 8 <= b < hard@.len() ==> #[trigger] hard@[b] == 0,
{
    let full = encoded_bits / 8;
    let mut hard: Vec<u8> = vec![0u8; full + 1];
    let ghost bits = sample_bits(encoded@, (full * 8) as int);
    let mut b: usize = 0;
    while b < full
        invariant
            full == encoded_bits / 8,
            full * 8 <= encoded_bits <= encoded@.len(),
            hard@.len() == full + 1,
            b <= full,
            bits == sample_bits(encoded@, (full * 8) as int),
            forall|q: int| 0 <= q < b ==> #[trigger] hard@[q] == pack_byte(bits, q),
            forall|q: int| b <= q < hard@.len() ==> #[trigger] hard@[q] == 0,
        decreases full - b,
    {
        proof {
            vstd::arithmetic::div_mod::lemma_fundamental_div_mod(encoded_bits as int, 8);
            vstd::arithmetic::div_mod::lemma_mod_division_less_than_divisor(
                encoded_bits as int,
                8,
            );
            assert((b + 1) * 8 <= full * 8) by (nonlinear_arith)
                requires
                    b + 1 <= full,
            ;
            assert(b * 8 + 8 == (b + 1) * 8) by (nonlinear_arith);
        }
        let s0 = encoded[8 * b] & 1;
        let s1 = encoded[8 * b + 1] & 1;
        let s2 = encoded[8 * b + 2] & 1;
        let s3 = encoded[8 * b + 3] & 1;
        let s4 = encoded[8 * b + 4] & 1;
        let s5 = encoded[8 * b + 5] & 1;
        let s6 = encoded[8 * b + 6] & 1;
        let s7 = encoded[8 * b + 7] & 1;
        proof {
            lemma_and1(encoded@[8 * b as int]);
            lemma_and1(encoded@[8 * b + 1]);
            lemma_and1(encoded@[8 * b + 2]);
            lemma_and1(encoded@[8 * b + 3]);
            lemma_and1(encoded@[8 * b + 4]);
            lemma_and1(encoded@[8 * b + 5]);
            lemma_and1(encoded@[8 * b + 6]);
            lemma_and1(encoded@[8 * b + 7]);
            lemma_or_byte_is_sum(
                encoded@[8 * b as int] & 1,
                encoded@[8 * b + 1] & 1,
                encoded@[8 * b + 2] & 1,
                encoded@[8 * b + 3] & 1,
                encoded@[8 * b + 4] & 1,
                encoded@[8 * b + 5] & 1,
                encoded@[8 * b + 6] & 1,
                encoded@[8 * b + 7] & 1,
            );
        }
        let byte = (s0 << 7u8) | (s1 << 6u8) | (s2 << 5u8) | (s3 << 4u8) | (s4 << 3u8) | (s5
            << 2u8) | (s6 << 1u8) | s7;
        proof {
            assert(byte == pack_byte(bits, b as int)) by {
                assert(bits[8 * b as int] == encoded@[8 * b as int] & 1);
            }
        }
        hard[b] = byte;
        b = b + 1;
    }
    proof {
        assert forall|i: int| 0 <= i < bits.len() implies bits[i] <= 1 by {
            lemma_and1(encoded@[i]);
        }
        crate::bits::lemma_pack_bits_round_trip(bits);
        assert forall|i: int| 0 <= i < full * 8 implies #[trigger] bit_at(hard@, i) == (encoded@[i]
            & 1) by {
            crate::bits::lemma_bit_in_byte(i, full as int);
            assert(hard@[i / 8] == pack_byte(bits, i / 8));
            assert(crate::bits::pack_bits(bits)[i / 8] == pack_byte(bits, i / 8));
            assert(bit_at(crate::bits::pack_bits(bits), i) == crate::bits::bit_or_pad(bits, i));
            assert(bit_at(hard@, i) == bit_at(crate::bits::pack_bits(bits), i)) by {
                assert(hard@[i / 8] == crate::bits::pack_bits(bits)[i / 8]);
            }
        }
        assert(hard@ =~= hard_bytes(encoded@, encoded_bits as int));
    }
    hard
}

/// The legacy adapter: a decoder plus an accumulator of decoded bytes with a
/// read cursor and a write cursor.
pub struct Shim {
    decoder: Decoder,
    rate: u32,
    order: u32,
    decode_buffer: Vec<u8>,
    read_index: usize,
    write_index: usize,
}

impl Shim {
    pub closed spec fn rate_spec(&self) -> u32 {
        self.rate
    }

    pub closed spec fn order_spec(&self) -> u32 {
        self.order
    }

    /// The generator polynomials of the underlying decoder.
    pub closed spec fn polys_spec(&self) -> Seq<u16> {
        self.decoder.polys_spec()
    }

    /// The underlying decoder, metric and history tables included.
    pub closed spec fn decoder_spec(&self) -> Decoder {
        self.decoder
    }

    /// The accumulated decoded bytes.
    pub closed spec fn buffer_view(&self) -> Seq<u8> {
        self.decode_buffer@
    }

    pub closed spec fn read_spec(&self) -> int {
        self.read_index as int
    }

    pub closed spec fn write_spec(&self) -> int {
        self.write_index as int
    }

    /// The decoder matches the adapter's parameters and the cursors stay
    /// inside the accumulator.
    pub closed spec fn wf(&self) -> bool {
        &&& self.decoder.wf()
        &&& self.decoder.rate_spec() == self.rate
        &&& self.decoder.order_spec() == self.order
        &&& 2 <= self.rate <= 6
        &&& 2 <= self.order <= 15
        &&& self.read_index <= self.write_index <= self.decode_buffer@.len()
        &&& self.decode_buffer@.len() * 8 <= usize::MAX
    }

    /// An adapter sized to accumulate `num_decoded_bits` decoded bits, plus
    /// one spare byte.
    pub fn new(num_decoded_bits: usize, rate: u32, order: u32, polys: &[u16]) -> (r: Shim)
        requires
            2 <= rate <= 6,
            2 <= order <= 15,
            polys@.len() == rate,
            num_decoded_bits / 8 + 2 <= usize::MAX / 8,
        ensures
            r.wf(),
            r.rate_spec() == rate,
            r.order_spec() == order,
            r.read_spec() == 0,
            r.write_spec() == 0,
            r.buffer_view() == Seq::new(
                (if num_decoded_bits % 8 == 0 {
                    num_decoded_bits / 8 + 1
                } else {
                    num_decoded_bits / 8 + 2
                }) as nat,
                |i: int| 0u8,
            ),
    {
        let num_decoded: usize = if num_decoded_bits % 8 == 0 {
            num_decoded_bits / 8
        } else {
            num_decoded_bits / 8 + 1
        };
        let decode_buffer = vec![0u8; num_decoded + 1];
        proof {
            assert(decode_buffer@ =~= Seq::new((num_decoded + 1) as nat, |i: int| 0u8));
        }
        Shim {
            decoder: Decoder::new(rate, order, polys),
            rate,
            order,
            decode_buffer,
            read_index: 0,
            write_index: 0,
        }
    }

    /// Rewind both cursors. The decoder's metric and history tables are not
    /// cleared: they keep whatever the last run left in them.
    pub fn init(&mut self)
        requires
            old(self).wf(),
        ensures
            final(self).wf(),
            final(self).read_spec() == 0,
            final(self).write_spec() == 0,
            final(self).buffer_view() == old(self).buffer_view(),
            final(self).rate_spec() == old(self).rate_spec(),
            final(self).order_spec() == old(self).order_spec(),
            final(self).decoder_spec() == old(self).decoder_spec(),
    {
        self.read_index = 0;
        self.write_index = 0;
    }

    /// Feed one block of one-sample-per-byte input: repack the low bits into
    /// hard bits, decode as many of them as the accumulator can still hold,
    /// and append the decoded bytes at the write cursor.
    pub fn decode(&mut self, encoded: &[u8])
        requires
            old(self).wf(),
            (encoded@.len() as int) % (old(self).rate_spec() as int) == 0,
            (encoded@.len() as int) / (old(self).rate_spec() as int) >= 2 * (old(self).order_spec() - 1),
            encoded@.len() <= usize::MAX / 8,
            // the accumulator must have room for at least one decoder run
            (encoded@.len() as int) / (old(self).rate_spec() as int) - (old(self).order_spec() - 1) > 8 * (
            old(self).buffer_view().len() - old(self).write_spec()) ==> 8 * (old(self).buffer_view().len() - old(self).write_spec()) >= 2 * (old(self).order_spec() - 1),
        ensures
            final(self).wf(),
            final(self).rate_spec() == old(self).rate_spec(),
            final(self).order_spec() == old(self).order_spec(),
            final(self).read_spec() == old(self).read_spec(),
            final(self).buffer_view().len() == old(self).buffer_view().len(),
            final(self).write_spec() == old(self).write_spec() + (if (encoded@.len() as int) / (old(self).rate_spec() as int) - (old(self).order_spec() - 1) > 8 * (old(self).buffer_view().len() - old(self).write_spec()) {
                8 * (old(self).buffer_view().len() - old(self).write_spec())
            } else {
                (encoded@.len() as int) / (old(self).rate_spec() as int) - (old(self).order_spec() - 1)
            }) / 8,
            forall|k: int|
                0 <= k < old(self).buffer_view().len() && !(old(self).write_spec() <= k < final(self).write_spec()) ==> #[trigger] final(self).buffer_view()[k] == old(self).buffer_view()[k],
            final(self).polys_spec() == old(self).polys_spec(),
            ({
                let dl = if (encoded@.len() as int) / (old(self).rate_spec() as int) - (old(
                    self,
                ).order_spec() - 1) > 8 * (old(self).buffer_view().len() - old(self).write_spec()) {
                    8 * (old(self).buffer_view().len() - old(self).write_spec())
                } else {
                    (encoded@.len() as int) / (old(self).rate_spec() as int) - (old(
                        self,
                    ).order_spec() - 1)
                };
                let eb = (dl + old(self).order_spec() - 1) * old(self).rate_spec();
                forall|i: int|
                    0 <= i < 8 * (dl / 8) ==> #[trigger] bit_at(
                        final(self).buffer_view().subrange(
                            old(self).write_spec(),
                            old(self).write_spec() + dl / 8,
                        ),
                        i,
                    ) == decode_model(
                        old(self).polys_spec(),
                        old(self).order_spec() as nat,
                        hard_bytes(encoded@, eb),
                        eb,
                    )[i]
            }),
    {
        let remaining_buffer = self.decode_buffer.len() - self.write_index;
        let remaining_bits = 8 * remaining_buffer;
        let mut encoded_bits = encoded.len();

        let mut decoded_len = (encoded.len() / self.rate as usize) - (self.order as usize - 1);
        if decoded_len > remaining_bits {
            let over = decoded_len - remaining_bits;
            proof {
                let rate = self.rate as int;
                let n0 = (encoded@.len() as int) / rate;
                assert(n0 * rate == encoded@.len()) by (nonlinear_arith)
                    requires
                        (encoded@.len() as int) % rate == 0,
                        n0 == (encoded@.len() as int) / rate,
                        rate >= 1,
                    {
                        vstd::arithmetic::div_mod::lemma_fundamental_div_mod(
                            encoded@.len() as int,
                            rate,
                        );
                    }
                let over_g = over as int;
                assert(over_g * rate <= n0 * rate && encoded@.len() - over_g * rate == (n0
                    - over_g) * rate) by (nonlinear_arith)
                    requires
                        n0 * rate == encoded@.len(),
                        0 <= over_g <= n0,
                        rate >= 1,
                ;
            }
            decoded_len = decoded_len - over;
            encoded_bits = encoded_bits - over * (self.rate as usize);
        }
        proof {
            let rate = self.rate as int;
            let n0 = (encoded@.len() as int) / rate;
            assert(n0 * rate == encoded@.len()) by (nonlinear_arith)
                requires
                    (encoded@.len() as int) % rate == 0,
                    n0 == (encoded@.len() as int) / rate,
                    rate >= 1,
                {
                    vstd::arithmetic::div_mod::lemma_fundamental_div_mod(
                        encoded@.len() as int,
                        rate,
                    );
                }
            let n1 = decoded_len + (self.order - 1);
            assert(encoded_bits == n1 * rate);
            vstd::arithmetic::div_mod::lemma_fundamental_div_mod_converse(
                n1 * rate,
                rate,
                n1,
                0,
            );
            assert((encoded_bits as int) % rate == 0 && (encoded_bits as int) / rate == n1);
        }
        let hard = repack_hard(encoded, encoded_bits);
        let dl8 = decoded_len / 8;
        let mut tmp: Vec<u8> = vec![0u8; dl8 + 1];
        let _ = self.decoder.decode(hard.as_slice(), encoded_bits, &mut tmp);
        let mut k: usize = 0;
        proof {
            vstd::arithmetic::div_mod::lemma_fundamental_div_mod(decoded_len as int, 8);
            vstd::arithmetic::div_mod::lemma_mod_division_less_than_divisor(decoded_len as int, 8);
        }
        while k < dl8
            invariant
                k <= dl8,
                dl8 + 1 == tmp@.len(),
                self.write_index + dl8 <= self.decode_buffer@.len(),
                self.write_index == old(self).write_spec(),
                self.read_index == old(self).read_index,
                self.rate == old(self).rate,
                self.order == old(self).order,
                self.decoder.wf(),
                self.decoder.rate_spec() == self.rate,
                self.decoder.order_spec() == self.order,
                self.decoder.polys_spec() == old(self).polys_spec(),
                2 <= self.rate <= 6,
                2 <= self.order <= 15,
                self.decode_buffer@.len() == old(self).buffer_view().len(),
                self.decode_buffer@.len() * 8 <= usize::MAX,
                forall|q: int|
                    0 <= q < self.decode_buffer@.len() && !(self.write_index <= q
                        < self.write_index + k) ==> #[trigger] self.decode_buffer@[q] == old(self).buffer_view()[q],
                forall|t: int|
                    0 <= t < k ==> #[trigger] self.decode_buffer@[self.write_index + t] == tmp@[t],
            decreases dl8 - k,
        {
            let v = tmp[k];
            self.decode_buffer[self.write_index + k] = v;
            k = k + 1;
        }
        self.write_index = self.write_index + dl8;
        proof {
            let w0 = old(self).write_spec();
            let window = self.decode_buffer@.subrange(w0, w0 + dl8 as int);
            assert forall|i: int| 0 <= i < 8 * (dl8 as int) implies #[trigger] bit_at(window, i)
                == decode_model(
                old(self).polys_spec(),
                old(self).order_spec() as nat,
                hard_bytes(encoded@, encoded_bits as int),
                encoded_bits as int,
            )[i] by {
                crate::bits::lemma_bit_in_byte(i, dl8 as int);
                assert(window[i / 8] == self.decode_buffer@[w0 + i / 8]);
                assert(self.decode_buffer@[w0 + i / 8] == tmp@[i / 8]);
                assert(bit_at(window, i) == bit_at(tmp@, i));
            }
        }
    }

    /// Copy out as many whole decoded bytes as `decoded` can take, advancing
    /// the read cursor.
    pub fn receive(&mut self, decoded: &mut Vec<u8>)
        requires
            old(self).wf(),
            old(decoded)@.len() <= usize::MAX / 8,
        ensures
            final(self).wf(),
            final(self).rate_spec() == old(self).rate_spec(),
            final(self).order_spec() == old(self).order_spec(),
            final(self).buffer_view() == old(self).buffer_view(),
            final(self).write_spec() == old(self).write_spec(),
            final(self).read_spec() == old(self).read_spec() + (if old(decoded)@.len() <= old(self).write_spec() - old(self).read_spec() {
                old(decoded)@.len() as int
            } else {
                old(self).write_spec() - old(self).read_spec()
            }),
            final(decoded)@.len() == old(decoded)@.len(),
            forall|q: int|
                0 <= q < (final(self).read_spec() - old(self).read_spec()) ==> #[trigger] final(decoded)@[q] == old(self).buffer_view()[old(self).read_spec() + q],
            forall|q: int|
                (final(self).read_spec() - old(self).read_spec()) <= q < final(decoded)@.len()
                    ==> #[trigger] final(decoded)@[q] == old(decoded)@[q],
    {
        let remaining_buffer = self.write_index - self.read_index;
        let remaining_bits = remaining_buffer * 8;

        let mut receive_bits = decoded.len() * 8;
        if receive_bits > remaining_bits {
            receive_bits = remaining_bits;
        }

        let receive_len: usize = if receive_bits % 8 == 0 {
            receive_bits / 8
        } else {
            receive_bits / 8 + 1
        };
        proof {
            vstd::arithmetic::div_mod::lemma_fundamental_div_mod_converse(
                (decoded@.len() * 8) as int,
                8,
                decoded@.len() as int,
                0,
            );
            vstd::arithmetic::div_mod::lemma_fundamental_div_mod_converse(
                (remaining_buffer * 8) as int,
                8,
                remaining_buffer as int,
                0,
            );
        }
        let mut q: usize = 0;
        while q < receive_len
            invariant
                q <= receive_len,
                receive_len <= decoded@.len(),
                decoded@.len() == old(decoded)@.len(),
                self == old(self),
                self.read_index + receive_len <= self.write_index,
                self.write_index <= self.decode_buffer@.len(),
                forall|t: int|
                    0 <= t < q ==> #[trigger] decoded@[t] == self.decode_buffer@[self.read_index
                        + t],
                forall|t: int| q <= t < decoded@.len() ==> #[trigger] decoded@[t] == old(decoded)@[t],
            decreases receive_len - q,
        {
            let v = self.decode_buffer[self.read_index + q];
            decoded[q] = v;
            q = q + 1;
        }
        self.read_index = self.read_index + receive_len;
    }
}

} // verus!
