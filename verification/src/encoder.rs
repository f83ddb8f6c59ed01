//! Convolutional encoder: a K-bit shift register consumes the message bits
//! MSB-first and emits, for each of them and for `K + 1` zero tail bits, the
//! `R` polynomial parities of the register, bit-reversed onto the stream.

use vstd::prelude::*;

use crate::bit::BitReader;
use crate::bit::BitWriter;
use crate::bits::bit_at;
use crate::util::conv_poly_table;
use crate::util::poly_entry;
use vstd::arithmetic::power2::pow2;

verus! {

/// Input bit `i` of the encoder: the message bits MSB-first, then zeros for
/// the tail.
pub open spec fn enc_input_bit(msg: Seq<u8>, i: int) -> u8 {
    if i < msg.len() * 8 {
        bit_at(msg, i)
    } else {
        0
    }
}

/// The shift register after consuming `i` input bits: each step shifts left,
/// takes the next input bit, and keeps the low `order` bits.
pub open spec fn enc_register(msg: Seq<u8>, order: nat, i: int) -> u16
    decreases i,
{
    if i <= 0 {
        0
    } else {
        ((enc_register(msg, order, i - 1) << 1u16) | (enc_input_bit(msg, i - 1) as u16)) & (((1u16
            << (order as u16)) - 1) as u16)
    }
}

/// Bit `i` of the encoded stream: output bit `i % R` of encoding step
/// `i / R`, which is bit `i % R` of the polynomial table entry for the
/// register after `i / R + 1` input bits.
pub open spec fn enc_stream_bit(polys: Seq<u16>, order: nat, msg: Seq<u8>, i: int) -> u8 {
    let step = i / (polys.len() as int);
    let j = i % (polys.len() as int);
    (((poly_entry(polys, enc_register(msg, order, step + 1), polys.len()) >> (j as u16))
        & 1) as u8)
}

proof fn lemma_read_one(r: u8)
    by (bit_vector)
    requires
        r < 2,
    ensures
        (r >> 0u8) & 1 == r,
{
}

proof fn lemma_and_mask_lt(x: u16, k: u16)
    by (bit_vector)
    requires
        k < 16,
    ensures
        (x & (((1u16 << k) - 1) as u16)) < (1u16 << k),
{
}

proof fn lemma_u16_low_byte_bit(x: u16, j: u8)
    by (bit_vector)
    requires
        x < 256,
        j < 8,
    ensures
        ((x as u8) >> j) & 1 == (((x >> (j as u16)) & 1) as u8),
{
}

/// A streaming convolutional encoder for fixed `(R, K, polys)`.
pub struct Encoder {
    rate: u32,
    order: u32,
    poly_table: Vec<u16>,
    polys: Ghost<Seq<u16>>,
}

impl Encoder {
    /// The rate denominator `R`: output bits per input bit.
    pub closed spec fn rate_spec(&self) -> u32 {
        self.rate
    }

    /// The constraint length `K`: the width of the shift register.
    pub closed spec fn order_spec(&self) -> u32 {
        self.order
    }

    /// The generator polynomials the encoder was built from.
    pub closed spec fn polys_spec(&self) -> Seq<u16> {
        self.polys@
    }

    /// The parameters lie in their documented ranges and the output table is
    /// the expansion of the polynomials.
    pub closed spec fn wf(&self) -> bool {
        &&& 2 <= self.rate <= 6
        &&& 2 <= self.order <= 15
        &&& self.polys@.len() == self.rate
        &&& self.poly_table@.len() == pow2(self.order as nat)
        &&& forall|s: int|
            0 <= s < self.poly_table@.len() ==> #[trigger] self.poly_table@[s] == poly_entry(
                self.polys@,
                s as u16,
                self.rate as nat,
            )
        &&& forall|s: int|
            0 <= s < self.poly_table@.len() ==> #[trigger] self.poly_table@[s] < (1u16 << (
            self.rate as u16))
    }

    pub fn new(rate: u32, order: u32, polys: &[u16]) -> (r: Encoder)
        requires
            2 <= rate <= 6,
            2 <= order <= 15,
            polys@.len() == rate,
        ensures
            r.wf(),
            r.rate_spec() == rate,
            r.order_spec() == order,
            r.polys_spec() == polys@,
    {
        Encoder {
            rate,
            order,
            poly_table: conv_poly_table(rate, order, polys),
            polys: Ghost(polys@),
        }
    }

    /// The exact number of encoded bits for a message of `len` bytes:
    /// `R * (8 * len + K + 1)`.
    pub fn encode_len(&self, len: usize) -> (r: usize)
        requires
            self.wf(),
            self.rate_spec() * (8 * len + self.order_spec() + 1) <= usize::MAX,
        ensures
            r == self.rate_spec() * (8 * len + self.order_spec() + 1),
    {
        proof {
            assert(2 * (8 * len + self.order + 1) <= self.rate * (8 * len + self.order + 1))
                by (nonlinear_arith)
                requires
                    2 <= self.rate,
                    0 <= len,
                    0 <= self.order,
            ;
        }
        let bits = len * 8;
        (self.rate as usize) * (bits + self.order as usize + 1)
    }

    /// Encode `msg` into the first bytes of `dst`: the first
    /// `R * (8 * len + K + 1)` bits of `dst`, MSB-first, are the encoded
    /// stream, the rest of the last touched byte is zero, and the bytes
    /// beyond it keep their old values. Returns the encoded bit count.
    pub fn encode(&mut self, msg: &[u8], dst: &mut Vec<u8>) -> (r: usize)
        requires
            old(self).wf(),
            old(self).rate_spec() * (8 * msg@.len() + old(self).order_spec() + 1) <= usize::MAX,
            old(dst)@.len() >= old(self).rate_spec() * (8 * msg@.len() + old(self).order_spec() + 1)
                / 8 + 1,
        ensures
            *final(self) == *old(self),
            r == old(self).rate_spec() * (8 * msg@.len() + old(self).order_spec() + 1),
            final(dst)@.len() == old(dst)@.len(),
            forall|i: int|
                0 <= i < r ==> #[trigger] bit_at(final(dst)@, i) == enc_stream_bit(
                    old(self).polys_spec(),
                    old(self).order_spec() as nat,
                    msg@,
                    i,
                ),
            forall|i: int| r <= i < ((r + 7) / 8) * 8 ==> #[trigger] bit_at(final(dst)@, i) == 0,
            forall|k: int|
                (r + 7) / 8 <= k < final(dst)@.len() ==> #[trigger] final(dst)@[k] == old(dst)@[k],
    {
        let ghost polys = self.polys@;
        let ghost order_n = self.order as nat;
        let encode_len = self.encode_len(msg.len());
        let mut bit_reader = BitReader::new(msg);
        let mut bit_writer = BitWriter::new();

        let mut shift_register: u16 = 0;
        proof {
            let k = self.order as u16;
            assert((1u16 << k) >= 2) by (bit_vector)
                requires
                    2 <= k <= 15,
            ;
        }
        let shift_mask: u16 = ((1u16 << (self.order as u16)) - 1) as u16;

        proof {
            assert(8 * msg@.len() + self.order + 1 <= usize::MAX) by (nonlinear_arith)
                requires
                    2 <= self.rate,
                    0 <= msg@.len(),
                    0 <= self.order,
                    self.rate * (8 * msg@.len() + self.order + 1) <= usize::MAX,
            ;
        }
        let n_in = 8 * msg.len();
        proof {
            assert(bit_writer.bits() =~= Seq::new(
                0nat,
                |p: int| enc_stream_bit(polys, order_n, msg@, p),
            ));
        }
        let mut i: usize = 0;
        while i < n_in
            invariant
                self.wf(),
                *self == *old(self),
                polys == self.polys@,
                order_n == self.order as nat,
                i <= n_in,
                n_in == 8 * msg@.len(),
                self.rate * (n_in + self.order + 1) <= usize::MAX,
                shift_mask == (((1u16 << (self.order as u16)) - 1) as u16),
                bit_reader.stream() == msg@,
                bit_reader.cursor() == i,
                shift_register == enc_register(msg@, order_n, i as int),
                shift_register < (1u16 << (self.order as u16)),
                bit_writer.wf(),
                bit_writer.bits() == Seq::new(
                    (i * self.rate) as nat,
                    |p: int| enc_stream_bit(polys, order_n, msg@, p),
                ),
            decreases n_in - i,
        {
            let b = bit_reader.read(1);
            proof {
                assert((1u8 << 1u8) == 2) by (bit_vector);
                lemma_read_one(b);
                assert(b == enc_input_bit(msg@, i as int));
            }
            shift_register = ((shift_register << 1u16) | b as u16) & shift_mask;
            proof {
                lemma_and_mask_lt(
                    (enc_register(msg@, order_n, i as int) << 1u16) | (enc_input_bit(
                        msg@,
                        i as int,
                    ) as u16),
                    self.order as u16,
                );
                vstd::arithmetic::power2::lemma2_to64();
                vstd::arithmetic::power2::lemma_pow2_strictly_increases(order_n, 16);
                vstd::bits::lemma_u16_shl_is_mul(1, self.order as u16);
            }
            let out = self.poly_table[shift_register as usize];
            proof {
                let rr = self.rate as u16;
                assert((1u16 << rr) <= 256) by (bit_vector)
                    requires
                        rr <= 6,
                ;
            }
            self.write_step(out, &mut bit_writer);
            proof {
                self.lemma_step_extends(
                    bit_writer.bits(),
                    Ghost(msg@),
                    i as int,
                    out,
                    shift_register,
                );
            }
            i = i + 1;
        }
        let mut t: usize = 0;
        while t < self.order as usize + 1
            invariant
                self.wf(),
                *self == *old(self),
                polys == self.polys@,
                order_n == self.order as nat,
                t <= self.order + 1,
                n_in == 8 * msg@.len(),
                self.rate * (n_in + self.order + 1) <= usize::MAX,
                shift_mask == (((1u16 << (self.order as u16)) - 1) as u16),
                shift_register == enc_register(msg@, order_n, n_in + t),
                shift_register < (1u16 << (self.order as u16)),
                bit_writer.wf(),
                bit_writer.bits() == Seq::new(
                    ((n_in + t) * self.rate) as nat,
                    |p: int| enc_stream_bit(polys, order_n, msg@, p),
                ),
            decreases self.order + 1 - t,
        {
            proof {
                assert(enc_input_bit(msg@, n_in + t) == 0);
            }
            shift_register = (shift_register << 1u16) & shift_mask;
            proof {
                let sr_prev = enc_register(msg@, order_n, n_in + t);
                assert(((sr_prev << 1u16) | 0u16) == (sr_prev << 1u16)) by (bit_vector);
                lemma_and_mask_lt(sr_prev << 1u16, self.order as u16);
                vstd::arithmetic::power2::lemma2_to64();
                vstd::arithmetic::power2::lemma_pow2_strictly_increases(order_n, 16);
                vstd::bits::lemma_u16_shl_is_mul(1, self.order as u16);
            }
            let out = self.poly_table[shift_register as usize];
            proof {
                let rr = self.rate as u16;
                assert((1u16 << rr) <= 256) by (bit_vector)
                    requires
                        rr <= 6,
                ;
            }
            self.write_step(out, &mut bit_writer);
            proof {
                self.lemma_step_extends(
                    bit_writer.bits(),
                    Ghost(msg@),
                    n_in + t,
                    out,
                    shift_register,
                );
            }
            t = t + 1;
        }
        bit_writer.flush();
        proof {
            assert((n_in + (self.order + 1)) * self.rate == self.rate * (8 * msg@.len()
                + self.order + 1)) by (nonlinear_arith)
                requires
                    n_in == 8 * msg@.len(),
            ;
        }
        let nb = bit_writer.len();
        proof {
            let lbits = encode_len as int;
            vstd::arithmetic::div_mod::lemma_fundamental_div_mod(lbits, 8);
            vstd::arithmetic::div_mod::lemma_mod_division_less_than_divisor(lbits, 8);
            let pad = (8 - lbits % 8) % 8;
            crate::bits::lemma_bit_index(nb as int, 0);
            vstd::arithmetic::div_mod::lemma_fundamental_div_mod_converse(
                lbits + 7,
                8,
                nb as int,
                lbits + 7 - nb * 8,
            );
            bit_writer.lemma_bytes_hold_bits();
        }
        let src = bit_writer.as_bytes();
        let mut k: usize = 0;
        while k < nb
            invariant
                k <= nb,
                nb == src@.len(),
                nb <= dst@.len(),
                dst@.len() == old(dst)@.len(),
                forall|j: int| 0 <= j < k ==> #[trigger] dst@[j] == src@[j],
                forall|j: int| k <= j < dst@.len() ==> #[trigger] dst@[j] == old(dst)@[j],
            decreases nb - k,
        {
            let v = src[k];
            dst[k] = v;
            k = k + 1;
        }
        proof {
            let w = bit_writer;
            w.lemma_bytes_hold_bits();
            assert forall|i: int| 0 <= i < encode_len implies #[trigger] bit_at(dst@, i)
                == enc_stream_bit(polys, order_n, msg@, i) by {
                crate::bits::lemma_bit_in_byte(i, nb as int);
                assert(dst@[i / 8] == w.bytes()[i / 8]);
                assert(bit_at(dst@, i) == bit_at(w.bytes(), i));
                assert(bit_at(w.bytes(), i) == w.bits()[i]);
            }
            assert forall|i: int| encode_len <= i < nb * 8 implies #[trigger] bit_at(dst@, i)
                == 0 by {
                crate::bits::lemma_bit_in_byte(i, nb as int);
                assert(bit_at(dst@, i) == bit_at(w.bytes(), i));
                assert(bit_at(w.bytes(), i) == w.bits()[i]);
            }
        }
        encode_len
    }

    /// Emit the `R` output bits of one encoding step.
    fn write_step(&self, out: u16, bit_writer: &mut BitWriter)
        requires
            self.wf(),
            out < 256,
            old(bit_writer).wf(),
        ensures
            final(bit_writer).wf(),
            final(bit_writer).bits() == old(bit_writer).bits() + Seq::new(
                self.rate_spec() as nat,
                |j: int| (((out >> (j as u16)) & 1) as u8),
            ),
    {
        bit_writer.write(out as u8, self.rate as usize);
        proof {
            let ghost ob = out as u8;
            assert forall|j: u8| j < self.rate implies #[trigger] ((ob >> j) & 1) == (((out >> (
            j as u16)) & 1) as u8) by {
                lemma_u16_low_byte_bit(out, j);
            }
            assert(final(bit_writer).bits() =~= old(bit_writer).bits() + Seq::new(
                self.rate_spec() as nat,
                |j: int| (((out >> (j as u16)) & 1) as u8),
            ));
        }
    }

    /// One encoding step extends the modeled stream by `R` bits.
    proof fn lemma_step_extends(
        &self,
        wbits: Seq<u8>,
        msg: Ghost<Seq<u8>>,
        i: int,
        out: u16,
        sr: u16,
    )
        requires
            self.wf(),
            0 <= i,
            sr == enc_register(msg@, self.order_spec() as nat, i + 1),
            sr < self.poly_table@.len(),
            out == poly_entry(self.polys_spec(), sr, self.rate_spec() as nat),
            wbits == Seq::new(
                (i * self.rate_spec()) as nat,
                |p: int| enc_stream_bit(self.polys_spec(), self.order_spec() as nat, msg@, p),
            ) + Seq::new(self.rate_spec() as nat, |j: int| (((out >> (j as u16)) & 1) as u8)),
        ensures
            wbits == Seq::new(
                ((i + 1) * self.rate_spec()) as nat,
                |p: int| enc_stream_bit(self.polys_spec(), self.order_spec() as nat, msg@, p),
            ),
    {
        let rate = self.rate_spec() as int;
        let polys = self.polys_spec();
        let order_n = self.order_spec() as nat;
        assert((i + 1) * rate == i * rate + rate) by (nonlinear_arith);
        assert forall|p: int| 0 <= p < (i + 1) * rate implies wbits[p] == enc_stream_bit(
            polys,
            order_n,
            msg@,
            p,
        ) by {
            if p >= i * rate {
                let j = p - i * rate;
                vstd::arithmetic::div_mod::lemma_fundamental_div_mod_converse(p, rate, i, j);
                assert(wbits[p] == (((out >> (j as u16)) & 1) as u8));
            }
        }
        assert(wbits =~= Seq::new(
            (((i + 1) * rate) as nat),
            |p: int| enc_stream_bit(polys, order_n, msg@, p),
        ));
    }
}

} // verus!
