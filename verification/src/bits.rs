//! Mathematical model of packed bit streams and population counts.
//!
//! Encoded streams are byte buffers read MSB-first: bit `i` of a stream lives
//! in byte `i / 8` at bit position `7 - i % 8`. All contracts in this crate
//! speak of streams through `bit_at` and of Hamming weights through `pop`.

use vstd::prelude::*;

verus! {

/// Bit `i` of a packed byte stream, MSB-first within each byte.
pub open spec fn bit_at(bytes: Seq<u8>, i: int) -> u8 {
    (bytes[i / 8] >> ((7 - (i % 8)) as u8)) & 1
}

/// Number of set bits in the binary representation of `x`.
pub open spec fn pop(x: nat) -> nat
    decreases x,
{
    if x == 0 {
        0
    } else {
        pop(x / 2) + x % 2
    }
}

/// Parity of `x`: 1 if the number of set bits is odd, else 0.
pub open spec fn parity(x: nat) -> u16 {
    (pop(x) % 2) as u16
}

/// `pop` is bounded by the bit width: a value below `2^w` has at most `w` set bits.
pub proof fn lemma_pop_bound(x: nat, w: nat)
    requires
        x < vstd::arithmetic::power2::pow2(w),
    ensures
        pop(x) <= w,
    decreases w,
{
    if w == 0 {
        assert(vstd::arithmetic::power2::pow2(0) == 1) by {
            vstd::arithmetic::power2::lemma2_to64();
        }
    } else {
        vstd::arithmetic::power2::lemma_pow2_unfold(w);
        lemma_pop_bound(x / 2, (w - 1) as nat);
    }
}

proof fn lemma_u32_low_bit_and_shift(x: u32)
    by (bit_vector)
    ensures
        x & 1 == x % 2,
        x >> 1u32 == x / 2,
{
}

/// Population count of a 32-bit word.
pub fn popcount(x: u32) -> (r: u32)
    ensures
        r == pop(x as nat),
        r <= 32,
{
    proof {
        vstd::arithmetic::power2::lemma2_to64();
        lemma_pop_bound(x as nat, 32);
    }
    let mut v: u32 = x;
    let mut c: u32 = 0;
    while v != 0
        invariant
            c + pop(v as nat) == pop(x as nat),
            pop(x as nat) <= 32,
        decreases v,
    {
        proof {
            lemma_u32_low_bit_and_shift(v);
        }
        c = c + (v & 1);
        v = v >> 1;
    }
    c
}

/// A bit position splits into its byte index and its offset within the byte.
pub proof fn lemma_bit_index(q: int, r: int)
    requires
        0 <= r < 8,
    ensures
        (q * 8 + r) / 8 == q,
        (q * 8 + r) % 8 == r,
{
    vstd::arithmetic::div_mod::lemma_fundamental_div_mod_converse(q * 8 + r, 8, q, r);
}

/// A bit position below the end of a byte buffer lies inside one of its bytes.
pub proof fn lemma_bit_in_byte(i: int, n: int)
    requires
        0 <= i < n * 8,
    ensures
        0 <= i / 8 < n,
        0 <= i % 8 < 8,
        i == (i / 8) * 8 + (i % 8),
{
    vstd::arithmetic::div_mod::lemma_fundamental_div_mod(i, 8);
    vstd::arithmetic::div_mod::lemma_mod_division_less_than_divisor(i, 8);
}

/// Bit `i` of `bits`, or 0 when `i` is past the end: the zero pad of the
/// last packed byte.
pub open spec fn bit_or_pad(bits: Seq<u8>, i: int) -> u8 {
    if 0 <= i < bits.len() {
        bits[i]
    } else {
        0
    }
}

/// The byte holding bits `8b .. 8b + 8` of a bit sequence, MSB-first,
/// zero-padded past the end.
pub open spec fn pack_byte(bits: Seq<u8>, b: int) -> u8 {
    (bit_or_pad(bits, 8 * b) * 128 + bit_or_pad(bits, 8 * b + 1) * 64 + bit_or_pad(bits, 8 * b + 2)
        * 32 + bit_or_pad(bits, 8 * b + 3) * 16 + bit_or_pad(bits, 8 * b + 4) * 8 + bit_or_pad(
        bits,
        8 * b + 5,
    ) * 4 + bit_or_pad(bits, 8 * b + 6) * 2 + bit_or_pad(bits, 8 * b + 7)) as u8
}

/// A sequence of 0/1 values packed into bytes, MSB-first, the last byte
/// zero-padded.
pub open spec fn pack_bits(bits: Seq<u8>) -> Seq<u8> {
    Seq::new((bits.len() + 7) / 8, |b: int| pack_byte(bits, b))
}

proof fn lemma_pack_byte_bit(b0: u8, b1: u8, b2: u8, b3: u8, b4: u8, b5: u8, b6: u8, b7: u8, t: u8)
    by (bit_vector)
    requires
        b0 <= 1,
        b1 <= 1,
        b2 <= 1,
        b3 <= 1,
        b4 <= 1,
        b5 <= 1,
        b6 <= 1,
        b7 <= 1,
        t < 8,
    ensures
        t == 0 ==> ((b0 * 128 + b1 * 64 + b2 * 32 + b3 * 16 + b4 * 8 + b5 * 4 + b6 * 2 + b7) as u8
            >> ((7 - t) as u8)) & 1 == b0,
        t == 1 ==> ((b0 * 128 + b1 * 64 + b2 * 32 + b3 * 16 + b4 * 8 + b5 * 4 + b6 * 2 + b7) as u8
            >> ((7 - t) as u8)) & 1 == b1,
        t == 2 ==> ((b0 * 128 + b1 * 64 + b2 * 32 + b3 * 16 + b4 * 8 + b5 * 4 + b6 * 2 + b7) as u8
            >> ((7 - t) as u8)) & 1 == b2,
        t == 3 ==> ((b0 * 128 + b1 * 64 + b2 * 32 + b3 * 16 + b4 * 8 + b5 * 4 + b6 * 2 + b7) as u8
            >> ((7 - t) as u8)) & 1 == b3,
        t == 4 ==> ((b0 * 128 + b1 * 64 + b2 * 32 + b3 * 16 + b4 * 8 + b5 * 4 + b6 * 2 + b7) as u8
            >> ((7 - t) as u8)) & 1 == b4,
        t == 5 ==> ((b0 * 128 + b1 * 64 + b2 * 32 + b3 * 16 + b4 * 8 + b5 * 4 + b6 * 2 + b7) as u8
            >> ((7 - t) as u8)) & 1 == b5,
        t == 6 ==> ((b0 * 128 + b1 * 64 + b2 * 32 + b3 * 16 + b4 * 8 + b5 * 4 + b6 * 2 + b7) as u8
            >> ((7 - t) as u8)) & 1 == b6,
        t == 7 ==> ((b0 * 128 + b1 * 64 + b2 * 32 + b3 * 16 + b4 * 8 + b5 * 4 + b6 * 2 + b7) as u8
            >> ((7 - t) as u8)) & 1 == b7,
{
}

/// Packing a bit sequence and reading it back bit by bit is the identity:
/// bit `i` of the packed bytes is bit `i` of the sequence, and the tail of
/// the last byte is the zero pad.
pub proof fn lemma_pack_bits_round_trip(bits: Seq<u8>)
    requires
        forall|i: int| 0 <= i < bits.len() ==> bits[i] <= 1,
    ensures
        pack_bits(bits).len() == (bits.len() + 7) / 8,
        forall|i: int|
            0 <= i < pack_bits(bits).len() * 8 ==> #[trigger] bit_at(pack_bits(bits), i)
                == bit_or_pad(bits, i),
{
    let packed = pack_bits(bits);
    assert forall|i: int| 0 <= i < packed.len() * 8 implies #[trigger] bit_at(packed, i)
        == bit_or_pad(bits, i) by {
        let q = i / 8;
        let t = i % 8;
        lemma_bit_index(q, t);
        assert(0 <= t < 8 && i == q * 8 + t && 0 <= q < packed.len());
        assert(packed[q] == pack_byte(bits, q));
        lemma_pack_byte_bit(
            bit_or_pad(bits, 8 * q),
            bit_or_pad(bits, 8 * q + 1),
            bit_or_pad(bits, 8 * q + 2),
            bit_or_pad(bits, 8 * q + 3),
            bit_or_pad(bits, 8 * q + 4),
            bit_or_pad(bits, 8 * q + 5),
            bit_or_pad(bits, 8 * q + 6),
            bit_or_pad(bits, 8 * q + 7),
            t as u8,
        );
    }
}

/// Two bytes that agree on all eight bits are equal.
pub proof fn lemma_u8_eq_from_bits(x: u8, y: u8)
    by (bit_vector)
    requires
        (x >> 7u8) & 1 == (y >> 7u8) & 1,
        (x >> 6u8) & 1 == (y >> 6u8) & 1,
        (x >> 5u8) & 1 == (y >> 5u8) & 1,
        (x >> 4u8) & 1 == (y >> 4u8) & 1,
        (x >> 3u8) & 1 == (y >> 3u8) & 1,
        (x >> 2u8) & 1 == (y >> 2u8) & 1,
        (x >> 1u8) & 1 == (y >> 1u8) & 1,
        (x >> 0u8) & 1 == (y >> 0u8) & 1,
    ensures
        x == y,
{
}

/// A byte sequence whose bits spell out a zero-padded bit sequence is exactly
/// that sequence packed: packing is the one way to lay bits out MSB-first.
pub proof fn lemma_pack_bits_complete(orig: Seq<u8>, padded: Seq<u8>, bytes: Seq<u8>)
    requires
        forall|i: int| 0 <= i < orig.len() ==> orig[i] <= 1,
        padded.len() % 8 == 0,
        orig.len() <= padded.len() < orig.len() + 8,
        forall|i: int| 0 <= i < padded.len() ==> padded[i] == bit_or_pad(orig, i),
        bytes.len() * 8 == padded.len(),
        forall|i: int| 0 <= i < bytes.len() * 8 ==> #[trigger] bit_at(bytes, i) == padded[i],
    ensures
        bytes == pack_bits(orig),
{
    lemma_pack_bits_round_trip(orig);
    let packed = pack_bits(orig);
    assert(packed.len() == bytes.len()) by {
        vstd::arithmetic::div_mod::lemma_fundamental_div_mod_converse(
            padded.len() as int,
            8,
            bytes.len() as int,
            0,
        );
        vstd::arithmetic::div_mod::lemma_fundamental_div_mod_converse(
            orig.len() as int + 7,
            8,
            bytes.len() as int,
            orig.len() as int + 7 - bytes.len() * 8,
        );
    }
    assert forall|q: int| 0 <= q < bytes.len() implies bytes[q] == packed[q] by {
        assert forall|s: u8| s < 8 implies #[trigger] ((bytes[q] >> s) & 1) == (packed[q] >> s)
            & 1 by {
            let t = 7 - s as int;
            let i = q * 8 + t;
            lemma_bit_index(q, t);
            assert(bit_at(bytes, i) == (bytes[q] >> s) & 1);
            assert(bit_at(packed, i) == (packed[q] >> s) & 1);
            assert(bit_at(packed, i) == bit_or_pad(orig, i));
            assert(bit_at(bytes, i) == padded[i]);
        }
        lemma_u8_eq_from_bits(bytes[q], packed[q]);
    }
    assert(bytes =~= packed);
}

} // verus!
