//! Trellis-wide helpers: state counts, Hamming metrics, and the expansion of
//! generator polynomials into the per-state output table.

use vstd::prelude::*;

use crate::bits::parity;
use crate::bits::pop;
use crate::bits::popcount;
use vstd::arithmetic::power2::pow2;

verus! {

/// The output word a register state `s` produces: bit `j` is the parity of
/// `s & polys[j]`, for the first `r` polynomials.
pub open spec fn poly_entry(polys: Seq<u16>, s: u16, r: nat) -> u16
    decreases r,
{
    if r == 0 {
        0
    } else {
        poly_entry(polys, s, (r - 1) as nat) | (parity((s & polys[r - 1]) as nat) << ((r - 1)
            as u16))
    }
}

proof fn lemma_u16_or_bit(a: u16, b: u16, i: u16, t: u16)
    by (bit_vector)
    requires
        b <= 1,
        i < 16,
        t < 16,
        a < (1u16 << i),
    ensures
        t < i ==> ((a | (b << i)) >> t) & 1 == (a >> t) & 1,
        t == i ==> ((a | (b << i)) >> t) & 1 == b,
        t > i ==> ((a | (b << i)) >> t) & 1 == 0,
        i < 15 ==> (a | (b << i)) < (1u16 << ((i + 1) as u16)),
        b == 0 ==> (a | (b << i)) == a,
        b == 1 ==> (a | (b << i)) == (a | (1u16 << i)),
{
}

/// The polynomial output table satisfies the parity law: bit `j` of the entry
/// for state `s` is the parity of `s & polys[j]`, and every entry fits in
/// `r` bits.
pub proof fn lemma_poly_entry_bits(polys: Seq<u16>, s: u16, r: nat)
    requires
        r <= polys.len(),
        r < 16,
    ensures
        poly_entry(polys, s, r) < (1u16 << (r as u16)),
        forall|j: u16|
            j < r ==> #[trigger] ((poly_entry(polys, s, r) >> j) & 1) == parity(
                (s & polys[j as int]) as nat,
            ),
    decreases r,
{
    if r == 0 {
        assert(0u16 < (1u16 << 0u16)) by (bit_vector);
    } else {
        lemma_poly_entry_bits(polys, s, (r - 1) as nat);
        let a = poly_entry(polys, s, (r - 1) as nat);
        let b = parity((s & polys[r - 1]) as nat);
        assert(b <= 1);
        assert forall|j: u16|
            j < r implies #[trigger] ((poly_entry(polys, s, r) >> j) & 1) == parity(
            (s & polys[j as int]) as nat,
        ) by {
            lemma_u16_or_bit(a, b, (r - 1) as u16, j);
        }
        lemma_u16_or_bit(a, b, (r - 1) as u16, 0);
    }
}

/// The number of trellis states a shift register of `order` bits can take.
pub fn num_states_for_order(order: u32) -> (r: u32)
    requires
        order <= 15,
    ensures
        r == pow2(order as nat),
        r == 1u32 << order,
        r >= 1,
{
    proof {
        vstd::arithmetic::power2::lemma2_to64();
        vstd::arithmetic::power2::lemma_pow2_strictly_increases(order as nat, 16);
        vstd::bits::lemma_u32_shl_is_mul(1, order);
        vstd::arithmetic::power2::lemma_pow2_pos(order as nat);
    }
    1 << order
}

/// Hamming distance between two words: the number of bit positions where
/// they differ.
pub fn metric_distance(x: u32, y: u32) -> (r: u32)
    ensures
        r == pop((x ^ y) as nat),
        r <= 32,
{
    popcount(x ^ y)
}

/// Expand `rate` generator polynomials into the output table over all
/// `2^order` register states: entry `s` is `poly_entry(polys, s, rate)`, so
/// bit `j` of it is the parity of `s & polys[j]`.
pub fn conv_poly_table(rate: u32, order: u32, polys: &[u16]) -> (table: Vec<u16>)
    requires
        1 <= rate <= 6,
        2 <= order <= 15,
        polys@.len() == rate,
    ensures
        table@.len() == pow2(order as nat),
        forall|s: int|
            0 <= s < table@.len() ==> #[trigger] table@[s] == poly_entry(
                polys@,
                s as u16,
                rate as nat,
            ),
        forall|s: int| 0 <= s < table@.len() ==> #[trigger] table@[s] < (1u16 << (rate as u16)),
{
    proof {
        vstd::arithmetic::power2::lemma2_to64();
        vstd::arithmetic::power2::lemma_pow2_strictly_increases(order as nat, 16);
        vstd::bits::lemma_usize_shl_is_mul(1, order as usize);
    }
    let num_states: usize = 1usize << (order as usize);
    let mut table: Vec<u16> = Vec::new();
    let mut i: usize = 0;
    while i < num_states
        invariant
            num_states == pow2(order as nat),
            num_states <= 32768,
            1 <= rate <= 6,
            polys@.len() == rate,
            table@.len() == i,
            i <= num_states,
            forall|s: int|
                0 <= s < i ==> #[trigger] table@[s] == poly_entry(polys@, s as u16, rate as nat),
            forall|s: int| 0 <= s < i ==> #[trigger] table@[s] < (1u16 << (rate as u16)),
        decreases num_states - i,
    {
        let s = i as u16;
        let mut concat: u16 = 0;
        let mut mask: u16 = 1;
        let mut j: usize = 0;
        proof {
            assert(1u16 == (1u16 << 0u16)) by (bit_vector);
            assert(0u16 < (1u16 << 0u16)) by (bit_vector);
        }
        while j < rate as usize
            invariant
                j <= rate <= 6,
                polys@.len() == rate,
                concat == poly_entry(polys@, s, j as nat),
                mask == (1u16 << (j as u16)),
                concat < mask,
            decreases rate - j,
        {
            let poly: u16 = polys[j];
            let state_and_poly = s & poly;
            let ghost prev = concat;
            let ghost b = parity((s & poly) as nat);
            if popcount(state_and_poly as u32) % 2 == 1 {
                concat = concat | mask;
            }
            proof {
                assert((state_and_poly as u32) as nat == state_and_poly as nat);
                lemma_u16_or_bit(prev, b, j as u16, 0);
                assert((1u16 << (j as u16)) << 1u16 == (1u16 << ((j + 1) as u16)))
                    by (bit_vector)
                    requires
                        j < 15,
                ;
            }
            mask = mask << 1u16;
            j = j + 1;
        }
        table.push(concat);
        i = i + 1;
    }
    table
}

} // verus!
