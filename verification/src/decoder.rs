//! Hard-decision Viterbi decoder: per-state error metrics (double-buffered),
//! a paired-state branch-distance table, a ring of survivor bits with
//! periodic traceback and renormalization, and the decoder that drives the
//! warm-up, inner, tail and flush phases over them.

use vstd::prelude::*;

use crate::bit::BitReader;
use crate::bit::BitWriter;
use crate::bits::bit_at;
use crate::bits::pop;
use crate::util::conv_poly_table;
use crate::util::metric_distance;
use crate::util::num_states_for_order;
use crate::util::poly_entry;
use vstd::arithmetic::power2::pow2;

verus! {

/// A path metric sum, saturating at the top of the 16-bit range.
pub open spec fn metric_add(a: u16, b: u16) -> u16 {
    if a + b > 0xFFFF {
        0xFFFF
    } else {
        (a + b) as u16
    }
}

fn add_metric(a: u16, b: u16) -> (r: u16)
    ensures
        r == metric_add(a, b),
{
    if a > 0xFFFF - b {
        0xFFFF
    } else {
        a + b
    }
}

/// 16-bit wrapping difference: what subtracting the per-step minimum leaves
/// in each metric slot.
pub open spec fn wrap_sub16(a: u16, b: u16) -> u16 {
    (((a as int) - (b as int) + 0x10000) % 0x10000) as u16
}

/// The first index among `s, s + step, s + 2 step, ...` holding the least
/// value of `d`.
pub open spec fn stride_argmin(d: Seq<u16>, step: int, s: int) -> int
    decreases d.len() - s,
    when 0 <= s < d.len() && step >= 1
{
    if s + step >= d.len() {
        s
    } else {
        let rest = stride_argmin(d, step, s + step);
        if d[s] <= d[rest] {
            s
        } else {
            rest
        }
    }
}

proof fn lemma_stride_argmin_props(d: Seq<u16>, step: int, s: int)
    requires
        0 <= s < d.len(),
        step >= 1,
    ensures
        s <= stride_argmin(d, step, s) < d.len(),
        (stride_argmin(d, step, s) - s) % step == 0,
        forall|j: int|
            s <= j < d.len() && (j - s) % step == 0 ==> d[stride_argmin(d, step, s)] <= #[trigger] d[j],
        forall|j: int|
            s <= j < stride_argmin(d, step, s) && (j - s) % step == 0 ==> d[stride_argmin(
                d,
                step,
                s,
            )] < #[trigger] d[j],
    decreases d.len() - s,
{
    let m = stride_argmin(d, step, s);
    if s + step >= d.len() {
        assert forall|j: int| s <= j < d.len() && (j - s) % step == 0 implies d[m] <= #[trigger] d[j] by {
            if j != s {
                vstd::arithmetic::div_mod::lemma_fundamental_div_mod(j - s, step);
                vstd::arithmetic::div_mod::lemma_mod_division_less_than_divisor(j - s, step);
                assert((j - s) / step >= 1) by {
                    if (j - s) / step <= 0 {
                        assert(j - s < step);
                    }
                }
                assert(j - s >= step) by (nonlinear_arith)
                    requires
                        j - s == step * ((j - s) / step),
                        (j - s) / step >= 1,
                        step >= 1,
                ;
            }
        }
    } else {
        lemma_stride_argmin_props(d, step, s + step);
        let rest = stride_argmin(d, step, s + step);
        assert forall|j: int| s <= j < d.len() && (j - s) % step == 0 implies d[m] <= #[trigger] d[j] by {
            if j != s {
                vstd::arithmetic::div_mod::lemma_fundamental_div_mod(j - s, step);
                vstd::arithmetic::div_mod::lemma_mod_division_less_than_divisor(j - s, step);
                assert((j - s) / step >= 1) by {
                    if (j - s) / step <= 0 {
                        assert(j - s < step);
                    }
                }
                assert(j - s >= step) by (nonlinear_arith)
                    requires
                        j - s == step * ((j - s) / step),
                        (j - s) / step >= 1,
                        step >= 1,
                ;
                assert((j - (s + step)) % step == 0) by {
                    vstd::arithmetic::div_mod::lemma_mod_sub_multiples_vanish(j - s, step);
                }
                assert(d[rest] <= d[j]);
            }
        }
        assert forall|j: int| s <= j < m && (j - s) % step == 0 implies d[m] < #[trigger] d[j] by {
            if j != s {
                vstd::arithmetic::div_mod::lemma_fundamental_div_mod(j - s, step);
                vstd::arithmetic::div_mod::lemma_mod_division_less_than_divisor(j - s, step);
                assert((j - s) / step >= 1) by {
                    if (j - s) / step <= 0 {
                        assert(j - s < step);
                    }
                }
                assert(j - s >= step) by (nonlinear_arith)
                    requires
                        j - s == step * ((j - s) / step),
                        (j - s) / step >= 1,
                        step >= 1,
                ;
                assert((j - (s + step)) % step == 0) by {
                    vstd::arithmetic::div_mod::lemma_mod_sub_multiples_vanish(j - s, step);
                }
            }
        }
        if m != s {
            assert((m - s) % step == 0) by {
                vstd::arithmetic::div_mod::lemma_mod_add_multiples_vanish(m - (s + step), step);
                assert(m - s == (m - (s + step)) + step);
            }
        }
    }
}

/// A round trip preserves the length: decoding the `R * (8 len + K + 1)`
/// bits that encoding a `len`-byte message produces yields exactly `len`
/// whole bytes, because the decoder emits `8 len + 2` bits and the two
/// residual tail bits never fill a byte.
pub proof fn lemma_round_trip_length(rate: int, order: int, len: int)
    requires
        2 <= rate <= 6,
        2 <= order <= 15,
        0 <= len,
    ensures
        (rate * (8 * len + order + 1)) % rate == 0,
        ((rate * (8 * len + order + 1)) / rate - order + 1) / 8 == len,
{
    let total = 8 * len + order + 1;
    vstd::arithmetic::div_mod::lemma_fundamental_div_mod_converse(rate * total, rate, total, 0);
    vstd::arithmetic::div_mod::lemma_fundamental_div_mod_converse(8 * len + 2, 8, len, 2);
}

/// Renormalization leaves a zero minimum: subtracting the least metric found
/// at the stride positions zeroes that position exactly, and at every stride
/// position the subtraction does not wrap, so the differences between
/// searched metrics are preserved.
pub proof fn lemma_renormalize_min_zero(d: Seq<u16>, step: int)
    requires
        1 <= d.len(),
        1 <= step,
    ensures
        wrap_sub16(d[stride_argmin(d, step, 0)], d[stride_argmin(d, step, 0)]) == 0,
        forall|j: int|
            0 <= j < d.len() && j % step == 0 ==> #[trigger] wrap_sub16(
                d[j],
                d[stride_argmin(d, step, 0)],
            ) == d[j] - d[stride_argmin(d, step, 0)],
{
    lemma_stride_argmin_props(d, step, 0);
    let m = stride_argmin(d, step, 0);
    vstd::arithmetic::div_mod::lemma_small_mod(0nat, 0x10000);
    assert forall|j: int|
        0 <= j < d.len() && j % step == 0 implies #[trigger] wrap_sub16(d[j], d[m]) == d[j]
        - d[m] by {
        assert(d[m] <= d[j]);
        vstd::arithmetic::div_mod::lemma_mod_sub_multiples_vanish(
            (d[j] as int) - (d[m] as int) + 0x10000,
            0x10000,
        );
        vstd::arithmetic::div_mod::lemma_small_mod((d[j] - d[m]) as nat, 0x10000);
    }
}

/// Double-buffered per-state path metrics, swapped each trellis step.
pub struct ConvolutionalErrorTable {
    errors: Vec<u16>,
    previous_errors: Vec<u16>,
}

impl ConvolutionalErrorTable {
    /// The metrics being written this step.
    pub closed spec fn errors_view(&self) -> Seq<u16> {
        self.errors@
    }

    /// The metrics of the previous step.
    pub closed spec fn previous_view(&self) -> Seq<u16> {
        self.previous_errors@
    }

    pub fn new(num_states: usize) -> (r: ConvolutionalErrorTable)
        ensures
            r.errors_view() == Seq::new(num_states as nat, |i: int| 0u16),
            r.previous_view() == Seq::new(num_states as nat, |i: int| 0u16),
    {
        let r = ConvolutionalErrorTable {
            errors: vec![0u16; num_states],
            previous_errors: vec![0u16; num_states],
        };
        proof {
            assert(r.errors_view() =~= Seq::new(num_states as nat, |i: int| 0u16));
            assert(r.previous_view() =~= Seq::new(num_states as nat, |i: int| 0u16));
        }
        r
    }

    /// Exchange the current and previous metric vectors.
    pub fn swap(&mut self)
        ensures
            final(self).errors_view() == old(self).previous_view(),
            final(self).previous_view() == old(self).errors_view(),
    {
        core::mem::swap(&mut self.errors, &mut self.previous_errors);
    }

    /// Zero both metric vectors, keeping their lengths.
    pub fn reset(&mut self)
        ensures
            final(self).errors_view() == Seq::new(old(self).errors_view().len(), |i: int| 0u16),
            final(self).previous_view() == Seq::new(
                old(self).previous_view().len(),
                |i: int| 0u16,
            ),
    {
        let n = self.errors.len();
        let m = self.previous_errors.len();
        self.errors = vec![0u16; n];
        self.previous_errors = vec![0u16; m];
        proof {
            assert(self.errors_view() =~= Seq::new(old(self).errors_view().len(), |i: int| 0u16));
            assert(self.previous_view() =~= Seq::new(
                old(self).previous_view().len(),
                |i: int| 0u16,
            ));
        }
    }
}

/// The packed output pair of trellis states `2i` and `2i + 1`.
pub open spec fn pair_output(poly_table: Seq<u16>, rate: nat, i: int) -> u32 {
    ((poly_table[2 * i + 1] as u32) << (rate as u32)) | (poly_table[2 * i] as u32)
}

proof fn lemma_pair_pack(a: u16, b: u16, r: u32)
    by (bit_vector)
    requires
        1 <= r <= 6,
        a < (1u16 << (r as u16)),
        b < (1u16 << (r as u16)),
    ensures
        (((a as u32) << r) | (b as u32)) < (1u32 << (2 * r)),
        ((((a as u32) << r) | (b as u32)) >> r) == a as u32,
        ((((a as u32) << r) | (b as u32)) & (((1u32 << r) - 1) as u32)) == b as u32,
{
}

proof fn lemma_pair_unpack(o: u32, r: u32)
    by (bit_vector)
    requires
        1 <= r <= 6,
        o < (1u32 << (2 * r)),
    ensures
        (o >> r) < (1u32 << r),
        (o & (((1u32 << r) - 1) as u32)) < (1u32 << r),
{
}

proof fn lemma_concat32(a: u16, b: u16)
    by (bit_vector)
    ensures
        ((((a as u32) << 16u32) | (b as u32)) & 0xffff) as u16 == b,
        ((((a as u32) << 16u32) | (b as u32)) >> 16u32) as u16 == a,
{
}

/// Deduplicated packed output pairs and, per pair of states, the key of its
/// output in the deduplicated list.
pub struct ConvolutionalPairTable {
    keys: Vec<u32>,
    outputs: Vec<u32>,
    distances: Vec<u32>,
    output_mask: u32,
    output_width: u32,
}

impl ConvolutionalPairTable {
    pub closed spec fn keys_view(&self) -> Seq<u32> {
        self.keys@
    }

    pub closed spec fn outputs_view(&self) -> Seq<u32> {
        self.outputs@
    }

    pub closed spec fn distances_view(&self) -> Seq<u32> {
        self.distances@
    }

    /// Keys index the deduplicated outputs; the output of pair `i` packs the
    /// poly-table entries of states `2i + 1` and `2i`; outputs fit in `2R`
    /// bits and are pairwise distinct.
    pub closed spec fn wf(&self, poly_table: Seq<u16>, rate: nat) -> bool {
        &&& 1 <= rate <= 6
        &&& self.output_width == rate
        &&& self.output_mask == (((1u32 << (rate as u32)) - 1) as u32)
        &&& self.keys@.len() * 2 == poly_table.len()
        &&& self.distances@.len() == self.outputs@.len()
        &&& forall|i: int|
            0 <= i < self.keys@.len() ==> #[trigger] self.keys@[i] < self.outputs@.len()
        &&& forall|i: int|
            0 <= i < self.keys@.len() ==> #[trigger] self.outputs@[self.keys@[i] as int]
                == pair_output(poly_table, rate, i)
        &&& forall|k: int|
            0 <= k < self.outputs@.len() ==> #[trigger] self.outputs@[k] < (1u32 << ((2 * rate)
                as u32))
        &&& forall|a: int, b: int|
            0 <= a < b < self.outputs@.len() ==> self.outputs@[a] != self.outputs@[b]
    }

    /// What well-formedness seals: pair `i`'s key points at its packed
    /// output `(poly_table[2i+1] << R) | poly_table[2i]`, and the
    /// deduplicated outputs are pairwise distinct.
    pub proof fn lemma_pair_outputs(&self, poly_table: Seq<u16>, rate: nat)
        requires
            self.wf(poly_table, rate),
        ensures
            self.keys_view().len() * 2 == poly_table.len(),
            forall|i: int|
                0 <= i < self.keys_view().len() ==> #[trigger] self.keys_view()[i]
                    < self.outputs_view().len(),
            forall|i: int|
                0 <= i < self.keys_view().len() ==> #[trigger] self.outputs_view()[self.keys_view()[i] as int]
                    == pair_output(poly_table, rate, i),
            forall|a: int, b: int|
                0 <= a < b < self.outputs_view().len() ==> self.outputs_view()[a]
                    != self.outputs_view()[b],
    {
    }

    pub fn new(rate: u32, order: u32, poly_table: &Vec<u16>) -> (r: ConvolutionalPairTable)
        requires
            1 <= rate <= 6,
            2 <= order <= 15,
            poly_table@.len() == pow2(order as nat),
            forall|s: int|
                0 <= s < poly_table@.len() ==> #[trigger] poly_table@[s] < (1u16 << (rate as u16)),
        ensures
            r.wf(poly_table@, rate as nat),
    {
        let num_pairs = (num_states_for_order(order) / 2) as usize;
        proof {
            vstd::arithmetic::power2::lemma_pow2_unfold(order as nat);
            vstd::arithmetic::power2::lemma2_to64();
            vstd::arithmetic::power2::lemma_pow2_strictly_increases(order as nat, 16);
            assert(num_pairs * 2 == poly_table@.len());
            let rr = rate;
            assert((1u32 << rr) >= 2) by (bit_vector)
                requires
                    1 <= rr <= 6,
            ;
        }
        let mut keys: Vec<u32> = Vec::new();
        let mut outputs: Vec<u32> = Vec::new();
        let mut i: usize = 0;
        while i < num_pairs
            invariant
                1 <= rate <= 6,
                i <= num_pairs,
                num_pairs * 2 == poly_table@.len(),
                num_pairs <= 32768,
                forall|s: int|
                    0 <= s < poly_table@.len() ==> #[trigger] poly_table@[s] < (1u16 << (
                    rate as u16)),
                keys@.len() == i,
                outputs@.len() <= i,
                forall|p: int| 0 <= p < i ==> #[trigger] keys@[p] < outputs@.len(),
                forall|p: int|
                    0 <= p < i ==> #[trigger] outputs@[keys@[p] as int] == pair_output(
                        poly_table@,
                        rate as nat,
                        p,
                    ),
                forall|k: int|
                    0 <= k < outputs@.len() ==> #[trigger] outputs@[k] < (1u32 << ((2 * rate)
                        as u32)),
                forall|a: int, b: int| 0 <= a < b < outputs@.len() ==> outputs@[a] != outputs@[b],
            decreases num_pairs - i,
        {
            let hi = poly_table[2 * i + 1];
            let lo = poly_table[2 * i];
            let output: u32 = ((hi as u32) << rate) | (lo as u32);
            proof {
                lemma_pair_pack(hi, lo, rate);
                assert(output == pair_output(poly_table@, rate as nat, i as int));
            }
            let mut key: u32 = 0;
            let mut found = false;
            let mut k: usize = 0;
            let n_out = outputs.len();
            while k < n_out
                invariant
                    n_out == outputs@.len(),
                    n_out <= 32768,
                    k <= n_out,
                    !found ==> forall|q: int| 0 <= q < k ==> outputs@[q] != output,
                    found ==> key < outputs@.len() && outputs@[key as int] == output,
                decreases n_out - k,
            {
                if outputs[k] == output {
                    if !found {
                        key = k as u32;
                        found = true;
                    }
                }
                k = k + 1;
            }
            if !found {
                key = outputs.len() as u32;
                outputs.push(output);
            }
            keys.push(key);
            i = i + 1;
        }
        let n_out = outputs.len();
        ConvolutionalPairTable {
            keys,
            distances: vec![0u32; n_out],
            outputs,
            output_mask: ((1u32 << rate) - 1) as u32,
            output_width: rate,
        }
    }

    /// Recompute, for every deduplicated output pair, the two branch metrics
    /// packed in one 32-bit word: the metric of the odd state in the high
    /// half, the metric of the even state in the low half.
    pub fn distances(&mut self, distances: &Vec<u16>, Ghost(poly_table): Ghost<Seq<u16>>, Ghost(
        rate,
    ): Ghost<nat>)
        requires
            old(self).wf(poly_table, rate),
            distances@.len() == (1u32 << ((rate as u32))) as int,
        ensures
            final(self).wf(poly_table, rate),
            final(self).keys_view() == old(self).keys_view(),
            final(self).outputs_view() == old(self).outputs_view(),
            final(self).distances_view().len() == old(self).distances_view().len(),
            forall|k: int|
                0 <= k < final(self).distances_view().len()
                    ==> #[trigger] final(self).distances_view()[k] == (((distances@[(old(self).outputs_view()[k] >> (rate as u32)) as int] as u32) << 16u32) | (distances@[(old(self).outputs_view()[k] & (((1u32 << (rate as u32)) - 1) as u32)) as int] as u32)),
    {
        let ghost prev = *self;
        let n = self.distances.len();
        let mut k: usize = 0;
        while k < n
            invariant
                *self == (ConvolutionalPairTable { distances: self.distances, ..prev }),
                prev.wf(poly_table, rate),
                1 <= rate <= 6,
                n == self.distances@.len(),
                n == self.outputs@.len(),
                k <= n,
                distances@.len() == (1u32 << ((rate as u32))) as int,
                forall|q: int|
                    0 <= q < k ==> #[trigger] self.distances@[q] == (((distances@[(prev.outputs@[q]
                        >> (rate as u32)) as int] as u32) << 16u32) | (distances@[(prev.outputs@[q]
                        & (((1u32 << (rate as u32)) - 1) as u32)) as int] as u32)),
            decreases n - k,
        {
            let pair = self.outputs[k];
            proof {
                lemma_pair_unpack(pair, rate as u32);
            }
            let first: u32 = pair & self.output_mask;
            let second: u32 = pair >> self.output_width;
            let v: u32 = ((distances[second as usize] as u32) << 16u32) | (distances[first
                as usize] as u32);
            self.distances[k] = v;
            k = k + 1;
        }
    }
}

/// The ring position one backward step before `idx`.
pub open spec fn tb_prev_idx(idx: int, cap: int) -> int {
    if idx == 0 {
        cap - 1
    } else {
        idx - 1
    }
}

/// The ring position `k` backward steps before `idx0`.
pub open spec fn tb_idx(idx0: int, cap: int, k: int) -> int
    decreases k,
{
    if k <= 0 {
        idx0
    } else {
        tb_prev_idx(tb_idx(idx0, cap, k - 1), cap)
    }
}

/// One traceback move: the recovered survivor bit enters at the high end of
/// the state and the newest register bit drops off.
pub open spec fn tb_next_state(b: u16, bit: u8, highbit: u16) -> u16 {
    if bit == 0 {
        b >> 1u16
    } else {
        (b | highbit) >> 1u16
    }
}

/// The state the traceback walk holds after `k` backward steps from `b0`,
/// reading survivor bits out of the ring `h` of `cap` rows by `ns` states.
pub open spec fn tb_state(
    h: Seq<u8>,
    ns: int,
    cap: int,
    highbit: u16,
    idx0: int,
    b0: u16,
    k: int,
) -> u16
    decreases k,
{
    if k <= 0 {
        b0
    } else {
        let p = tb_state(h, ns, cap, highbit, idx0, b0, k - 1);
        tb_next_state(p, h[tb_idx(idx0, cap, k) * ns + p], highbit)
    }
}

/// The survivor bit the traceback walk reads at backward step `k`.
pub open spec fn tb_bit(
    h: Seq<u8>,
    ns: int,
    cap: int,
    highbit: u16,
    idx0: int,
    b0: u16,
    k: int,
) -> u8 {
    h[tb_idx(idx0, cap, k + 1) * ns + tb_state(h, ns, cap, highbit, idx0, b0, k)]
}

proof fn lemma_multiple_gap(s: int, j: int, step: int)
    requires
        step >= 1,
        s % step == 0,
        j % step == 0,
        s < j,
    ensures
        j >= s + step,
{
    vstd::arithmetic::div_mod::lemma_fundamental_div_mod(j, step);
    vstd::arithmetic::div_mod::lemma_fundamental_div_mod(s, step);
    assert(j / step >= s / step + 1) by (nonlinear_arith)
        requires
            j == step * (j / step) + j % step,
            s == step * (s / step) + s % step,
            s % step == 0,
            j % step == 0,
            s < j,
            step >= 1,
    ;
    assert(j >= s + step) by (nonlinear_arith)
        requires
            j == step * (j / step),
            s == step * (s / step),
            j / step >= s / step + 1,
            step >= 1,
    ;
}

proof fn lemma_tb_state_bound(b: u16, h: u16)
    by (bit_vector)
    requires
        b < h,
    ensures
        ((b | h) >> 1u16) < h,
        (b >> 1u16) < h,
{
}

/// Ring buffer of survivor bits with periodic traceback and metric
/// renormalization.
pub struct ConvolutionalHistoryTable {
    min_traceback_length: usize,
    num_states: usize,
    highbit: u16,
    history: Vec<u8>,
    decode_buf: Vec<u8>,
    history_index: usize,
    history_len: usize,
    history_cap: usize,
    renormalize_interval: u32,
    renormalize_counter: u32,
}

impl ConvolutionalHistoryTable {
    /// Survivor bit rows, `cap` rows of `ns` states, flattened row-major.
    pub closed spec fn history_view(&self) -> Seq<u8> {
        self.history@
    }

    pub closed spec fn index_spec(&self) -> int {
        self.history_index as int
    }

    pub closed spec fn len_spec(&self) -> int {
        self.history_len as int
    }

    pub closed spec fn cap_spec(&self) -> int {
        self.history_cap as int
    }

    pub closed spec fn num_states_spec(&self) -> int {
        self.num_states as int
    }

    pub closed spec fn min_tb_spec(&self) -> int {
        self.min_traceback_length as int
    }

    pub closed spec fn counter_spec(&self) -> int {
        self.renormalize_counter as int
    }

    pub closed spec fn interval_spec(&self) -> int {
        self.renormalize_interval as int
    }

    pub closed spec fn highbit_spec(&self) -> u16 {
        self.highbit
    }

    /// The ring shape and counters are consistent, and every survivor entry
    /// is a single bit.
    pub closed spec fn wf(&self) -> bool {
        &&& 1 <= self.num_states
        &&& self.num_states <= 32768
        &&& self.highbit as int == self.num_states as int
        &&& 1 <= self.history_cap
        &&& self.min_traceback_length < self.history_cap
        &&& self.history@.len() == self.num_states * self.history_cap
        &&& self.decode_buf@.len() == self.history_cap
        &&& self.history_index < self.history_cap
        &&& self.history_len <= self.history_cap
        &&& 1 <= self.renormalize_interval
        &&& self.renormalize_counter < self.renormalize_interval
        &&& forall|i: int| 0 <= i < self.history@.len() ==> #[trigger] self.history@[i] <= 1
    }

    /// The parts of the table that traceback does not touch.
    pub open spec fn same_shape(&self, other: &Self) -> bool {
        &&& self.history_view() == other.history_view()
        &&& self.index_spec() == other.index_spec()
        &&& self.cap_spec() == other.cap_spec()
        &&& self.num_states_spec() == other.num_states_spec()
        &&& self.min_tb_spec() == other.min_tb_spec()
        &&& self.counter_spec() == other.counter_spec()
        &&& self.interval_spec() == other.interval_spec()
        &&& self.highbit_spec() == other.highbit_spec()
    }

    pub fn new(
        min_traceback_length: u32,
        traceback_group_length: u32,
        renormalize_interval: u32,
        num_states: u32,
        highbit: u16,
    ) -> (r: ConvolutionalHistoryTable)
        requires
            num_states == highbit,
            1 <= num_states <= 32768,
            1 <= min_traceback_length,
            1 <= traceback_group_length,
            1 <= renormalize_interval,
            min_traceback_length + traceback_group_length <= usize::MAX,
            num_states * (min_traceback_length + traceback_group_length) <= usize::MAX,
        ensures
            r.wf(),
            r.len_spec() == 0,
            r.index_spec() == 0,
            r.counter_spec() == 0,
            r.cap_spec() == min_traceback_length + traceback_group_length,
            r.min_tb_spec() == min_traceback_length,
            r.num_states_spec() == num_states,
            r.interval_spec() == renormalize_interval,
            r.highbit_spec() == highbit,
            r.history_view() == Seq::new(
                (num_states * (min_traceback_length + traceback_group_length)) as nat,
                |i: int| 0u8,
            ),
    {
        let cap: usize = min_traceback_length as usize + traceback_group_length as usize;
        let ns: usize = num_states as usize;
        proof {
            assert(ns * cap <= usize::MAX);
        }
        let r = ConvolutionalHistoryTable {
            min_traceback_length: min_traceback_length as usize,
            num_states: ns,
            highbit,
            history: vec![0u8; ns * cap],
            decode_buf: vec![0u8; cap],
            history_index: 0,
            history_len: 0,
            history_cap: cap,
            renormalize_interval,
            renormalize_counter: 0,
        };
        proof {
            assert(r.history_view() =~= Seq::new(
                (num_states * (min_traceback_length + traceback_group_length)) as nat,
                |i: int| 0u8,
            ));
        }
        r
    }

    /// The base offset of the ring row being written this step: survivor bit
    /// of state `s` goes to `get_slice() + s`.
    pub fn get_slice(&self) -> (r: usize)
        requires
            self.wf(),
        ensures
            r == self.index_spec() * self.num_states_spec(),
            r + self.num_states_spec() <= self.history_view().len(),
    {
        let total = self.history.len();
        proof {
            assert((self.history_index as int) * (self.num_states as int) + self.num_states as int
                <= (self.num_states as int) * (self.history_cap as int)) by (nonlinear_arith)
                requires
                    (self.history_index as int) < (self.history_cap as int),
                    0 <= (self.num_states as int),
            ;
        }
        self.history_index * self.num_states
    }

    /// The first index at a multiple of `search_every` holding the least
    /// metric.
    pub fn least_error_path(&self, distances: &Vec<u16>, search_every: u32) -> (r: u16)
        requires
            1 <= search_every <= 32768,
            1 <= distances@.len() <= 32768,
        ensures
            r as int == stride_argmin(distances@, search_every as int, 0),
            r < distances@.len(),
    {
        let step = search_every as usize;
        let n = distances.len();
        let mut best_path: usize = 0;
        let mut least_error: u16 = distances[0];
        proof {
            assert forall|j: int| 0 <= j < step && #[trigger] (j % (step as int)) == 0 implies j
                == 0 by {
                if j > 0 {
                    lemma_multiple_gap(0, j, step as int);
                }
            }
            vstd::arithmetic::div_mod::lemma_mod_self_0(step as int);
        }
        let mut s: usize = step;
        while s < n
            invariant
                1 <= step <= 32768,
                1 <= n <= 32768,
                n == distances@.len(),
                s % step == 0,
                1 <= s,
                best_path < s,
                best_path < n,
                best_path % step == 0,
                least_error == distances@[best_path as int],
                forall|j: int|
                    0 <= j < s && j % (step as int) == 0 ==> least_error <= #[trigger] distances@[j],
                forall|j: int|
                    0 <= j < best_path && j % (step as int) == 0 ==> least_error < #[trigger] distances@[j],
            decreases n + step - s,
        {
            if distances[s] < least_error {
                least_error = distances[s];
                best_path = s;
            }
            proof {
                assert((s as int + step as int) % (step as int) == 0) by {
                    vstd::arithmetic::div_mod::lemma_mod_add_multiples_vanish(s as int, step as int);
                    vstd::arithmetic::div_mod::lemma_mod_self_0(step as int);
                }
                assert forall|j: int|
                    0 <= j < s + step && (j % (step as int)) == 0 implies least_error
                    <= #[trigger] distances@[j] by {
                    if j > s {
                        lemma_multiple_gap(s as int, j, step as int);
                    }
                }
            }
            s = s + step;
        }
        proof {
            lemma_stride_argmin_props(distances@, step as int, 0);
            let m = stride_argmin(distances@, step as int, 0);
            assert((best_path as int) % (step as int) == 0);
            assert((m - 0) % (step as int) == 0 && m % (step as int) == 0);
            assert(distances@[m] <= distances@[best_path as int]);
            assert(distances@[best_path as int] <= distances@[m]);
            if m < best_path {
                assert(distances@[best_path as int] < distances@[m]);
            }
            if best_path < m {
                assert(distances@[m] < distances@[best_path as int]);
            }
        }
        best_path as u16
    }

    /// Subtract the metric of `least_register` from every metric, wrapping
    /// modulo 2^16; at the stride positions it searched, the minimum becomes
    /// zero.
    pub fn renormalize(&mut self, distances: &mut Vec<u16>, least_register: u16)
        requires
            least_register < old(distances)@.len(),
        ensures
            *final(self) == *old(self),
            final(distances)@.len() == old(distances)@.len(),
            forall|j: int|
                0 <= j < old(distances)@.len() ==> #[trigger] final(distances)@[j] == wrap_sub16(
                    old(distances)@[j],
                    old(distances)@[least_register as int],
                ),
    {
        let m = distances[least_register as usize];
        let n = distances.len();
        let mut j: usize = 0;
        while j < n
            invariant
                *self == *old(self),
                n == distances@.len(),
                n == old(distances)@.len(),
                j <= n,
                m == old(distances)@[least_register as int],
                forall|q: int|
                    0 <= q < j ==> #[trigger] distances@[q] == wrap_sub16(old(distances)@[q], m),
                forall|q: int| j <= q < n ==> #[trigger] distances@[q] == old(distances)@[q],
            decreases n - j,
        {
            let v = distances[j];
            let nv: u16 = if v >= m {
                v - m
            } else {
                ((v as u32 + 0x10000 - m as u32)) as u16
            };
            proof {
                vstd::arithmetic::div_mod::lemma_small_mod(
                    ((v as int) - (m as int) + 0x10000) as nat % 0x10000 as nat,
                    0x10000,
                );
                if v >= m {
                    vstd::arithmetic::div_mod::lemma_mod_sub_multiples_vanish(
                        (v as int) - (m as int) + 0x10000,
                        0x10000,
                    );
                    vstd::arithmetic::div_mod::lemma_small_mod((v - m) as nat, 0x10000);
                } else {
                    vstd::arithmetic::div_mod::lemma_small_mod(
                        ((v as int) - (m as int) + 0x10000) as nat,
                        0x10000,
                    );
                }
            }
            distances[j] = nv;
            j = j + 1;
        }
    }

    /// Walk the survivor ring backward from `init_best_path`: discard the
    /// first `min_traceback_length` still-converging bits, collect the
    /// remaining `len - min_traceback_length`, and append them oldest-first
    /// to the writer. The history length drops to `min_traceback_length`.
    pub fn traceback(
        &mut self,
        init_best_path: u16,
        min_traceback_length: usize,
        bit_writer: &mut BitWriter,
    )
        requires
            old(self).wf(),
            (init_best_path as int) < old(self).num_states_spec(),
            min_traceback_length <= old(self).len_spec(),
            old(bit_writer).wf(),
        ensures
            final(self).wf(),
            final(self).same_shape(old(self)),
            final(self).len_spec() == min_traceback_length,
            final(bit_writer).wf(),
            final(bit_writer).bits() == old(bit_writer).bits() + Seq::new(
                (old(self).len_spec() - min_traceback_length) as nat,
                |t: int|
                    tb_bit(
                        old(self).history_view(),
                        old(self).num_states_spec(),
                        old(self).cap_spec(),
                        old(self).highbit_spec(),
                        old(self).index_spec(),
                        init_best_path,
                        old(self).len_spec() - 1 - t,
                    ),
            ),
    {
        let ghost h = self.history@;
        let ghost ns = self.num_states as int;
        let ghost cap = self.cap_spec();
        let ghost hb = self.highbit;
        let ghost idx0 = self.index_spec();

        let total = self.history.len();
        let mut index = self.history_index;
        let mut best_path = init_best_path;

        let mut k: usize = 0;
        while k < min_traceback_length
            invariant
                self.wf(),
                *self == *old(self),
                h == self.history@,
                ns == self.num_states as int,
                cap == self.cap_spec(),
                hb == self.highbit,
                idx0 == self.index_spec(),
                k <= min_traceback_length,
                min_traceback_length <= self.len_spec(),
                total == self.history@.len(),
                index as int == tb_idx(idx0, cap, k as int),
                index < self.history_cap,
                best_path == tb_state(h, ns, cap, hb, idx0, init_best_path, k as int),
                (best_path as int) < ns,
            decreases min_traceback_length - k,
        {
            if index == 0 {
                index = self.history_cap - 1;
            } else {
                index = index - 1;
            }
            proof {
                assert((index as int) * ns + (best_path as int) < ns * cap) by (nonlinear_arith)
                    requires
                        (index as int) < cap,
                        (best_path as int) < ns,
                        0 <= index as int,
                        0 <= best_path as int,
                        0 < ns,
                ;
            }
            let bit = self.history[index * self.num_states + best_path as usize];
            proof {
                assert(bit == tb_bit(h, ns, cap, hb, idx0, init_best_path, k as int));
                lemma_tb_state_bound(best_path, hb);
            }
            let reg_bit: u16 = if bit == 0 {
                0
            } else {
                self.highbit
            };
            best_path = best_path | reg_bit;
            best_path = best_path >> 1u16;
            proof {
                let p = tb_state(h, ns, cap, hb, idx0, init_best_path, k as int);
                if bit == 0 {
                    assert((p | 0u16) == p) by (bit_vector);
                }
            }
            k = k + 1;
        }

        let num_decodes = self.history_len - min_traceback_length;
        let mut d: usize = 0;
        while d < num_decodes
            invariant
                self.wf(),
                self.history@ == h,
                self.history_len == old(self).history_len,
                self.history_index == old(self).history_index,
                self.history_cap == old(self).history_cap,
                self.num_states == old(self).num_states,
                self.min_traceback_length == old(self).min_traceback_length,
                self.renormalize_counter == old(self).renormalize_counter,
                self.renormalize_interval == old(self).renormalize_interval,
                self.highbit == old(self).highbit,
                ns == self.num_states as int,
                cap == self.cap_spec(),
                hb == self.highbit,
                idx0 == self.index_spec(),
                self.wf(),
                d <= num_decodes,
                num_decodes == self.len_spec() - min_traceback_length,
                min_traceback_length <= self.len_spec(),
                total == self.history@.len(),
                index as int == tb_idx(idx0, cap, min_traceback_length + d),
                index < self.history_cap,
                best_path == tb_state(h, ns, cap, hb, idx0, init_best_path, min_traceback_length
                    + d),
                (best_path as int) < ns,
                self.decode_buf@.len() == self.history_cap,
                forall|t: int|
                    0 <= t < d ==> #[trigger] self.decode_buf@[t] == tb_bit(
                        h,
                        ns,
                        cap,
                        hb,
                        idx0,
                        init_best_path,
                        min_traceback_length + t,
                    ),
                forall|t: int| 0 <= t < d ==> #[trigger] self.decode_buf@[t] <= 1,
            decreases num_decodes - d,
        {
            if index == 0 {
                index = self.history_cap - 1;
            } else {
                index = index - 1;
            }
            proof {
                assert((index as int) * ns + (best_path as int) < ns * cap) by (nonlinear_arith)
                    requires
                        (index as int) < cap,
                        (best_path as int) < ns,
                        0 <= index as int,
                        0 <= best_path as int,
                        0 < ns,
                ;
            }
            let bit = self.history[index * self.num_states + best_path as usize];
            proof {
                assert(bit == tb_bit(h, ns, cap, hb, idx0, init_best_path, min_traceback_length
                    + d));
                lemma_tb_state_bound(best_path, hb);
            }
            self.decode_buf[d] = bit;
            let reg_bit: u16 = if bit == 0 {
                0
            } else {
                self.highbit
            };
            best_path = best_path | reg_bit;
            best_path = best_path >> 1u16;
            proof {
                let p = tb_state(h, ns, cap, hb, idx0, init_best_path, min_traceback_length + d);
                if bit == 0 {
                    assert((p | 0u16) == p) by (bit_vector);
                }
            }
            d = d + 1;
        }

        let mut reversed: Vec<u8> = Vec::new();
        let mut t: usize = 0;
        while t < num_decodes
            invariant
                t <= num_decodes,
                num_decodes <= self.decode_buf@.len(),
                reversed@.len() == t,
                forall|q: int|
                    0 <= q < t ==> #[trigger] reversed@[q] == self.decode_buf@[num_decodes - 1 - q],
            decreases num_decodes - t,
        {
            let v = self.decode_buf[num_decodes - 1 - t];
            reversed.push(v);
            t = t + 1;
        }
        proof {
            assert forall|q: int| 0 <= q < reversed@.len() implies reversed@[q] <= 1 by {
                assert(reversed@[q] == self.decode_buf@[num_decodes - 1 - q]);
                assert(self.decode_buf@[num_decodes - 1 - q] == tb_bit(
                    h,
                    ns,
                    cap,
                    hb,
                    idx0,
                    init_best_path,
                    min_traceback_length + (num_decodes - 1 - q),
                ));
            }
        }
        bit_writer.write_iter(reversed.as_slice());
        self.history_len = self.history_len - num_decodes;
        proof {
            assert(final(bit_writer).bits() =~= old(bit_writer).bits() + Seq::new(
                (old(self).len_spec() - min_traceback_length) as nat,
                |t: int|
                    tb_bit(
                        old(self).history_view(),
                        old(self).num_states_spec(),
                        old(self).cap_spec(),
                        old(self).highbit_spec(),
                        old(self).index_spec(),
                        init_best_path,
                        old(self).len_spec() - 1 - t,
                    ),
            ));
        }
    }

    /// Advance the ring by one written row, count the step toward
    /// renormalization, and when the renormalization interval elapses,
    /// shift all metrics down by the least metric at the stride positions;
    /// when the ring is full, run traceback from that least-metric state.
    pub fn process_step(&mut self, step: u32, distances: &mut Vec<u16>, bit_writer: &mut BitWriter)
        requires
            old(self).wf(),
            old(self).len_spec() < old(self).cap_spec(),
            old(distances)@.len() == old(self).num_states_spec(),
            1 <= step <= 32768,
            old(bit_writer).wf(),
        ensures
            final(self).wf(),
            final(self).len_spec() < final(self).cap_spec(),
            final(self).history_view() == old(self).history_view(),
            final(self).cap_spec() == old(self).cap_spec(),
            final(self).num_states_spec() == old(self).num_states_spec(),
            final(self).min_tb_spec() == old(self).min_tb_spec(),
            final(self).interval_spec() == old(self).interval_spec(),
            final(self).highbit_spec() == old(self).highbit_spec(),
            final(self).index_spec() == (old(self).index_spec() + 1) % old(self).cap_spec(),
            final(self).counter_spec() == (if old(self).counter_spec() + 1 == old(self).interval_spec() {
                0int
            } else {
                old(self).counter_spec() + 1
            }),
            final(self).len_spec() == (if old(self).len_spec() + 1 == old(self).cap_spec() {
                old(self).min_tb_spec()
            } else {
                old(self).len_spec() + 1
            }),
            final(distances)@.len() == old(distances)@.len(),
            (if old(self).counter_spec() + 1 == old(self).interval_spec() {
                forall|j: int|
                    0 <= j < old(distances)@.len() ==> #[trigger] final(distances)@[j]
                        == wrap_sub16(
                        old(distances)@[j],
                        old(distances)@[stride_argmin(old(distances)@, step as int, 0)],
                    )
            } else {
                final(distances)@ == old(distances)@
            }),
            final(bit_writer).wf(),
            (if old(self).len_spec() + 1 == old(self).cap_spec() {
                final(bit_writer).bits() == old(bit_writer).bits() + Seq::new(
                    (old(self).len_spec() + 1 - old(self).min_tb_spec()) as nat,
                    |t: int|
                        tb_bit(
                            old(self).history_view(),
                            old(self).num_states_spec(),
                            old(self).cap_spec(),
                            old(self).highbit_spec(),
                            (old(self).index_spec() + 1) % old(self).cap_spec(),
                            stride_argmin(old(distances)@, step as int, 0) as u16,
                            old(self).len_spec() - t,
                        ),
                )
            } else {
                final(bit_writer).bits() == old(bit_writer).bits()
            }),
    {
        self.history_index = self.history_index + 1;
        if self.history_index == self.history_cap {
            self.history_index = 0;
        }
        proof {
            if old(self).index_spec() + 1 == old(self).cap_spec() {
                vstd::arithmetic::div_mod::lemma_mod_self_0(old(self).cap_spec());
            } else {
                vstd::arithmetic::div_mod::lemma_small_mod(
                    (old(self).index_spec() + 1) as nat,
                    old(self).cap_spec() as nat,
                );
            }
        }

        self.renormalize_counter = self.renormalize_counter + 1;
        self.history_len = self.history_len + 1;

        if self.renormalize_counter == self.renormalize_interval {
            self.renormalize_counter = 0;
            let best_path = self.least_error_path(distances, step);
            self.renormalize(distances, best_path);
            if self.history_len == self.history_cap {
                let min_traceback_length = self.min_traceback_length;
                self.traceback(best_path, min_traceback_length, bit_writer);
            }
        } else if self.history_len == self.history_cap {
            let best_path = self.least_error_path(distances, step);
            let min_traceback_length = self.min_traceback_length;
            self.traceback(best_path, min_traceback_length, bit_writer);
        }
    }

    /// One inner-phase step: ring advance, renormalization check, and
    /// traceback when the ring is full, with the metric search at stride 1.
    pub fn process(&mut self, distances: &mut Vec<u16>, bit_writer: &mut BitWriter)
        requires
            old(self).wf(),
            old(self).len_spec() < old(self).cap_spec(),
            old(distances)@.len() == old(self).num_states_spec(),
            old(bit_writer).wf(),
        ensures
            final(self).wf(),
            final(self).len_spec() < final(self).cap_spec(),
            final(self).history_view() == old(self).history_view(),
            final(self).cap_spec() == old(self).cap_spec(),
            final(self).num_states_spec() == old(self).num_states_spec(),
            final(self).min_tb_spec() == old(self).min_tb_spec(),
            final(self).interval_spec() == old(self).interval_spec(),
            final(self).highbit_spec() == old(self).highbit_spec(),
            final(self).index_spec() == (old(self).index_spec() + 1) % old(self).cap_spec(),
            final(self).counter_spec() == (if old(self).counter_spec() + 1 == old(
                self,
            ).interval_spec() {
                0int
            } else {
                old(self).counter_spec() + 1
            }),
            final(self).len_spec() == (if old(self).len_spec() + 1 == old(self).cap_spec() {
                old(self).min_tb_spec()
            } else {
                old(self).len_spec() + 1
            }),
            final(distances)@.len() == old(distances)@.len(),
            (if old(self).counter_spec() + 1 == old(self).interval_spec() {
                forall|j: int|
                    0 <= j < old(distances)@.len() ==> #[trigger] final(distances)@[j]
                        == wrap_sub16(
                        old(distances)@[j],
                        old(distances)@[stride_argmin(old(distances)@, 1, 0)],
                    )
            } else {
                final(distances)@ == old(distances)@
            }),
            final(bit_writer).wf(),
            (if old(self).len_spec() + 1 == old(self).cap_spec() {
                final(bit_writer).bits() == old(bit_writer).bits() + Seq::new(
                    (old(self).len_spec() + 1 - old(self).min_tb_spec()) as nat,
                    |t: int|
                        tb_bit(
                            old(self).history_view(),
                            old(self).num_states_spec(),
                            old(self).cap_spec(),
                            old(self).highbit_spec(),
                            (old(self).index_spec() + 1) % old(self).cap_spec(),
                            stride_argmin(old(distances)@, 1, 0) as u16,
                            old(self).len_spec() - t,
                        ),
                )
            } else {
                final(bit_writer).bits() == old(bit_writer).bits()
            }),
    {
        self.process_step(1, distances, bit_writer)
    }

    /// Drain the whole remaining history through a final traceback that
    /// starts from state 0, since the encoder tail zeroes the register.
    pub fn flush(&mut self, bit_writer: &mut BitWriter)
        requires
            old(self).wf(),
            old(bit_writer).wf(),
        ensures
            final(self).wf(),
            final(self).same_shape(old(self)),
            final(self).len_spec() == 0,
            final(bit_writer).wf(),
            final(bit_writer).bits() == old(bit_writer).bits() + Seq::new(
                old(self).len_spec() as nat,
                |t: int|
                    tb_bit(
                        old(self).history_view(),
                        old(self).num_states_spec(),
                        old(self).cap_spec(),
                        old(self).highbit_spec(),
                        old(self).index_spec(),
                        0u16,
                        old(self).len_spec() - 1 - t,
                    ),
            ),
    {
        self.traceback(0, 0, bit_writer)
    }

    /// Zero the runtime state: ring cursors, renormalization counter and
    /// survivor bits all return to their freshly constructed values.
    pub fn reset(&mut self)
        ensures
            final(self).len_spec() == 0,
            final(self).index_spec() == 0,
            final(self).counter_spec() == 0,
            final(self).history_view() == Seq::new(
                old(self).history_view().len(),
                |i: int| 0u8,
            ),
            final(self).cap_spec() == old(self).cap_spec(),
            final(self).num_states_spec() == old(self).num_states_spec(),
            final(self).min_tb_spec() == old(self).min_tb_spec(),
            final(self).interval_spec() == old(self).interval_spec(),
            final(self).highbit_spec() == old(self).highbit_spec(),
            old(self).wf() ==> final(self).wf(),
    {
        self.history_len = 0;
        self.history_index = 0;
        self.renormalize_counter = 0;
        let n = self.history.len();
        self.history = vec![0u8; n];
        proof {
            assert(self.history_view() =~= Seq::new(old(self).history_view().len(), |i: int| 0u8));
        }
    }

    /// Everything but the survivor bits themselves.
    pub open spec fn same_shape_except_history(&self, other: &Self) -> bool {
        &&& self.index_spec() == other.index_spec()
        &&& self.cap_spec() == other.cap_spec()
        &&& self.num_states_spec() == other.num_states_spec()
        &&& self.min_tb_spec() == other.min_tb_spec()
        &&& self.counter_spec() == other.counter_spec()
        &&& self.interval_spec() == other.interval_spec()
        &&& self.highbit_spec() == other.highbit_spec()
    }
}

/// The lesser of the two add-compare-select candidates for successor state
/// `s`: the low ancestor `s / 2` with branch cost `d[pt[s]]`, or the high
/// ancestor `s / 2 + ns / 2` with branch cost `d[pt[s + ns]]`. The low
/// ancestor wins ties.
pub open spec fn acs_metric(pe: Seq<u16>, d: Seq<u16>, pt: Seq<u16>, ns: int, s: int) -> u16 {
    let lo = metric_add(d[pt[s] as int], pe[s / 2]);
    let hi = metric_add(d[pt[s + ns] as int], pe[s / 2 + ns / 2]);
    if lo <= hi {
        lo
    } else {
        hi
    }
}

/// The survivor bit of the add-compare-select at successor state `s`: 0 when
/// the low ancestor wins (or ties), 1 when the high ancestor wins.
pub open spec fn acs_survivor(pe: Seq<u16>, d: Seq<u16>, pt: Seq<u16>, ns: int, s: int) -> u8 {
    let lo = metric_add(d[pt[s] as int], pe[s / 2]);
    let hi = metric_add(d[pt[s + ns] as int], pe[s / 2 + ns / 2]);
    if lo <= hi {
        0
    } else {
        1
    }
}


/// The per-state Hamming distances to a received group `y`: entry `o` counts
/// the bit positions where `o` and `y` differ.
pub open spec fn dist_seq(y: u8, n: int) -> Seq<u16> {
    Seq::new(n as nat, |o: int| (pop(((o as u32) ^ (y as u32)) as nat) as u16))
}

/// The full polynomial output table as a function of the polynomials alone.
pub open spec fn poly_table_of(polys: Seq<u16>, order: nat) -> Seq<u16> {
    Seq::new(pow2(order), |s: int| poly_entry(polys, s as u16, polys.len()))
}

/// The value of the `nbits`-bit group starting at stream position `pos`,
/// bit-reversed as the reader returns it: stream bit `pos + t` sits in bit
/// `t` of the group.
pub open spec fn group_val(stream: Seq<u8>, pos: int, nbits: nat) -> u8
    decreases nbits,
{
    if nbits == 0 {
        0
    } else {
        group_val(stream, pos, (nbits - 1) as nat) | (bit_at(stream, pos + nbits - 1) << ((nbits
            - 1) as u8))
    }
}

proof fn lemma_u8_or_bit(r: u8, b: u8, i: u8, t: u8)
    by (bit_vector)
    requires
        b <= 1,
        i < 8,
        t < 8,
    ensures
        t != i ==> ((r | (b << i)) >> t) & 1 == (r >> t) & 1,
        (t == i && (r >> i) & 1 == 0) ==> ((r | (b << i)) >> t) & 1 == b,
        (0u8 >> t) & 1 == 0,
        (b <= 1 && i <= 6 && r < (1u8 << i)) ==> (r | (b << i)) < (1u8 << ((i + 1) as u8)),
{
}

proof fn lemma_group_val_bits(stream: Seq<u8>, pos: int, nbits: nat)
    requires
        nbits <= 8,
    ensures
        forall|t: u8|
            t < nbits ==> #[trigger] ((group_val(stream, pos, nbits) >> t) & 1) == bit_at(
                stream,
                pos + t,
            ),
        forall|t: u8| nbits <= t < 8 ==> #[trigger] ((group_val(stream, pos, nbits) >> t) & 1) == 0,
        nbits < 8 ==> group_val(stream, pos, nbits) < (1u8 << (nbits as u8)),
    decreases nbits,
{
    if nbits == 0 {
        assert forall|t: u8| t < 8 implies #[trigger] ((group_val(stream, pos, 0) >> t) & 1)
            == 0 by {
            lemma_u8_or_bit(0, 0, 0, t);
        }
        assert(0u8 < (1u8 << 0u8)) by (bit_vector);
    } else {
        lemma_group_val_bits(stream, pos, (nbits - 1) as nat);
        let g = group_val(stream, pos, (nbits - 1) as nat);
        let b = bit_at(stream, pos + nbits - 1);
        assert(b <= 1) by {
            let byte = stream[(pos + nbits - 1) / 8];
            let sh = (7 - ((pos + nbits - 1) % 8)) as u8;
            vstd::arithmetic::div_mod::lemma_mod_division_less_than_divisor(pos + nbits - 1, 8);
            assert(sh < 8 ==> (byte >> sh) & 1 <= 1) by (bit_vector);
        }
        assert forall|t: u8|
            t < 8 implies #[trigger] ((group_val(stream, pos, nbits) >> t) & 1) == (if t == nbits
            - 1 {
            b
        } else {
            (g >> t) & 1
        }) by {
            lemma_u8_or_bit(g, b, (nbits - 1) as u8, t);
        }
        if nbits < 8 {
            lemma_u8_or_bit(g, b, (nbits - 1) as u8, 0);
        }
    }
}

/// A group read from the bit reader carries exactly the `group_val` of the
/// stream at the cursor it started from.
proof fn lemma_read_is_group_val(r: u8, stream: Seq<u8>, pos: int, nbits: nat)
    requires
        nbits <= 8,
        forall|t: u8| t < nbits ==> #[trigger] ((r >> t) & 1) == bit_at(stream, pos + t),
        forall|t: u8| nbits <= t < 8 ==> #[trigger] ((r >> t) & 1) == 0,
    ensures
        r == group_val(stream, pos, nbits),
{
    lemma_group_val_bits(stream, pos, nbits);
    let g = group_val(stream, pos, nbits);
    assert(((r >> 7u8) & 1 == (g >> 7u8) & 1) && ((r >> 6u8) & 1 == (g >> 6u8) & 1) && ((r >> 5u8)
        & 1 == (g >> 5u8) & 1) && ((r >> 4u8) & 1 == (g >> 4u8) & 1) && ((r >> 3u8) & 1 == (g
        >> 3u8) & 1) && ((r >> 2u8) & 1 == (g >> 2u8) & 1) && ((r >> 1u8) & 1 == (g >> 1u8) & 1)
        && ((r >> 0u8) & 1 == (g >> 0u8) & 1));
    crate::bits::lemma_u8_eq_from_bits(r, g);
}

/// The decoder's whole runtime state between trellis steps: the two metric
/// buffers, the survivor ring with its cursors, the renormalization counter,
/// and every bit handed to the output writer so far.
#[verifier::ext_equal]
pub struct TrellisState {
    /// metrics entering the next step (the `previous_errors` buffer)
    pub metrics: Seq<u16>,
    /// the buffer the next step overwrites (the `errors` buffer)
    pub scratch: Seq<u16>,
    /// the survivor ring, `cap` rows of `ns` states, row-major
    pub history: Seq<u8>,
    pub index: int,
    pub len: int,
    pub counter: int,
    /// all bits emitted by tracebacks so far, oldest first
    pub emitted: Seq<u8>,
}

/// The survivor ring with row `index` replaced by `row`.
pub open spec fn write_row(h: Seq<u8>, ns: int, index: int, row: Seq<u8>) -> Seq<u8> {
    Seq::new(
        h.len(),
        |p: int|
            if index * ns <= p < index * ns + ns {
                row[p - index * ns]
            } else {
                h[p]
            },
    )
}

/// One warm-up step: each of the `bound` reachable states takes its single
/// ancestor's metric plus its branch cost; the buffers then swap.
pub open spec fn warmup_step_model(
    st: TrellisState,
    y: u8,
    bound: int,
    pt: Seq<u16>,
    dlen: int,
) -> TrellisState {
    let d = dist_seq(y, dlen);
    TrellisState {
        metrics: Seq::new(
            st.scratch.len(),
            |j: int|
                if j < bound {
                    metric_add(d[pt[j] as int], st.metrics[j / 2])
                } else {
                    st.scratch[j]
                },
        ),
        scratch: st.metrics,
        history: st.history,
        index: st.index,
        len: st.len,
        counter: st.counter,
        emitted: st.emitted,
    }
}

/// One full trellis step at stride `step`: butterfly update of the live
/// states, the survivor row write, the ring advance, renormalization when
/// the counter wraps, traceback from the stride minimum when the ring
/// fills, and the metric swap.
pub open spec fn trellis_step_model(
    st: TrellisState,
    y: u8,
    step: int,
    pt: Seq<u16>,
    ns: int,
    cap: int,
    hb: u16,
    mtb: int,
    interval: int,
    dlen: int,
) -> TrellisState {
    let d = dist_seq(y, dlen);
    let e = Seq::new(
        ns as nat,
        |s: int|
            if s % step == 0 {
                acs_metric(st.metrics, d, pt, ns, s)
            } else {
                st.scratch[s]
            },
    );
    let row = Seq::new(
        ns as nat,
        |s: int|
            if s % step == 0 {
                acs_survivor(st.metrics, d, pt, ns, s)
            } else {
                st.history[st.index * ns + s]
            },
    );
    let h = write_row(st.history, ns, st.index, row);
    let index = (st.index + 1) % cap;
    let renorm = st.counter + 1 == interval;
    let counter = if renorm {
        0int
    } else {
        st.counter + 1
    };
    let m = stride_argmin(e, step, 0);
    let e2 = if renorm {
        Seq::new(e.len(), |j: int| wrap_sub16(e[j], e[m]))
    } else {
        e
    };
    let full = st.len + 1 == cap;
    let tb = if full {
        Seq::new(
            (st.len + 1 - mtb) as nat,
            |t: int| tb_bit(h, ns, cap, hb, index, m as u16, st.len - t),
        )
    } else {
        Seq::<u8>::empty()
    };
    let len = if full {
        mtb
    } else {
        st.len + 1
    };
    TrellisState {
        metrics: e2,
        scratch: st.metrics,
        history: h,
        index,
        len,
        counter,
        emitted: st.emitted + tb,
    }
}

/// The state after the first `k` warm-up steps, step `i` reading its group
/// at `c0 + i * rate` and updating the `2^(i+1)` reachable states.
pub open spec fn warmup_run(
    st0: TrellisState,
    stream: Seq<u8>,
    c0: int,
    rate: nat,
    pt: Seq<u16>,
    dlen: int,
    k: int,
) -> TrellisState
    decreases k,
{
    if k <= 0 {
        st0
    } else {
        warmup_step_model(
            warmup_run(st0, stream, c0, rate, pt, dlen, k - 1),
            group_val(stream, c0 + (k - 1) * rate, rate),
            pow2(k as nat) as int,
            pt,
            dlen,
        )
    }
}

/// The state after the first `k` inner-phase steps, each a full-stride
/// trellis step on the group read at `c0 + i * rate`.
pub open spec fn inner_run(
    st0: TrellisState,
    stream: Seq<u8>,
    c0: int,
    rate: nat,
    pt: Seq<u16>,
    ns: int,
    cap: int,
    hb: u16,
    mtb: int,
    interval: int,
    dlen: int,
    k: int,
) -> TrellisState
    decreases k,
{
    if k <= 0 {
        st0
    } else {
        trellis_step_model(
            inner_run(st0, stream, c0, rate, pt, ns, cap, hb, mtb, interval, dlen, k - 1),
            group_val(stream, c0 + (k - 1) * rate, rate),
            1,
            pt,
            ns,
            cap,
            hb,
            mtb,
            interval,
            dlen,
        )
    }
}

/// The state after the first `k` tail steps: step `i` runs at stride
/// `2^(i+1)`, since the known zero fill halves the live states each time.
pub open spec fn tail_run(
    st0: TrellisState,
    stream: Seq<u8>,
    c0: int,
    rate: nat,
    pt: Seq<u16>,
    ns: int,
    cap: int,
    hb: u16,
    mtb: int,
    interval: int,
    dlen: int,
    k: int,
) -> TrellisState
    decreases k,
{
    if k <= 0 {
        st0
    } else {
        trellis_step_model(
            tail_run(st0, stream, c0, rate, pt, ns, cap, hb, mtb, interval, dlen, k - 1),
            group_val(stream, c0 + (k - 1) * rate, rate),
            pow2(k as nat) as int,
            pt,
            ns,
            cap,
            hb,
            mtb,
            interval,
            dlen,
        )
    }
}


proof fn lemma_group_val_congruence(s1: Seq<u8>, s2: Seq<u8>, pos: int, n: nat, lo: int, hi: int)
    requires
        forall|i: int| lo <= i < hi ==> bit_at(s1, i) == bit_at(s2, i),
        lo <= pos,
        pos + n <= hi,
    ensures
        group_val(s1, pos, n) == group_val(s2, pos, n),
    decreases n,
{
    if n > 0 {
        lemma_group_val_congruence(s1, s2, pos, (n - 1) as nat, lo, hi);
    }
}

proof fn lemma_warmup_run_congruence(
    st0: TrellisState,
    s1: Seq<u8>,
    s2: Seq<u8>,
    c0: int,
    rate: nat,
    pt: Seq<u16>,
    dlen: int,
    k: int,
    hi: int,
)
    requires
        forall|i: int| 0 <= i < hi ==> bit_at(s1, i) == bit_at(s2, i),
        0 <= c0,
        c0 + k * rate <= hi,
    ensures
        warmup_run(st0, s1, c0, rate, pt, dlen, k) == warmup_run(st0, s2, c0, rate, pt, dlen, k),
    decreases k,
{
    if k > 0 {
        assert((k - 1) * rate + rate == k * rate) by (nonlinear_arith);
        assert((k - 1) * rate >= 0) by (nonlinear_arith)
            requires
                k >= 1,
                rate >= 0,
        ;
        lemma_warmup_run_congruence(st0, s1, s2, c0, rate, pt, dlen, k - 1, hi);
        lemma_group_val_congruence(s1, s2, c0 + (k - 1) * rate, rate, 0, hi);
    }
}

proof fn lemma_inner_run_congruence(
    st0: TrellisState,
    s1: Seq<u8>,
    s2: Seq<u8>,
    c0: int,
    rate: nat,
    pt: Seq<u16>,
    ns: int,
    cap: int,
    hb: u16,
    mtb: int,
    interval: int,
    dlen: int,
    k: int,
    hi: int,
)
    requires
        forall|i: int| 0 <= i < hi ==> bit_at(s1, i) == bit_at(s2, i),
        0 <= c0,
        c0 + k * rate <= hi,
    ensures
        inner_run(st0, s1, c0, rate, pt, ns, cap, hb, mtb, interval, dlen, k) == inner_run(
            st0,
            s2,
            c0,
            rate,
            pt,
            ns,
            cap,
            hb,
            mtb,
            interval,
            dlen,
            k,
        ),
    decreases k,
{
    if k > 0 {
        assert((k - 1) * rate + rate == k * rate) by (nonlinear_arith);
        assert((k - 1) * rate >= 0) by (nonlinear_arith)
            requires
                k >= 1,
                rate >= 0,
        ;
        lemma_inner_run_congruence(
            st0,
            s1,
            s2,
            c0,
            rate,
            pt,
            ns,
            cap,
            hb,
            mtb,
            interval,
            dlen,
            k - 1,
            hi,
        );
        lemma_group_val_congruence(s1, s2, c0 + (k - 1) * rate, rate, 0, hi);
    }
}

proof fn lemma_tail_run_congruence(
    st0: TrellisState,
    s1: Seq<u8>,
    s2: Seq<u8>,
    c0: int,
    rate: nat,
    pt: Seq<u16>,
    ns: int,
    cap: int,
    hb: u16,
    mtb: int,
    interval: int,
    dlen: int,
    k: int,
    hi: int,
)
    requires
        forall|i: int| 0 <= i < hi ==> bit_at(s1, i) == bit_at(s2, i),
        0 <= c0,
        c0 + k * rate <= hi,
    ensures
        tail_run(st0, s1, c0, rate, pt, ns, cap, hb, mtb, interval, dlen, k) == tail_run(
            st0,
            s2,
            c0,
            rate,
            pt,
            ns,
            cap,
            hb,
            mtb,
            interval,
            dlen,
            k,
        ),
    decreases k,
{
    if k > 0 {
        assert((k - 1) * rate + rate == k * rate) by (nonlinear_arith);
        assert((k - 1) * rate >= 0) by (nonlinear_arith)
            requires
                k >= 1,
                rate >= 0,
        ;
        lemma_tail_run_congruence(
            st0,
            s1,
            s2,
            c0,
            rate,
            pt,
            ns,
            cap,
            hb,
            mtb,
            interval,
            dlen,
            k - 1,
            hi,
        );
        lemma_group_val_congruence(s1, s2, c0 + (k - 1) * rate, rate, 0, hi);
    }
}

/// The decoder reads its input only through the first `nbits` stream bits:
/// two buffers that agree on those bits decode to exactly the same output.
/// In particular the adapter's repacked one-sample-per-byte buffer and a
/// natively packed buffer with the same hard decisions are interchangeable.
pub proof fn lemma_decode_model_congruence(
    polys: Seq<u16>,
    order: nat,
    s1: Seq<u8>,
    s2: Seq<u8>,
    nbits: int,
)
    requires
        1 <= polys.len(),
        2 <= order,
        nbits / (polys.len() as int) >= 2 * (order - 1),
        forall|i: int| 0 <= i < nbits ==> bit_at(s1, i) == bit_at(s2, i),
    ensures
        decode_model(polys, order, s1, nbits) == decode_model(polys, order, s2, nbits),
{
    let rate = polys.len();
    let pt = poly_table_of(polys, order);
    let ns = pow2((order - 1) as nat) as int;
    let cap = 20 * order as int;
    let mtb = 5 * order as int;
    let interval = 65535int / (rate as int * 255);
    let hb = ns as u16;
    let dlen = pow2(rate) as int;
    let n = nbits / rate as int;
    assert(n * rate <= nbits) by {
        vstd::arithmetic::div_mod::lemma_fundamental_div_mod(nbits, rate as int);
        vstd::arithmetic::div_mod::lemma_mod_division_less_than_divisor(nbits, rate as int);
    }
    assert((order as int - 1) * rate + (n - 2 * (order as int - 1)) * rate == (n - order + 1)
        * rate) by (nonlinear_arith);
    assert((n - order + 1) * rate + (order as int - 1) * rate == n * rate) by (nonlinear_arith);
    assert((order as int - 1) * rate <= n * rate && (n - order + 1) * rate >= 0) by (nonlinear_arith)
        requires
            n >= 2 * (order - 1),
            2 <= order,
            rate >= 1,
    ;
    lemma_warmup_run_congruence(
        initial_trellis(order),
        s1,
        s2,
        0,
        rate,
        pt,
        dlen,
        order as int - 1,
        nbits,
    );
    let st1 = warmup_run(initial_trellis(order), s1, 0, rate, pt, dlen, order as int - 1);
    lemma_inner_run_congruence(
        st1,
        s1,
        s2,
        (order - 1) * rate,
        rate,
        pt,
        ns,
        cap,
        hb,
        mtb,
        interval,
        dlen,
        n - 2 * (order as int - 1),
        nbits,
    );
    let st2 = inner_run(
        st1,
        s1,
        (order - 1) * rate,
        rate,
        pt,
        ns,
        cap,
        hb,
        mtb,
        interval,
        dlen,
        n - 2 * (order as int - 1),
    );
    lemma_tail_run_congruence(
        st2,
        s1,
        s2,
        (n - order + 1) * rate,
        rate,
        pt,
        ns,
        cap,
        hb,
        mtb,
        interval,
        dlen,
        order as int - 1,
        nbits,
    );
}

/// A freshly reset decoder: zero metrics, an empty zeroed ring, no output.
pub open spec fn initial_trellis(order: nat) -> TrellisState {
    TrellisState {
        metrics: Seq::new(pow2((order - 1) as nat), |i: int| 0u16),
        scratch: Seq::new(pow2((order - 1) as nat), |i: int| 0u16),
        history: Seq::new((pow2((order - 1) as nat) * (20 * order)) as nat, |i: int| 0u8),
        index: 0,
        len: 0,
        counter: 0,
        emitted: Seq::<u8>::empty(),
    }
}

/// Every bit the decoder emits for `nbits` bits of `stream`, as a function
/// of the generator polynomials, the constraint length and the input alone:
/// the warm-up, inner and tail folds followed by the final flush traceback
/// from state 0.
pub open spec fn decode_model(polys: Seq<u16>, order: nat, stream: Seq<u8>, nbits: int) -> Seq<
    u8,
> {
    let rate = polys.len();
    let pt = poly_table_of(polys, order);
    let ns = pow2((order - 1) as nat) as int;
    let cap = 20 * order as int;
    let mtb = 5 * order as int;
    let interval = 65535int / (rate as int * 255);
    let hb = ns as u16;
    let dlen = pow2(rate) as int;
    let n = nbits / rate as int;
    let st1 = warmup_run(initial_trellis(order), stream, 0, rate, pt, dlen, order as int - 1);
    let st2 = inner_run(
        st1,
        stream,
        (order - 1) * rate,
        rate,
        pt,
        ns,
        cap,
        hb,
        mtb,
        interval,
        dlen,
        n - 2 * (order as int - 1),
    );
    let st3 = tail_run(
        st2,
        stream,
        (n - order + 1) * rate,
        rate,
        pt,
        ns,
        cap,
        hb,
        mtb,
        interval,
        dlen,
        order as int - 1,
    );
    st3.emitted + Seq::new(
        st3.len as nat,
        |t: int| tb_bit(st3.history, ns, cap, hb, st3.index, 0u16, st3.len - 1 - t),
    )
}

/// A Viterbi decoder for fixed `(R, K, polys)`: tables are allocated at
/// construction and never reshaped.
pub struct Decoder {
    rate: u32,
    order: u32,
    highbit: u16,
    poly_table: Vec<u16>,
    pair_table: ConvolutionalPairTable,
    history_table: ConvolutionalHistoryTable,
    error_table: ConvolutionalErrorTable,
    distances: Vec<u16>,
    polys: Ghost<Seq<u16>>,
}

impl Decoder {
    /// The rate denominator `R`.
    pub closed spec fn rate_spec(&self) -> u32 {
        self.rate
    }

    /// The constraint length `K`.
    pub closed spec fn order_spec(&self) -> u32 {
        self.order
    }

    /// The generator polynomials the decoder was built from.
    pub closed spec fn polys_spec(&self) -> Seq<u16> {
        self.polys@
    }

    /// Steps between renormalizations: `0xFFFF / (R * 255)`.
    pub closed spec fn interval_spec(&self) -> int {
        self.history_table.interval_spec()
    }

    /// The survivor ring's capacity in rows: `20 K`.
    pub closed spec fn cap_spec(&self) -> int {
        self.history_table.cap_spec()
    }

    /// The converged window a traceback discards: `5 K` rows.
    pub closed spec fn min_tb_spec(&self) -> int {
        self.history_table.min_tb_spec()
    }

    /// The decoder's runtime tables as one model state; `emitted` stands for
    /// the bits already handed to the output writer.
    pub closed spec fn trellis(&self, emitted: Seq<u8>) -> TrellisState {
        TrellisState {
            metrics: self.error_table.previous_view(),
            scratch: self.error_table.errors_view(),
            history: self.history_table.history_view(),
            index: self.history_table.index_spec(),
            len: self.history_table.len_spec(),
            counter: self.history_table.counter_spec(),
            emitted,
        }
    }

    /// Parameters in range, the poly table the expansion of the polynomials,
    /// and every derived table shaped for `2^(K-1)` paired states.
    pub closed spec fn wf(&self) -> bool {
        &&& 2 <= self.rate <= 6
        &&& 2 <= self.order <= 15
        &&& self.polys@.len() == self.rate
        &&& self.highbit as int == pow2((self.order - 1) as nat)
        &&& 2 <= self.highbit <= 16384
        &&& self.poly_table@.len() == pow2(self.order as nat)
        &&& self.poly_table@.len() == 2 * (self.highbit as int)
        &&& forall|s: int|
            0 <= s < self.poly_table@.len() ==> #[trigger] self.poly_table@[s] == poly_entry(
                self.polys@,
                s as u16,
                self.rate as nat,
            )
        &&& forall|s: int|
            0 <= s < self.poly_table@.len() ==> (#[trigger] self.poly_table@[s] as int) < (
        self.distances@.len() as int)
        &&& forall|s: int|
            0 <= s < self.poly_table@.len() ==> #[trigger] self.poly_table@[s] < (1u16 << (
        self.rate as u16))
        &&& self.pair_table.wf(self.poly_table@, self.rate as nat)
        &&& self.history_table.wf()
        &&& self.history_table.num_states_spec() == self.highbit as int
        &&& self.history_table.highbit_spec() == self.highbit
        &&& self.history_table.cap_spec() == 20 * self.order
        &&& self.history_table.min_tb_spec() == 5 * self.order
        &&& self.history_table.interval_spec() == 65535int / (self.rate * 255)
        &&& self.error_table.errors_view().len() == self.highbit as int
        &&& self.error_table.previous_view().len() == self.highbit as int
        &&& self.distances@.len() == pow2(self.rate as nat)
        &&& self.distances@.len() == (1u32 << (self.rate as u32)) as int
    }

    pub fn new(rate: u32, order: u32, polys: &[u16]) -> (r: Decoder)
        requires
            2 <= rate <= 6,
            2 <= order <= 15,
            polys@.len() == rate,
        ensures
            r.wf(),
            r.rate_spec() == rate,
            r.order_spec() == order,
            r.polys_spec() == polys@,
            r.interval_spec() == 65535int / (rate * 255),
            r.cap_spec() == 20 * order,
            r.min_tb_spec() == 5 * order,
            r.trellis(Seq::<u8>::empty()) == initial_trellis(order as nat),
    {
        let poly_table = conv_poly_table(rate, order, polys);
        let max_error: u32 = rate * 255;
        let renorm: u32 = 65535 / max_error;
        proof {
            vstd::arithmetic::div_mod::lemma_div_non_zero(65535, max_error as int);
            vstd::arithmetic::power2::lemma2_to64();
            vstd::arithmetic::power2::lemma_pow2_strictly_increases((order - 1) as nat, 15);
            vstd::arithmetic::power2::lemma_pow2_strictly_increases((order - 1) as nat, order as nat);
            vstd::bits::lemma_u16_shl_is_mul(1, (order - 1) as u16);
            vstd::arithmetic::power2::lemma_pow2_unfold(order as nat);
            vstd::arithmetic::power2::lemma_pow2_pos((order - 1) as nat);
            vstd::arithmetic::power2::lemma_pow2_strictly_increases(rate as nat, 7);
            vstd::bits::lemma_u32_shl_is_mul(1, rate);
            vstd::bits::lemma_u16_shl_is_mul(1, rate as u16);
            vstd::bits::lemma_usize_shl_is_mul(1, rate as usize);
        }
        let highbit: u16 = 1u16 << ((order - 1) as u16);
        let num_pair_states: u32 = num_states_for_order(order) / 2;
        proof {
            assert((num_pair_states as int) * ((5 * order + 15 * order) as int) <= usize::MAX)
                by (nonlinear_arith)
                requires
                    num_pair_states <= 16384,
                    2 <= order <= 15,
            ;
        }
        let r = Decoder {
            rate,
            order,
            highbit,
            pair_table: ConvolutionalPairTable::new(rate, order, &poly_table),
            history_table: ConvolutionalHistoryTable::new(
                5 * order,
                15 * order,
                renorm,
                num_pair_states,
                highbit,
            ),
            error_table: ConvolutionalErrorTable::new(num_pair_states as usize),
            poly_table,
            distances: vec![0u16; 1usize << (rate as usize)],
            polys: Ghost(polys@),
        };
        proof {
            assert(r.error_table.previous_view() =~= initial_trellis(order as nat).metrics);
            assert(r.error_table.errors_view() =~= initial_trellis(order as nat).scratch);
            assert(r.history_table.history_view() =~= initial_trellis(order as nat).history);
            assert(r.trellis(Seq::<u8>::empty()) =~= initial_trellis(order as nat));
        }
        r
    }

    /// Fill the Hamming-distance table for a received group `y`: entry `o`
    /// is the number of bit positions where `o` and `y` differ.
    fn fill_distances(&mut self, outputs: u8)
        requires
            old(self).wf(),
        ensures
            final(self).wf(),
            *final(self) == (Decoder { distances: final(self).distances, ..*old(self) }),
            final(self).distances@.len() == old(self).distances@.len(),
            forall|o: int|
                0 <= o < final(self).distances@.len() ==> #[trigger] final(self).distances@[o] == (
                pop(((o as u32) ^ (outputs as u32)) as nat) as u16),
    {
        let ghost prev = *self;
        proof {
            vstd::arithmetic::power2::lemma2_to64();
            vstd::arithmetic::power2::lemma_pow2_strictly_increases(self.rate as nat, 7);
        }
        let n = self.distances.len();
        let mut o: usize = 0;
        while o < n
            invariant
                *self == (Decoder { distances: self.distances, ..prev }),
                n == self.distances@.len(),
                n <= 128,
                o <= n,
                forall|q: int|
                    0 <= q < o ==> #[trigger] self.distances@[q] == (pop(
                        ((q as u32) ^ (outputs as u32)) as nat,
                    ) as u16),
                forall|q: int| o <= q < n ==> #[trigger] self.distances@[q] == prev.distances@[q],
            decreases n - o,
        {
            let d = metric_distance(o as u32, outputs as u32);
            self.distances[o] = d as u16;
            o = o + 1;
        }
    }

    /// One inner-phase add-compare-select pass: for every successor state
    /// `s`, the new metric is the lesser of the two ancestor candidates
    /// `prev[s/2] + d[poly_table[s]]` and
    /// `prev[s/2 + ns/2] + d[poly_table[s + ns]]`, the low ancestor winning
    /// ties; the survivor bit lands in the current ring row.
    fn acs_step(&mut self)
        requires
            old(self).wf(),
            forall|k: int|
                0 <= k < old(self).pair_table.distances_view().len() ==> #[trigger] old(self).pair_table.distances_view()[k] == (((old(self).distances@[(old(self).pair_table.outputs_view()[k] >> (old(self).rate_spec() as u32)) as int] as u32)
                    << 16u32) | (old(self).distances@[(old(self).pair_table.outputs_view()[k] & (((
                1u32 << (old(self).rate_spec() as u32)) - 1) as u32)) as int] as u32)),
        ensures
            final(self).wf(),
            final(self).rate == old(self).rate,
            final(self).order == old(self).order,
            final(self).highbit == old(self).highbit,
            final(self).polys == old(self).polys,
            final(self).poly_table == old(self).poly_table,
            final(self).pair_table == old(self).pair_table,
            final(self).distances == old(self).distances,
            final(self).error_table.previous_view() == old(self).error_table.previous_view(),
            final(self).error_table.errors_view().len() == old(self).error_table.errors_view().len(),
            final(self).history_table.same_shape_except_history(&old(self).history_table),
            final(self).history_table.len_spec() == old(self).history_table.len_spec(),
            final(self).history_table.history_view().len() == old(self).history_table.history_view().len(),
            forall|s: int|
                0 <= s < old(self).highbit as int ==> (#[trigger] final(self).error_table.errors_view()[s]) == acs_metric(
                    old(self).error_table.previous_view(),
                    old(self).distances@,
                    old(self).poly_table@,
                    old(self).highbit as int,
                    s,
                ),
            forall|s: int|
                0 <= s < old(self).highbit as int ==> (#[trigger] final(self).history_table.history_view()[old(self).history_table.index_spec() * (old(self).highbit as int) + s]) == acs_survivor(
                    old(self).error_table.previous_view(),
                    old(self).distances@,
                    old(self).poly_table@,
                    old(self).highbit as int,
                    s,
                ),
            forall|p: int|
                0 <= p < old(self).history_table.history_view().len() && !(old(self).history_table.index_spec() * (old(self).highbit as int) <= p < old(self).history_table.index_spec() * (old(self).highbit as int) + (old(self).highbit as int)) ==> #[trigger] final(self).history_table.history_view()[p]
                    == old(self).history_table.history_view()[p],
    {
        let ghost prev0 = *self;
        let ghost d = self.distances@;
        let ghost pt = self.poly_table@;
        let ghost pe = self.error_table.previous_view();
        let ns = self.highbit as usize;
        let half = ns / 2;
        let slot = self.history_table.get_slice();
        proof {
            vstd::arithmetic::power2::lemma_pow2_unfold((self.order - 1) as nat);
            assert(ns == 2 * half);
        }
        let mut c: usize = 0;
        while c < half
            invariant
                self.wf(),
                self.rate == prev0.rate,
                self.order == prev0.order,
                self.highbit == prev0.highbit,
                self.polys == prev0.polys,
                self.poly_table == prev0.poly_table,
                self.pair_table == prev0.pair_table,
                self.distances == prev0.distances,
                self.error_table.previous_view() == pe,
                self.error_table.errors_view().len() == prev0.error_table.errors_view().len(),
                self.history_table.same_shape_except_history(&prev0.history_table),
                self.history_table.len_spec() == prev0.history_table.len_spec(),
                self.history_table.history_view().len()
                    == prev0.history_table.history_view().len(),
                d == self.distances@,
                pt == self.poly_table@,
                pe == self.error_table.previous_view(),
                ns == self.highbit as usize,
                ns == 2 * half,
                c <= half,
                slot == prev0.history_table.index_spec() * (ns as int),
                slot + ns <= self.history_table.history_view().len(),
                forall|k: int|
                    0 <= k < self.pair_table.distances_view().len()
                        ==> #[trigger] self.pair_table.distances_view()[k] == (((d[(
                    self.pair_table.outputs_view()[k] >> (self.rate as u32)) as int] as u32)
                        << 16u32) | (d[(self.pair_table.outputs_view()[k] & (((1u32 << (
                    self.rate as u32)) - 1) as u32)) as int] as u32)),
                forall|s: int|
                    0 <= s < 2 * c ==> (#[trigger] self.error_table.errors_view()[s])
                        == acs_metric(pe, d, pt, ns as int, s),
                forall|s: int|
                    0 <= s < 2 * c ==> (#[trigger] self.history_table.history_view()[slot + s])
                        == acs_survivor(pe, d, pt, ns as int, s),
                forall|p: int|
                    0 <= p < self.history_table.history_view().len() && !(slot <= p < slot + 2 * c)
                        ==> #[trigger] self.history_table.history_view()[p]
                        == prev0.history_table.history_view()[p],
            decreases half - c,
        {
            proof {
                vstd::arithmetic::power2::lemma_pow2_unfold(self.order as nat);
            }
            let hlen = self.history_table.history.len();
            proof {
                assert(slot + 2 * c + 1 < hlen);
            }
            let low_key = self.pair_table.keys[c];
            let high_key = self.pair_table.keys[c + half];
            let low_concat = self.pair_table.distances[low_key as usize];
            let high_concat = self.pair_table.distances[high_key as usize];
            let low_prev = self.error_table.previous_errors[c];
            let high_prev = self.error_table.previous_errors[c + half];
            proof {
                let rate = self.rate;
                assert(2 * (c + half) == 2 * c + ns && 2 * (c + half) + 1 == 2 * c + ns + 1);
                assert((ns as int) / 2 == half as int);
                assert((2 * c as int) / 2 == c as int && (2 * c + 1 as int) / 2 == c as int);
                lemma_pair_pack(pt[2 * c + 1], pt[2 * c], rate);
                lemma_pair_pack(pt[2 * c + ns + 1], pt[2 * c + ns], rate);
                assert(low_key == self.pair_table.keys_view()[c as int]);
                assert(high_key == self.pair_table.keys_view()[c + half as int]);
                assert(self.pair_table.outputs_view()[low_key as int] == pair_output(
                    pt,
                    rate as nat,
                    c as int,
                ));
                assert(self.pair_table.outputs_view()[high_key as int] == pair_output(
                    pt,
                    rate as nat,
                    c + half as int,
                ));
                assert(low_concat == self.pair_table.distances_view()[low_key as int]);
                assert(high_concat == self.pair_table.distances_view()[high_key as int]);
                assert(low_concat == (((d[pt[2 * c + 1] as int] as u32) << 16u32) | (d[pt[2 * c
                    as int] as int] as u32)));
                assert(high_concat == (((d[pt[2 * c + ns + 1] as int] as u32) << 16u32) | (d[pt[2
                    * c + ns as int] as int] as u32)));
                lemma_concat32(d[pt[2 * c + 1] as int], d[pt[2 * c] as int]);
                lemma_concat32(d[pt[2 * c + ns + 1] as int], d[pt[2 * c + ns] as int]);
            }
            let low_d0 = (low_concat & 0xffff) as u16;
            let high_d0 = (high_concat & 0xffff) as u16;
            proof {
                assert(low_d0 == d[pt[2 * c] as int]);
                assert(high_d0 == d[pt[2 * c + ns] as int]);
            }
            let low_error = add_metric(low_d0, low_prev);
            let high_error = add_metric(high_d0, high_prev);
            let error0: u16;
            let successor0: u8;
            if low_error <= high_error {
                error0 = low_error;
                successor0 = 0;
            } else {
                error0 = high_error;
                successor0 = 1;
            }
            self.error_table.errors[2 * c] = error0;
            self.history_table.history[slot + 2 * c] = successor0;

            let low_d1 = (low_concat >> 16u32) as u16;
            let high_d1 = (high_concat >> 16u32) as u16;
            proof {
                assert(low_d1 == d[pt[2 * c + 1] as int]);
                assert(high_d1 == d[pt[2 * c + ns + 1] as int]);
            }
            let low_error1 = add_metric(low_d1, low_prev);
            let high_error1 = add_metric(high_d1, high_prev);
            let error1: u16;
            let successor1: u8;
            if low_error1 <= high_error1 {
                error1 = low_error1;
                successor1 = 0;
            } else {
                error1 = high_error1;
                successor1 = 1;
            }
            self.error_table.errors[2 * c + 1] = error1;
            self.history_table.history[slot + 2 * c + 1] = successor1;
            proof {
                assert((2 * c) / 2 == c && (2 * c + 1) / 2 == c);
                assert(self.error_table.errors_view()[2 * c as int] == acs_metric(
                    pe,
                    d,
                    pt,
                    ns as int,
                    2 * c as int,
                ));
                assert(self.error_table.errors_view()[2 * c + 1 as int] == acs_metric(
                    pe,
                    d,
                    pt,
                    ns as int,
                    2 * c + 1 as int,
                ));
            }
            c = c + 1;
        }
    }

    /// One warm-up metric pass: each of the `bound` reachable register
    /// states has the single ancestor `j / 2`, so its new metric is the
    /// ancestor metric plus the Hamming distance of its output word to the
    /// received group; no survivor bit is recorded.
    fn warmup_step(&mut self, outputs: u8, bound: usize)
        requires
            old(self).wf(),
            1 <= bound <= old(self).highbit as int,
        ensures
            final(self).wf(),
            *final(self) == (Decoder { error_table: final(self).error_table, ..*old(self) }),
            final(self).error_table.previous_view() == old(self).error_table.previous_view(),
            final(self).error_table.errors_view().len() == old(self).error_table.errors_view().len(),
            forall|j: int|
                0 <= j < bound ==> (#[trigger] final(self).error_table.errors_view()[j])
                    == metric_add(
                    (pop(((old(self).poly_table@[j] as u32) ^ (outputs as u32)) as nat) as u16),
                    old(self).error_table.previous_view()[j / 2],
                ),
            forall|j: int|
                bound <= j < final(self).error_table.errors_view().len() ==> (#[trigger] final(self).error_table.errors_view()[j]) == old(self).error_table.errors_view()[j],
    {
        let ghost prev0 = *self;
        let ghost pe = self.error_table.previous_view();
        let mut j: usize = 0;
        while j < bound
            invariant
                self.wf(),
                *self == (Decoder { error_table: self.error_table, ..prev0 }),
                self.error_table.previous_view() == pe,
                self.error_table.errors_view().len() == prev0.error_table.errors_view().len(),
                j <= bound,
                bound <= self.highbit as int,
                forall|q: int|
                    0 <= q < j ==> (#[trigger] self.error_table.errors_view()[q]) == metric_add(
                        (pop(((prev0.poly_table@[q] as u32) ^ (outputs as u32)) as nat) as u16),
                        pe[q / 2],
                    ),
                forall|q: int|
                    j <= q < self.error_table.errors_view().len() ==> (
                    #[trigger] self.error_table.errors_view()[q])
                        == prev0.error_table.errors_view()[q],
            decreases bound - j,
        {
            let previous_state = j >> 1;
            proof {
                vstd::bits::lemma_usize_shr_is_div(j, 1);
                vstd::arithmetic::power2::lemma2_to64();
            }
            let distance = metric_distance(self.poly_table[j] as u32, outputs as u32);
            let pe_v = self.error_table.previous_errors[previous_state];
            let v = add_metric(distance as u16, pe_v);
            self.error_table.errors[j] = v;
            j = j + 1;
        }
    }

    /// Decode while the register is still filling: for step `i`, only the
    /// `2^(i+1)` shortest register states exist, each with the single
    /// ancestor `j / 2`, so the metric is a plain sum with no select.
    fn decode_warmup(&mut self, encoded: &mut BitReader)
        requires
            old(self).wf(),
            old(encoded).stream().len() * 8 <= usize::MAX,
            old(encoded).cursor() + (old(self).order_spec() - 1) * old(self).rate_spec() <= old(
                encoded,
            ).stream().len() * 8,
        ensures
            final(self).wf(),
            final(self).rate == old(self).rate,
            final(self).order == old(self).order,
            final(self).highbit == old(self).highbit,
            final(self).polys == old(self).polys,
            final(self).poly_table == old(self).poly_table,
            final(self).history_table == old(self).history_table,
            final(self).error_table.errors_view().len() == old(self).error_table.errors_view().len(),
            final(self).error_table.previous_view().len() == old(self).error_table.previous_view().len(),
            final(encoded).stream() == old(encoded).stream(),
            final(encoded).cursor() == old(encoded).cursor() + (old(self).order_spec() - 1) * old(self).rate_spec(),
            final(self).trellis(Seq::<u8>::empty()) == warmup_run(
                old(self).trellis(Seq::<u8>::empty()),
                old(encoded).stream(),
                old(encoded).cursor(),
                old(self).rate_spec() as nat,
                old(self).poly_table@,
                pow2(old(self).rate_spec() as nat) as int,
                old(self).order_spec() - 1,
            ),
    {
        let ghost prev0 = *self;
        let ghost c0 = encoded.cursor();
        let ghost dlen = pow2(self.rate as nat) as int;
        let order_m1 = (self.order - 1) as usize;
        let mut i: usize = 0;
        while i < order_m1
            invariant
                self.wf(),
                self.rate == prev0.rate,
                self.order == prev0.order,
                self.highbit == prev0.highbit,
                self.polys == prev0.polys,
                self.poly_table == prev0.poly_table,
                self.history_table == prev0.history_table,
                self.pair_table.wf(self.poly_table@, self.rate as nat),
                self.error_table.errors_view().len() == prev0.error_table.errors_view().len(),
                self.error_table.previous_view().len() == prev0.error_table.previous_view().len(),
                order_m1 == self.order - 1,
                i <= order_m1,
                encoded.stream() == old(encoded).stream(),
                encoded.stream().len() * 8 <= usize::MAX,
                encoded.cursor() == c0 + i * self.rate_spec(),
                c0 + order_m1 * self.rate_spec() <= encoded.stream().len() * 8,
                dlen == pow2(self.rate as nat) as int,
                self.trellis(Seq::<u8>::empty()) == warmup_run(
                    prev0.trellis(Seq::<u8>::empty()),
                    encoded.stream(),
                    c0,
                    self.rate as nat,
                    self.poly_table@,
                    dlen,
                    i as int,
                ),
            decreases order_m1 - i,
        {
            proof {
                assert((i + 1) * (self.rate as int) <= order_m1 * (self.rate as int))
                    by (nonlinear_arith)
                    requires
                        i + 1 <= order_m1,
                        0 <= self.rate as int,
                ;
                assert(i * (self.rate as int) + self.rate as int == (i + 1) * (self.rate as int))
                    by (nonlinear_arith);
            }
            let ghost pos0 = encoded.cursor();
            let outputs = encoded.read(self.rate as usize);
            proof {
                vstd::arithmetic::power2::lemma2_to64();
                vstd::arithmetic::power2::lemma_pow2_strictly_increases((i + 1) as nat, 16);
                if i + 1 < self.order - 1 {
                    vstd::arithmetic::power2::lemma_pow2_strictly_increases(
                        (i + 1) as nat,
                        (self.order - 1) as nat,
                    );
                }
                vstd::bits::lemma_usize_shl_is_mul(1, (i + 1) as usize);
                lemma_read_is_group_val(outputs, encoded.stream(), pos0, self.rate as nat);
            }
            let bound = 1usize << (i + 1);
            let ghost run_i = warmup_run(
                prev0.trellis(Seq::<u8>::empty()),
                encoded.stream(),
                c0,
                self.rate as nat,
                self.poly_table@,
                dlen,
                i as int,
            );
            self.warmup_step(outputs, bound);
            self.error_table.swap();
            proof {
                let next = warmup_step_model(run_i, outputs, bound as int, self.poly_table@, dlen);
                assert forall|j: int|
                    0 <= j < self.error_table.previous_view().len() implies
                    #[trigger] self.error_table.previous_view()[j] == next.metrics[j] by {
                    if j < bound {
                        assert(dist_seq(outputs, dlen)[self.poly_table@[j] as int] == (pop(
                            ((self.poly_table@[j] as u32) ^ (outputs as u32)) as nat,
                        ) as u16));
                    }
                }
                assert(self.error_table.previous_view() =~= next.metrics);
                assert(self.trellis(Seq::<u8>::empty()) =~= warmup_run(
                    prev0.trellis(Seq::<u8>::empty()),
                    encoded.stream(),
                    c0,
                    self.rate as nat,
                    self.poly_table@,
                    dlen,
                    i + 1,
                ));
            }
            i = i + 1;
        }
    }

    /// One tail-phase add-compare-select pass at stride `step`: with the
    /// known zero fill only every `step`-th state is live; live states get
    /// the same butterfly update as the inner phase, the others keep their
    /// metrics and survivor bits.
    fn acs_tail_step(&mut self, step: usize)
        requires
            old(self).wf(),
            2 <= step <= old(self).highbit as int,
            step % 2 == 0,
        ensures
            final(self).wf(),
            final(self).rate == old(self).rate,
            final(self).order == old(self).order,
            final(self).highbit == old(self).highbit,
            final(self).polys == old(self).polys,
            final(self).poly_table == old(self).poly_table,
            final(self).pair_table == old(self).pair_table,
            final(self).distances == old(self).distances,
            final(self).error_table.previous_view() == old(self).error_table.previous_view(),
            final(self).error_table.errors_view().len() == old(self).error_table.errors_view().len(),
            final(self).history_table.same_shape_except_history(&old(self).history_table),
            final(self).history_table.len_spec() == old(self).history_table.len_spec(),
            final(self).history_table.history_view().len() == old(self).history_table.history_view().len(),
            forall|s: int|
                0 <= s < old(self).highbit as int && s % (step as int) == 0 ==> (#[trigger] final(self).error_table.errors_view()[s]) == acs_metric(
                    old(self).error_table.previous_view(),
                    old(self).distances@,
                    old(self).poly_table@,
                    old(self).highbit as int,
                    s,
                ),
            forall|s: int|
                0 <= s < old(self).highbit as int && s % (step as int) != 0 ==> (#[trigger] final(self).error_table.errors_view()[s]) == old(self).error_table.errors_view()[s],
            forall|s: int|
                0 <= s < old(self).highbit as int && s % (step as int) == 0 ==> (#[trigger] final(self).history_table.history_view()[old(self).history_table.index_spec() * (old(self).highbit as int) + s]) == acs_survivor(
                    old(self).error_table.previous_view(),
                    old(self).distances@,
                    old(self).poly_table@,
                    old(self).highbit as int,
                    s,
                ),
            forall|s: int|
                0 <= s < old(self).highbit as int && s % (step as int) != 0 ==> (#[trigger] final(self).history_table.history_view()[old(self).history_table.index_spec() * (old(self).highbit as int) + s]) == old(self).history_table.history_view()[old(self).history_table.index_spec() * (old(self).highbit as int) + s],
            forall|p: int|
                0 <= p < old(self).history_table.history_view().len() && !(old(self).history_table.index_spec() * (old(self).highbit as int) <= p < old(self).history_table.index_spec() * (old(self).highbit as int) + (old(self).highbit as int)) ==> #[trigger] final(self).history_table.history_view()[p] == old(self).history_table.history_view()[p],
    {
        let ghost prev0 = *self;
        let ghost d = self.distances@;
        let ghost pt = self.poly_table@;
        let ghost pe = self.error_table.previous_view();
        let ns = self.highbit as usize;
        let half = ns / 2;
        let slot = self.history_table.get_slice();
        proof {
            vstd::arithmetic::power2::lemma_pow2_unfold((self.order - 1) as nat);
            assert(ns == 2 * half);
            vstd::arithmetic::div_mod::lemma_mod_self_0(step as int);
        }
        let mut s: usize = 0;
        while s < ns
            invariant
                self.wf(),
                self.rate == prev0.rate,
                self.order == prev0.order,
                self.highbit == prev0.highbit,
                self.polys == prev0.polys,
                self.poly_table == prev0.poly_table,
                self.pair_table == prev0.pair_table,
                self.distances == prev0.distances,
                self.error_table.previous_view() == pe,
                self.error_table.errors_view().len() == prev0.error_table.errors_view().len(),
                self.history_table.same_shape_except_history(&prev0.history_table),
                self.history_table.len_spec() == prev0.history_table.len_spec(),
                self.history_table.history_view().len() == prev0.history_table.history_view().len(),
                d == self.distances@,
                pt == self.poly_table@,
                pe == self.error_table.previous_view(),
                ns == self.highbit as usize,
                ns == 2 * half,
                2 <= step <= ns,
                step % 2 == 0,
                s % step == 0,
                slot == prev0.history_table.index_spec() * (ns as int),
                slot + ns <= self.history_table.history_view().len(),
                forall|q: int|
                    0 <= q < s && q % (step as int) == 0 ==> (#[trigger] self.error_table.errors_view()[q]) == acs_metric(pe, d, pt, ns as int, q),
                forall|q: int|
                    0 <= q < ns && !(0 <= q < s && q % (step as int) == 0) ==> (#[trigger] self.error_table.errors_view()[q]) == prev0.error_table.errors_view()[q],
                forall|q: int|
                    0 <= q < s && q % (step as int) == 0 ==> (#[trigger] self.history_table.history_view()[slot + q]) == acs_survivor(pe, d, pt, ns as int, q),
                forall|q: int|
                    0 <= q < ns && q % (step as int) != 0 ==> (#[trigger] self.history_table.history_view()[slot + q]) == prev0.history_table.history_view()[slot + q],
                forall|p: int|
                    0 <= p < self.history_table.history_view().len() && !(slot <= p < slot + ns) ==> #[trigger] self.history_table.history_view()[p] == prev0.history_table.history_view()[p],
            decreases ns + step - s,
        {
            proof {
                vstd::arithmetic::power2::lemma_pow2_unfold(self.order as nat);
                vstd::arithmetic::div_mod::lemma_fundamental_div_mod(s as int, 2);
                assert(s % 2 == 0) by {
                    vstd::arithmetic::div_mod::lemma_mod_mod(s as int, 2, (step as int) / 2);
                    vstd::arithmetic::div_mod::lemma_fundamental_div_mod(step as int, 2);
                }
            }
            let low_output = self.poly_table[s];
            let high_output = self.poly_table[s + ns];
            let low_prev = self.error_table.previous_errors[s / 2];
            let high_prev = self.error_table.previous_errors[s / 2 + half];
            let low_error = add_metric(self.distances[low_output as usize], low_prev);
            let high_error = add_metric(self.distances[high_output as usize], high_prev);
            let error: u16;
            let successor: u8;
            if low_error <= high_error {
                error = low_error;
                successor = 0;
            } else {
                error = high_error;
                successor = 1;
            }
            let hlen = self.history_table.history.len();
            proof {
                assert(slot + s < hlen);
            }
            self.error_table.errors[s] = error;
            self.history_table.history[slot + s] = successor;
            let ghost s_old = s as int;
            proof {
                assert((s_old + step as int) % (step as int) == 0) by {
                    vstd::arithmetic::div_mod::lemma_mod_add_multiples_vanish(s_old, step as int);
                }
                assert forall|q: int|
                    s_old < q < s_old + step implies #[trigger] (q % (step as int)) != 0 by {
                    if q % (step as int) == 0 {
                        lemma_multiple_gap(s_old, q, step as int);
                    }
                }
            }
            s = s + step;
        }
    }

    /// Decode the body of the stream: for each group, the Hamming distances,
    /// the paired-state branch metrics, one butterfly pass over all states,
    /// one ring step, and the metric swap.
    fn decode_inner(&mut self, encoded: &mut BitReader, num_encoded_bits: usize, decoded: &mut BitWriter)
        requires
            old(self).wf(),
            old(encoded).stream().len() * 8 <= usize::MAX,
            (num_encoded_bits as int) % (old(self).rate_spec() as int) == 0,
            (num_encoded_bits as int) / (old(self).rate_spec() as int) >= 2 * (old(self).order_spec() - 1),
            old(encoded).cursor() + ((num_encoded_bits as int) / (old(self).rate_spec() as int) - 2 * (old(self).order_spec() - 1)) * old(self).rate_spec() <= old(encoded).stream().len() * 8,
            old(self).history_table.len_spec() < old(self).history_table.cap_spec(),
            old(decoded).wf(),
        ensures
            final(self).wf(),
            final(self).rate == old(self).rate,
            final(self).order == old(self).order,
            final(self).highbit == old(self).highbit,
            final(self).polys == old(self).polys,
            final(self).poly_table == old(self).poly_table,
            final(self).history_table.cap_spec() == old(self).history_table.cap_spec(),
            final(self).history_table.min_tb_spec() == old(self).history_table.min_tb_spec(),
            final(self).history_table.num_states_spec() == old(self).history_table.num_states_spec(),
            final(self).history_table.len_spec() < final(self).history_table.cap_spec(),
            final(encoded).stream() == old(encoded).stream(),
            final(encoded).cursor() == old(encoded).cursor() + ((num_encoded_bits as int) / (old(self).rate_spec() as int) - 2 * (old(self).order_spec() - 1)) * old(self).rate_spec(),
            final(decoded).wf(),
            final(decoded).bits().len() + final(self).history_table.len_spec() == old(decoded).bits().len() + old(self).history_table.len_spec() + ((num_encoded_bits as int) / (old(self).rate_spec() as int) - 2 * (old(self).order_spec() - 1)),
            final(self).trellis(final(decoded).bits()) == inner_run(
                old(self).trellis(old(decoded).bits()),
                old(encoded).stream(),
                old(encoded).cursor(),
                old(self).rate_spec() as nat,
                old(self).poly_table@,
                old(self).highbit as int,
                old(self).history_table.cap_spec(),
                old(self).highbit,
                old(self).history_table.min_tb_spec(),
                old(self).history_table.interval_spec(),
                pow2(old(self).rate_spec() as nat) as int,
                (num_encoded_bits as int) / (old(self).rate_spec() as int) - 2 * (old(self).order_spec() - 1),
            ),
    {
        let ghost c0 = encoded.cursor();
        let ghost base = decoded.bits().len() + self.history_table.len_spec();
        let ghost steps = (num_encoded_bits as int) / (self.rate_spec() as int) - 2 * (self.order_spec() - 1);
        let ghost st0 = old(self).trellis(old(decoded).bits());
        let ghost stream = encoded.stream();
        let ghost raten = self.rate as nat;
        let ghost pt = self.poly_table@;
        let ghost nsg = self.highbit as int;
        let ghost capg = self.history_table.cap_spec();
        let ghost hbg = self.highbit;
        let ghost mtbg = self.history_table.min_tb_spec();
        let ghost intervalg = self.history_table.interval_spec();
        let ghost dleng = pow2(self.rate as nat) as int;
        let num_decoded_bits = num_encoded_bits / (self.rate as usize);
        let start = (self.order - 1) as usize;
        let end = num_decoded_bits - (self.order as usize - 1);
        proof {
            assert(end - start == steps);
            assert(((start as int) - (start as int)) * (self.rate_spec() as int) == 0)
                by (nonlinear_arith);
        }
        let mut it = start;
        while it < end
            invariant
                self.wf(),
                self.rate == old(self).rate,
                self.order == old(self).order,
                self.highbit == old(self).highbit,
                self.polys == old(self).polys,
                self.poly_table == old(self).poly_table,
                self.history_table.cap_spec() == old(self).history_table.cap_spec(),
                self.history_table.min_tb_spec() == old(self).history_table.min_tb_spec(),
                self.history_table.num_states_spec() == old(self).history_table.num_states_spec(),
                self.history_table.len_spec() < self.history_table.cap_spec(),
                start <= it <= end,
                steps == end - start,
                encoded.stream() == old(encoded).stream(),
                encoded.stream().len() * 8 <= usize::MAX,
                encoded.cursor() == c0 + (it - start) * self.rate_spec(),
                c0 + steps * self.rate_spec() <= encoded.stream().len() * 8,
                decoded.wf(),
                decoded.bits().len() + self.history_table.len_spec() == base + (it - start),
                self.history_table.interval_spec() == intervalg,
                stream == encoded.stream(),
                raten == self.rate as nat,
                pt == self.poly_table@,
                nsg == self.highbit as int,
                capg == self.history_table.cap_spec(),
                hbg == self.highbit,
                mtbg == self.history_table.min_tb_spec(),
                dleng == pow2(raten) as int,
                self.trellis(decoded.bits()) == inner_run(
                    st0,
                    stream,
                    c0,
                    raten,
                    pt,
                    nsg,
                    capg,
                    hbg,
                    mtbg,
                    intervalg,
                    dleng,
                    it - start,
                ),
            decreases end - it,
        {
            proof {
                assert((it - start + 1) * (self.rate as int) <= steps * (self.rate as int))
                    by (nonlinear_arith)
                    requires
                        it - start + 1 <= steps,
                        0 <= self.rate as int,
                ;
                assert((it - start) * (self.rate as int) + self.rate as int == (it - start + 1) * (self.rate as int))
                    by (nonlinear_arith);
            }
            let ghost k = it - start;
            let ghost run_prev = inner_run(
                st0,
                stream,
                c0,
                raten,
                pt,
                nsg,
                capg,
                hbg,
                mtbg,
                intervalg,
                dleng,
                k,
            );
            let ghost pos0 = encoded.cursor();
            let outputs = encoded.read(self.rate as usize);
            proof {
                lemma_read_is_group_val(outputs, stream, pos0, raten);
            }
            self.fill_distances(outputs);
            proof {
                vstd::arithmetic::power2::lemma2_to64();
                vstd::arithmetic::power2::lemma_pow2_strictly_increases(self.rate as nat, 7);
                assert(self.distances@ =~= dist_seq(outputs, dleng));
            }
            let ghost ptv = self.poly_table@;
            self.pair_table.distances(&self.distances, Ghost(ptv), Ghost(raten));
            self.acs_step();
            let ghost e_acs = self.error_table.errors_view();
            let ghost h_acs = self.history_table.history_view();
            self.history_table.process(&mut self.error_table.errors, decoded);
            let ghost e_ren = self.error_table.errors_view();
            self.error_table.swap();
            proof {
                assert forall|v: int| 0 <= v implies #[trigger] (v % 1int) == 0 by {
                    vstd::arithmetic::div_mod::lemma_fundamental_div_mod(v, 1);
                    vstd::arithmetic::div_mod::lemma_mod_division_less_than_divisor(v, 1);
                }
                let d = dist_seq(outputs, dleng);
                let e = Seq::new(
                    nsg as nat,
                    |v: int|
                        if v % 1int == 0 {
                            acs_metric(run_prev.metrics, d, pt, nsg, v)
                        } else {
                            run_prev.scratch[v]
                        },
                );
                assert(e_acs =~= e);
                let row = Seq::new(
                    nsg as nat,
                    |v: int|
                        if v % 1int == 0 {
                            acs_survivor(run_prev.metrics, d, pt, nsg, v)
                        } else {
                            run_prev.history[run_prev.index * nsg + v]
                        },
                );
                assert forall|p: int|
                    0 <= p < h_acs.len() implies #[trigger] h_acs[p] == write_row(
                    run_prev.history,
                    nsg,
                    run_prev.index,
                    row,
                )[p] by {
                    if run_prev.index * nsg <= p < run_prev.index * nsg + nsg {
                        let sv = p - run_prev.index * nsg;
                        assert(h_acs[run_prev.index * nsg + sv] == acs_survivor(
                            run_prev.metrics,
                            d,
                            pt,
                            nsg,
                            sv,
                        ));
                        assert(p == run_prev.index * nsg + sv);
                    }
                }
                assert(h_acs =~= write_row(run_prev.history, nsg, run_prev.index, row));
                let next = trellis_step_model(
                    run_prev,
                    outputs,
                    1,
                    pt,
                    nsg,
                    capg,
                    hbg,
                    mtbg,
                    intervalg,
                    dleng,
                );
                if run_prev.counter + 1 == intervalg {
                    assert(e_ren =~= next.metrics);
                } else {
                    assert(e_ren =~= next.metrics);
                }
                if run_prev.len + 1 == capg {
                } else {
                    assert(decoded.bits() =~= run_prev.emitted + Seq::<u8>::empty());
                }
                assert(self.trellis(decoded.bits()) =~= next);
                assert(self.trellis(decoded.bits()) =~= inner_run(
                    st0,
                    stream,
                    c0,
                    raten,
                    pt,
                    nsg,
                    capg,
                    hbg,
                    mtbg,
                    intervalg,
                    dleng,
                    k + 1,
                ));
            }
            it = it + 1;
        }
    }

    /// Decode the final `K - 1` groups, where the known zero fill leaves only
    /// every `2^(K - r)`-th state live at `r` remaining steps; the strided
    /// butterfly reads the polynomial table directly.
    fn decode_tail(&mut self, encoded: &mut BitReader, num_encoded_bits: usize, decoded: &mut BitWriter)
        requires
            old(self).wf(),
            old(encoded).stream().len() * 8 <= usize::MAX,
            (num_encoded_bits as int) % (old(self).rate_spec() as int) == 0,
            (num_encoded_bits as int) / (old(self).rate_spec() as int) >= 2 * (old(self).order_spec() - 1),
            old(encoded).cursor() + (old(self).order_spec() - 1) * old(self).rate_spec() <= old(encoded).stream().len() * 8,
            old(self).history_table.len_spec() < old(self).history_table.cap_spec(),
            old(decoded).wf(),
        ensures
            final(self).wf(),
            final(self).rate == old(self).rate,
            final(self).order == old(self).order,
            final(self).highbit == old(self).highbit,
            final(self).polys == old(self).polys,
            final(self).poly_table == old(self).poly_table,
            final(self).history_table.len_spec() < final(self).history_table.cap_spec(),
            final(encoded).stream() == old(encoded).stream(),
            final(encoded).cursor() == old(encoded).cursor() + (old(self).order_spec() - 1) * old(self).rate_spec(),
            final(decoded).wf(),
            final(decoded).bits().len() + final(self).history_table.len_spec() == old(decoded).bits().len() + old(self).history_table.len_spec() + (old(self).order_spec() - 1),
            final(self).trellis(final(decoded).bits()) == tail_run(
                old(self).trellis(old(decoded).bits()),
                old(encoded).stream(),
                old(encoded).cursor(),
                old(self).rate_spec() as nat,
                old(self).poly_table@,
                old(self).highbit as int,
                old(self).history_table.cap_spec(),
                old(self).highbit,
                old(self).history_table.min_tb_spec(),
                old(self).history_table.interval_spec(),
                pow2(old(self).rate_spec() as nat) as int,
                old(self).order_spec() - 1,
            ),
    {
        let ghost c0 = encoded.cursor();
        let ghost base = decoded.bits().len() + self.history_table.len_spec();
        let ghost st0 = old(self).trellis(old(decoded).bits());
        let ghost stream = encoded.stream();
        let ghost raten = self.rate as nat;
        let ghost pt = self.poly_table@;
        let ghost nsg = self.highbit as int;
        let ghost capg = self.history_table.cap_spec();
        let ghost hbg = self.highbit;
        let ghost mtbg = self.history_table.min_tb_spec();
        let ghost intervalg = self.history_table.interval_spec();
        let ghost dleng = pow2(self.rate as nat) as int;
        let num_decoded_bits = num_encoded_bits / (self.rate as usize);
        let start = num_decoded_bits - (self.order as usize - 1);
        let mut i = start;
        while i < num_decoded_bits
            invariant
                self.wf(),
                self.rate == old(self).rate,
                self.order == old(self).order,
                self.highbit == old(self).highbit,
                self.polys == old(self).polys,
                self.poly_table == old(self).poly_table,
                self.history_table.len_spec() < self.history_table.cap_spec(),
                start <= i <= num_decoded_bits,
                num_decoded_bits - start == self.order - 1,
                encoded.stream() == old(encoded).stream(),
                encoded.stream().len() * 8 <= usize::MAX,
                encoded.cursor() == c0 + (i - start) * self.rate_spec(),
                c0 + (self.order - 1) * self.rate_spec() <= encoded.stream().len() * 8,
                decoded.wf(),
                decoded.bits().len() + self.history_table.len_spec() == base + (i - start),
                self.history_table.interval_spec() == intervalg,
                stream == encoded.stream(),
                raten == self.rate as nat,
                pt == self.poly_table@,
                nsg == self.highbit as int,
                capg == self.history_table.cap_spec(),
                hbg == self.highbit,
                mtbg == self.history_table.min_tb_spec(),
                dleng == pow2(raten) as int,
                self.trellis(decoded.bits()) == tail_run(
                    st0,
                    stream,
                    c0,
                    raten,
                    pt,
                    nsg,
                    capg,
                    hbg,
                    mtbg,
                    intervalg,
                    dleng,
                    i - start,
                ),
            decreases num_decoded_bits - i,
        {
            proof {
                assert((i - start + 1) * (self.rate as int) <= (self.order - 1) * (self.rate as int))
                    by (nonlinear_arith)
                    requires
                        i - start + 1 <= self.order - 1,
                        0 <= self.rate as int,
                ;
                assert((i - start) * (self.rate as int) + self.rate as int == (i - start + 1) * (self.rate as int))
                    by (nonlinear_arith);
            }
            let ghost k = i - start;
            let ghost run_prev = tail_run(
                st0,
                stream,
                c0,
                raten,
                pt,
                nsg,
                capg,
                hbg,
                mtbg,
                intervalg,
                dleng,
                k,
            );
            let ghost pos0 = encoded.cursor();
            let outputs = encoded.read(self.rate as usize);
            proof {
                lemma_read_is_group_val(outputs, stream, pos0, raten);
            }
            self.fill_distances(outputs);
            proof {
                vstd::arithmetic::power2::lemma2_to64();
                vstd::arithmetic::power2::lemma_pow2_strictly_increases(self.rate as nat, 7);
                assert(self.distances@ =~= dist_seq(outputs, dleng));
            }
            let rem = num_decoded_bits - i;
            proof {
                vstd::arithmetic::power2::lemma2_to64();
                if rem > 1 {
                    vstd::arithmetic::power2::lemma_pow2_strictly_increases(
                        (self.order - rem) as nat,
                        (self.order - 1) as nat,
                    );
                }
                vstd::arithmetic::power2::lemma_pow2_strictly_increases(
                    (self.order - rem) as nat,
                    15,
                );
                vstd::arithmetic::power2::lemma_pow2_pos((self.order - rem - 1) as nat);
                vstd::arithmetic::power2::lemma_pow2_unfold((self.order - rem) as nat);
                vstd::bits::lemma_usize_shl_is_mul(1, ((self.order as usize) - rem) as usize);
            }
            let step = 1usize << ((self.order as usize) - rem);
            proof {
                assert(step % 2 == 0) by {
                    vstd::arithmetic::div_mod::lemma_mod_multiples_basic(
                        pow2((self.order - rem - 1) as nat) as int,
                        2,
                    );
                }
                assert(step <= self.highbit as int);
            }
            proof {
                assert(step as int == pow2((k + 1) as nat) as int);
            }
            self.acs_tail_step(step);
            let ghost e_acs = self.error_table.errors_view();
            let ghost h_acs = self.history_table.history_view();
            self.history_table.process_step(step as u32, &mut self.error_table.errors, decoded);
            let ghost e_ren = self.error_table.errors_view();
            self.error_table.swap();
            proof {
                let d = dist_seq(outputs, dleng);
                let stepg = step as int;
                let e = Seq::new(
                    nsg as nat,
                    |v: int|
                        if v % stepg == 0 {
                            acs_metric(run_prev.metrics, d, pt, nsg, v)
                        } else {
                            run_prev.scratch[v]
                        },
                );
                assert(e_acs =~= e);
                let row = Seq::new(
                    nsg as nat,
                    |v: int|
                        if v % stepg == 0 {
                            acs_survivor(run_prev.metrics, d, pt, nsg, v)
                        } else {
                            run_prev.history[run_prev.index * nsg + v]
                        },
                );
                assert forall|p: int|
                    0 <= p < h_acs.len() implies #[trigger] h_acs[p] == write_row(
                    run_prev.history,
                    nsg,
                    run_prev.index,
                    row,
                )[p] by {
                    if run_prev.index * nsg <= p < run_prev.index * nsg + nsg {
                        let sv = p - run_prev.index * nsg;
                        if sv % stepg == 0 {
                            assert(h_acs[run_prev.index * nsg + sv] == acs_survivor(
                                run_prev.metrics,
                                d,
                                pt,
                                nsg,
                                sv,
                            ));
                        } else {
                            assert(h_acs[run_prev.index * nsg + sv] == run_prev.history[run_prev.index
                                * nsg + sv]);
                        }
                        assert(p == run_prev.index * nsg + sv);
                    }
                }
                assert(h_acs =~= write_row(run_prev.history, nsg, run_prev.index, row));
                let next = trellis_step_model(
                    run_prev,
                    outputs,
                    stepg,
                    pt,
                    nsg,
                    capg,
                    hbg,
                    mtbg,
                    intervalg,
                    dleng,
                );
                if run_prev.counter + 1 == intervalg {
                    assert(e_ren =~= next.metrics);
                } else {
                    assert(e_ren =~= next.metrics);
                }
                if run_prev.len + 1 == capg {
                } else {
                    assert(decoded.bits() =~= run_prev.emitted + Seq::<u8>::empty());
                }
                assert(self.trellis(decoded.bits()) =~= next);
                assert(self.trellis(decoded.bits()) =~= tail_run(
                    st0,
                    stream,
                    c0,
                    raten,
                    pt,
                    nsg,
                    capg,
                    hbg,
                    mtbg,
                    intervalg,
                    dleng,
                    k + 1,
                ));
            }
            i = i + 1;
        }
    }

    /// Decode `num_encoded_bits` bits of `encoded` into the front of `msg`.
    /// Returns -1 without touching `msg` when the bit count is not a
    /// multiple of `R`; otherwise returns the number of whole decoded bytes,
    /// exactly `((num_encoded_bits / R) - K + 1) / 8`, written at the front
    /// of `msg`, whose remaining bytes keep their old values.
    pub fn decode(&mut self, encoded: &[u8], num_encoded_bits: usize, msg: &mut Vec<u8>) -> (r: isize)
        requires
            old(self).wf(),
            encoded@.len() * 8 <= usize::MAX,
            (num_encoded_bits as int) % (old(self).rate_spec() as int) == 0 ==> {
                &&& encoded@.len() >= num_encoded_bits / 8 + 1
                &&& (num_encoded_bits as int) / (old(self).rate_spec() as int) >= 2 * (old(self).order_spec() - 1)
                &&& msg@.len() >= ((num_encoded_bits as int) / (old(self).rate_spec() as int) - old(self).order_spec() + 1) / 8
            },
        ensures
            final(self).wf(),
            final(self).rate_spec() == old(self).rate_spec(),
            final(self).order_spec() == old(self).order_spec(),
            final(self).polys_spec() == old(self).polys_spec(),
            (r == -1) <==> ((num_encoded_bits as int) % (old(self).rate_spec() as int) != 0),
            (num_encoded_bits as int) % (old(self).rate_spec() as int) != 0 ==> final(msg)@ == old(msg)@,
            (num_encoded_bits as int) % (old(self).rate_spec() as int) == 0 ==> {
                &&& r == ((num_encoded_bits as int) / (old(self).rate_spec() as int) - old(self).order_spec() + 1) / 8
                &&& final(msg)@.len() == old(msg)@.len()
                &&& forall|k: int| r <= k < final(msg)@.len() ==> final(msg)@[k] == old(msg)@[k]
                &&& forall|i: int|
                    0 <= i < 8 * r ==> #[trigger] bit_at(final(msg)@, i) == decode_model(
                        old(self).polys_spec(),
                        old(self).order_spec() as nat,
                        encoded@,
                        num_encoded_bits as int,
                    )[i]
            },
    {
        if num_encoded_bits % (self.rate as usize) != 0 {
            return -1;
        }
        let ghost n_dec = (num_encoded_bits as int) / (self.rate_spec() as int);
        let mut bit_reader = BitReader::new(encoded);
        let mut bit_writer = BitWriter::new();

        self.error_table.reset();
        self.history_table.reset();

        proof {
            assert(n_dec * (self.rate as int) == num_encoded_bits) by (nonlinear_arith)
                requires
                    (num_encoded_bits as int) % (self.rate as int) == 0,
                    n_dec == (num_encoded_bits as int) / (self.rate as int),
                    self.rate as int >= 1,
                {
                    vstd::arithmetic::div_mod::lemma_fundamental_div_mod(
                        num_encoded_bits as int,
                        self.rate as int,
                    );
                }
            assert((self.order - 1) * (self.rate as int) + (n_dec - 2 * (self.order - 1)) * (self.rate as int) + (self.order - 1) * (self.rate as int) == n_dec * (self.rate as int)) by (nonlinear_arith);
            assert(num_encoded_bits < encoded@.len() * 8);
        }
        proof {
            assert(self.error_table.previous_view() =~= initial_trellis(
                self.order as nat,
            ).metrics);
            assert(self.error_table.errors_view() =~= initial_trellis(self.order as nat).scratch);
            assert(self.history_table.history_view() =~= initial_trellis(
                self.order as nat,
            ).history);
            assert(self.trellis(bit_writer.bits()) =~= initial_trellis(self.order as nat));
            assert forall|q: int|
                0 <= q < self.poly_table@.len() implies #[trigger] self.poly_table@[q]
                == poly_table_of(self.polys@, self.order as nat)[q] by {}
            assert(self.poly_table@ =~= poly_table_of(self.polys@, self.order as nat));
        }
        let ghost polys_g = self.polys@;
        let ghost order_g = self.order as nat;
        let ghost rate_g = self.rate_spec() as nat;
        let ghost pt_g = self.poly_table@;
        let ghost ns_g = self.highbit as int;
        let ghost cap_g = self.history_table.cap_spec();
        let ghost hb_g = self.highbit;
        let ghost mtb_g = self.history_table.min_tb_spec();
        let ghost int_g = self.history_table.interval_spec();
        let ghost dlen_g = pow2(rate_g) as int;
        self.decode_warmup(&mut bit_reader);
        proof {
            assert(self.trellis(bit_writer.bits()) == warmup_run(
                initial_trellis(order_g),
                encoded@,
                0,
                rate_g,
                pt_g,
                dlen_g,
                order_g as int - 1,
            ));
        }
        self.decode_inner(&mut bit_reader, num_encoded_bits, &mut bit_writer);
        proof {
            assert(bit_reader.cursor() == (order_g as int - 1) * rate_g + (n_dec - 2 * (order_g
                - 1)) * rate_g);
            assert((order_g as int - 1) * (rate_g as int) + (n_dec - 2 * (order_g as int - 1)) * (
            rate_g as int) == (n_dec - order_g + 1) * (rate_g as int)) by (nonlinear_arith);
        }
        self.decode_tail(&mut bit_reader, num_encoded_bits, &mut bit_writer);

        self.history_table.flush(&mut bit_writer);

        proof {
            assert(bit_writer.bits().len() == n_dec - self.order + 1);
            let st3 = tail_run(
                inner_run(
                    warmup_run(
                        initial_trellis(order_g),
                        encoded@,
                        0,
                        rate_g,
                        pt_g,
                        dlen_g,
                        order_g as int - 1,
                    ),
                    encoded@,
                    (order_g as int - 1) * rate_g,
                    rate_g,
                    pt_g,
                    ns_g,
                    cap_g,
                    hb_g,
                    mtb_g,
                    int_g,
                    dlen_g,
                    n_dec - 2 * (order_g as int - 1),
                ),
                encoded@,
                (n_dec - order_g + 1) * rate_g,
                rate_g,
                pt_g,
                ns_g,
                cap_g,
                hb_g,
                mtb_g,
                int_g,
                dlen_g,
                order_g as int - 1,
            );
            assert(bit_writer.bits() =~= st3.emitted + Seq::new(
                st3.len as nat,
                |t: int| tb_bit(st3.history, ns_g, cap_g, hb_g, st3.index, 0u16, st3.len - 1 - t),
            ));
            assert(rate_g == polys_g.len());
            assert(bit_writer.bits() =~= decode_model(
                polys_g,
                order_g,
                encoded@,
                num_encoded_bits as int,
            ));
        }
        let nb = bit_writer.len();
        let src = bit_writer.as_bytes();
        let mut k: usize = 0;
        let nsrc = src.len();
        while k < nsrc
            invariant
                k <= nsrc,
                nsrc == src@.len(),
                nsrc <= msg@.len(),
                msg@.len() == old(msg)@.len(),
                forall|j: int| 0 <= j < k ==> #[trigger] msg@[j] == src@[j],
                forall|j: int| k <= j < msg@.len() ==> #[trigger] msg@[j] == old(msg)@[j],
            decreases nsrc - k,
        {
            let v = src[k];
            msg[k] = v;
            k = k + 1;
        }
        proof {
            let w = bit_writer;
            w.lemma_bytes_hold_bits();
            assert forall|i: int| 0 <= i < 8 * (nb as int) implies #[trigger] bit_at(msg@, i)
                == decode_model(polys_g, order_g, encoded@, num_encoded_bits as int)[i] by {
                crate::bits::lemma_bit_in_byte(i, nb as int);
                assert(msg@[i / 8] == w.bytes()[i / 8]);
                assert(bit_at(msg@, i) == bit_at(w.bytes(), i));
                assert(bit_at(w.bytes(), i) == w.bits()[i]);
            }
        }
        nb as isize
    }
}

} // verus!
