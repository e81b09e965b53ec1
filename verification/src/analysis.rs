//! Exhaustive analysis of a code: every codeword of the information space,
//! the pairwise Hamming-distance histogram, and the syndrome table of all
//! low-weight received patterns.

use vstd::prelude::*;
use vstd::arithmetic::power2::*;
use crate::bits::{hamming_of, hamming_dist};
use crate::code::{encode_spec, input_fits, bch_encode};
use crate::gf2::{divisor_wf, gf2_mod_spec, gf2_mod};

verus! {

/// How many elements of `s` lie at Hamming distance exactly `d` from `x`.
pub open spec fn count_dist_to(s: Seq<u16>, x: u16, d: nat) -> nat
    decreases s.len(),
{
    if s.len() == 0 {
        0
    } else {
        count_dist_to(s.drop_last(), x, d) + if hamming_of(s.last(), x) == d {
            1nat
        } else {
            0nat
        }
    }
}

/// How many unordered pairs of distinct positions of `s` hold values at
/// Hamming distance exactly `d` from each other.
pub open spec fn pair_count(s: Seq<u16>, d: nat) -> nat
    decreases s.len(),
{
    if s.len() == 0 {
        0
    } else {
        pair_count(s.drop_last(), d) + count_dist_to(s.drop_last(), s.last(), d)
    }
}

proof fn lemma_count_dist_to_le(s: Seq<u16>, x: u16, d: nat)
    ensures
        count_dist_to(s, x, d) <= s.len(),
    decreases s.len(),
{
    if s.len() > 0 {
        lemma_count_dist_to_le(s.drop_last(), x, d);
    }
}

proof fn lemma_pair_count_le(s: Seq<u16>, d: nat)
    ensures
        2 * pair_count(s, d) <= s.len() * (s.len() - 1),
    decreases s.len(),
{
    if s.len() > 0 {
        let l = s.len() as int;
        lemma_pair_count_le(s.drop_last(), d);
        lemma_count_dist_to_le(s.drop_last(), s.last(), d);
        assert((l - 1) * (l - 2) + 2 * (l - 1) == l * (l - 1)) by (nonlinear_arith);
    }
}

/// A distance has a positive count over `s` and `x` exactly when some
/// element of `s` lies at that distance from `x`.
pub proof fn lemma_count_dist_to_pos(s: Seq<u16>, x: u16, d: nat)
    ensures
        count_dist_to(s, x, d) > 0 <==> exists|i: int|
            0 <= i < s.len() && #[trigger] hamming_of(s[i], x) == d,
    decreases s.len(),
{
    if s.len() > 0 {
        lemma_count_dist_to_pos(s.drop_last(), x, d);
        let l = s.len() as int;
        if count_dist_to(s, x, d) > 0 {
            if hamming_of(s.last(), x) == d {
                assert(hamming_of(s[l - 1], x) == d);
            } else {
                let i = choose|i: int|
                    0 <= i < s.drop_last().len() && #[trigger] hamming_of(
                        s.drop_last()[i],
                        x,
                    ) == d;
                assert(hamming_of(s[i], x) == d);
            }
        }
        if exists|i: int| 0 <= i < s.len() && #[trigger] hamming_of(s[i], x) == d {
            let i = choose|i: int| 0 <= i < s.len() && #[trigger] hamming_of(s[i], x) == d;
            if i < l - 1 {
                assert(hamming_of(s.drop_last()[i], x) == d);
            }
        }
    }
}

/// A distance has a positive count in the pair tally of `s` exactly when
/// some unordered pair of distinct positions of `s` realises it. The least
/// distance with a positive histogram entry is therefore the code's minimum
/// distance.
pub proof fn lemma_pair_count_pos(s: Seq<u16>, d: nat)
    ensures
        pair_count(s, d) > 0 <==> exists|i: int, j: int|
            0 <= i < j < s.len() && #[trigger] hamming_of(s[i], s[j]) == d,
    decreases s.len(),
{
    if s.len() > 0 {
        let l = s.len() as int;
        let prev = s.drop_last();
        lemma_pair_count_pos(prev, d);
        lemma_count_dist_to_pos(prev, s.last(), d);
        if pair_count(s, d) > 0 {
            if pair_count(prev, d) > 0 {
                let (i, j) = choose|i: int, j: int|
                    0 <= i < j < prev.len() && #[trigger] hamming_of(prev[i], prev[j]) == d;
                assert(hamming_of(s[i], s[j]) == d);
            } else {
                let i = choose|i: int|
                    0 <= i < prev.len() && #[trigger] hamming_of(prev[i], s.last()) == d;
                assert(hamming_of(s[i], s[l - 1]) == d);
            }
        }
        if exists|i: int, j: int| 0 <= i < j < s.len() && #[trigger] hamming_of(s[i], s[j]) == d {
            let (i, j) = choose|i: int, j: int|
                0 <= i < j < s.len() && #[trigger] hamming_of(s[i], s[j]) == d;
            if j == l - 1 {
                assert(hamming_of(prev[i], s.last()) == d);
            } else {
                assert(hamming_of(prev[i], prev[j]) == d);
            }
        }
    }
}

/// The least distance with a positive pair tally is the code's minimum
/// distance: some pair of distinct positions realises it, and no pair lies
/// closer.
pub proof fn lemma_min_distance(s: Seq<u16>, d: nat)
    requires
        pair_count(s, d) > 0,
        forall|e: nat| e < d ==> #[trigger] pair_count(s, e) == 0,
    ensures
        exists|i: int, j: int| 0 <= i < j < s.len() && #[trigger] hamming_of(s[i], s[j]) == d,
        forall|i: int, j: int|
            0 <= i < j < s.len() ==> #[trigger] hamming_of(s[i], s[j]) >= d,
{
    lemma_pair_count_pos(s, d);
    assert forall|i: int, j: int|
        0 <= i < j < s.len() implies #[trigger] hamming_of(s[i], s[j]) >= d by {
        let e = hamming_of(s[i], s[j]);
        if e < d {
            lemma_pair_count_pos(s, e);
        }
    }
}

/// How many elements of `s` lie at a Hamming distance below `bound` from
/// `x`: the running total of `count_dist_to` over all distances under
/// `bound`.
pub open spec fn count_below(s: Seq<u16>, x: u16, bound: int) -> nat
    decreases bound,
{
    if bound <= 0 {
        0
    } else {
        count_below(s, x, bound - 1) + count_dist_to(s, x, (bound - 1) as nat)
    }
}

/// The pair tally summed over all distances below `bound`.
pub open spec fn pair_count_below(s: Seq<u16>, bound: int) -> nat
    decreases bound,
{
    if bound <= 0 {
        0
    } else {
        pair_count_below(s, bound - 1) + pair_count(s, (bound - 1) as nat)
    }
}

proof fn lemma_count_below_drop(s: Seq<u16>, x: u16, bound: int)
    requires
        s.len() > 0,
    ensures
        count_below(s, x, bound) == count_below(s.drop_last(), x, bound) + if hamming_of(
            s.last(),
            x,
        ) < bound {
            1int
        } else {
            0int
        },
    decreases bound,
{
    if bound > 0 {
        lemma_count_below_drop(s, x, bound - 1);
    }
}

proof fn lemma_count_below_empty(s: Seq<u16>, x: u16, bound: int)
    requires
        s.len() == 0,
    ensures
        count_below(s, x, bound) == 0,
    decreases bound,
{
    if bound > 0 {
        lemma_count_below_empty(s, x, bound - 1);
    }
}

proof fn lemma_pair_below_empty(s: Seq<u16>, bound: int)
    requires
        s.len() == 0,
    ensures
        pair_count_below(s, bound) == 0,
    decreases bound,
{
    if bound > 0 {
        lemma_pair_below_empty(s, bound - 1);
    }
}

proof fn lemma_count_below_full(s: Seq<u16>, x: u16)
    ensures
        count_below(s, x, 17) == s.len(),
    decreases s.len(),
{
    if s.len() == 0 {
        lemma_count_below_empty(s, x, 17);
    } else {
        lemma_count_below_full(s.drop_last(), x);
        lemma_count_below_drop(s, x, 17);
        crate::bits::lemma_hamming_rec_le(s.last(), x, 16);
    }
}

proof fn lemma_pair_below_drop(s: Seq<u16>, bound: int)
    requires
        s.len() > 0,
    ensures
        pair_count_below(s, bound) == pair_count_below(s.drop_last(), bound) + count_below(
            s.drop_last(),
            s.last(),
            bound,
        ),
    decreases bound,
{
    if bound > 0 {
        lemma_pair_below_drop(s, bound - 1);
    }
}

/// Every unordered pair of distinct positions lies at exactly one distance,
/// and distances of 16-bit values never exceed 16: the pair tallies of all
/// distances up to 16 sum to the number of pairs, `len * (len - 1) / 2`.
pub proof fn lemma_pair_count_total(s: Seq<u16>)
    ensures
        2 * pair_count_below(s, 17) == s.len() * (s.len() - 1),
    decreases s.len(),
{
    if s.len() == 0 {
        lemma_pair_below_empty(s, 17);
    } else {
        let l = s.len() as int;
        lemma_pair_count_total(s.drop_last());
        lemma_pair_below_drop(s, 17);
        lemma_count_below_full(s.drop_last(), s.last());
        assert((l - 1) * (l - 2) + 2 * (l - 1) == l * (l - 1)) by (nonlinear_arith);
    }
}

/// The first `bound` entries of a histogram sequence, added up.
pub open spec fn hist_sum(h: Seq<u64>, bound: int) -> int
    decreases bound,
{
    if bound <= 0 {
        0
    } else {
        hist_sum(h, bound - 1) + h[bound - 1]
    }
}

/// The entries of the distance histogram of `s` sum to the total number of
/// unordered pairs of distinct positions of `s`.
pub proof fn lemma_histogram_total(h: Seq<u64>, s: Seq<u16>)
    requires
        h.len() == 17,
        forall|d: int| 0 <= d < 17 ==> #[trigger] h[d] as nat == pair_count(s, d as nat),
    ensures
        2 * hist_sum(h, 17) == s.len() * (s.len() - 1),
{
    lemma_hist_sum_matches(h, s, 17);
    lemma_pair_count_total(s);
}

proof fn lemma_hist_sum_matches(h: Seq<u64>, s: Seq<u16>, bound: int)
    requires
        h.len() == 17,
        bound <= 17,
        forall|d: int| 0 <= d < 17 ==> #[trigger] h[d] as nat == pair_count(s, d as nat),
    ensures
        hist_sum(h, bound) == pair_count_below(s, bound),
    decreases bound,
{
    if bound > 0 {
        lemma_hist_sum_matches(h, s, bound - 1);
    }
}

/// Encodes every information word of the `code_len`-bit code in ascending
/// order: entry `k` is the codeword of information word `k`. Every entry is
/// systematic (its high bits reproduce `k`) and has syndrome zero.
pub fn generate_codes(gen: u16, gen_len: u8, code_len: u8) -> (codes: Vec<u16>)
    requires
        divisor_wf(gen, gen_len),
        gen_len <= code_len <= 16,
    ensures
        codes@.len() == pow2((code_len - gen_len + 1) as nat),
        forall|k: int|
            0 <= k < codes@.len() ==> codes@[k] == encode_spec(k as u16, gen, gen_len),
        forall|k: int|
            0 <= k < codes@.len() ==> #[trigger] codes@[k] >> ((gen_len - 1) as u16) == k as u16,
        forall|k: int|
            0 <= k < codes@.len() ==> gf2_mod_spec(#[trigger] codes@[k], gen, gen_len) == 0,
{
    let data_len: u8 = code_len - gen_len + 1;
    proof {
        lemma2_to64();
        assert(1u32 * pow2(data_len as nat) <= u32::MAX) by {
            crate::bits::lemma_pow2_increases(data_len as nat, 16);
        }
        vstd::bits::lemma_u32_shl_is_mul(1u32, data_len as u32);
        crate::bits::lemma_pow2_increases(data_len as nat, (17 - gen_len) as nat);
    }
    let n: u32 = 1u32 << (data_len as u32);
    let mut codes: Vec<u16> = Vec::new();
    let mut i: u32 = 0;
    while i < n
        invariant
            n == pow2(data_len as nat),
            n <= 0x1_0000,
            pow2(data_len as nat) <= pow2((17 - gen_len) as nat),
            divisor_wf(gen, gen_len),
            1 <= data_len <= 16,
            i <= n,
            codes@.len() == i as int,
            forall|k: int|
                0 <= k < i as int ==> codes@[k] == encode_spec(k as u16, gen, gen_len),
            forall|k: int|
                0 <= k < i as int ==> #[trigger] codes@[k] >> ((gen_len - 1) as u16) == k as u16,
            forall|k: int|
                0 <= k < i as int ==> gf2_mod_spec(#[trigger] codes@[k], gen, gen_len) == 0,
        decreases n - i,
    {
        assert(input_fits(i as u16, gen_len));
        let code = bch_encode(i as u16, gen, gen_len);
        codes.push(code);
        i = i + 1;
    }
    codes
}

/// The values in `[0, n)` whose Hamming weight (distance from the all-zero
/// word) is at most `errors`, in ascending order.
pub open spec fn low_weight_upto(n: int, errors: u8) -> Seq<u16>
    decreases n,
{
    if n <= 0 {
        Seq::empty()
    } else {
        let prev = low_weight_upto(n - 1, errors);
        if hamming_of(0u16, (n - 1) as u16) <= errors {
            prev.push((n - 1) as u16)
        } else {
            prev
        }
    }
}

/// Builds the syndrome table of the code: every `code_len`-bit pattern within
/// Hamming distance `errors` of the all-zero word, in ascending order, paired
/// with its syndrome.
pub fn syndrome_table(gen: u16, gen_len: u8, code_len: u8, errors: u8) -> (table: Vec<(u16, u16)>)
    requires
        divisor_wf(gen, gen_len),
        code_len <= 16,
    ensures
        table@.len() == low_weight_upto(pow2(code_len as nat) as int, errors).len(),
        forall|k: int|
            0 <= k < table@.len() ==> (#[trigger] table@[k]).0 == low_weight_upto(
                pow2(code_len as nat) as int,
                errors,
            )[k],
        forall|k: int|
            0 <= k < table@.len() ==> (#[trigger] table@[k]).1 == gf2_mod_spec(
                table@[k].0,
                gen,
                gen_len,
            ),
{
    proof {
        lemma2_to64();
        assert(1u32 * pow2(code_len as nat) <= u32::MAX) by {
            crate::bits::lemma_pow2_increases(code_len as nat, 16);
        }
        vstd::bits::lemma_u32_shl_is_mul(1u32, code_len as u32);
        crate::bits::lemma_pow2_increases(code_len as nat, 16);
    }
    let n: u32 = 1u32 << (code_len as u32);
    let mut table: Vec<(u16, u16)> = Vec::new();
    let mut v: u32 = 0;
    while v < n
        invariant
            n == pow2(code_len as nat),
            n <= 0x1_0000,
            divisor_wf(gen, gen_len),
            v <= n,
            table@.len() == low_weight_upto(v as int, errors).len(),
            forall|k: int|
                0 <= k < table@.len() ==> (#[trigger] table@[k]).0 == low_weight_upto(
                    v as int,
                    errors,
                )[k],
            forall|k: int|
                0 <= k < table@.len() ==> (#[trigger] table@[k]).1 == gf2_mod_spec(
                    table@[k].0,
                    gen,
                    gen_len,
                ),
        decreases n - v,
    {
        let pattern = v as u16;
        let d = hamming_dist(0, pattern);
        assert(low_weight_upto(v as int + 1, errors) == (if hamming_of(0u16, pattern) <= errors {
            low_weight_upto(v as int, errors).push(pattern)
        } else {
            low_weight_upto(v as int, errors)
        }));
        if d <= errors {
            let syndrome = gf2_mod(pattern, gen, gen_len);
            table.push((pattern, syndrome));
        }
        v = v + 1;
    }
    table
}

/// Tallies the Hamming distances of all unordered pairs of distinct
/// positions of `codes`: entry `d` of the result counts the pairs at
/// distance exactly `d`. Distances of 16-bit values never exceed 16, so 17
/// entries cover every pair.
pub fn distance_histogram(codes: &Vec<u16>) -> (hist: Vec<u64>)
    requires
        codes@.len() <= 0x1_0000_0000,
    ensures
        hist@.len() == 17,
        forall|d: int| 0 <= d < 17 ==> #[trigger] hist@[d] as nat == pair_count(codes@, d as nat),
{
    let mut hist: Vec<u64> = Vec::new();
    while hist.len() < 17
        invariant
            hist@.len() <= 17,
            forall|k: int| 0 <= k < hist@.len() ==> hist@[k] == 0u64,
        decreases 17 - hist@.len(),
    {
        hist.push(0);
    }
    let n = codes.len();
    let mut j: usize = 0;
    while j < n
        invariant
            hist@.len() == 17,
            n == codes@.len(),
            n <= 0x1_0000_0000,
            j <= n,
            forall|d: int|
                0 <= d < 17 ==> #[trigger] hist@[d] as nat == pair_count(
                    codes@.take(j as int),
                    d as nat,
                ),
        decreases n - j,
    {
        let mut i: usize = 0;
        while i < j
            invariant
                hist@.len() == 17,
                n == codes@.len(),
                n <= 0x1_0000_0000,
                i <= j < n,
                forall|d: int|
                    0 <= d < 17 ==> #[trigger] hist@[d] as nat == pair_count(
                        codes@.take(j as int),
                        d as nat,
                    ) + count_dist_to(codes@.take(i as int), codes@[j as int], d as nat),
            decreases j - i,
        {
            let d = hamming_dist(codes[i], codes[j]);
            let cur = hist[d as usize];
            proof {
                lemma_pair_count_le(codes@.take(j as int), d as nat);
                lemma_count_dist_to_le(codes@.take(i as int), codes@[j as int], d as nat);
                assert(cur + 1 <= u64::MAX) by (nonlinear_arith)
                    requires
                        2 * (cur as int) <= (j as int) * (j as int - 1) + 2 * (i as int),
                        i < j,
                        j <= 0x1_0000_0000,
                ;
            }
            hist.set(d as usize, cur + 1);
            proof {
                let prefix = codes@.take(i as int + 1);
                assert(prefix.drop_last() =~= codes@.take(i as int));
                assert(prefix.last() == codes@[i as int]);
            }
            i = i + 1;
        }
        proof {
            let prefix = codes@.take(j as int + 1);
            assert(prefix.drop_last() =~= codes@.take(j as int));
            assert(prefix.last() == codes@[j as int]);
        }
        j = j + 1;
    }
    proof {
        assert(codes@.take(n as int) =~= codes@);
    }
    hist
}

} // verus!
