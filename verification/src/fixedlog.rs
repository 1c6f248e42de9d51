//! Fixed-point logarithms. The language model stores log probabilities as
//! integers scaled by [`LOG_SCALE`], so that scores are exact integer sums:
//! a table cell holds `ln((count + 1) / total) * LOG_SCALE`, computed here by
//! integer arithmetic alone (binary logarithm by shift-and-square, then a
//! constant factor for the natural logarithm).

use vstd::prelude::*;

verus! {

/// The fixed-point scale of all log-probability values: 2^16.
pub const LOG_SCALE: i64 = 65536;

/// How many doublings fit between `num` and `den`: the largest `e` with
/// `num * 2^e <= den`, for `1 <= num <= den`.
pub open spec fn msb_gap(num: int, den: int) -> int
    recommends
        1 <= num <= den,
    decreases den - num,
{
    if num <= 0 || 2 * num > den {
        0
    } else {
        1 + msb_gap(2 * num, den)
    }
}

/// Sixteen rounds of the square-and-shift recurrence that extracts the
/// fractional bits of a binary logarithm from a mantissa in
/// `[65536, 131072)`. Returns the mantissa state and the bits gathered.
pub open spec fn frac_iter(m: int, k: int) -> (int, int)
    decreases k,
{
    if k <= 0 {
        (m, 0)
    } else {
        let prev = frac_iter(m, k - 1);
        let sq = (prev.0 * prev.0) / 65536;
        if sq >= 131072 {
            (sq / 2, prev.1 * 2 + 1)
        } else {
            (sq, prev.1 * 2)
        }
    }
}

/// `log2(den / num) * 65536`, rounded down bit by bit.
pub open spec fn spec_log2_fp(num: int, den: int) -> int
    recommends
        1 <= num <= den,
{
    let e = msb_gap(num, den);
    let m0 = (den * 65536) / (num * vstd::arithmetic::power2::pow2(e as nat) as int);
    e * 65536 + frac_iter(m0, 16).1
}

/// The log-probability table cell for a count against a total:
/// `ln((count + 1) / total) * LOG_SCALE`, never positive. A degenerate
/// ratio at or above one yields zero.
pub open spec fn spec_cell(c: int, t: int) -> int
    recommends
        c >= 1,
        t >= 1,
{
    if c >= t {
        0
    } else {
        -((spec_log2_fp(c, t) * 45426) / 65536)
    }
}

/// Computes `log2(den / num) * 65536` by integer arithmetic.
pub fn log2_fp(num: u64, den: u64) -> (r: u64)
    requires
        1 <= num <= den,
    ensures
        r == spec_log2_fp(num as int, den as int),
        r < 4259840,  // 65 * 65536
{
    broadcast use vstd::arithmetic::power2::lemma_pow2_pos;

    let num_w = num as u128;
    let den_w = den as u128;
    let mut e: u64 = 0;
    let mut cur: u128 = num_w;
    proof {
        vstd::arithmetic::power2::lemma2_to64();
    }
    while cur * 2 <= den_w
        invariant
            num_w == num as int,
            den_w == den as int,
            1 <= num_w <= den_w,
            cur == num_w * vstd::arithmetic::power2::pow2(e as nat),
            cur <= den_w,
            msb_gap(num as int, den as int) == e + msb_gap(cur as int, den as int),
            e <= 64,
        decreases den_w - cur,
    {
        proof {
            vstd::arithmetic::power2::lemma_pow2_pos(e as nat);
            vstd::arithmetic::power2::lemma_pow2_pos((e + 1) as nat);
            assert(cur >= 1) by (nonlinear_arith)
                requires
                    cur == num_w * vstd::arithmetic::power2::pow2(e as nat),
                    num_w >= 1,
                    vstd::arithmetic::power2::pow2(e as nat) >= 1,
            ;
            vstd::arithmetic::power2::lemma_pow2_unfold((e + 1) as nat);
            assert(cur * 2 == num_w * vstd::arithmetic::power2::pow2((e + 1) as nat))
                by (nonlinear_arith)
                requires
                    cur == num_w * vstd::arithmetic::power2::pow2(e as nat),
                    vstd::arithmetic::power2::pow2((e + 1) as nat) == 2 * vstd::arithmetic::power2::pow2(e as nat),
            ;
            if e + 1 > 64 {
                vstd::arithmetic::power2::lemma2_to64();
                vstd::arithmetic::power2::lemma_pow2_strictly_increases(64, (e + 1) as nat);
                assert(vstd::arithmetic::power2::pow2((e + 1) as nat)
                    > vstd::arithmetic::power2::pow2(64));
                assert(num_w * vstd::arithmetic::power2::pow2((e + 1) as nat) >= vstd::arithmetic::power2::pow2((e + 1) as nat)) by (nonlinear_arith)
                    requires
                        num_w >= 1,
                        vstd::arithmetic::power2::pow2((e + 1) as nat) >= 1,
                ;
                assert(false);
            }
        }
        cur = cur * 2;
        e = e + 1;
    }
    proof {
        assert(msb_gap(cur as int, den as int) == 0);
        assert(e == msb_gap(num as int, den as int));
    }
    // mantissa in [65536, 131072)
    let m0w: u128 = (den_w * 65536) / cur;
    proof {
        vstd::arithmetic::power2::lemma_pow2_pos(e as nat);
        assert(cur >= 1) by (nonlinear_arith)
            requires
                cur == num_w * vstd::arithmetic::power2::pow2(e as nat),
                num_w >= 1,
                vstd::arithmetic::power2::pow2(e as nat) >= 1,
        ;
        assert(den_w * 65536 >= cur * 65536) by (nonlinear_arith)
            requires
                den_w >= cur,
        ;
        vstd::arithmetic::div_mod::lemma_div_multiples_vanish(65536, cur as int);
        assert((cur as int * 65536) / (cur as int) == 65536);
        vstd::arithmetic::div_mod::lemma_div_is_ordered(
            cur as int * 65536,
            den_w as int * 65536,
            cur as int,
        );
        assert(den_w < 2 * cur);
        assert(den_w as int * 65536 < (cur as int) * 131072) by (nonlinear_arith)
            requires
                den_w < 2 * cur,
        ;
        vstd::arithmetic::div_mod::lemma_multiply_divide_lt(
            den_w as int * 65536,
            cur as int,
            131072,
        );
    }
    let m0 = m0w as u64;
    let mut m: u64 = m0;
    let mut f: u64 = 0;
    let mut bit: u64 = 0;
    while bit < 16
        invariant
            65536 <= m < 131072,
            bit <= 16,
            f < vstd::arithmetic::power2::pow2(bit as nat),
            (m as int, f as int) == frac_iter(m0 as int, bit as int),
        decreases 16 - bit,
    {
        proof {
            vstd::arithmetic::power2::lemma_pow2_unfold((bit + 1) as nat);
            vstd::arithmetic::power2::lemma2_to64();
            vstd::arithmetic::power2::lemma_pow2_strictly_increases(bit as nat, 16);
            assert(m * m < 131072 * 131072) by (nonlinear_arith)
                requires
                    m < 131072,
            ;
            assert(m * m >= 65536 * 65536) by (nonlinear_arith)
                requires
                    m >= 65536,
            ;
            vstd::arithmetic::div_mod::lemma_div_is_ordered(
                65536int * 65536,
                m as int * m as int,
                65536,
            );
            vstd::arithmetic::div_mod::lemma_multiply_divide_lt(m as int * m as int, 65536, 262144);
        }
        let sq = (m * m) / 65536;
        if sq >= 131072 {
            m = sq / 2;
            f = f * 2 + 1;
        } else {
            m = sq;
            f = f * 2;
        }
        bit = bit + 1;
    }
    proof {
        vstd::arithmetic::power2::lemma2_to64();
        assert(f < 65536);
    }
    e * 65536 + f
}

/// Computes the log-probability table cell for a count against a total.
pub fn log_prob_cell(count_plus_one: u64, total: u64) -> (r: i64)
    requires
        count_plus_one >= 1,
        total >= 1,
    ensures
        r == spec_cell(count_plus_one as int, total as int),
        -0x10000000000 < r <= 0,
{
    if count_plus_one >= total {
        0
    } else {
        let l = log2_fp(count_plus_one, total);
        let scaled = (l * 45426) / 65536;
        proof {
            assert(l * 45426 < 4259840 * 45426) by (nonlinear_arith)
                requires
                    l < 4259840,
            ;
            vstd::arithmetic::div_mod::lemma_div_is_ordered(
                l as int * 45426,
                4259840int * 45426,
                65536,
            );
            vstd::arithmetic::div_mod::lemma_div_pos_is_pos(l as int * 45426, 65536);
            assert(l * 45426 >= 0) by (nonlinear_arith)
                requires
                    l >= 0,
            ;
        }
        -(scaled as i64)
    }
}

} // verus!
