//! Exact percentile computation: linear interpolation over a sorted
//! sequence, arithmetic mean, and population standard deviation.

use vstd::prelude::*;

use crate::stats::wide::{add_wide, isqrt_scaled, limb_base, mul_wide, wide_value};
use crate::stats::PercentileSet;
use crate::time::FineDuration;

verus! {

/// Sum of the elements of `s`.
pub open spec fn seq_sum(s: Seq<u128>) -> nat
    decreases s.len(),
{
    if s.len() == 0 {
        0
    } else {
        seq_sum(s.drop_last()) + s.last() as nat
    }
}

/// Sum of the squared distances of the elements of `s` from `m`.
pub open spec fn sq_dev_sum(s: Seq<u128>, m: nat) -> nat
    decreases s.len(),
{
    if s.len() == 0 {
        0
    } else {
        sq_dev_sum(s.drop_last(), m) + sq_dist(s.last() as nat, m)
    }
}

/// `(a - b)^2`.
pub open spec fn sq_dist(a: nat, b: nat) -> nat {
    if a >= b {
        ((a - b) * (a - b)) as nat
    } else {
        ((b - a) * (b - a)) as nat
    }
}

/// The integer square root: the largest `r` with `r * r <= x`.
pub open spec fn is_isqrt(x: nat, r: nat) -> bool {
    r * r <= x < (r + 1) * (r + 1)
}

/// The percentile at quantile `q_num / q_den` of `s` by linear
/// interpolation between the two ranks around `q * (len - 1)`, with the
/// interpolated part rounded toward zero (a descent between the two ranks
/// contributes nothing).
pub open spec fn percentile_value(s: Seq<u128>, q_num: nat, q_den: nat) -> nat {
    if s.len() <= 1 {
        s[0] as nat
    } else {
        let rank = q_num * ((s.len() - 1) as nat);
        let lo = rank / q_den;
        let frac = rank % q_den;
        let hi = if frac == 0 { lo } else { lo + 1 };
        let lower = s[lo as int] as nat;
        let upper = s[hi as int] as nat;
        if upper >= lower {
            lower + ((upper - lower) as nat * frac) / q_den
        } else {
            lower
        }
    }
}

/// Fixed-point denominator of the standard quantiles.
pub const QUANTILE_DEN: u64 = 10_000;

/// The five standard breakpoints of a sorted sequence: the 50th, 95th,
/// 99th, 99.9th and 99.99th percentiles.
pub open spec fn percentile_set_of(s: Seq<u128>) -> PercentileSet {
    PercentileSet {
        p50: FineDuration { picos: percentile_value(s, 5000, 10000) as u128 },
        p95: FineDuration { picos: percentile_value(s, 9500, 10000) as u128 },
        p99: FineDuration { picos: percentile_value(s, 9900, 10000) as u128 },
        p99_9: FineDuration { picos: percentile_value(s, 9990, 10000) as u128 },
        p99_99: FineDuration { picos: percentile_value(s, 9999, 10000) as u128 },
    }
}

/// The rank of quantile `q / d` in a sequence of `len` elements: its
/// lower index, the interpolation fraction (over `d`) and its upper
/// index.
proof fn lemma_rank_bounds(q: nat, d: nat, len: nat)
    requires
        len >= 2,
        d > 0,
        q <= d,
    ensures
        ({
            let rank = q * ((len - 1) as nat);
            let lo = rank / d;
            let frac = rank % d;
            &&& lo <= len - 1
            &&& frac < d
            &&& (lo == len - 1 ==> frac == 0)
        }),
{
    let n1: nat = (len - 1) as nat;
    let rank = q * n1;
    assert(rank <= d * n1) by (nonlinear_arith)
        requires
            q <= d,
            rank == q * n1,
    ;
    assert(rank / d <= n1) by (nonlinear_arith)
        requires
            rank <= d * n1,
            d > 0,
    ;
    assert(rank / d == n1 ==> rank % d == 0) by (nonlinear_arith)
        requires
            rank <= d * n1,
            d > 0,
    ;
}

/// Interpolation stays between its two ends and grows with the fraction.
proof fn lemma_interpolation(lower: nat, upper: nat, f1: nat, f2: nat, d: nat)
    requires
        lower <= upper,
        f1 <= f2 < d,
    ensures
        lower + ((upper - lower) as nat * f1) / d <= lower + ((upper - lower) as nat * f2) / d,
        lower + ((upper - lower) as nat * f2) / d <= upper,
{
    let w: nat = (upper - lower) as nat;
    assert((w * f1) / d <= (w * f2) / d) by (nonlinear_arith)
        requires
            f1 <= f2,
            d > 0,
    ;
    assert((w * f2) / d <= w) by (nonlinear_arith)
        requires
            f2 < d,
    ;
}

/// In an ascending sequence, a percentile lies between the first and the
/// last element, and a larger quantile never gives a smaller percentile.
pub proof fn lemma_percentile_monotone(s: Seq<u128>, q1: nat, q2: nat, d: nat)
    requires
        s.len() >= 1,
        forall|i: int, j: int| 0 <= i <= j < s.len() ==> s[i] <= s[j],
        d > 0,
        q1 <= q2 <= d,
    ensures
        s[0] <= percentile_value(s, q1, d),
        percentile_value(s, q1, d) <= percentile_value(s, q2, d),
        percentile_value(s, q2, d) <= s[s.len() - 1],
{
    if s.len() >= 2 {
        let n1: nat = (s.len() - 1) as nat;
        let r1 = q1 * n1;
        let r2 = q2 * n1;
        lemma_rank_bounds(q1, d, s.len());
        lemma_rank_bounds(q2, d, s.len());
        assert(r1 <= r2) by (nonlinear_arith)
            requires
                q1 <= q2,
                r1 == q1 * n1,
                r2 == q2 * n1,
        ;
        assert(r1 / d <= r2 / d) by (nonlinear_arith)
            requires
                r1 <= r2,
                d > 0,
        ;
        let lo1 = r1 / d;
        let lo2 = r2 / d;
        let f1 = r1 % d;
        let f2 = r2 % d;
        let hi1 = if f1 == 0 { lo1 } else { lo1 + 1 };
        let hi2 = if f2 == 0 { lo2 } else { lo2 + 1 };
        assert(s[lo1 as int] <= s[hi1 as int]);
        assert(s[lo2 as int] <= s[hi2 as int]);
        lemma_interpolation(s[lo1 as int] as nat, s[hi1 as int] as nat, f1, f1, d);
        lemma_interpolation(s[lo2 as int] as nat, s[hi2 as int] as nat, f2, f2, d);
        assert(s[0] <= s[lo1 as int]);
        assert(s[hi2 as int] <= s[s.len() - 1]);
        if lo1 < lo2 {
            assert(s[hi1 as int] <= s[lo2 as int]);
        } else {
            assert(r1 == lo1 * d + f1 && r2 == lo2 * d + f2) by (nonlinear_arith)
                requires
                    d > 0,
                    lo1 == r1 / d,
                    lo2 == r2 / d,
                    f1 == r1 % d,
                    f2 == r2 % d,
            ;
            if f1 > 0 {
                lemma_interpolation(s[lo1 as int] as nat, s[hi1 as int] as nat, f1, f2, d);
            }
        }
    }
}

/// A prefix never sums to more than the whole.
pub proof fn lemma_prefix_sum_le(s: Seq<u128>, i: int)
    requires
        0 <= i <= s.len(),
    ensures
        seq_sum(s.subrange(0, i)) <= seq_sum(s),
    decreases s.len() - i,
{
    if i < s.len() {
        lemma_prefix_sum_le(s, i + 1);
        assert(s.subrange(0, i + 1).drop_last() =~= s.subrange(0, i));
    } else {
        assert(s.subrange(0, i) =~= s);
    }
}

/// A prefix never has a larger squared-distance sum than the whole.
pub proof fn lemma_prefix_sq_le(s: Seq<u128>, m: nat, i: int)
    requires
        0 <= i <= s.len(),
    ensures
        sq_dev_sum(s.subrange(0, i), m) <= sq_dev_sum(s, m),
    decreases s.len() - i,
{
    if i < s.len() {
        lemma_prefix_sq_le(s, m, i + 1);
        assert(s.subrange(0, i + 1).drop_last() =~= s.subrange(0, i));
    } else {
        assert(s.subrange(0, i) =~= s);
    }
}

/// `floor(d * f / q) == (d / q) * f + floor((d % q) * f / q)`.
proof fn lemma_split_product_div(d: nat, f: nat, q: nat)
    requires
        q > 0,
    ensures
        (d * f) / q == (d / q) * f + ((d % q) * f) / q,
{
    let a = d / q;
    let b = d % q;
    assert(d == a * q + b) by (nonlinear_arith)
        requires
            q > 0,
            a == d / q,
            b == d % q,
    ;
    assert(d * f == (a * f) * q + b * f) by (nonlinear_arith)
        requires
            d == a * q + b,
    ;
    assert(((a * f) * q + b * f) / q == a * f + (b * f) / q) by (nonlinear_arith)
        requires
            q > 0,
    ;
}

/// Unit struct organizing exact-mode computation.
pub struct ExactPercentiles;

impl ExactPercentiles {
    /// The percentile at quantile `q_num / q_den` of `samples` (expected in
    /// ascending order) by linear interpolation.
    pub fn compute_percentile(samples: &[u128], q_num: u64, q_den: u64) -> (r: u128)
        requires
            samples@.len() >= 1,
            q_den > 0,
            q_num <= q_den,
        ensures
            r == percentile_value(samples@, q_num as nat, q_den as nat),
    {
        let n: usize = samples.len();
        if n == 1 {
            return samples[0];
        }
        proof {
            let a: nat = q_num as nat;
            let b: nat = (n - 1) as nat;
            assert(b <= 0xffff_ffff_ffff_ffff);
            assert(a * b <= 0xffff_ffff_ffff_ffff * 0xffff_ffff_ffff_ffff) by (nonlinear_arith)
                requires
                    a <= 0xffff_ffff_ffff_ffff,
                    b <= 0xffff_ffff_ffff_ffff,
            ;
        }
        let rank: u128 = (q_num as u128) * ((n - 1) as u128);
        let lo: u128 = rank / (q_den as u128);
        let frac: u128 = rank % (q_den as u128);
        proof {
            let rr: nat = rank as nat;
            let dd: nat = q_den as nat;
            let ll: nat = lo as nat;
            let ff: nat = frac as nat;
            let nn: nat = (n - 1) as nat;
            assert(rr <= dd * nn) by (nonlinear_arith)
                requires
                    rr == (q_num as nat) * nn,
                    q_num <= q_den,
                    dd == q_den as nat,
            ;
            assert(ll * dd + ff == rr) by (nonlinear_arith)
                requires
                    dd > 0,
                    ll == rr / dd,
                    ff == rr % dd,
            ;
            assert(ll <= nn) by (nonlinear_arith)
                requires
                    ll * dd + ff == rr,
                    rr <= dd * nn,
                    dd > 0,
            ;
            if frac > 0 {
                assert(ll < nn) by (nonlinear_arith)
                    requires
                        ll * dd + ff == rr,
                        rr <= dd * nn,
                        dd > 0,
                        ff > 0,
                ;
            }
        }
        let lo_i: usize = lo as usize;
        let hi_i: usize = if frac == 0 { lo_i } else { lo_i + 1 };
        let lower: u128 = samples[lo_i];
        let upper: u128 = samples[hi_i];
        if upper < lower {
            return lower;
        }
        let d: u128 = upper - lower;
        let q: u128 = q_den as u128;
        proof {
            let dn: nat = d as nat;
            let fnn: nat = frac as nat;
            let qn: nat = q as nat;
            lemma_split_product_div(dn, fnn, qn);
            assert(fnn < qn);
            assert((dn / qn) * fnn <= dn) by (nonlinear_arith)
                requires
                    fnn < qn,
                    qn > 0,
            ;
            assert((dn % qn) * fnn < qn * qn) by (nonlinear_arith)
                requires
                    dn % qn < qn,
                    fnn < qn,
            ;
            assert(qn * qn <= u128::MAX) by (nonlinear_arith)
                requires
                    qn <= u64::MAX,
            ;
            assert(((dn % qn) * fnn) / qn + (dn / qn) * fnn <= dn) by (nonlinear_arith)
                requires
                    qn > 0,
                    fnn < qn,
            ;
        }
        let add: u128 = (d / q) * frac + ((d % q) * frac) / q;
        lower + add
    }

    /// The five standard percentiles of `samples` (expected in ascending
    /// order).
    pub fn compute_percentile_set(samples: &[u128]) -> (r: PercentileSet)
        requires
            samples@.len() >= 1,
        ensures
            r == percentile_set_of(samples@),
    {
        PercentileSet {
            p50: FineDuration { picos: Self::compute_percentile(samples, 5000, QUANTILE_DEN) },
            p95: FineDuration { picos: Self::compute_percentile(samples, 9500, QUANTILE_DEN) },
            p99: FineDuration { picos: Self::compute_percentile(samples, 9900, QUANTILE_DEN) },
            p99_9: FineDuration { picos: Self::compute_percentile(samples, 9990, QUANTILE_DEN) },
            p99_99: FineDuration { picos: Self::compute_percentile(samples, 9999, QUANTILE_DEN) },
        }
    }

    /// The arithmetic mean, rounded toward zero.
    pub fn compute_mean(samples: &[u128]) -> (r: u128)
        requires
            samples@.len() >= 1,
            seq_sum(samples@) <= u128::MAX,
        ensures
            r == seq_sum(samples@) / samples@.len(),
    {
        let mut sum: u128 = 0;
        let mut i: usize = 0;
        while i < samples.len()
            invariant
                i <= samples@.len(),
                sum == seq_sum(samples@.subrange(0, i as int)),
                seq_sum(samples@) <= u128::MAX,
            decreases samples.len() - i,
        {
            proof {
                assert(samples@.subrange(0, i + 1).drop_last() =~= samples@.subrange(0, i as int));
                lemma_prefix_sum_le(samples@, i + 1);
            }
            sum = sum + samples[i];
            i = i + 1;
        }
        proof {
            assert(samples@.subrange(0, samples@.len() as int) =~= samples@);
        }
        sum / (samples.len() as u128)
    }

    /// The population standard deviation around the (integer) mean,
    /// rounded toward zero: the integer square root of the mean squared
    /// distance. The squared distances are summed in 384 bits, so no sum
    /// of samples that fits in a `u128` is refused.
    pub fn compute_std_dev(samples: &[u128]) -> (r: u128)
        requires
            samples@.len() >= 1,
            seq_sum(samples@) <= u128::MAX,
        ensures
            is_isqrt(sq_dev_sum(samples@, seq_sum(samples@) / samples@.len()) / samples@.len(), r as nat),
    {
        let mean: u128 = Self::compute_mean(samples);
        let ghost m: nat = mean as nat;
        let n: usize = samples.len();
        let ghost top: int = (limb_base() - 1) * (limb_base() - 1);
        let mut s2: u128 = 0;
        let mut s1: u128 = 0;
        let mut s0: u128 = 0;
        let mut i: usize = 0;
        proof {
            assert(samples@.subrange(0, 0) =~= Seq::<u128>::empty());
        }
        while i < n
            invariant
                n == samples@.len(),
                i <= n,
                m == mean,
                top == (limb_base() - 1) * (limb_base() - 1),
                wide_value(s2, s1, s0) == sq_dev_sum(samples@.subrange(0, i as int), m),
                sq_dev_sum(samples@.subrange(0, i as int), m) <= i * top,
                s2 <= i,
            decreases n - i,
        {
            proof {
                assert(samples@.subrange(0, i + 1).drop_last() =~= samples@.subrange(0, i as int));
            }
            let x: u128 = samples[i];
            let diff: u128 = if x >= mean { x - mean } else { mean - x };
            let (h, l): (u128, u128) = mul_wide(diff, diff);
            proof {
                assert(diff * diff == sq_dist(x as nat, m));
                assert(diff * diff <= top) by (nonlinear_arith)
                    requires
                        diff <= limb_base() - 1,
                        top == (limb_base() - 1) * (limb_base() - 1),
                ;
                assert(i * top + top == (i + 1) * top) by (nonlinear_arith);
            }
            let (a2, a1, a0): (u128, u128, u128) = add_wide(s2, s1, s0, h, l);
            proof {
                assert(a2 <= i + 1) by (nonlinear_arith)
                    requires
                        wide_value(a2, a1, a0) <= (i + 1) * top,
                        top == (limb_base() - 1) * (limb_base() - 1),
                        a1 >= 0,
                        a0 >= 0,
                        i >= 0,
                ;
            }
            s2 = a2;
            s1 = a1;
            s0 = a0;
            i = i + 1;
        }
        proof {
            assert(samples@.subrange(0, n as int) =~= samples@);
            assert(n * top < limb_base() * limb_base() * n) by (nonlinear_arith)
                requires
                    n >= 1,
                    top == (limb_base() - 1) * (limb_base() - 1),
            ;
        }
        let r: u128 = isqrt_scaled(s2, s1, s0, n as u128);
        proof {
            lemma_isqrt_of_quotient(sq_dev_sum(samples@, m), n as nat, r as nat);
        }
        r
    }
}

/// From `r * r * n <= s < (r + 1) * (r + 1) * n`, `r` is the integer
/// square root of `s / n`.
proof fn lemma_isqrt_of_quotient(s: nat, n: nat, r: nat)
    requires
        n >= 1,
        r * r * n <= s < (r + 1) * (r + 1) * n,
    ensures
        is_isqrt(s / n, r),
{
    let q = s / n;
    assert(q * n <= s < (q + 1) * n) by (nonlinear_arith)
        requires
            n >= 1,
            q == s / n,
    ;
    assert(r * r <= q) by (nonlinear_arith)
        requires
            r * r * n <= s,
            s < (q + 1) * n,
            n >= 1,
    ;
    assert(q < (r + 1) * (r + 1)) by (nonlinear_arith)
        requires
            q * n <= s,
            s < (r + 1) * (r + 1) * n,
            n >= 1,
    ;
}

} // verus!
