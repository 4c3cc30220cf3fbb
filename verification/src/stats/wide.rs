//! Unsigned integers of up to 384 bits held in three `u128` limbs, for
//! sums of squares that do not fit in one `u128`.

use vstd::prelude::*;

verus! {

/// `2^64`.
pub open spec fn half_base() -> int {
    0x1_0000_0000_0000_0000int
}

/// `2^128`, the base of the limbs.
pub open spec fn limb_base() -> int {
    0x1_0000_0000_0000_0000_0000_0000_0000_0000int
}

/// The value of the limbs `(hi, mid, lo)`, most significant first.
pub open spec fn wide_value(hi: u128, mid: u128, lo: u128) -> int {
    hi * (limb_base() * limb_base()) + mid * limb_base() + lo
}

/// A product of two numbers below `2^64` is below `2^128`.
proof fn lemma_half_product(x: int, y: int)
    requires
        0 <= x < half_base(),
        0 <= y < half_base(),
    ensures
        0 <= x * y <= (half_base() - 1) * (half_base() - 1),
        x * y < limb_base(),
{
    assert(0 <= x * y <= (half_base() - 1) * (half_base() - 1)) by (nonlinear_arith)
        requires
            0 <= x < half_base(),
            0 <= y < half_base(),
    ;
    assert((half_base() - 1) * (half_base() - 1) < limb_base()) by (nonlinear_arith);
}

/// The full product of two `u128` as `(high, low)` limbs.
pub fn mul_wide(a: u128, b: u128) -> (r: (u128, u128))
    ensures
        r.0 * limb_base() + r.1 == a * b,
{
    let w: u128 = 0x1_0000_0000_0000_0000;
    let a1: u128 = a / w;
    let a0: u128 = a % w;
    let b1: u128 = b / w;
    let b0: u128 = b % w;
    proof {
        assert(a == a1 * w + a0 && a1 < w) by (nonlinear_arith)
            requires
                w == half_base(),
                a1 == a / w,
                a0 == a % w,
                a < limb_base(),
        ;
        assert(b == b1 * w + b0 && b1 < w) by (nonlinear_arith)
            requires
                w == half_base(),
                b1 == b / w,
                b0 == b % w,
                b < limb_base(),
        ;
        lemma_half_product(a0 as int, b0 as int);
        lemma_half_product(a0 as int, b1 as int);
        lemma_half_product(a1 as int, b0 as int);
        lemma_half_product(a1 as int, b1 as int);
    }
    let p00: u128 = a0 * b0;
    let p01: u128 = a0 * b1;
    let p10: u128 = a1 * b0;
    let p11: u128 = a1 * b1;
    let h00: u128 = p00 / w;
    let l00: u128 = p00 % w;
    let h01: u128 = p01 / w;
    let l01: u128 = p01 % w;
    let h10: u128 = p10 / w;
    let l10: u128 = p10 % w;
    proof {
        assert(p00 == h00 * w + l00 && h00 < w) by (nonlinear_arith)
            requires
                w == half_base(),
                h00 == p00 / w,
                l00 == p00 % w,
                p00 < limb_base(),
        ;
        assert(p01 == h01 * w + l01 && h01 < w) by (nonlinear_arith)
            requires
                w == half_base(),
                h01 == p01 / w,
                l01 == p01 % w,
                p01 < limb_base(),
        ;
        assert(p10 == h10 * w + l10 && h10 < w) by (nonlinear_arith)
            requires
                w == half_base(),
                h10 == p10 / w,
                l10 == p10 % w,
                p10 < limb_base(),
        ;
    }
    let mid: u128 = l01 + l10 + h00;
    let mh: u128 = mid / w;
    let ml: u128 = mid % w;
    proof {
        assert(mid == mh * w + ml && mh < 3) by (nonlinear_arith)
            requires
                w == half_base(),
                mh == mid / w,
                ml == mid % w,
                mid < 3 * half_base(),
        ;
        assert(a * b == (p11 + h01 + h10 + mh) * limb_base() + (ml * w + l00)) by (nonlinear_arith)
            requires
                w == half_base(),
                limb_base() == w * w,
                a == a1 * w + a0,
                b == b1 * w + b0,
                p00 == a0 * b0,
                p01 == a0 * b1,
                p10 == a1 * b0,
                p11 == a1 * b1,
                p00 == h00 * w + l00,
                p01 == h01 * w + l01,
                p10 == h10 * w + l10,
                mid == l01 + l10 + h00,
                mid == mh * w + ml,
        ;
        assert(ml * w + l00 < limb_base()) by (nonlinear_arith)
            requires
                w == half_base(),
                ml < w,
                l00 < w,
        ;
        assert(p11 + h01 + h10 + mh < limb_base()) by (nonlinear_arith)
            requires
                a * b == (p11 + h01 + h10 + mh) * limb_base() + (ml * w + l00),
                0 <= ml * w + l00,
                0 <= a < limb_base(),
                0 <= b < limb_base(),
                limb_base() > 0,
        ;
    }
    (p11 + h01 + h10 + mh, ml * w + l00)
}

/// Adds `h * 2^128 + l` to the value of `(hi, mid, lo)`.
pub fn add_wide(hi: u128, mid: u128, lo: u128, h: u128, l: u128) -> (r: (u128, u128, u128))
    requires
        hi + 2 <= u128::MAX,
    ensures
        wide_value(r.0, r.1, r.2) == wide_value(hi, mid, lo) + h * limb_base() + l,
{
    let (lo2, c0): (u128, u128) = if lo <= u128::MAX - l {
        (lo + l, 0)
    } else {
        (lo - (u128::MAX - l) - 1, 1)
    };
    let (mid2, c1): (u128, u128) = if mid <= u128::MAX - h {
        (mid + h, 0)
    } else {
        (mid - (u128::MAX - h) - 1, 1)
    };
    let (mid3, c2): (u128, u128) = if mid2 <= u128::MAX - c0 {
        (mid2 + c0, 0)
    } else {
        (mid2 - (u128::MAX - c0) - 1, 1)
    };
    proof {
        assert(lo + l == lo2 + c0 * limb_base());
        assert(mid + h == mid2 + c1 * limb_base());
        assert(mid2 + c0 == mid3 + c2 * limb_base());
    }
    (hi + c1 + c2, mid3, lo2)
}

/// Whether the value of `(a2, a1, a0)` is at most that of `(b2, b1, b0)`.
pub fn wide_le(a2: u128, a1: u128, a0: u128, b2: u128, b1: u128, b0: u128) -> (r: bool)
    ensures
        r == (wide_value(a2, a1, a0) <= wide_value(b2, b1, b0)),
{
    proof {
        lemma_wide_lex(a2, a1, a0, b2, b1, b0);
        lemma_wide_lex(b2, b1, b0, a2, a1, a0);
    }
    if a2 != b2 {
        a2 < b2
    } else if a1 != b1 {
        a1 < b1
    } else {
        a0 <= b0
    }
}

/// Limbs compare their values in lexicographic order.
proof fn lemma_wide_lex(a2: u128, a1: u128, a0: u128, b2: u128, b1: u128, b0: u128)
    ensures
        a2 < b2 ==> wide_value(a2, a1, a0) < wide_value(b2, b1, b0),
        a2 == b2 && a1 < b1 ==> wide_value(a2, a1, a0) < wide_value(b2, b1, b0),
{
    let bb = limb_base();
    assert(a1 * bb + a0 < bb * bb) by (nonlinear_arith)
        requires
            a1 < bb,
            a0 < bb,
            bb > 0,
    ;
    assert(b1 * bb + b0 >= 0) by (nonlinear_arith)
        requires
            b1 >= 0,
            b0 >= 0,
            bb > 0,
    ;
    if a2 < b2 {
        assert(a2 * (bb * bb) + bb * bb <= b2 * (bb * bb)) by (nonlinear_arith)
            requires
                a2 < b2,
                bb > 0,
        ;
    }
    if a2 == b2 && a1 < b1 {
        assert(a1 * bb + bb <= b1 * bb) by (nonlinear_arith)
            requires
                a1 < b1,
                bb > 0,
        ;
    }
}

/// `r * r * n` as limbs, for `n` below `2^64`.
pub fn scaled_square(r: u128, n: u128) -> (t: (u128, u128, u128))
    requires
        n < half_base(),
    ensures
        wide_value(t.0, t.1, t.2) == r * r * n,
{
    let (h, l): (u128, u128) = mul_wide(r, r);
    let (l1, l0): (u128, u128) = mul_wide(l, n);
    let (h1, h0): (u128, u128) = mul_wide(h, n);
    proof {
        assert(h1 < half_base()) by (nonlinear_arith)
            requires
                h1 * limb_base() + h0 == h * n,
                h < limb_base(),
                n < half_base(),
                h0 >= 0,
                limb_base() > 0,
        ;
    }
    let (t1, c): (u128, u128) = if l1 <= u128::MAX - h0 {
        (l1 + h0, 0)
    } else {
        (l1 - (u128::MAX - h0) - 1, 1)
    };
    proof {
        let bb = limb_base();
        assert(l1 + h0 == t1 + c * bb);
        assert(r * r * n == (h1 + c) * (bb * bb) + t1 * bb + l0) by (nonlinear_arith)
            requires
                h * bb + l == r * r,
                l1 * bb + l0 == l * n,
                h1 * bb + h0 == h * n,
                l1 + h0 == t1 + c * bb,
        ;
    }
    (h1 + c, t1, l0)
}

/// The largest `r` with `r * r * n` at most the value of `(s2, s1, s0)`.
pub fn isqrt_scaled(s2: u128, s1: u128, s0: u128, n: u128) -> (r: u128)
    requires
        1 <= n < half_base(),
        wide_value(s2, s1, s0) < limb_base() * limb_base() * n,
    ensures
        r * r * n <= wide_value(s2, s1, s0) < (r + 1) * (r + 1) * n,
{
    let ghost s = wide_value(s2, s1, s0);
    let mut lo: u128 = 0;
    let mut hi: u128 = u128::MAX;
    proof {
        assert(wide_value(s2, s1, s0) >= 0) by (nonlinear_arith)
            requires
                s2 >= 0,
                s1 >= 0,
                s0 >= 0,
                limb_base() > 0,
        ;
    }
    while lo < hi
        invariant
            lo <= hi,
            s == wide_value(s2, s1, s0),
            lo * lo * n <= s,
            s < (hi + 1) * (hi + 1) * n,
            n < half_base(),
        decreases hi - lo,
    {
        let mid: u128 = lo + (hi - lo) / 2 + 1;
        let (t2, t1, t0): (u128, u128, u128) = scaled_square(mid, n);
        if wide_le(t2, t1, t0, s2, s1, s0) {
            lo = mid;
        } else {
            hi = mid - 1;
        }
    }
    lo
}

} // verus!
