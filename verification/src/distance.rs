//! The perceptually weighted color distance. For fixed-point colors the
//! formula of the metric is an exact rational, so the distance is computed
//! with integer arithmetic and no rounding beyond the final floor.
//!
//! For channels in [0, 1] (numerators `v` over `s = SCALE`), with
//! `dR = c2_r - c1_r` and so on, and `rsum = c1_r + c2_r`:
//!   weightedR = (2 + r/256) * dR^2        where r = rsum / (2 s)
//!   weightedG = 4 * dG^2
//!   weightedB = (2 + (255 - r)/256) * dB^2
//!   weightedA = 255 - dA/256
//!   base      = (weightedR + weightedG + weightedB + weightedA) * 1024
//! and the result is `floor(base + q/qfactor)` when `qfactor > 0`, else
//! `floor(base)`. Over the common denominator `512 s^3` the numerator of the
//! weighted sum is the integer [`dist_t`], and `base = 2 * dist_t / s^3`.

use vstd::prelude::*;
use vstd::arithmetic::div_mod::{
    lemma_div_is_ordered,
    lemma_div_multiples_vanish,
    lemma_div_pos_is_pos,
};
use crate::color::{Color, SCALE};

verus! {

/// `|a - b|` for two channel numerators.
pub open spec fn abs_diff_ch(a: u32, b: u32) -> int {
    if a >= b {
        a - b
    } else {
        b - a
    }
}

/// Numerator, over the common denominator `512 * SCALE^3`, of the weighted
/// channel sum of the metric. Every summand is nonnegative: the alpha term
/// `255 - dA/256` is carried as `130558 s^3 + 2 s^2 (s + c1_a - c2_a)`.
pub open spec fn dist_t(c1: Color, c2: Color) -> int {
    let s = SCALE as int;
    let d0 = abs_diff_ch(c1.r, c2.r);
    let d1 = abs_diff_ch(c1.g, c2.g);
    let d2 = abs_diff_ch(c1.b, c2.b);
    (1024 * s + c1.r + c2.r) * (d0 * d0) + 2048 * s * (d1 * d1) + (1534 * s - c1.r - c2.r) * (d2
        * d2) + 130558 * (s * (s * s)) + 2 * (s * s) * (s + c1.a - c2.a)
}

/// The distance of the metric: `floor(base + q/qfactor)` when `qfactor > 0`,
/// else `floor(base)`, where `base = 2 * dist_t(c1, c2) / SCALE^3`.
pub open spec fn spec_distance(c1: Color, c2: Color, q: u64, qfactor: u64) -> int {
    let s = SCALE as int;
    let s3 = s * (s * s);
    let t = dist_t(c1, c2);
    if qfactor > 0 {
        (2 * t * qfactor + q * s3) / (s3 * qfactor)
    } else {
        2 * t / s3
    }
}

/// The weighted-sum numerator is positive and at most `135170 * SCALE^3`.
pub proof fn lemma_dist_t_bounds(c1: Color, c2: Color)
    ensures
        c1.wf() && c2.wf() ==> 0 < dist_t(c1, c2) <= 135170 * ((SCALE as int) * ((SCALE as int) * (
        SCALE as int))),
{
    if c1.wf() && c2.wf() {
        let s = SCALE as int;
        let d0 = abs_diff_ch(c1.r, c2.r);
        let d1 = abs_diff_ch(c1.g, c2.g);
        let d2 = abs_diff_ch(c1.b, c2.b);
        let t = dist_t(c1, c2);
        assert(t == (1024 * s + c1.r + c2.r) * (d0 * d0) + 2048 * s * (d1 * d1) + (1534 * s - c1.r
            - c2.r) * (d2 * d2) + 130558 * (s * (s * s)) + 2 * (s * s) * (s + c1.a - c2.a));
        assert(0 < t <= 135170 * (s * (s * s))) by (nonlinear_arith)
            requires
                t == (1024 * s + c1.r + c2.r) * (d0 * d0) + 2048 * s * (d1 * d1) + (1534 * s - c1.r
                    - c2.r) * (d2 * d2) + 130558 * (s * (s * s)) + 2 * (s * s) * (s + c1.a
                    - c2.a),
                s == 65280,
                0 <= d0 <= s,
                0 <= d1 <= s,
                0 <= d2 <= s,
                0 <= c1.r <= s,
                0 <= c2.r <= s,
                0 <= c1.a <= s,
                0 <= c2.a <= s,
        ;
    }
}

/// Greatest `q` the distance accepts: with larger signals the result could
/// outgrow the 64-bit result type.
pub const MAX_Q: u64 = 0x1000_0000_0000_0000;

/// Greatest `qfactor` the distance accepts, a machine limit of the exact
/// integer computation.
pub const MAX_QFACTOR: u64 = 0x1_0000_0000;

/// The distance value is never negative and is at most `270340 + q`.
pub proof fn lemma_distance_range(c1: Color, c2: Color, q: u64, qfactor: u64)
    requires
        c1.wf(),
        c2.wf(),
    ensures
        0 <= spec_distance(c1, c2, q, qfactor) <= 270340 + q,
{
    lemma_dist_t_bounds(c1, c2);
    let s = SCALE as int;
    let s3 = s * (s * s);
    let t = dist_t(c1, c2);
    assert(s3 > 0);
    if qfactor > 0 {
        let num = 2 * t * qfactor + q * s3;
        let den = s3 * qfactor;
        assert(0 <= num && 0 < den && num <= den * (270340 + q)) by (nonlinear_arith)
            requires
                0 < t <= 135170 * s3,
                s3 == 278189309952000,
                num == 2 * t * qfactor + q * s3,
                den == s3 * qfactor,
                qfactor >= 1,
                q >= 0,
        ;
        lemma_div_is_ordered(num, den * (270340 + q), den);
        lemma_div_multiples_vanish(270340 + q, den);
        lemma_div_pos_is_pos(num, den);
    } else {
        assert(0 <= 2 * t && 2 * t <= s3 * 270340) by (nonlinear_arith)
            requires
                0 < t <= 135170 * s3,
        ;
        lemma_div_is_ordered(2 * t, s3 * 270340, s3);
        lemma_div_multiples_vanish(270340, s3);
        lemma_div_pos_is_pos(2 * t, s3);
    }
}

/// The perceptually weighted distance between two colors. Smaller means more
/// similar; the result is never negative, and identical colors do not give
/// zero (the alpha term contributes `255 * 1024` on its own).
pub fn color_distance(c1: &Color, c2: &Color, q: u64, qfactor: u64) -> (d: u64)
    requires
        c1.wf(),
        c2.wf(),
        q <= MAX_Q,
        qfactor <= MAX_QFACTOR,
    ensures
        d == spec_distance(*c1, *c2, q, qfactor),
{
    let s: u128 = SCALE as u128;
    let d0: u128 = if c1.r >= c2.r {
        (c1.r - c2.r) as u128
    } else {
        (c2.r - c1.r) as u128
    };
    let d1: u128 = if c1.g >= c2.g {
        (c1.g - c2.g) as u128
    } else {
        (c2.g - c1.g) as u128
    };
    let d2: u128 = if c1.b >= c2.b {
        (c1.b - c2.b) as u128
    } else {
        (c2.b - c1.b) as u128
    };
    proof {
        assert(d0 * d0 <= 4261478400 && d1 * d1 <= 4261478400 && d2 * d2 <= 4261478400)
            by (nonlinear_arith)
            requires
                0 <= d0 <= 65280,
                0 <= d1 <= 65280,
                0 <= d2 <= 65280,
        ;
    }
    let dd0: u128 = d0 * d0;
    let dd1: u128 = d1 * d1;
    let dd2: u128 = d2 * d2;
    let w0: u128 = 1024 * s + c1.r as u128 + c2.r as u128;
    let w2: u128 = 1534 * s - c1.r as u128 - c2.r as u128;
    proof {
        assert(w0 * dd0 <= 66994560 * 4261478400 && 2048 * 65280 * dd1 <= 133693440 * 4261478400
            && w2 * dd2 <= 100139520 * 4261478400) by (nonlinear_arith)
            requires
                0 <= w0 <= 66994560,
                0 <= dd0 <= 4261478400,
                0 <= dd1 <= 4261478400,
                0 <= w2 <= 100139520,
                0 <= dd2 <= 4261478400,
        ;
    }
    let t: u128 = w0 * dd0 + 2048 * s * dd1 + w2 * dd2 + 130558 * (s * (s * s)) + 2 * (s * s) * (s
        + c1.a as u128 - c2.a as u128);
    let s3: u128 = s * (s * s);
    proof {
        assert(t == dist_t(*c1, *c2));
        lemma_dist_t_bounds(*c1, *c2);
        lemma_distance_range(*c1, *c2, q, qfactor);
    }
    if qfactor > 0 {
        proof {
            assert(2 * t * qfactor <= 2 * 37605455196309504000000 * 0x1_0000_0000 && 2 * t
                * qfactor >= 0) by (nonlinear_arith)
                requires
                    0 <= t <= 37605455196309504000000,
                    0 <= qfactor <= 0x1_0000_0000,
            ;
            assert(s3 * qfactor <= 278189309952000 * 0x1_0000_0000 && s3 * qfactor >= s3)
                by (nonlinear_arith)
                requires
                    s3 == 278189309952000,
                    1 <= qfactor <= 0x1_0000_0000,
            ;
        }
        let num: u128 = 2 * t * qfactor as u128 + q as u128 * s3;
        let den: u128 = s3 * qfactor as u128;
        let res: u128 = num / den;
        res as u64
    } else {
        let res: u128 = (2 * t) / s3;
        res as u64
    }
}

/// The distance of a color to itself does not depend on `qfactor` and is
/// exactly `255 * 1024`: the alpha term alone, not zero.
pub proof fn lemma_self_distance(c: Color, qfactor: u64)
    requires
        c.wf(),
    ensures
        spec_distance(c, c, 0, qfactor) == 261120,
{
    let s = SCALE as int;
    let s3 = s * (s * s);
    let t = dist_t(c, c);
    assert(abs_diff_ch(c.r, c.r) == 0 && abs_diff_ch(c.g, c.g) == 0 && abs_diff_ch(c.b, c.b) == 0);
    assert(t == 130558 * (s * (s * s)) + 2 * (s * s) * s) by (nonlinear_arith)
        requires
            t == (1024 * s + c.r + c.r) * (0 * 0) + 2048 * s * (0 * 0) + (1534 * s - c.r - c.r) * (
            0 * 0) + 130558 * (s * (s * s)) + 2 * (s * s) * (s + c.a - c.a),
    ;
    assert(2 * t == 261120 * s3 && s3 == 278189309952000) by (nonlinear_arith)
        requires
            t == 130558 * (s * (s * s)) + 2 * (s * s) * s,
            s3 == s * (s * s),
            s == 65280,
    ;
    if qfactor > 0 {
        let den = s3 * qfactor;
        assert(den > 0 && 2 * t * qfactor + 0 * s3 == den * 261120) by (nonlinear_arith)
            requires
                2 * t == 261120 * s3,
                den == s3 * qfactor,
                s3 == 278189309952000,
                qfactor >= 1,
        ;
        lemma_div_multiples_vanish(261120, den);
    } else {
        lemma_div_multiples_vanish(261120, s3);
        assert(2 * t / s3 == s3 * 261120 / s3) by (nonlinear_arith)
            requires
                2 * t == 261120 * s3,
        ;
    }
}

} // verus!
