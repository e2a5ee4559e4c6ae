//! The tile averager: reduces an image to one representative color, the
//! arithmetic mean of every pixel's four channels in fixed-point space.
//! The mean is rounded to the nearest representable value (halves up); on
//! the inputs the stated laws speak of, the mean is exact.

use vstd::prelude::*;
use vstd::arithmetic::div_mod::{lemma_div_is_ordered, lemma_div_multiples_vanish_fancy};
use crate::color::{Color, Color8, channel_of_byte, spec_color_of_byte};
use crate::raster::Image;

verus! {

/// Sum of the fixed-point red channels of a pixel sequence.
pub open spec fn sum_r(s: Seq<Color8>) -> int
    decreases s.len(),
{
    if s.len() == 0 {
        0
    } else {
        sum_r(s.drop_last()) + channel_of_byte(s.last().r)
    }
}

/// Sum of the fixed-point green channels of a pixel sequence.
pub open spec fn sum_g(s: Seq<Color8>) -> int
    decreases s.len(),
{
    if s.len() == 0 {
        0
    } else {
        sum_g(s.drop_last()) + channel_of_byte(s.last().g)
    }
}

/// Sum of the fixed-point blue channels of a pixel sequence.
pub open spec fn sum_b(s: Seq<Color8>) -> int
    decreases s.len(),
{
    if s.len() == 0 {
        0
    } else {
        sum_b(s.drop_last()) + channel_of_byte(s.last().b)
    }
}

/// Sum of the fixed-point alpha channels of a pixel sequence.
pub open spec fn sum_a(s: Seq<Color8>) -> int
    decreases s.len(),
{
    if s.len() == 0 {
        0
    } else {
        sum_a(s.drop_last()) + channel_of_byte(s.last().a)
    }
}

/// The channel sum of `n` pixels divided by `n`, rounded to the nearest
/// fixed-point value, halves up.
pub open spec fn avg_channel(sum: int, n: int) -> int {
    (2 * sum + n) / (2 * n)
}

/// The mean color of a pixel sequence.
pub open spec fn spec_average(s: Seq<Color8>) -> Color {
    let n = s.len() as int;
    Color {
        r: avg_channel(sum_r(s), n) as u32,
        g: avg_channel(sum_g(s), n) as u32,
        b: avg_channel(sum_b(s), n) as u32,
        a: avg_channel(sum_a(s), n) as u32,
    }
}

/// Every channel sum of `n` pixels lies between 0 and `65280 * n`.
pub proof fn lemma_sum_bounds(s: Seq<Color8>)
    ensures
        0 <= sum_r(s) <= 65280 * s.len(),
        0 <= sum_g(s) <= 65280 * s.len(),
        0 <= sum_b(s) <= 65280 * s.len(),
        0 <= sum_a(s) <= 65280 * s.len(),
    decreases s.len(),
{
    if s.len() > 0 {
        lemma_sum_bounds(s.drop_last());
    }
}

/// A rounded channel mean of a bounded sum is itself a well-formed channel.
pub proof fn lemma_avg_channel_range(sum: int, n: int)
    requires
        n >= 1,
        0 <= sum <= 65280 * n,
    ensures
        0 <= avg_channel(sum, n) <= 65280,
{
    lemma_div_is_ordered(0, 2 * sum + n, 2 * n);
    lemma_div_is_ordered(2 * sum + n, 65280 * (2 * n) + n, 2 * n);
    lemma_div_multiples_vanish_fancy(65280, n, 2 * n);
    lemma_div_multiples_vanish_fancy(0, 0, 2 * n);
}

/// The mean color of every pixel of an image. The image must have at least
/// one pixel: averaging an empty image is a precondition violation.
pub fn average_color(img: &Image) -> (c: Color)
    requires
        img.wf(),
        img.width >= 1,
        img.height >= 1,
    ensures
        c == spec_average(img.pixels@),
        c.wf(),
{
    let s = Ghost(img.pixels@);
    let mut acc_r: u128 = 0;
    let mut acc_g: u128 = 0;
    let mut acc_b: u128 = 0;
    let mut acc_a: u128 = 0;
    let n = img.pixels.len();
    proof {
        assert(n >= 1) by (nonlinear_arith)
            requires
                n == img.width * img.height,
                img.width >= 1,
                img.height >= 1,
        ;
        assert(s@.take(0) =~= Seq::<Color8>::empty());
    }
    for i in 0..n
        invariant
            n == s@.len(),
            s@ == img.pixels@,
            acc_r == sum_r(s@.take(i as int)),
            acc_g == sum_g(s@.take(i as int)),
            acc_b == sum_b(s@.take(i as int)),
            acc_a == sum_a(s@.take(i as int)),
    {
        proof {
            lemma_sum_bounds(s@.take(i as int));
            let cur = s@.take(i + 1);
            assert(cur.drop_last() =~= s@.take(i as int));
            assert(cur.last() == s@[i as int]);
            assert(65280 * i < 0x10000000000000000000000) by (nonlinear_arith)
                requires
                    0 <= i < 0x10000000000000000,
            ;
        }
        let p = img.pixels[i];
        acc_r = acc_r + (p.r as u128) * 256;
        acc_g = acc_g + (p.g as u128) * 256;
        acc_b = acc_b + (p.b as u128) * 256;
        acc_a = acc_a + (p.a as u128) * 256;
    }
    proof {
        assert(s@.take(n as int) =~= s@);
        lemma_sum_bounds(s@);
        lemma_avg_channel_range(sum_r(s@), n as int);
        lemma_avg_channel_range(sum_g(s@), n as int);
        lemma_avg_channel_range(sum_b(s@), n as int);
        lemma_avg_channel_range(sum_a(s@), n as int);
        assert(65280 * n < 0x10000000000000000000000) by (nonlinear_arith)
            requires
                0 <= n < 0x10000000000000000,
        ;
    }
    let nn: u128 = n as u128;
    Color {
        r: ((2 * acc_r + nn) / (2 * nn)) as u32,
        g: ((2 * acc_g + nn) / (2 * nn)) as u32,
        b: ((2 * acc_b + nn) / (2 * nn)) as u32,
        a: ((2 * acc_a + nn) / (2 * nn)) as u32,
    }
}

/// Averaging a uniform image returns exactly the image's color: for a
/// sequence of one repeated pixel `p` the mean is the fixed-point form of
/// `p` itself.
pub proof fn lemma_average_uniform(s: Seq<Color8>, p: Color8)
    requires
        s.len() >= 1,
        forall|i: int| 0 <= i < s.len() ==> s[i] == p,
    ensures
        spec_average(s) == spec_color_of_byte(p),
{
    lemma_sum_uniform(s, p);
    let n = s.len() as int;
    lemma_avg_of_constant(channel_of_byte(p.r) as int, n);
    lemma_avg_of_constant(channel_of_byte(p.g) as int, n);
    lemma_avg_of_constant(channel_of_byte(p.b) as int, n);
    lemma_avg_of_constant(channel_of_byte(p.a) as int, n);
}

/// Channel sums of a uniform sequence are `n` times the channel.
proof fn lemma_sum_uniform(s: Seq<Color8>, p: Color8)
    requires
        forall|i: int| 0 <= i < s.len() ==> s[i] == p,
    ensures
        sum_r(s) == s.len() * channel_of_byte(p.r),
        sum_g(s) == s.len() * channel_of_byte(p.g),
        sum_b(s) == s.len() * channel_of_byte(p.b),
        sum_a(s) == s.len() * channel_of_byte(p.a),
    decreases s.len(),
{
    if s.len() == 0 {
    } else {
        lemma_sum_uniform(s.drop_last(), p);
        let n = s.len() as int;
        assert((n - 1) * channel_of_byte(p.r) + channel_of_byte(p.r) == n * channel_of_byte(p.r))
            by (nonlinear_arith);
        assert((n - 1) * channel_of_byte(p.g) + channel_of_byte(p.g) == n * channel_of_byte(p.g))
            by (nonlinear_arith);
        assert((n - 1) * channel_of_byte(p.b) + channel_of_byte(p.b) == n * channel_of_byte(p.b))
            by (nonlinear_arith);
        assert((n - 1) * channel_of_byte(p.a) + channel_of_byte(p.a) == n * channel_of_byte(p.a))
            by (nonlinear_arith);
    }
}

/// How many pixels of a sequence equal `p`.
pub open spec fn count_of(s: Seq<Color8>, p: Color8) -> int
    decreases s.len(),
{
    if s.len() == 0 {
        0
    } else {
        count_of(s.drop_last(), p) + if s.last() == p {
            1int
        } else {
            0int
        }
    }
}

/// Averaging an image that is half color `a` and half color `b`, with equal
/// pixel counts, gives the per-channel midpoint of `a` and `b`. The
/// midpoint of two 8-bit channels is exact in fixed point: `128 * (x + y)`.
pub proof fn lemma_average_two_halves(s: Seq<Color8>, a: Color8, b: Color8, k: int)
    requires
        k >= 1,
        s.len() == 2 * k,
        a != b,
        count_of(s, a) == k,
        forall|i: int| 0 <= i < s.len() ==> s[i] == a || s[i] == b,
    ensures
        spec_average(s) == (Color {
            r: (128 * (a.r + b.r)) as u32,
            g: (128 * (a.g + b.g)) as u32,
            b: (128 * (a.b + b.b)) as u32,
            a: (128 * (a.a + b.a)) as u32,
        }),
{
    lemma_sum_two_values(s, a, b);
    let n = s.len() as int;
    lemma_avg_of_midpoint(channel_of_byte(a.r) as int, channel_of_byte(b.r) as int, k);
    lemma_avg_of_midpoint(channel_of_byte(a.g) as int, channel_of_byte(b.g) as int, k);
    lemma_avg_of_midpoint(channel_of_byte(a.b) as int, channel_of_byte(b.b) as int, k);
    lemma_avg_of_midpoint(channel_of_byte(a.a) as int, channel_of_byte(b.a) as int, k);
}

/// Channel sums of a two-valued sequence, by the count of each value.
proof fn lemma_sum_two_values(s: Seq<Color8>, a: Color8, b: Color8)
    requires
        a != b,
        forall|i: int| 0 <= i < s.len() ==> s[i] == a || s[i] == b,
    ensures
        0 <= count_of(s, a) <= s.len(),
        sum_r(s) == count_of(s, a) * channel_of_byte(a.r) + (s.len() - count_of(s, a))
            * channel_of_byte(b.r),
        sum_g(s) == count_of(s, a) * channel_of_byte(a.g) + (s.len() - count_of(s, a))
            * channel_of_byte(b.g),
        sum_b(s) == count_of(s, a) * channel_of_byte(a.b) + (s.len() - count_of(s, a))
            * channel_of_byte(b.b),
        sum_a(s) == count_of(s, a) * channel_of_byte(a.a) + (s.len() - count_of(s, a))
            * channel_of_byte(b.a),
    decreases s.len(),
{
    if s.len() == 0 {
    } else {
        lemma_sum_two_values(s.drop_last(), a, b);
        let k = count_of(s.drop_last(), a);
        let m = s.len() - 1 - k;
        if s.last() == a {
            lemma_mul_step(k, channel_of_byte(a.r) as int);
            lemma_mul_step(k, channel_of_byte(a.g) as int);
            lemma_mul_step(k, channel_of_byte(a.b) as int);
            lemma_mul_step(k, channel_of_byte(a.a) as int);
        } else {
            lemma_mul_step(m, channel_of_byte(b.r) as int);
            lemma_mul_step(m, channel_of_byte(b.g) as int);
            lemma_mul_step(m, channel_of_byte(b.b) as int);
            lemma_mul_step(m, channel_of_byte(b.a) as int);
        }
    }
}

/// One more copy of a value adds the value to a product.
proof fn lemma_mul_step(k: int, v: int)
    ensures
        (k + 1) * v == k * v + v,
{
    assert((k + 1) * v == k * v + v) by (nonlinear_arith);
}

/// The rounded mean of `k` copies of `va` and `k` copies of `vb` is the
/// exact midpoint, provided the two values have an integer midpoint.
proof fn lemma_avg_of_midpoint(va: int, vb: int, k: int)
    requires
        k >= 1,
        va >= 0,
        vb >= 0,
        (va + vb) % 2 == 0,
    ensures
        avg_channel(k * va + k * vb, 2 * k) == (va + vb) / 2,
{
    let m = (va + vb) / 2;
    assert(va + vb == 2 * m);
    assert(2 * (k * va + k * vb) + 2 * k == (2 * (2 * k)) * m + 2 * k) by (nonlinear_arith)
        requires
            va + vb == 2 * m,
    ;
    lemma_div_multiples_vanish_fancy(m, 2 * k, 2 * (2 * k));
}

/// The rounded mean of `n` copies of a channel value is that value.
proof fn lemma_avg_of_constant(v: int, n: int)
    requires
        n >= 1,
        v >= 0,
    ensures
        avg_channel(n * v, n) == v,
{
    assert(2 * (n * v) + n == (2 * n) * v + n) by (nonlinear_arith);
    lemma_div_multiples_vanish_fancy(v, n, 2 * n);
}

} // verus!
