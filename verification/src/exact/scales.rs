//! What the scales, caps and penalties of the models amount to.

use crate::cuda::model_kernels::{at_least, CUBIC, ROOT_TWO_OVER_PI};
use crate::cuda::sampling_kernels::{lowered, penalized};
use crate::exact::Reading;
use crate::gemma4_cuda::pick::softcapped;
use crate::gemma4_cuda::tape::{factor_is, Factor, HALF_ROOT};
use crate::nn::{initial_weights, seed, weight_drawn, weight_scale};
use crate::random::drawn_after;
use crate::scalar::{
    counted, difference, less, one, product, quotient, rooted, squashed, zero, Scalar,
};
use vstd::prelude::*;

verus! {

/// A capped score stays between the cap and its negative: what is above the negative cap,
/// over what is below the cap, is the exponential of twice the score over the cap.
pub proof fn capped_scores_stay_within<T: Scalar>(
    reading: Reading<T>,
    score: T,
    cap: T,
    r: T,
    share: real,
)
    requires
        reading.exact(),
        softcapped(score, cap, r),
        reading.of(cap) > 0 as real,
        share * reading.of(cap) == reading.of(score),
    ensures
        -reading.of(cap) < reading.of(r) < reading.of(cap),
        reading.of(cap) + reading.of(r) == reading.e(share + share) * (reading.of(cap)
            - reading.of(r)),
{
    let (part, bent) = choose|part: T, bent: T|
        {
            &&& #[trigger] quotient(score, cap, part)
            &&& #[trigger] squashed(part, bent)
            &&& product(bent, cap, r)
        };
    let (p, c, t) = (reading.of(part), reading.of(cap), reading.of(bent));
    assert(p == share) by (nonlinear_arith)
        requires
            p * c == share * c,
            c > 0 as real,
    ;
    reading.lemma_e(share + share, 0 as real);
    let up = reading.e(share + share);
    assert(t == reading.tangent(share));
    assert(t * (up + 1 as real) == up - 1 as real) by (nonlinear_arith)
        requires
            t == (up - 1 as real) / (up + 1 as real),
            up > 0 as real,
    ;
    assert(-(1 as real) < t < 1 as real) by (nonlinear_arith)
        requires
            t * (up + 1 as real) == up - 1 as real,
            up > 0 as real,
    ;
    let n = reading.of(r);
    assert(-c < n < c) by (nonlinear_arith)
        requires
            n == t * c,
            -(1 as real) < t < 1 as real,
            c > 0 as real,
    ;
    let (above, below) = (1 as real + t, 1 as real - t);
    assert(above == up * below) by (nonlinear_arith)
        requires
            t * (up + 1 as real) == up - 1 as real,
            above == 1 as real + t,
            below == 1 as real - t,
    ;
    assert(c + n == above * c) by (nonlinear_arith)
        requires
            n == t * c,
            above == 1 as real + t,
    ;
    assert(c - n == below * c) by (nonlinear_arith)
        requires
            n == t * c,
            below == 1 as real - t,
    ;
    assert((up * below) * c == up * (below * c)) by (nonlinear_arith);
}

/// Higher scores stay higher under a cap.
pub proof fn capped_scores_keep_their_order<T: Scalar>(
    reading: Reading<T>,
    a: T,
    b: T,
    cap: T,
    capped_a: T,
    capped_b: T,
)
    requires
        reading.exact(),
        softcapped(a, cap, capped_a),
        softcapped(b, cap, capped_b),
        reading.of(cap) > 0 as real,
        reading.of(a) < reading.of(b),
    ensures
        reading.of(capped_a) < reading.of(capped_b),
{
    let c = reading.of(cap);
    let (p, q) = (reading.of(a) / c, reading.of(b) / c);
    let (x, y) = (reading.of(a), reading.of(b));
    assert(p * c == x && q * c == y) by (nonlinear_arith)
        requires
            p == x / c,
            q == y / c,
            c > 0 as real,
    ;
    assert(p < q) by (nonlinear_arith)
        requires
            p * c == x,
            q * c == y,
            x < y,
            c > 0 as real,
    ;
    capped_scores_stay_within(reading, a, cap, capped_a, p);
    capped_scores_stay_within(reading, b, cap, capped_b, q);
    reading.lemma_e(p + p, q + q);
    let (m, n) = (reading.of(capped_a), reading.of(capped_b));
    let (low, high) = (reading.e(p + p), reading.e(q + q));
    if m >= n {
        assert(low * (c - m) <= low * (c - n)) by (nonlinear_arith)
            requires
                m >= n,
                low > 0 as real,
        ;
        assert(low * (c - n) < high * (c - n)) by (nonlinear_arith)
            requires
                low < high,
                n < c,
        ;
    }
}

/// A token that was seen has its score lowered where the penalty is above one, and keeps
/// its sign: the lowered score times the penalty is a score above zero, and a score below
/// zero times the penalty is the lowered score.  Every other score stays.
pub proof fn penalties_lower_seen_scores<T: Scalar>(
    reading: Reading<T>,
    score: T,
    seen: u8,
    penalty: T,
    r: T,
)
    requires
        reading.exact(),
        penalized(score, seen, penalty, r),
    ensures
        seen == 0 || reading.of(penalty) <= 1 as real ==> reading.of(r) == reading.of(score),
        seen != 0 && reading.of(penalty) > 1 as real ==> {
            &&& reading.of(score) > 0 as real ==> (0 as real) < reading.of(r) < reading.of(score)
                && reading.of(r) * reading.of(penalty) == reading.of(score)
            &&& reading.of(score) < 0 as real ==> reading.of(r) < reading.of(score)
                && reading.of(r) == reading.of(score) * reading.of(penalty)
            &&& reading.of(score) == 0 as real ==> reading.of(r) == 0 as real
        },
{
    if seen != 0 {
        let (unit, active) = choose|unit: T, active: bool|
            {
                &&& one(unit)
                &&& #[trigger] less(unit, penalty, active)
                &&& if active {
                    lowered(score, penalty, r)
                } else {
                    r == score
                }
            };
        if active {
            let (nothing, positive) = choose|nothing: T, positive: bool|
                {
                    &&& zero(nothing)
                    &&& #[trigger] at_least(score, nothing, positive)
                    &&& if positive {
                        quotient(score, penalty, r)
                    } else {
                        product(score, penalty, r)
                    }
                };
            let (s, f, n) = (reading.of(score), reading.of(penalty), reading.of(r));
            assert(positive == (s >= 0 as real));
            if positive {
                assert(s > 0 as real ==> (0 as real) < n < s) by (nonlinear_arith)
                    requires
                        n * f == s,
                        f > 1 as real,
                ;
                assert(s == 0 as real ==> n == 0 as real) by (nonlinear_arith)
                    requires
                        n * f == s,
                        f > 1 as real,
                ;
            } else {
                assert(n < s) by (nonlinear_arith)
                    requires
                        n == s * f,
                        f > 1 as real,
                        s < 0 as real,
                ;
            }
        }
    }
}

/// A root times itself is the count; an inverse root times itself and the count is one.
pub proof fn factors_are_roots<T: Scalar>(reading: Reading<T>, factor: Factor, r: T)
    requires
        reading.exact(),
        factor_is(factor, r),
    ensures
        match factor {
            Factor::Root(n) => reading.of(r) >= 0 as real && reading.of(r) * reading.of(r)
                == n as real,
            Factor::InverseRoot(n) => n > 0 ==> reading.of(r) > 0 as real && reading.of(r)
                * reading.of(r) * n as real == 1 as real,
            Factor::HalfRoot => reading.of(r) == (reading.pattern)(HALF_ROOT),
        },
{
    match factor {
        Factor::InverseRoot(n) => {
            let (count, root, unit) = choose|count: T, root: T, unit: T|
                {
                    &&& counted(n, count)
                    &&& #[trigger] rooted(count, root)
                    &&& one(unit)
                    &&& #[trigger] quotient(unit, root, r)
                };
            if n > 0 {
                let (s, x, m) = (reading.of(root), reading.of(r), n as real);
                assert(s > 0 as real) by (nonlinear_arith)
                    requires
                        s >= 0 as real,
                        s * s == m,
                        m > 0 as real,
                ;
                assert(x * s == 1 as real);
                assert(x > 0 as real) by (nonlinear_arith)
                    requires
                        x * s == 1 as real,
                        s > 0 as real,
                ;
                assert(x * x * (s * s) == (x * s) * (x * s)) by (nonlinear_arith);
            }
        },
        _ => {},
    }
}

/// The constants are the nearest of their precision.  With the twenty-four bits of a
/// significand `m`, one over the root of two is nearest to `m` over two to the power of
/// twenty-four, as is the root of two over pi, and the cubic coefficient, 0.044715, is
/// nearest to `m` over two to the power of twenty-eight.
pub proof fn constants_are_nearest(m: int)
    ensures
        HALF_ROOT as int == 126 * 0x80_0000 + m - 0x80_0000 && 0x80_0000 <= m < 0x100_0000 ==> (2 * m
            - 1) * (2 * m - 1) < 0x2_0000_0000_0000 < (2 * m + 1) * (2 * m + 1),
        ROOT_TWO_OVER_PI as int == 126 * 0x80_0000 + m - 0x80_0000 && 0x80_0000 <= m < 0x100_0000
            ==> (2 * m - 1) * (2 * m - 1) * 314159265358980 < 0x8_0000_0000_0000 * 100000000000000
            < (2 * m + 1) * (2 * m + 1) * 314159265358979,
        CUBIC as int == 122 * 0x80_0000 + m - 0x80_0000 && 0x80_0000 <= m < 0x100_0000 ==> (2 * m
            - 1) * 1000000 < 44715 * 0x2000_0000 < (2 * m + 1) * 1000000,
        126 * 0x80_0000 <= HALF_ROOT < 127 * 0x80_0000,
        126 * 0x80_0000 <= ROOT_TWO_OVER_PI < 127 * 0x80_0000,
        122 * 0x80_0000 <= CUBIC < 123 * 0x80_0000,
{
    assert(23726565int * 23726565 < 0x2_0000_0000_0000 < 23726567int * 23726567);
    if m == 11863283 {
        assert((2 * m - 1) * (2 * m - 1) == 23726565int * 23726565);
        assert((2 * m + 1) * (2 * m + 1) == 23726567int * 23726567);
    }
    if m == 13386282 {
        assert((2 * m - 1) * (2 * m - 1) == 26772563int * 26772563);
        assert((2 * m + 1) * (2 * m + 1) == 26772565int * 26772565);
    }
}

/// The weights of a shape are drawn evenly from an interval around zero, of which the half
/// width squared times the fan in is two: each is the half width times the distance of the
/// top bits of its draw from their middle, in parts of the middle.
pub proof fn initial_weights_are_spread<T: Scalar>(
    reading: Reading<T>,
    shape: Seq<usize>,
    fan_in: usize,
    data: Seq<T>,
    i: int,
) -> (width: real)
    requires
        reading.exact(),
        initial_weights(shape, fan_in, data),
        fan_in > 0,
        0 <= i < data.len(),
    ensures
        width > 0 as real,
        width * width * fan_in as real == 2 as real,
        -width <= reading.of(data[i]) < width,
        reading.of(data[i]) * 8388608 as real == width * ((drawn_after(
            seed(shape),
            (i + 1) as nat,
        ) >> 40) as int - 8388608) as real,
{
    let scale = choose|scale: T|
        {
            &&& #[trigger] weight_scale(fan_in, scale)
            &&& forall|i: int|
                0 <= i < data.len() ==> weight_drawn(
                    drawn_after(seed(shape), (i + 1) as nat),
                    scale,
                    #[trigger] data[i],
                )
        };
    let (two, fan, variance) = choose|two: T, fan: T, variance: T|
        {
            &&& counted(2, two)
            &&& counted(fan_in, fan)
            &&& #[trigger] quotient(two, fan, variance)
            &&& #[trigger] rooted(variance, scale)
        };
    let (v, f, width) = (reading.of(variance), fan_in as real, reading.of(scale));
    assert(v * f == 2 as real);
    assert(v > 0 as real) by (nonlinear_arith)
        requires
            v * f == 2 as real,
            f > 0 as real,
    ;
    assert(width > 0 as real) by (nonlinear_arith)
        requires
            width >= 0 as real,
            width * width == v,
            v > 0 as real,
    ;
    let state = drawn_after(seed(shape), (i + 1) as nat);
    assert(weight_drawn(state, scale, data[i]));
    let (bits, range, unit, double, wide, single, centred) = choose|
        bits: T,
        range: T,
        unit: T,
        two: T,
        wide: T,
        single: T,
        centred: T,
    |
        {
            &&& counted((state >> 40) as usize, bits)
            &&& counted(16777216, range)
            &&& #[trigger] quotient(bits, range, unit)
            &&& counted(2, two)
            &&& #[trigger] product(unit, two, wide)
            &&& one(single)
            &&& #[trigger] difference(wide, single, centred)
            &&& #[trigger] product(centred, scale, data[i])
        };
    assert(state >> 40 < 16777216u64) by (bit_vector);
    let (b, u, c, w) = (
        (state >> 40) as real,
        reading.of(unit),
        reading.of(centred),
        reading.of(data[i]),
    );
    assert(u * 16777216 as real == b);
    let (t, o) = (reading.of(double), reading.of(wide));
    assert(o == u * 2 as real) by (nonlinear_arith)
        requires
            o == u * t,
            t == 2 as real,
    ;
    assert(c == o - 1 as real);
    assert(c * 8388608 as real == b - 8388608 as real);
    let d = ((state >> 40) as int - 8388608) as real;
    assert(b - 8388608 as real == d);
    assert(w * 8388608 as real == width * d) by (nonlinear_arith)
        requires
            w == c * width,
            c * 8388608 as real == d,
    ;
    assert(-(1 as real) <= c < 1 as real);
    assert(-width <= w < width) by (nonlinear_arith)
        requires
            w == c * width,
            -(1 as real) <= c < 1 as real,
            width > 0 as real,
    ;
    width
}

} // verus!
