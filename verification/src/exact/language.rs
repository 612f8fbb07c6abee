//! What the kernels of a language model compute.

use crate::cuda::model_kernels::{
    bounded_tangent, cubed, falling_tangent, gelu, rising_tangent, rms_scaled, squares, CUBIC,
    ROOT_TWO_OVER_PI,
};
use crate::exact::sums::{lemma_cancel, lemma_sigma_equal, lemma_sigma_positive, sigma};
use crate::exact::Reading;
use crate::forward::dot_product;
use crate::scalar::{
    counted, decoded, difference, exponentiated, negated, one, product, quotient, ratio, rooted,
    sum, zero, Scalar,
};
use vstd::prelude::*;

verus! {

/// The number of sixteen bits.
pub open spec fn short_number<T>(reading: Reading<T>, upper: u16) -> real {
    (reading.pattern)((upper as nat * 0x1_0000) as u32)
}

/// The Gaussian error linear unit of a number, by its tangent form:
/// `x / 2 * (1 + tanh(c * (x + k * x * x * x)))`.
pub open spec fn gelu_number<T: Scalar>(reading: Reading<T>, x: real) -> real {
    let c = (reading.pattern)(ROOT_TWO_OVER_PI);
    let k = (reading.pattern)(CUBIC);
    x / 2 as real * (1 as real + reading.tangent(c * (x + k * (x * x * x))))
}

/// Both forms of the tangent are the tangent.
proof fn lemma_tangent<T: Scalar>(reading: Reading<T>, inner: T, r: T)
    requires
        reading.exact(),
        bounded_tangent(inner, r),
    ensures
        reading.of(r) == reading.tangent(reading.of(inner)),
{
    let y = reading.of(inner);
    let up = reading.e(y + y);
    reading.lemma_e(y + y, 0 as real);
    let x = reading.of(r);
    if rising_tangent(inner, r) {
        let (two, unit, twice, e, above, below) = choose|
            two: T,
            unit: T,
            twice: T,
            e: T,
            above: T,
            below: T,
        |
            {
                &&& counted(2, two)
                &&& one(unit)
                &&& #[trigger] product(two, inner, twice)
                &&& #[trigger] exponentiated(twice, e)
                &&& #[trigger] difference(e, unit, above)
                &&& #[trigger] sum(e, unit, below)
                &&& quotient(above, below, r)
            };
        assert(2 as real * y == y + y) by (nonlinear_arith);
        assert(reading.of(e) == up);
        lemma_quotient(x, up + 1 as real, up - 1 as real);
    } else {
        assert(falling_tangent(inner, r));
        let (two, unit, minus, twice, e, above, below) = choose|
            two: T,
            unit: T,
            minus: T,
            twice: T,
            e: T,
            above: T,
            below: T,
        |
            {
                &&& #[trigger] negated(two, minus)
                &&& counted(2, two)
                &&& one(unit)
                &&& #[trigger] product(minus, inner, twice)
                &&& #[trigger] exponentiated(twice, e)
                &&& #[trigger] difference(unit, e, above)
                &&& #[trigger] sum(unit, e, below)
                &&& quotient(above, below, r)
            };
        let down = reading.of(e);
        let z = -(y + y);
        assert((-(2 as real)) * y == z) by (nonlinear_arith)
            requires
                z == -(y + y),
        ;
        reading.lemma_e(z, y + y);
        assert(z + (y + y) == 0 as real);
        assert(down * up == 1 as real && down > 0 as real);
        assert(x * (1 as real + down) == 1 as real - down);
        let p = x * (1 as real + down);
        assert(p * up == x * up + x * (down * up)) by (nonlinear_arith)
            requires
                p == x * (1 as real + down),
        ;
        assert((1 as real - down) * up == up - down * up) by (nonlinear_arith);
        assert(x * (up + 1 as real) == x * up + x * 1 as real) by (nonlinear_arith);
        lemma_quotient(x, up + 1 as real, up - 1 as real);
    }
}

/// A product is a quotient the other way.
pub proof fn lemma_quotient(x: real, below: real, above: real)
    requires
        below != 0 as real,
        x * below == above,
    ensures
        x == above / below,
{
    let q = above / below;
    assert(q * below == above) by (nonlinear_arith)
        requires
            q == above / below,
            below != 0 as real,
    ;
    assert(below * x == x * below && below * q == q * below) by (nonlinear_arith);
    lemma_cancel(below, x, q);
}

/// The unit of an element is that of its number.
pub proof fn units_are_gaussian<T: Scalar>(reading: Reading<T>, x: T, r: T)
    requires
        reading.exact(),
        gelu(x, r),
    ensures
        reading.of(r) == gelu_number(reading, reading.of(x)),
{
    let (moved, c, inner, bend, unit, gate, half, part) = choose|
        moved: T,
        c: T,
        inner: T,
        bend: T,
        unit: T,
        gate: T,
        half: T,
        part: T,
    |
        {
            &&& cubed(x, moved)
            &&& decoded(ROOT_TWO_OVER_PI, c)
            &&& #[trigger] product(c, moved, inner)
            &&& #[trigger] bounded_tangent(inner, bend)
            &&& one(unit)
            &&& #[trigger] sum(unit, bend, gate)
            &&& ratio(1, 2, half)
            &&& #[trigger] product(half, x, part)
            &&& product(part, gate, r)
        };
    lemma_tangent(reading, inner, bend);
    let y = reading.of(x);
    let (k, once, twice, thrice) = choose|k: T, once: T, twice: T, thrice: T|
        {
            &&& decoded(CUBIC, k)
            &&& #[trigger] product(k, x, once)
            &&& #[trigger] product(once, x, twice)
            &&& #[trigger] product(twice, x, thrice)
            &&& sum(x, thrice, moved)
        };
    let z = reading.of(k);
    assert(z * y * y * y == z * (y * y * y)) by (nonlinear_arith);
    reading.lemma_ratio(1, 2, half);
    let h = reading.of(half);
    assert(h * y == y / 2 as real) by (nonlinear_arith)
        requires
            h * 2 as real == 1 as real,
    ;
}

/// The unit and its reflection differ by the number; it lies between zero and the number for
/// numbers that are not negative.
pub proof fn units_reflect<T: Scalar>(reading: Reading<T>, x: real)
    requires
        reading.exponentiates(),
    ensures
        gelu_number(reading, x) - gelu_number(reading, -x) == x,
{
    let c = (reading.pattern)(ROOT_TWO_OVER_PI);
    let k = (reading.pattern)(CUBIC);
    let y = c * (x + k * (x * x * x));
    let z = c * (-x + k * ((-x) * (-x) * (-x)));
    assert(z == -y) by (nonlinear_arith)
        requires
            y == c * (x + k * (x * x * x)),
            z == c * (-x + k * ((-x) * (-x) * (-x))),
    ;
    lemma_odd(reading, y);
    let t = reading.tangent(y);
    assert(x / 2 as real * (1 as real + t) - (-x) / 2 as real * (1 as real + -t) == x)
        by (nonlinear_arith);
}

/// The tangent is odd.
pub proof fn lemma_odd<T: Scalar>(reading: Reading<T>, y: real)
    requires
        reading.exponentiates(),
    ensures
        reading.tangent(-y) == -reading.tangent(y),
{
    let up = reading.e(y + y);
    let down = reading.e(-y + -y);
    reading.lemma_e(y + y, -y + -y);
    assert(y + y + (-y + -y) == 0 as real);
    let t = reading.tangent(y);
    assert(t * (up + 1 as real) == up - 1 as real) by (nonlinear_arith)
        requires
            t == (up - 1 as real) / (up + 1 as real),
            up > 0 as real,
    ;
    let s = -t;
    assert(s * (up + 1 as real) == -(t * (up + 1 as real))) by (nonlinear_arith)
        requires
            s == -t,
    ;
    assert((s * (up + 1 as real)) * down == s * (up * down) + s * down) by (nonlinear_arith);
    assert((1 as real - up) * down == down - up * down) by (nonlinear_arith);
    assert(s * (down + 1 as real) == s * down + s * 1 as real) by (nonlinear_arith);
    lemma_quotient(s, down + 1 as real, down - 1 as real);
}

/// `scale` is one over the root of the mean square of a row and epsilon:
/// `scale * scale * (sum of squares + epsilon * n) == n`.
pub open spec fn inverse_rms<T: Scalar>(
    reading: Reading<T>,
    row: Seq<T>,
    epsilon: real,
    scale: real,
) -> bool {
    &&& scale > 0 as real
    &&& scale * scale * (sigma(row.len(), |k: int| reading.of(row[k]) * reading.of(row[k]))
        + epsilon * row.len() as real) == row.len() as real
}

/// The scale of a row is one over the root of its mean square and epsilon.
pub proof fn scales_invert_the_mean_square<T: Scalar>(
    reading: Reading<T>,
    row: Seq<T>,
    hidden: usize,
    epsilon: T,
    r: T,
)
    requires
        reading.exact(),
        row.len() == hidden,
        hidden > 0,
        reading.of(epsilon) > 0 as real,
        rms_scaled(row, hidden, epsilon, r),
    ensures
        inverse_rms(reading, row, reading.of(epsilon), reading.of(r)),
{
    let (total, n, mean, moved, root, unit) = choose|
        total: T,
        n: T,
        mean: T,
        moved: T,
        root: T,
        unit: T,
    |
        {
            &&& dot_product(squares(row), total)
            &&& counted(hidden, n)
            &&& #[trigger] quotient(total, n, mean)
            &&& #[trigger] sum(mean, epsilon, moved)
            &&& #[trigger] rooted(moved, root)
            &&& one(unit)
            &&& #[trigger] quotient(unit, root, r)
        };
    let pairs = squares(row);
    reading.lemma_dot_product(pairs, total);
    let f = |k: int| reading.of(row[k]) * reading.of(row[k]);
    lemma_sigma_equal(
        row.len(),
        |i: int| reading.of(pairs[i].0) * reading.of(pairs[i].1),
        f,
    );
    assert forall|k: int| 0 <= k < row.len() implies #[trigger] f(k) >= 0 as real by {
        let x = reading.of(row[k]);
        assert(x * x >= 0 as real) by (nonlinear_arith);
    }
    lemma_sigma_positive(row.len(), f, 0);
    let (t, c) = (reading.of(total), hidden as real);
    let (m, e) = (reading.of(mean), reading.of(epsilon));
    assert(m >= 0 as real) by (nonlinear_arith)
        requires
            m * c == t,
            t >= 0 as real,
            c > 0 as real,
    ;
    let (q, s) = (reading.of(root), reading.of(r));
    assert(q != 0 as real) by (nonlinear_arith)
        requires
            q * q == m + e,
            m >= 0 as real,
            e > 0 as real,
    ;
    assert(s * q == 1 as real);
    assert(s > 0 as real) by (nonlinear_arith)
        requires
            s * q == 1 as real,
            q >= 0 as real,
    ;
    assert(s * s * (q * q) == (s * q) * (s * q)) by (nonlinear_arith);
    assert(s * s * (m + e) == 1 as real * 1 as real);
    assert(s * s * (m * c + e * c) == (s * s * (m + e)) * c) by (nonlinear_arith);
    assert(1 as real * 1 as real * c == c) by (nonlinear_arith);
}

} // verus!
