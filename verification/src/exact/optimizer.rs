//! What a step of the optimizer does to a parameter.

use crate::exact::{power, Reading};
use crate::optim::{
    correction, descended, direction, element_updated, elements_updated, first_moved, second_moved,
    Moments, Rates,
};
use crate::scalar::{one, quotient, raised, rooted, sum, Scalar};
use vstd::prelude::*;

verus! {

/// The magnitude of a number.
pub open spec fn magnitude(x: real) -> real {
    if x < 0 as real {
        -x
    } else {
        x
    }
}

/// The numbers of an update: the moments, their corrected values, and the direction.
pub struct Update {
    pub first: real,
    pub second: real,
    /// The root of the corrected second moment.
    pub deviation: real,
    pub direction: real,
    pub value: real,
}

impl<T: Scalar> Reading<T> {
    /// A correction is one less the rate raised to the number of steps.
    pub proof fn lemma_correction(self, beta: T, step: i32, r: T)
        requires
            self.exact(),
            correction(beta, step, r),
            step >= 0,
        ensures
            self.of(r) == 1 as real - power(self.of(beta), step as nat),
    {
    }
}

/// A step moves a value against the direction of its corrected moments, by the learning
/// rate, and takes off the part of the value that the weight decay names:
/// `(1 - learning_rate * weight_decay) * value - learning_rate * direction`.  The first
/// moment is a running mean of gradients, the second of their squares; each is divided by
/// its correction, and the direction is the first over the root of the second and epsilon.
pub proof fn steps_move_and_decay<T: Scalar>(
    reading: Reading<T>,
    rates: Rates<T>,
    first_correction: T,
    second_correction: T,
    gradient: T,
    value: T,
    first: T,
    second: T,
    new_value: T,
    new_first: T,
    new_second: T,
) -> (update: Update)
    requires
        reading.exact(),
        element_updated(
            rates,
            first_correction,
            second_correction,
            gradient,
            value,
            first,
            second,
            new_value,
            new_first,
            new_second,
        ),
        reading.of(first_correction) > 0 as real,
        reading.of(second_correction) > 0 as real,
        reading.of(second) >= 0 as real,
        0 as real <= reading.of(rates.beta2) <= 1 as real,
        reading.of(rates.epsilon) > 0 as real,
    ensures
        reading.of(new_first) == update.first,
        reading.of(new_second) == update.second,
        reading.of(new_value) == update.value,
        update.first == reading.of(rates.beta1) * reading.of(first) + (1 as real - reading.of(
            rates.beta1,
        )) * reading.of(gradient),
        update.second == reading.of(rates.beta2) * reading.of(second) + (1 as real - reading.of(
            rates.beta2,
        )) * (reading.of(gradient) * reading.of(gradient)),
        update.second >= 0 as real,
        update.deviation >= 0 as real,
        update.deviation * update.deviation * reading.of(second_correction) == update.second,
        update.direction * (update.deviation + reading.of(rates.epsilon)) * reading.of(
            first_correction,
        ) == update.first,
        update.value == (1 as real - reading.of(rates.learning_rate) * reading.of(
            rates.weight_decay,
        )) * reading.of(value) - reading.of(rates.learning_rate) * update.direction,
{
    let normalized = choose|normalized: T|
        {
            &&& #[trigger] direction(
                new_first,
                new_second,
                first_correction,
                second_correction,
                rates.epsilon,
                normalized,
            )
            &&& descended(
                value,
                normalized,
                rates.learning_rate,
                rates.weight_decay,
                new_value,
            )
        };
    let (a, b, c, d) = choose|a: T, b: T, c: T, d: T|
        {
            &&& #[trigger] quotient(new_first, first_correction, a)
            &&& #[trigger] quotient(new_second, second_correction, b)
            &&& #[trigger] rooted(b, c)
            &&& #[trigger] sum(c, rates.epsilon, d)
            &&& #[trigger] quotient(a, d, normalized)
        };
    assert(first_moved(rates.beta1, first, gradient, new_first));
    assert(second_moved(rates.beta2, second, gradient, new_second));
    let g = reading.of(gradient);
    let (b1, b2, s) = (reading.of(rates.beta1), reading.of(rates.beta2), reading.of(second));
    let second_number = reading.of(new_second);
    assert(second_number == b2 * s + (1 as real - b2) * (g * g)) by {
        assert((1 as real - b2) * g * g == (1 as real - b2) * (g * g)) by (nonlinear_arith);
    }
    assert(second_number >= 0 as real) by (nonlinear_arith)
        requires
            second_number == b2 * s + (1 as real - b2) * (g * g),
            0 as real <= b2 <= 1 as real,
            s >= 0 as real,
    {
        assert(b2 * s >= 0 as real) by (nonlinear_arith)
            requires
                b2 >= 0 as real,
                s >= 0 as real,
        ;
        assert(g * g >= 0 as real) by (nonlinear_arith);
        let (k, q) = (1 as real - b2, g * g);
        assert(k * q >= 0 as real) by (nonlinear_arith)
            requires
                k >= 0 as real,
                q >= 0 as real,
        ;
    }
    let (x, c2) = (reading.of(b), reading.of(second_correction));
    assert(x >= 0 as real) by (nonlinear_arith)
        requires
            x * c2 == second_number,
            second_number >= 0 as real,
            c2 > 0 as real,
    ;
    let deviation = reading.of(c);
    let (m, n, c1) = (reading.of(a), reading.of(normalized), reading.of(first_correction));
    let e = reading.of(rates.epsilon);
    assert(reading.of(d) != 0 as real);
    assert(n * (deviation + e) * c1 == reading.of(new_first)) by {
        assert(n * (deviation + e) == m);
    }
    let (lr, wd, v) = (
        reading.of(rates.learning_rate),
        reading.of(rates.weight_decay),
        reading.of(value),
    );
    assert(v - lr * (n + wd * v) == (1 as real - lr * wd) * v - lr * n) by (nonlinear_arith);
    Update {
        first: reading.of(new_first),
        second: second_number,
        deviation,
        direction: n,
        value: reading.of(new_value),
    }
}

/// Where the gradient and the first moment are zero, a step only decays: the value keeps
/// its sign and comes strictly closer to zero.
pub proof fn weight_decay_shrinks<T: Scalar>(
    reading: Reading<T>,
    rates: Rates<T>,
    first_correction: T,
    second_correction: T,
    gradient: T,
    value: T,
    first: T,
    second: T,
    new_value: T,
    new_first: T,
    new_second: T,
)
    requires
        reading.exact(),
        element_updated(
            rates,
            first_correction,
            second_correction,
            gradient,
            value,
            first,
            second,
            new_value,
            new_first,
            new_second,
        ),
        reading.of(first_correction) > 0 as real,
        reading.of(second_correction) > 0 as real,
        reading.of(second) >= 0 as real,
        0 as real <= reading.of(rates.beta2) <= 1 as real,
        reading.of(rates.epsilon) > 0 as real,
        reading.of(gradient) == 0 as real,
        reading.of(first) == 0 as real,
        (0 as real) < reading.of(rates.learning_rate) * reading.of(rates.weight_decay) < 1 as real,
        reading.of(value) != 0 as real,
    ensures
        reading.of(new_value) > 0 as real <==> reading.of(value) > 0 as real,
        magnitude(reading.of(new_value)) < magnitude(reading.of(value)),
        reading.of(new_value) != 0 as real,
{
    let update = steps_move_and_decay(
        reading,
        rates,
        first_correction,
        second_correction,
        gradient,
        value,
        first,
        second,
        new_value,
        new_first,
        new_second,
    );
    let (b1, c1) = (reading.of(rates.beta1), reading.of(first_correction));
    let w = update.deviation + reading.of(rates.epsilon);
    let d = update.direction;
    assert(update.first == 0 as real) by (nonlinear_arith)
        requires
            update.first == b1 * 0 as real + (1 as real - b1) * 0 as real,
    ;
    assert(d == 0 as real) by (nonlinear_arith)
        requires
            d * w * c1 == 0 as real,
            w > 0 as real,
            c1 > 0 as real,
    ;
    let k = reading.of(rates.learning_rate) * reading.of(rates.weight_decay);
    let lr = reading.of(rates.learning_rate);
    let v = reading.of(value);
    let r = reading.of(new_value);
    assert(r == (1 as real - k) * v) by (nonlinear_arith)
        requires
            r == (1 as real - k) * v - lr * d,
            d == 0 as real,
    ;
    assert((v > 0 as real ==> (0 as real) < r < v) && (v < 0 as real ==> v < r < 0 as real))
        by (nonlinear_arith)
        requires
            r == (1 as real - k) * v,
            (0 as real) < k < 1 as real,
    ;
}

/// Under a gradient that stays the same, from the first step on, the corrections undo what
/// the moments lack: the direction is the gradient over its magnitude and epsilon, in every
/// step.  Without decay the value moves against the gradient.
pub proof fn corrections_recover_a_constant_gradient<T: Scalar>(
    reading: Reading<T>,
    rates: Rates<T>,
    step: i32,
    first_correction: T,
    second_correction: T,
    gradient: T,
    value: T,
    first: T,
    second: T,
    new_value: T,
    new_first: T,
    new_second: T,
) -> (update: Update)
    requires
        reading.exact(),
        element_updated(
            rates,
            first_correction,
            second_correction,
            gradient,
            value,
            first,
            second,
            new_value,
            new_first,
            new_second,
        ),
        step > 0,
        correction(rates.beta1, step, first_correction),
        correction(rates.beta2, step, second_correction),
        0 as real <= reading.of(rates.beta1) < 1 as real,
        0 as real <= reading.of(rates.beta2) < 1 as real,
        reading.of(rates.epsilon) > 0 as real,
        reading.of(first) == (1 as real - power(reading.of(rates.beta1), (step - 1) as nat))
            * reading.of(gradient),
        reading.of(second) == (1 as real - power(reading.of(rates.beta2), (step - 1) as nat)) * (
        reading.of(gradient) * reading.of(gradient)),
    ensures
        reading.of(new_first) == (1 as real - power(reading.of(rates.beta1), step as nat))
            * reading.of(gradient),
        reading.of(new_second) == (1 as real - power(reading.of(rates.beta2), step as nat)) * (
        reading.of(gradient) * reading.of(gradient)),
        update.direction * (magnitude(reading.of(gradient)) + reading.of(rates.epsilon))
            == reading.of(gradient),
        reading.of(new_value) == (1 as real - reading.of(rates.learning_rate) * reading.of(
            rates.weight_decay,
        )) * reading.of(value) - reading.of(rates.learning_rate) * update.direction,
        reading.of(rates.weight_decay) == 0 as real && reading.of(rates.learning_rate) > 0 as real
            && reading.of(gradient) > 0 as real ==> reading.of(new_value) < reading.of(value),
        reading.of(rates.weight_decay) == 0 as real && reading.of(rates.learning_rate) > 0 as real
            && reading.of(gradient) < 0 as real ==> reading.of(new_value) > reading.of(value),
{
    let g = reading.of(gradient);
    let (b1, b2) = (reading.of(rates.beta1), reading.of(rates.beta2));
    let before = (step - 1) as nat;
    reading.lemma_correction(rates.beta1, step, first_correction);
    reading.lemma_correction(rates.beta2, step, second_correction);
    lemma_power(b1, before);
    lemma_power(b2, before);
    let (p1, p2) = (power(b1, before), power(b2, before));
    let (q1, q2) = (power(b1, step as nat), power(b2, step as nat));
    assert(q1 == p1 * b1 && q2 == p2 * b2);
    assert(q1 < 1 as real && q2 < 1 as real) by (nonlinear_arith)
        requires
            q1 == p1 * b1,
            q2 == p2 * b2,
            0 as real <= p1 <= 1 as real,
            0 as real <= p2 <= 1 as real,
            0 as real <= b1 < 1 as real,
            0 as real <= b2 < 1 as real,
    ;
    let square = g * g;
    assert(square >= 0 as real) by (nonlinear_arith)
        requires
            square == g * g,
    ;
    let s = reading.of(second);
    assert(s >= 0 as real) by (nonlinear_arith)
        requires
            s == (1 as real - p2) * square,
            p2 <= 1 as real,
            square >= 0 as real,
    ;
    let update = steps_move_and_decay(
        reading,
        rates,
        first_correction,
        second_correction,
        gradient,
        value,
        first,
        second,
        new_value,
        new_first,
        new_second,
    );
    let (u, w) = (update.first, update.second);
    assert(u == (1 as real - q1) * g) by (nonlinear_arith)
        requires
            u == b1 * ((1 as real - p1) * g) + (1 as real - b1) * g,
            q1 == p1 * b1,
    ;
    assert(w == (1 as real - q2) * square) by (nonlinear_arith)
        requires
            w == b2 * ((1 as real - p2) * square) + (1 as real - b2) * square,
            q2 == p2 * b2,
    ;
    let d = update.deviation;
    assert(d * d == square) by (nonlinear_arith)
        requires
            d * d * (1 as real - q2) == (1 as real - q2) * square,
            q2 < 1 as real,
    ;
    let m = magnitude(g);
    assert(d == m) by (nonlinear_arith)
        requires
            d * d == g * g,
            d >= 0 as real,
            m == g || m == -g,
            m >= 0 as real,
    ;
    let (n, e) = (update.direction, reading.of(rates.epsilon));
    let both = n * (d + e);
    assert(both == g) by (nonlinear_arith)
        requires
            both * (1 as real - q1) == (1 as real - q1) * g,
            q1 < 1 as real,
    ;
    assert((g > 0 as real ==> n > 0 as real) && (g < 0 as real ==> n < 0 as real))
        by (nonlinear_arith)
        requires
            n * (d + e) == g,
            d >= 0 as real,
            e > 0 as real,
    ;
    let (lr, v) = (reading.of(rates.learning_rate), reading.of(value));
    let wd = reading.of(rates.weight_decay);
    let r = reading.of(new_value);
    if wd == 0 as real && lr > 0 as real {
        assert((n > 0 as real ==> r < v) && (n < 0 as real ==> r > v)) by (nonlinear_arith)
            requires
                r == (1 as real - lr * wd) * v - lr * n,
                wd == 0 as real,
                lr > 0 as real,
        ;
    }
    update
}

/// Powers of a number between zero and one stay there.
pub proof fn lemma_power(x: real, n: nat)
    requires
        0 as real <= x <= 1 as real,
    ensures
        0 as real <= power(x, n) <= 1 as real,
    decreases n,
{
    if n > 0 {
        lemma_power(x, (n - 1) as nat);
        let p = power(x, (n - 1) as nat);
        assert(0 as real <= p * x <= 1 as real) by (nonlinear_arith)
            requires
                0 as real <= x <= 1 as real,
                0 as real <= p <= 1 as real,
        ;
    }
}

/// Every element of a parameter that has moments is updated in this way, by corrections
/// for the number of the step; in the first step, from moments of zero, by its gradient over
/// its magnitude and epsilon.
pub proof fn first_steps_follow_the_gradient<T: Scalar>(
    reading: Reading<T>,
    rates: Rates<T>,
    gradient: Seq<T>,
    values: Seq<T>,
    before: Moments<T>,
    new_values: Seq<T>,
    after: Moments<T>,
    i: int,
) -> (update: Update)
    requires
        reading.exact(),
        elements_updated(rates, 1, gradient, values, before, new_values, after),
        0 <= i < values.len(),
        i < before.first.len(),
        0 as real <= reading.of(rates.beta1) < 1 as real,
        0 as real <= reading.of(rates.beta2) < 1 as real,
        reading.of(rates.epsilon) > 0 as real,
        reading.of(before.first[i]) == 0 as real,
        reading.of(before.second[i]) == 0 as real,
    ensures
        update.direction * (magnitude(reading.of(gradient[i])) + reading.of(rates.epsilon))
            == reading.of(gradient[i]),
        reading.of(new_values[i]) == (1 as real - reading.of(rates.learning_rate) * reading.of(
            rates.weight_decay,
        )) * reading.of(values[i]) - reading.of(rates.learning_rate) * update.direction,
{
    let (first_correction, second_correction) = choose|first_correction: T, second_correction: T|
        {
            &&& #[trigger] correction(rates.beta1, 1, first_correction)
            &&& #[trigger] correction(rates.beta2, 1, second_correction)
            &&& new_values.len() == values.len()
            &&& after.first.len() == before.first.len()
            &&& after.second.len() == before.second.len()
            &&& forall|i: int|
                0 <= i < values.len() ==> if i < before.first.len() {
                    element_updated(
                        rates,
                        first_correction,
                        second_correction,
                        gradient[i],
                        values[i],
                        before.first[i],
                        before.second[i],
                        #[trigger] new_values[i],
                        after.first[i],
                        after.second[i],
                    )
                } else {
                    new_values[i] == values[i]
                }
            &&& forall|i: int|
                values.len() <= i < before.first.len() ==> (#[trigger] after.first[i]
                    == before.first[i]) && after.second[i] == before.second[i]
        };
    assert(new_values[i] == new_values[i]);
    let g = reading.of(gradient[i]);
    assert((1 as real - 1 as real) * g == 0 as real && (1 as real - 1 as real) * (g * g)
        == 0 as real) by (nonlinear_arith);
    corrections_recover_a_constant_gradient(
        reading,
        rates,
        1,
        first_correction,
        second_correction,
        gradient[i],
        values[i],
        before.first[i],
        before.second[i],
        new_values[i],
        after.first[i],
        after.second[i],
    )
}

} // verus!
