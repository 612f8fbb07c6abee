//! What attention and rotations by position compute.

use crate::cuda::attention_kernels::{
    attended_once, attended_twice, blended_out, blends, first_visible, key_start, paired, probable,
    scores_of, weights_of, Heads, Ring,
};
use crate::cuda::loss_kernels::summit;
use crate::cuda::model_kernels::{rotated, turned, turned_by, Rotation};
use crate::exact::language::lemma_quotient;
use crate::exact::sums::{
    lemma_cancel, lemma_sigma_equal, lemma_sigma_positive, lemma_sigma_scale, sigma,
};
use crate::exact::Reading;
use crate::forward::{dot_product, summed};
use crate::models::attention::{
    attends, focuses, matched, mixed, mixes, score_of, weighted, Attention, Focus,
};
use crate::scalar::{
    added, counted, difference, dotted, exponentiated, negated, powered, product, quotient, sum,
    zero, Scalar,
};
use vstd::prelude::*;

verus! {

/// The shares are positive, add up to one, and are in the ratio of the exponentials of the
/// scores.
pub open spec fn softmax<T>(reading: Reading<T>, scores: Seq<real>, shares: Seq<real>) -> bool {
    &&& shares.len() == scores.len()
    &&& sigma(shares.len(), |i: int| shares[i]) == 1 as real
    &&& forall|i: int| 0 <= i < shares.len() ==> #[trigger] shares[i] > 0 as real
    &&& forall|i: int, j: int|
        0 <= i < shares.len() && 0 <= j < shares.len() ==> #[trigger] shares[i]
            == #[trigger] shares[j] * reading.e(scores[i] - scores[j])
}

/// A weight is the exponential of a score less the top.
pub proof fn lemma_weighted<T: Scalar>(reading: Reading<T>, score: T, top: T, weight: T)
    requires
        reading.exact(),
        weighted(score, top, weight),
    ensures
        reading.of(weight) == reading.e(reading.of(score) - reading.of(top)),
        reading.of(weight) > 0 as real,
{
    let gap = choose|gap: T| #[trigger] difference(score, top, gap) && exponentiated(gap, weight);
    reading.lemma_e(reading.of(gap), 0 as real);
}

/// Weights over their sum are a softmax of the scores.
proof fn lemma_softmax<T: Scalar>(
    reading: Reading<T>,
    scores: Seq<T>,
    top: T,
    weights: Seq<T>,
    total: real,
    shares: Seq<real>,
)
    requires
        reading.exact(),
        scores.len() > 0,
        weights.len() == scores.len(),
        shares.len() == scores.len(),
        forall|i: int|
            0 <= i < weights.len() ==> weighted(scores[i], top, #[trigger] weights[i]),
        total == sigma(weights.len(), |i: int| reading.of(weights[i])),
        total != 0 as real ==> forall|i: int|
            0 <= i < shares.len() ==> #[trigger] shares[i] * total == reading.of(weights[i]),
    ensures
        total > 0 as real,
        softmax(reading, reading.all(scores), shares),
{
    let n = scores.len();
    let w = |i: int| reading.of(weights[i]);
    let t = reading.of(top);
    assert forall|i: int| 0 <= i < n implies #[trigger] w(i) > 0 as real && w(i) == reading.e(
        reading.of(scores[i]) - t,
    ) by {
        assert(weighted(scores[i], top, weights[i]));
        lemma_weighted(reading, scores[i], top, weights[i]);
    }
    lemma_sigma_positive(n, w, 0);
    assert(w(0) > 0 as real);
    let p = |i: int| shares[i];
    assert forall|i: int| 0 <= i < n implies #[trigger] p(i) * total == w(i) && p(i)
        > 0 as real by {
        assert(shares[i] * total == reading.of(weights[i]));
        let (x, y) = (p(i), w(i));
        assert(x > 0 as real) by (nonlinear_arith)
            requires
                x * total == y,
                y > 0 as real,
                total > 0 as real,
        ;
    }
    lemma_sigma_scale(n, total, p);
    lemma_sigma_equal(n, |i: int| p(i) * total, w);
    let whole = sigma(n, p);
    assert(total * whole == whole * total && total * 1 as real == total) by (nonlinear_arith);
    lemma_cancel(total, whole, 1 as real);
    let numbers = reading.all(scores);
    assert forall|i: int, j: int| 0 <= i < n && 0 <= j < n implies #[trigger] shares[i]
        == #[trigger] shares[j] * reading.e(numbers[i] - numbers[j]) by {
        let (a, b) = (numbers[i], numbers[j]);
        reading.lemma_e(b - t, a - b);
        assert(b - t + (a - b) == a - t);
        assert(p(i) * total == w(i) && p(j) * total == w(j));
        let (x, y, c) = (shares[i], shares[j], reading.e(a - b));
        assert((y * total) * c == (y * c) * total) by (nonlinear_arith);
        assert(total * x == x * total && total * (y * c) == (y * c) * total) by (nonlinear_arith);
        lemma_cancel(total, x, y * c);
    }
    assert forall|i: int| 0 <= i < n implies #[trigger] shares[i] > 0 as real by {
        assert(p(i) > 0 as real);
    }
}

/// What a query at one place of a head sees: the scores of the positions, and their shares.
pub struct Sight {
    pub scores: Seq<real>,
    pub shares: Seq<real>,
}

/// Attention on the host: a query scores each position that it may see by the product with
/// its key, and gives the average of the values, weighted by the softmax of the scores.
pub proof fn attention_averages_by_softmax<T: Scalar>(
    reading: Reading<T>,
    a: Attention,
    query: Seq<T>,
    key: Seq<T>,
    value: Seq<T>,
    q: int,
    head: int,
    out: Seq<T>,
) -> (sight: Sight)
    requires
        reading.exact(),
        a.wf(),
        0 <= q < a.q_len,
        attends(a, query, key, value, q, head, out),
    ensures
        sight.scores.len() == a.position(q) + 1 - a.first(q),
        forall|i: int|
            0 <= i < sight.scores.len() ==> #[trigger] sight.scores[i] == sigma(
                a.head_dim,
                |d: int|
                    reading.of(query[a.query_at(q, head) + d]) * reading.of(
                        key[a.key_at(a.first(q) + i, head) + d],
                    ),
            ),
        softmax(reading, sight.scores, sight.shares),
        forall|d: int|
            0 <= d < a.head_dim ==> reading.of(#[trigger] out[d]) == sigma(
                sight.shares.len(),
                |i: int| sight.shares[i] * reading.of(value[a.key_at(a.first(q) + i, head) + d]),
            ),
{
    let focus = choose|focus: Focus<T>|
        {
            &&& #[trigger] focuses(a, query, key, q, head, focus)
            &&& forall|d: int|
                0 <= d < out.len() ==> mixes(a, value, q, head, d, focus.shares, #[trigger] out[d])
        };
    let n = focus.scores.len();
    assert(n == a.span(q) && n > 0);
    let scores = reading.all(focus.scores);
    let shares = reading.all(focus.shares);
    let start = choose|start: T|
        #[trigger] zero(start) && added(start, focus.weights, focus.total);
    reading.lemma_added(start, focus.weights, focus.total);
    let total = reading.of(focus.total);
    if total != 0 as real {
        assert forall|i: int| 0 <= i < shares.len() implies #[trigger] shares[i] * total
            == reading.of(focus.weights[i]) by {
            assert(quotient(focus.weights[i], focus.total, focus.shares[i]));
        }
    }
    lemma_softmax(reading, focus.scores, focus.top, focus.weights, total, shares);
    assert forall|i: int| 0 <= i < scores.len() implies #[trigger] scores[i] == sigma(
        a.head_dim,
        |d: int|
            reading.of(query[a.query_at(q, head) + d]) * reading.of(
                key[a.key_at(a.first(q) + i, head) + d],
            ),
    ) by {
        assert(score_of(a, query, key, q, head, i, focus.scores[i]));
        let pairs = matched(a, query, key, q, head, a.first(q) + i);
        let z = choose|start: T| #[trigger] zero(start) && dotted(start, pairs, focus.scores[i]);
        reading.lemma_dotted(z, pairs, focus.scores[i]);
        lemma_sigma_equal(
            a.head_dim,
            |i: int| reading.of(pairs[i].0) * reading.of(pairs[i].1),
            |d: int|
                reading.of(query[a.query_at(q, head) + d]) * reading.of(
                    key[a.key_at(a.first(q) + i, head) + d],
                ),
        );
    }
    assert forall|d: int| 0 <= d < a.head_dim implies reading.of(#[trigger] out[d]) == sigma(
        shares.len(),
        |i: int| shares[i] * reading.of(value[a.key_at(a.first(q) + i, head) + d]),
    ) by {
        assert(mixes(a, value, q, head, d, focus.shares, out[d]));
        let pairs = mixed(a, value, q, head, d, focus.shares);
        let z = choose|start: T| #[trigger] zero(start) && dotted(start, pairs, out[d]);
        reading.lemma_dotted(z, pairs, out[d]);
        lemma_sigma_equal(
            shares.len(),
            |i: int| reading.of(pairs[i].0) * reading.of(pairs[i].1),
            |i: int| shares[i] * reading.of(value[a.key_at(a.first(q) + i, head) + d]),
        );
    }
    Sight { scores, shares }
}

/// A device attends, by one pass or by two.
pub open spec fn any_attended<T: Scalar>(
    h: Heads,
    ring: Ring,
    sequence: int,
    window: int,
    query: Seq<T>,
    at: int,
    head: int,
    keys: Seq<T>,
    values: Seq<T>,
    d: int,
    r: T,
) -> bool {
    attended_once(h, ring, sequence, window, query, at, head, keys, values, d, r) || attended_twice(
        h,
        ring,
        sequence,
        window,
        query,
        at,
        head,
        keys,
        values,
        d,
        r,
    )
}

/// Attention on a device: each element is the average of the values of the visible positions,
/// weighted by the softmax of the products of the query with their keys.
pub proof fn devices_average_by_softmax<T: Scalar>(
    reading: Reading<T>,
    h: Heads,
    ring: Ring,
    sequence: int,
    window: int,
    query: Seq<T>,
    at: int,
    head: int,
    keys: Seq<T>,
    values: Seq<T>,
    d: int,
    r: T,
) -> (sight: Sight)
    requires
        reading.exact(),
        sequence > 0,
        window >= 0,
        any_attended(h, ring, sequence, window, query, at, head, keys, values, d, r),
    ensures
        ({
            let first = first_visible(sequence, window);
            let kv_head = h.shared(head);
            &&& sight.scores.len() == sequence - first
            &&& forall|i: int|
                0 <= i < sight.scores.len() ==> #[trigger] sight.scores[i] == sigma(
                    h.head_dim as nat,
                    |k: int|
                        reading.of(query[at + k]) * reading.of(
                            keys[key_start(h, ring, kv_head, first + i) + k],
                        ),
                )
            &&& softmax(reading, sight.scores, sight.shares)
            &&& reading.of(r) == sigma(
                sight.shares.len(),
                |i: int|
                    sight.shares[i] * reading.of(
                        values[key_start(h, ring, kv_head, first + i) + d],
                    ),
            )
        }),
{
    let first = first_visible(sequence, window);
    let kv_head = h.shared(head);
    let (scores, top, weights, all) = if attended_once(
        h,
        ring,
        sequence,
        window,
        query,
        at,
        head,
        keys,
        values,
        d,
        r,
    ) {
        let (weights, total) = choose|weights: Seq<T>, total: T|
            {
                &&& #[trigger] probable(
                    h,
                    ring,
                    query,
                    at,
                    keys,
                    kv_head,
                    first,
                    sequence,
                    weights,
                    total,
                )
                &&& blended_out(h, ring, values, kv_head, first, d, weights, total, r)
            };
        let (scores, top) = choose|scores: Seq<T>, top: T|
            {
                &&& scores.len() == sequence - first
                &&& scores_of(h, ring, query, at, keys, kv_head, first, scores)
                &&& #[trigger] summit(scores, top)
                &&& weights_of(scores, top, weights)
                &&& summed(weights, total)
            };
        (scores, top, weights, total)
    } else {
        let (scores, top, again, weights, total) = choose|
            scores: Seq<T>,
            top: T,
            again: Seq<T>,
            weights: Seq<T>,
            total: T,
        |
            {
                &&& scores.len() == sequence - first
                &&& scores_of(h, ring, query, at, keys, kv_head, first, scores)
                &&& #[trigger] summit(scores, top)
                &&& again.len() == sequence - first
                &&& scores_of(h, ring, query, at, keys, kv_head, first, again)
                &&& #[trigger] weights_of(again, top, weights)
                &&& #[trigger] summed(weights, total)
                &&& blended_out(h, ring, values, kv_head, first, d, weights, total, r)
            };
        (again, top, weights, total)
    };
    assert(weights_of(scores, top, weights) && summed(weights, all));
    assert(blended_out(h, ring, values, kv_head, first, d, weights, all, r));
    let numbers = reading.all(scores);
    let n = scores.len();
    assert(n > 0);
    reading.lemma_summed(weights, all);
    let total = reading.of(all);
    let shares = Seq::new(n, |i: int| reading.of(weights[i]) / total);
    if total != 0 as real {
        assert forall|i: int| 0 <= i < n implies #[trigger] shares[i] * total == reading.of(
            weights[i],
        ) by {
            let (x, y) = (shares[i], reading.of(weights[i]));
            assert(x * total == y) by (nonlinear_arith)
                requires
                    x == y / total,
                    total != 0 as real,
            ;
        }
    }
    lemma_softmax(reading, scores, top, weights, total, shares);
    assert forall|i: int| 0 <= i < n implies #[trigger] numbers[i] == sigma(
        h.head_dim as nat,
        |k: int|
            reading.of(query[at + k]) * reading.of(
                keys[key_start(h, ring, kv_head, first + i) + k],
            ),
    ) by {
        let pairs = paired(h, ring, query, at, keys, kv_head, first + i);
        assert(dot_product(pairs, scores[i]));
        reading.lemma_dot_product(pairs, scores[i]);
        lemma_sigma_equal(
            h.head_dim as nat,
            |i: int| reading.of(pairs[i].0) * reading.of(pairs[i].1),
            |k: int|
                reading.of(query[at + k]) * reading.of(
                    keys[key_start(h, ring, kv_head, first + i) + k],
                ),
        );
    }
    let mix = choose|mix: T|
        {
            &&& dot_product(blends(h, ring, values, kv_head, first, d, weights), mix)
            &&& #[trigger] quotient(mix, all, r)
        };
    let pairs = blends(h, ring, values, kv_head, first, d, weights);
    reading.lemma_dot_product(pairs, mix);
    let v = |i: int| reading.of(values[key_start(h, ring, kv_head, first + i) + d]);
    let p = |i: int| shares[i] * v(i);
    lemma_sigma_scale(n, total, p);
    assert forall|i: int| 0 <= i < n implies #[trigger] p(i) * total == reading.of(pairs[i].0)
        * reading.of(pairs[i].1) by {
        let (x, y) = (shares[i], v(i));
        assert(x * total == reading.of(weights[i]));
        assert((x * y) * total == (x * total) * y) by (nonlinear_arith);
    }
    lemma_sigma_equal(
        n,
        |i: int| p(i) * total,
        |i: int| reading.of(pairs[i].0) * reading.of(pairs[i].1),
    );
    let (x, y) = (reading.of(r), sigma(n, p));
    assert(total * x == x * total && total * y == y * total) by (nonlinear_arith);
    lemma_cancel(total, x, y);
    lemma_sigma_equal(
        n,
        p,
        |i: int| shares[i] * reading.of(values[key_start(h, ring, kv_head, first + i) + d]),
    );
    Sight { scores: numbers, shares }
}

/// The rate at which a pair of dimensions turns: the base raised to minus twice the number of
/// the pair over the size of the head, divided by the factor.
pub open spec fn turning_rate<T: Scalar>(
    reading: Reading<T>,
    rotation: Rotation,
    theta: T,
    factor: T,
    frequency: int,
    rate: real,
) -> bool {
    exists|log: real|
        {
            &&& #[trigger] reading.e(log) == reading.of(theta)
            &&& rate * reading.of(factor) == reading.e(
                -((2 * frequency) as real) / rotation.head_dim as real * log,
            )
        }
}

/// The angle of a pair is its position times the rate of the pair.
proof fn lemma_angle<T: Scalar>(
    reading: Reading<T>,
    rotation: Rotation,
    theta: T,
    factor: T,
    position: usize,
    frequency: int,
    angle: T,
) -> (rate: real)
    requires
        reading.exact(),
        rotation.head_dim > 0,
        0 <= 2 * frequency <= usize::MAX,
        reading.of(theta) > 0 as real,
        reading.of(factor) != 0 as real,
        turned(rotation, theta, factor, position, frequency, angle),
    ensures
        turning_rate(reading, rotation, theta, factor, frequency, rate),
        reading.of(angle) == position as real * rate,
{
    let (top, minus, size, exponent, base, rate, at) = choose|
        top: T,
        minus: T,
        size: T,
        exponent: T,
        base: T,
        rate: T,
        at: T,
    |
        {
            &&& counted((2 * frequency) as usize, top)
            &&& #[trigger] negated(top, minus)
            &&& counted(rotation.head_dim, size)
            &&& #[trigger] quotient(minus, size, exponent)
            &&& #[trigger] powered(theta, exponent, base)
            &&& #[trigger] quotient(base, factor, rate)
            &&& counted(position, at)
            &&& #[trigger] product(at, rate, angle)
        };
    let log = choose|log: real|
        #[trigger] reading.e(log) == reading.of(theta) && reading.of(base) == reading.e(
            reading.of(exponent) * log,
        );
    lemma_quotient(
        reading.of(exponent),
        rotation.head_dim as real,
        -((2 * frequency) as real),
    );
    assert(reading.e(log) == reading.of(theta));
    reading.of(rate)
}

/// Rates are determined by the base, the factor and the pair.
pub proof fn lemma_one_rate<T: Scalar>(
    reading: Reading<T>,
    rotation: Rotation,
    theta: T,
    factor: T,
    frequency: int,
    one: real,
    other: real,
)
    requires
        reading.exact(),
        reading.of(factor) != 0 as real,
        turning_rate(reading, rotation, theta, factor, frequency, one),
        turning_rate(reading, rotation, theta, factor, frequency, other),
    ensures
        one == other,
{
    let power = |log: real|
        reading.e(-((2 * frequency) as real) / rotation.head_dim as real * log);
    let k = choose|log: real|
        {
            &&& #[trigger] reading.e(log) == reading.of(theta)
            &&& one * reading.of(factor) == reading.e(
                -((2 * frequency) as real) / rotation.head_dim as real * log,
            )
        };
    let l = choose|log: real|
        {
            &&& #[trigger] reading.e(log) == reading.of(theta)
            &&& other * reading.of(factor) == reading.e(
                -((2 * frequency) as real) / rotation.head_dim as real * log,
            )
        };
    reading.lemma_e(k, l);
    let f = reading.of(factor);
    assert(f * one == one * f && f * other == other * f) by (nonlinear_arith);
    lemma_cancel(f, one, other);
}

/// A pair of numbers turned by an angle.
pub open spec fn turned_pair<T>(
    reading: Reading<T>,
    x: real,
    y: real,
    angle: real,
    u: real,
    v: real,
) -> bool {
    &&& u == x * reading.cosine(angle) - y * reading.sine(angle)
    &&& v == y * reading.cosine(angle) + x * reading.sine(angle)
}

/// Turning keeps the length of a pair.
pub proof fn turning_keeps_lengths<T>(
    reading: Reading<T>,
    x: real,
    y: real,
    angle: real,
    u: real,
    v: real,
)
    requires
        reading.turns(),
        turned_pair(reading, x, y, angle, u, v),
    ensures
        u * u + v * v == x * x + y * y,
{
    reading.lemma_turn(angle, angle);
    let (c, s) = (reading.cosine(angle), reading.sine(angle));
    lemma_cross(x, y, c, s, x, y, c, s);
    let (a, b, k) = (x * x + y * y, x * y - y * x, c * c + s * s);
    assert(x * y == y * x && s * c == c * s) by (nonlinear_arith);
    assert(a * 1 as real == a && b == 0 as real);
    let z = s * c - c * s;
    assert(0 as real * z == 0 as real) by (nonlinear_arith);
}

/// The product of two turned pairs.
proof fn lemma_cross(
    x: real,
    y: real,
    c: real,
    s: real,
    p: real,
    q: real,
    d: real,
    t: real,
)
    ensures
        (x * c - y * s) * (p * d - q * t) + (y * c + x * s) * (q * d + p * t) == (x * p + y * q)
            * (c * d + s * t) + (x * q - y * p) * (s * d - c * t),
{
    let (a1, a2, b1, b2) = (x * c, y * s, p * d, q * t);
    let (e1, e2, f1, f2) = (y * c, x * s, q * d, p * t);
    assert((a1 - a2) * (b1 - b2) == a1 * b1 - a1 * b2 - a2 * b1 + a2 * b2) by (nonlinear_arith);
    assert((e1 + e2) * (f1 + f2) == e1 * f1 + e1 * f2 + e2 * f1 + e2 * f2) by (nonlinear_arith);
    let (xp, yq, xq, yp) = (x * p, y * q, x * q, y * p);
    let (cd, st, sd, ct) = (c * d, s * t, s * d, c * t);
    assert((xp + yq) * (cd + st) == xp * cd + xp * st + yq * cd + yq * st) by (nonlinear_arith);
    assert((xq - yp) * (sd - ct) == xq * sd - xq * ct - yp * sd + yp * ct) by (nonlinear_arith);
    assert((x * c) * (p * d) == (x * p) * (c * d)) by (nonlinear_arith);
    assert((x * c) * (q * t) == (x * q) * (c * t)) by (nonlinear_arith);
    assert((y * s) * (p * d) == (y * p) * (s * d)) by (nonlinear_arith);
    assert((y * s) * (q * t) == (y * q) * (s * t)) by (nonlinear_arith);
    assert((y * c) * (q * d) == (y * q) * (c * d)) by (nonlinear_arith);
    assert((y * c) * (p * t) == (y * p) * (c * t)) by (nonlinear_arith);
    assert((x * s) * (q * d) == (x * q) * (s * d)) by (nonlinear_arith);
    assert((x * s) * (p * t) == (x * p) * (s * t)) by (nonlinear_arith);
}

/// The product of two turned pairs depends on the difference of their angles alone: it is
/// that of the pairs, and of their cross product, turned by the difference.
pub proof fn turned_products_see_distances<T>(
    reading: Reading<T>,
    first: (real, real),
    second: (real, real),
    angle: real,
    other: real,
    one: (real, real),
    two: (real, real),
)
    requires
        reading.turns(),
        turned_pair(reading, first.0, first.1, angle, one.0, one.1),
        turned_pair(reading, second.0, second.1, other, two.0, two.1),
    ensures
        one.0 * two.0 + one.1 * two.1 == (first.0 * second.0 + first.1 * second.1) * reading.cosine(
            angle - other,
        ) + (first.0 * second.1 - first.1 * second.0) * reading.sine(angle - other),
{
    reading.lemma_turn(angle, other);
    lemma_cross(
        first.0,
        first.1,
        reading.cosine(angle),
        reading.sine(angle),
        second.0,
        second.1,
        reading.cosine(other),
        reading.sine(other),
    );
}

/// Rotation by position: of every head, the pairs of dimensions that are half a head apart are
/// turned by an angle, the position of their token times the rate of the pair; the pairs past
/// the rotated part stay as they are.
pub proof fn rotations_turn_pairs_by_position<T: Scalar>(
    reading: Reading<T>,
    rotation: Rotation,
    theta: T,
    factor: T,
    first: usize,
    input: Seq<T>,
    raw: int,
    r: T,
    s: T,
) -> (rate: real)
    requires
        reading.exact(),
        rotation.heads > 0,
        rotation.head_dim >= 2,
        rotation.head_dim % 2 == 0,
        reading.of(theta) > 0 as real,
        reading.of(factor) != 0 as real,
        0 <= raw,
        raw % (rotation.head_dim as int) < rotation.head_dim as int / 2,
        first + raw / (rotation.heads * rotation.head_dim) <= usize::MAX,
        rotated(rotation, theta, factor, first, input, raw, r),
        rotated(
            rotation,
            theta,
            factor,
            first,
            input,
            raw + rotation.head_dim as int / 2,
            s,
        ),
    ensures
        ({
            let half = rotation.head_dim as int / 2;
            let pair = raw % rotation.head_dim as int;
            let position = first + raw / (rotation.heads * rotation.head_dim);
            if pair >= rotation.rotary_dim as int / 2 {
                r == input[raw] && s == input[raw + half]
            } else {
                &&& turning_rate(reading, rotation, theta, factor, pair, rate)
                &&& turned_pair(
                    reading,
                    reading.of(input[raw]),
                    reading.of(input[raw + half]),
                    position as real * rate,
                    reading.of(r),
                    reading.of(s),
                )
            }
        }),
{
    let size = rotation.head_dim as int;
    let half = size / 2;
    let pair = raw % size;
    let far = raw + half;
    lemma_same_head(raw, size, rotation.heads as int);
    let place = raw / (rotation.heads * size);
    let position = (first + place) as usize;
    assert(pair % half == pair) by {
        vstd::arithmetic::div_mod::lemma_small_mod(pair as nat, half as nat);
    }
    assert((pair + half) % half == pair) by {
        vstd::arithmetic::div_mod::lemma_mod_add_multiples_vanish(pair, half);
    }
    if pair >= rotation.rotary_dim as int / 2 {
        0 as real
    } else {
        let (angle, partner) = choose|angle: T, partner: T|
            {
                &&& #[trigger] turned(rotation, theta, factor, position, pair, angle)
                &&& negated(input[raw + half], partner)
                &&& #[trigger] turned_by(input[raw], partner, angle, r)
            };
        let rate = lemma_angle(reading, rotation, theta, factor, position, pair, angle);
        let (other, mate) = choose|angle: T, partner: T|
            {
                &&& #[trigger] turned(rotation, theta, factor, position, pair, angle)
                &&& partner == input[far - half]
                &&& #[trigger] turned_by(input[far], partner, angle, s)
            };
        let again = lemma_angle(reading, rotation, theta, factor, position, pair, other);
        lemma_one_rate(reading, rotation, theta, factor, pair, rate, again);
        let (y, z) = (reading.of(input[far]), reading.sine(reading.of(angle)));
        assert((-y) * z == -(y * z)) by (nonlinear_arith);
        rate
    }
}

/// The partner of a dimension stands in the same head.
proof fn lemma_same_head(raw: int, size: int, heads: int)
    requires
        0 <= raw,
        size >= 2,
        size % 2 == 0,
        heads > 0,
        raw % size < size / 2,
    ensures
        (raw + size / 2) % size == raw % size + size / 2,
        (raw + size / 2) / (heads * size) == raw / (heads * size),
        0 <= raw / (heads * size),
{
    let far = raw + size / 2;
    let q = raw / size;
    vstd::arithmetic::div_mod::lemma_fundamental_div_mod(raw, size);
    let rest = raw % size + size / 2;
    assert(far == q * size + rest) by (nonlinear_arith)
        requires
            raw == size * q + raw % size,
            far == raw + size / 2,
            rest == raw % size + size / 2,
    ;
    vstd::arithmetic::div_mod::lemma_fundamental_div_mod_converse(far, size, q, rest);
    vstd::arithmetic::div_mod::lemma_div_denominator(raw, size, heads);
    vstd::arithmetic::div_mod::lemma_div_denominator(far, size, heads);
    assert(size * heads == heads * size) by (nonlinear_arith);
    assert(0 < heads * size) by (nonlinear_arith)
        requires
            heads > 0,
            size > 0,
    ;
    vstd::arithmetic::div_mod::lemma_div_pos_is_pos(raw, heads * size);
}

} // verus!
