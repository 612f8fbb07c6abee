//! The distribution that tokens are drawn from.

use crate::exact::sums::{
    lemma_sigma_at_most, lemma_sigma_equal, lemma_sigma_positive, lemma_sigma_scale, sigma,
};
use crate::exact::Reading;
use crate::models::attention::weighted;
use crate::models::sampling::{
    at_most, considers, cut, descends, keyed, met, normal, nucleus, passes, probable, running,
    samples, scaled, senseless, spread, unlit, Drawing, GenerationConfig,
};
use crate::scalar::{
    added, difference, is_finite, less, one, product, quotient, ratio, sum, zero, Scalar,
};
use vstd::multiset::*;
use vstd::prelude::*;
use vstd::seq_lib::*;

verus! {

/// The number of the logit of a candidate.
pub open spec fn logit<T: Scalar>(
    reading: Reading<T>,
    logits: Seq<T>,
    drawing: Drawing<T>,
    i: int,
) -> real {
    reading.of(logits[drawing.best[i].0 as int])
}

/// The probability of a candidate.
pub open spec fn probability<T: Scalar>(reading: Reading<T>, drawing: Drawing<T>, i: int) -> real {
    reading.of(drawing.probabilities[i])
}

/// A candidate is its logit over the temperature.
proof fn lemma_scaled<T: Scalar>(logits: Seq<T>, temperature: T, found: Seq<(usize, T)>, i: int)
    requires
        scaled(logits, temperature, found),
        0 <= i < found.len(),
    ensures
        found[i].0 < logits.len(),
        quotient(logits[found[i].0 as int], temperature, found[i].1),
    decreases logits.len(),
{
    if logits.len() > 0 {
        let finite = choose|finite: bool| #[trigger]
            is_finite(logits.last(), finite) && if finite {
                &&& found.len() > 0
                &&& found.last().0 == logits.len() - 1
                &&& quotient(logits.last(), temperature, found.last().1)
                &&& scaled(logits.drop_last(), temperature, found.drop_last())
            } else {
                scaled(logits.drop_last(), temperature, found)
            };
        if finite {
            if i < found.len() - 1 {
                lemma_scaled(logits.drop_last(), temperature, found.drop_last(), i);
                assert(found.drop_last()[i] == found[i]);
            }
        } else {
            lemma_scaled(logits.drop_last(), temperature, found, i);
        }
    }
}

/// The temperature of a draw that can be made is above zero, and the nucleus a probability.
proof fn lemma_sensible<T: Scalar>(
    reading: Reading<T>,
    logits: Seq<T>,
    temperature: T,
    top_p: T,
)
    requires
        reading.exact(),
        senseless(logits, temperature, top_p, false),
    ensures
        logits.len() > 0,
        reading.of(temperature) > 0 as real,
        0 as real <= reading.of(top_p) <= 1 as real,
{
    assert(unlit(temperature, false));
    assert(probable(top_p, true));
}

/// A draw that gives a token has candidates, and they are its logits over the temperature,
/// the highest first.
proof fn lemma_best<T: Scalar>(
    reading: Reading<T>,
    logits: Seq<T>,
    temperature: T,
    top_k: usize,
    drawing: Drawing<T>,
    i: int,
)
    requires
        reading.exact(),
        considers(logits, temperature, top_k, drawing),
        reading.of(temperature) > 0 as real,
        0 <= i < drawing.best.len(),
    ensures
        drawing.best[i].0 < logits.len(),
        reading.of(drawing.best[i].1) * reading.of(temperature) == logit(
            reading,
            logits,
            drawing,
            i,
        ),
        crate::scalar::ranked(drawing.best[i].1, drawing.best[i].2),
{
    let (best, found) = (drawing.best, drawing.found);
    let items = choose|items: Seq<(usize, T, i32)>| #[trigger]
        keyed(found, items) && best.to_multiset() == items.to_multiset();
    assert(best.contains(best[i]));
    to_multiset_contains(best, best[i]);
    to_multiset_contains(items, best[i]);
    let k = choose|k: int| 0 <= k < items.len() && items[k] == best[i];
    assert(items[k].0 == found[k].0);
    lemma_scaled(logits, temperature, found, k);
}

/// The weight of a candidate, in proportion to that of another.
proof fn lemma_weight<T: Scalar>(reading: Reading<T>, value: T, top: T, weight: T)
    requires
        reading.exact(),
        weighted(value, top, weight),
    ensures
        reading.of(weight) == reading.e(reading.of(value) - reading.of(top)),
        reading.of(weight) > 0 as real,
{
    let gap = choose|gap: T|
        #[trigger] difference(value, top, gap) && crate::scalar::exponentiated(gap, weight);
    reading.lemma_e(reading.of(gap), 0 as real);
}

/// The probabilities of the candidates that stay add up to one, none is negative, and any
/// two of them are in the ratio of the exponential of the difference of their logits over
/// the temperature: `p / q == e((l - m) / temperature)`.  Higher logits come first.
pub proof fn probabilities_follow_logits_over_temperature<T: Scalar>(
    reading: Reading<T>,
    logits: Seq<T>,
    config: GenerationConfig<T>,
    random: u64,
    after: u64,
    drawing: Drawing<T>,
    token: u32,
)
    requires
        reading.exact(),
        samples(logits, config, random, after, drawing, Ok(token)),
    ensures
        reading.of(config.temperature) > 0 as real,
        drawing.probabilities.len() == cut(config.top_k, drawing.best.len()),
        drawing.probabilities.len() > 0,
        sigma(drawing.probabilities.len(), |i: int| probability(reading, drawing, i)) == 1 as real,
        forall|i: int|
            0 <= i < drawing.probabilities.len() ==> #[trigger] probability(reading, drawing, i)
                > 0 as real,
        forall|i: int, j: int|
            0 <= i < drawing.probabilities.len() && 0 <= j < drawing.probabilities.len()
                ==> #[trigger] probability(reading, drawing, i) == #[trigger] probability(
                reading,
                drawing,
                j,
            ) * reading.e(
                (logit(reading, logits, drawing, i) - logit(reading, logits, drawing, j))
                    / reading.of(config.temperature),
            ),
        forall|i: int, j: int|
            0 <= i <= j < drawing.best.len() ==> #[trigger] logit(reading, logits, drawing, i)
                >= #[trigger] logit(reading, logits, drawing, j),
{
    lemma_sensible(reading, logits, config.temperature, config.top_p);
    lemma_shares(reading, logits, config.temperature, config.top_k, drawing);
    let n = drawing.probabilities.len();
    assert forall|i: int, j: int| 0 <= i < n && 0 <= j < n implies #[trigger] probability(
        reading,
        drawing,
        i,
    ) == #[trigger] probability(reading, drawing, j) * reading.e(
        (logit(reading, logits, drawing, i) - logit(reading, logits, drawing, j)) / reading.of(
            config.temperature,
        ),
    ) by {
        lemma_ratios(reading, logits, config.temperature, config.top_k, drawing, i, j);
    }
    assert forall|i: int, j: int| 0 <= i <= j < drawing.best.len() implies #[trigger] logit(
        reading,
        logits,
        drawing,
        i,
    ) >= #[trigger] logit(reading, logits, drawing, j) by {
        lemma_higher(reading, logits, config.temperature, config.top_k, drawing, i, j);
    }
}

/// The probabilities are shares of one, in proportion to the weights.
proof fn lemma_shares<T: Scalar>(
    reading: Reading<T>,
    logits: Seq<T>,
    temperature: T,
    top_k: usize,
    drawing: Drawing<T>,
)
    requires
        reading.exact(),
        considers(logits, temperature, top_k, drawing),
        normal(drawing.weights, drawing.total, drawing.probabilities),
    ensures
        drawing.probabilities.len() == cut(top_k, drawing.best.len()),
        drawing.probabilities.len() > 0,
        reading.of(drawing.total) > 0 as real,
        sigma(drawing.probabilities.len(), |i: int| probability(reading, drawing, i)) == 1 as real,
        forall|i: int|
            0 <= i < drawing.probabilities.len() ==> #[trigger] probability(reading, drawing, i)
                > 0 as real,
        forall|i: int|
            0 <= i < drawing.probabilities.len() ==> #[trigger] probability(reading, drawing, i)
                * reading.of(drawing.total) == reading.e(
                reading.of(drawing.best[i].1) - reading.of(drawing.best[0].1),
            ),
{
    let len = cut(top_k, drawing.best.len());
    let kept = drawing.best.take(len as int);
    let n = drawing.probabilities.len();
    let (weights, all) = (drawing.weights, drawing.total);
    assert(spread(kept, weights, all));
    assert(n == len && n > 0 && weights.len() == n);
    let top = kept[0].1;
    let start = choose|start: T| #[trigger] zero(start) && added(start, weights, all);
    reading.lemma_added(start, weights, all);
    let w = |i: int| reading.of(weights[i]);
    assert forall|i: int| 0 <= i < n implies #[trigger] w(i) == reading.e(
        reading.of(kept[i].1) - reading.of(top),
    ) && w(i) > 0 as real by {
        assert(weighted(kept[i].1, kept[0].1, weights[i]));
        lemma_weight(reading, kept[i].1, top, weights[i]);
    }
    lemma_sigma_positive(n, w, 0);
    assert(w(0) > 0 as real);
    let s = reading.of(all);
    assert(s == sigma(n, w) && s > 0 as real);
    let p = |i: int| probability(reading, drawing, i);
    assert forall|i: int| 0 <= i < n implies #[trigger] p(i) * s == w(i) && p(i) > 0 as real by {
        assert(quotient(weights[i], all, drawing.probabilities[i]));
        let (x, y) = (p(i), w(i));
        assert(x > 0 as real) by (nonlinear_arith)
            requires
                x * s == y,
                y > 0 as real,
                s > 0 as real,
        ;
    }
    lemma_sigma_scale(n, s, p);
    lemma_sigma_equal(n, |i: int| p(i) * s, w);
    let whole = sigma(n, p);
    assert(whole == 1 as real) by (nonlinear_arith)
        requires
            whole * s == s,
            s > 0 as real,
    ;
    assert forall|i: int| 0 <= i < n implies #[trigger] probability(reading, drawing, i)
        > 0 as real && probability(reading, drawing, i) * s == reading.e(
        reading.of(drawing.best[i].1) - reading.of(drawing.best[0].1),
    ) by {
        assert(p(i) * s == w(i));
        assert(kept[i] == drawing.best[i]);
    }
}

/// Two probabilities are in the ratio of their candidates.
proof fn lemma_ratios<T: Scalar>(
    reading: Reading<T>,
    logits: Seq<T>,
    temperature: T,
    top_k: usize,
    drawing: Drawing<T>,
    i: int,
    j: int,
)
    requires
        reading.exact(),
        considers(logits, temperature, top_k, drawing),
        reading.of(temperature) > 0 as real,
        drawing.probabilities.len() == cut(top_k, drawing.best.len()),
        0 <= i < drawing.probabilities.len(),
        0 <= j < drawing.probabilities.len(),
        reading.of(drawing.total) > 0 as real,
        probability(reading, drawing, i) * reading.of(drawing.total) == reading.e(
            reading.of(drawing.best[i].1) - reading.of(drawing.best[0].1),
        ),
        probability(reading, drawing, j) * reading.of(drawing.total) == reading.e(
            reading.of(drawing.best[j].1) - reading.of(drawing.best[0].1),
        ),
    ensures
        probability(reading, drawing, i) == probability(reading, drawing, j) * reading.e(
            (logit(reading, logits, drawing, i) - logit(reading, logits, drawing, j))
                / reading.of(temperature),
        ),
{
    let t = reading.of(temperature);
    lemma_best(reading, logits, temperature, top_k, drawing, i);
    lemma_best(reading, logits, temperature, top_k, drawing, j);
    let (a, b) = (reading.of(drawing.best[i].1), reading.of(drawing.best[j].1));
    let (l, m) = (logit(reading, logits, drawing, i), logit(reading, logits, drawing, j));
    assert((l - m) / t == a - b) by (nonlinear_arith)
        requires
            a * t == l,
            b * t == m,
            t > 0 as real,
    ;
    let o = reading.of(drawing.best[0].1);
    reading.lemma_e(b - o, a - b);
    assert(b - o + (a - b) == a - o);
    let (x, y) = (probability(reading, drawing, i), probability(reading, drawing, j));
    let (u, v, c) = (reading.e(a - o), reading.e(b - o), reading.e(a - b));
    let s = reading.of(drawing.total);
    assert(x == y * c) by (nonlinear_arith)
        requires
            x * s == u,
            y * s == v,
            u == v * c,
            s > 0 as real,
    ;
}

/// Candidates come in the order of their logits.
proof fn lemma_higher<T: Scalar>(
    reading: Reading<T>,
    logits: Seq<T>,
    temperature: T,
    top_k: usize,
    drawing: Drawing<T>,
    i: int,
    j: int,
)
    requires
        reading.exact(),
        considers(logits, temperature, top_k, drawing),
        reading.of(temperature) > 0 as real,
        0 <= i <= j < drawing.best.len(),
    ensures
        logit(reading, logits, drawing, i) >= logit(reading, logits, drawing, j),
{
    let t = reading.of(temperature);
    lemma_best(reading, logits, temperature, top_k, drawing, i);
    lemma_best(reading, logits, temperature, top_k, drawing, j);
    assert(drawing.best[i].2 >= drawing.best[j].2);
    let (a, b) = (reading.of(drawing.best[i].1), reading.of(drawing.best[j].1));
    assert(a >= b);
    let (l, m) = (logit(reading, logits, drawing, i), logit(reading, logits, drawing, j));
    assert(l >= m) by (nonlinear_arith)
        requires
            a * t == l,
            b * t == m,
            a >= b,
            t > 0 as real,
    ;
}

/// Of two draws from the same logits whose candidates come in the same order, the one at
/// the lower temperature gives the highest candidate no lower a probability.
pub proof fn lower_temperatures_favour_the_highest<T: Scalar>(
    reading: Reading<T>,
    logits: Seq<T>,
    colder: GenerationConfig<T>,
    warmer: GenerationConfig<T>,
    states: (u64, u64, u64, u64),
    cold: Drawing<T>,
    warm: Drawing<T>,
    tokens: (u32, u32),
)
    requires
        reading.exact(),
        samples(logits, colder, states.0, states.1, cold, Ok(tokens.0)),
        samples(logits, warmer, states.2, states.3, warm, Ok(tokens.1)),
        colder.top_k == warmer.top_k,
        reading.of(colder.temperature) <= reading.of(warmer.temperature),
        cold.best.len() == warm.best.len(),
        forall|i: int|
            0 <= i < cold.best.len() ==> (#[trigger] cold.best[i]).0 == warm.best[i].0,
    ensures
        probability(reading, cold, 0) >= probability(reading, warm, 0),
{
    probabilities_follow_logits_over_temperature(
        reading,
        logits,
        colder,
        states.0,
        states.1,
        cold,
        tokens.0,
    );
    probabilities_follow_logits_over_temperature(
        reading,
        logits,
        warmer,
        states.2,
        states.3,
        warm,
        tokens.1,
    );
    let n = cold.probabilities.len();
    let (s, t) = (reading.of(colder.temperature), reading.of(warmer.temperature));
    let (x, y) = (probability(reading, cold, 0), probability(reading, warm, 0));
    let l = |i: int| logit(reading, logits, cold, i);
    let f = |i: int| reading.e((l(i) - l(0)) / s);
    let g = |i: int| reading.e((l(i) - l(0)) / t);
    assert forall|i: int| 0 <= i < n implies #[trigger] f(i) <= g(i) by {
        assert(cold.best[i].0 == warm.best[i].0 && cold.best[0].0 == warm.best[0].0);
        assert(logit(reading, logits, cold, 0) >= logit(reading, logits, cold, i));
        let d = l(i) - l(0);
        assert(d / s <= d / t) by (nonlinear_arith)
            requires
                d <= 0 as real,
                (0 as real) < s,
                s <= t,
        ;
        reading.lemma_e(d / s, d / t);
    }
    lemma_sigma_at_most(n, f, g);
    assert forall|i: int| 0 <= i < n implies #[trigger] f(i) > 0 as real by {
        reading.lemma_e((l(i) - l(0)) / s, 0 as real);
    }
    lemma_sigma_positive(n, f, 0);
    assert(f(0) > 0 as real);
    let p = |i: int| x * f(i);
    let q = |i: int| y * g(i);
    assert forall|i: int| 0 <= i < n implies probability(reading, cold, i) == #[trigger] p(i) by {
        assert(probability(reading, cold, i) == probability(reading, cold, 0) * reading.e(
            (logit(reading, logits, cold, i) - logit(reading, logits, cold, 0)) / s,
        ));
    }
    assert forall|i: int| 0 <= i < n implies probability(reading, warm, i) == #[trigger] q(i) by {
        assert(cold.best[i].0 == warm.best[i].0 && cold.best[0].0 == warm.best[0].0);
        assert(probability(reading, warm, i) == probability(reading, warm, 0) * reading.e(
            (logit(reading, logits, warm, i) - logit(reading, logits, warm, 0)) / t,
        ));
    }
    lemma_sigma_scale(n, x, f);
    lemma_sigma_scale(n, y, g);
    lemma_sigma_equal(n, p, |i: int| probability(reading, cold, i));
    lemma_sigma_equal(n, q, |i: int| probability(reading, warm, i));
    let (a, b) = (sigma(n, f), sigma(n, g));
    assert(x * a == 1 as real && y * b == 1 as real);
    assert(x >= y) by (nonlinear_arith)
        requires
            x * a == 1 as real,
            y * b == 1 as real,
            a <= b,
            a > 0 as real,
    ;
}

/// The sum of the probabilities of the first candidates.
pub open spec fn cumulative<T: Scalar>(reading: Reading<T>, drawing: Drawing<T>, n: nat) -> real {
    sigma(n, |i: int| probability(reading, drawing, i))
}

/// Running sums are those of the numbers.
proof fn lemma_running<T: Scalar>(
    reading: Reading<T>,
    drawing: Drawing<T>,
    sums: Seq<T>,
    i: int,
)
    requires
        reading.exact(),
        running(drawing.probabilities, sums),
        0 <= i < sums.len(),
    ensures
        reading.of(sums[i]) == cumulative(reading, drawing, (i + 1) as nat),
    decreases i,
{
    if i > 0 {
        lemma_running(reading, drawing, sums, i - 1);
        assert(sum(sums[i - 1], drawing.probabilities[i], sums[i]));
    } else {
        let start = choose|start: T| #[trigger]
            zero(start) && sum(start, drawing.probabilities[0], sums[0]);
        reveal_with_fuel(sigma, 2);
    }
}

/// The probabilities that stay, in a sum.
proof fn lemma_kept<T: Scalar>(reading: Reading<T>, drawing: Drawing<T>, mass: T)
    requires
        reading.exact(),
        drawing.keep <= drawing.probabilities.len(),
        exists|start: T| #[trigger]
            zero(start) && added(start, drawing.probabilities.take(drawing.keep as int), mass),
    ensures
        reading.of(mass) == cumulative(reading, drawing, drawing.keep),
{
    let some = drawing.probabilities.take(drawing.keep as int);
    let start = choose|start: T| #[trigger] zero(start) && added(start, some, mass);
    reading.lemma_added(start, some, mass);
    lemma_sigma_equal(
        drawing.keep,
        |i: int| reading.of(some[i]),
        |i: int| probability(reading, drawing, i),
    );
}

/// The candidates that stay are the fewest that reach the nucleus: together they have at
/// least its probability, or are all, and without the last of them they have less.
pub proof fn nuclei_are_the_fewest_that_reach<T: Scalar>(
    reading: Reading<T>,
    logits: Seq<T>,
    config: GenerationConfig<T>,
    random: u64,
    after: u64,
    drawing: Drawing<T>,
    token: u32,
)
    requires
        reading.exact(),
        samples(logits, config, random, after, drawing, Ok(token)),
    ensures
        1 <= drawing.keep <= drawing.probabilities.len(),
        reading.of(drawing.mass) == cumulative(reading, drawing, drawing.keep),
        reading.of(drawing.mass) > 0 as real,
        reading.of(config.top_p) < 1 as real ==> {
            &&& drawing.keep < drawing.probabilities.len() ==> cumulative(
                reading,
                drawing,
                drawing.keep,
            ) >= reading.of(config.top_p)
            &&& forall|n: nat|
                1 <= n < drawing.keep ==> #[trigger] cumulative(reading, drawing, n) < reading.of(
                    config.top_p,
                )
        },
        reading.of(config.top_p) >= 1 as real ==> drawing.keep == drawing.probabilities.len(),
{
    probabilities_follow_logits_over_temperature(
        reading,
        logits,
        config,
        random,
        after,
        drawing,
        token,
    );
    let p = config.top_p;
    let (all, strict) = choose|all: T, strict: bool|
        {
            &&& one(all)
            &&& #[trigger] less(p, all, strict)
            &&& if strict {
                &&& drawing.keep <= drawing.probabilities.len()
                &&& nucleus(drawing.probabilities, p, drawing.keep)
                &&& exists|start: T| #[trigger]
                    zero(start) && added(
                        start,
                        drawing.probabilities.take(drawing.keep as int),
                        drawing.mass,
                    )
            } else {
                &&& drawing.keep == drawing.probabilities.len()
                &&& one(drawing.mass)
            }
        };
    let f = |i: int| probability(reading, drawing, i);
    if strict {
        lemma_kept(reading, drawing, drawing.mass);
        let sums = choose|sums: Seq<T>|
            {
                &&& #[trigger] running(drawing.probabilities, sums)
                &&& sums.len() == drawing.keep
                &&& drawing.keep >= 1
                &&& forall|i: int|
                    0 <= i < drawing.keep - 1 ==> at_most(p, #[trigger] sums[i], false)
                &&& if drawing.keep < drawing.probabilities.len() {
                    at_most(p, sums.last(), true)
                } else {
                    true
                }
            };
        lemma_running(reading, drawing, sums, drawing.keep - 1);
        assert forall|n: nat| 1 <= n < drawing.keep implies #[trigger] cumulative(
            reading,
            drawing,
            n,
        ) < reading.of(p) by {
            lemma_running(reading, drawing, sums, n - 1);
            assert(at_most(p, sums[n - 1], false));
        }
    }
    assert forall|i: int| 0 <= i < drawing.keep implies #[trigger] f(i) >= 0 as real by {
        assert(probability(reading, drawing, i) > 0 as real);
    }
    lemma_sigma_positive(drawing.keep, f, 0);
    assert(probability(reading, drawing, 0) > 0 as real);
}

/// What is left of a threshold after candidates that were not met.
proof fn lemma_left<T: Scalar>(
    reading: Reading<T>,
    drawing: Drawing<T>,
    left: Seq<T>,
    i: int,
)
    requires
        reading.exact(),
        drawing.keep <= drawing.probabilities.len(),
        descends(
            drawing.probabilities.take(drawing.keep as int),
            drawing.threshold,
            left,
        ),
        0 <= i < left.len(),
    ensures
        reading.of(left[i]) == reading.of(drawing.threshold) - cumulative(
            reading,
            drawing,
            i as nat,
        ),
        i > 0 ==> reading.of(left[i]) > 0 as real,
    decreases i,
{
    if i > 0 {
        lemma_left(reading, drawing, left, i - 1);
        let some = drawing.probabilities.take(drawing.keep as int);
        assert(passes(left[i - 1], some[i - 1], left[i]));
        reveal(passes);
        assert(at_most(left[i - 1], some[i - 1], false));
        assert(some[i - 1] == drawing.probabilities[i - 1]);
    }
}

/// A draw takes the candidate at whose probability the running sum reaches the drawn part of
/// what stays: with `u` the upper bits of the generator over two to the twenty-fourth, the
/// sum before the candidate is below `u * mass`, or there is none before it, and the sum with
/// it is not.
pub proof fn draws_invert_the_running_sums<T: Scalar>(
    reading: Reading<T>,
    logits: Seq<T>,
    config: GenerationConfig<T>,
    random: u64,
    after: u64,
    drawing: Drawing<T>,
    token: u32,
)
    requires
        reading.exact(),
        samples(logits, config, random, after, drawing, Ok(token)),
    ensures
        token == drawing.best[drawing.picked].0,
        0 <= drawing.picked < drawing.keep,
        ({
            let u = (after >> 40) as real / 16777216 as real;
            let drawn = u * cumulative(reading, drawing, drawing.keep);
            &&& drawing.picked > 0 ==> cumulative(reading, drawing, drawing.picked as nat) < drawn
            &&& drawn <= cumulative(reading, drawing, (drawing.picked + 1) as nat)
        }),
{
    nuclei_are_the_fewest_that_reach(reading, logits, config, random, after, drawing, token);
    let some = drawing.probabilities.take(drawing.keep as int);
    let bits = (after >> 40) as usize;
    assert(after >> 40 <= 0xFF_FFFF) by (bit_vector);
    let unit = choose|unit: T|
        ratio((after >> 40) as usize, 16777216, unit) && #[trigger] product(
            unit,
            drawing.mass,
            drawing.threshold,
        );
    reading.lemma_ratio(bits, 16777216, unit);
    let u = (after >> 40) as real / 16777216 as real;
    let x = reading.of(unit);
    let k = (after >> 40) as real;
    assert(bits as real == k);
    assert(x == u) by (nonlinear_arith)
        requires
            x * 16777216 as real == k,
            u == k / 16777216 as real,
    ;
    assert(u < 1 as real) by (nonlinear_arith)
        requires
            u == k / 16777216 as real,
            k < 16777216 as real,
    ;
    let left = choose|left: Seq<T>|
        {
            &&& #[trigger] descends(some, drawing.threshold, left)
            &&& {
                ||| left.len() - 1 == drawing.picked < some.len() && at_most(
                    left.last(),
                    some[drawing.picked],
                    true,
                )
                ||| left.len() - 1 == some.len() && drawing.picked == some.len() - 1
            }
        };
    lemma_left(reading, drawing, left, left.len() - 1);
    let m = reading.of(drawing.mass);
    if left.len() - 1 == some.len() {
        assert(u * m < m) by (nonlinear_arith)
            requires
                u < 1 as real,
                m > 0 as real,
        ;
        assert(false);
    }
    let c = cumulative(reading, drawing, drawing.picked as nat);
    assert(reading.of(left.last()) <= reading.of(some[drawing.picked]));
    assert(cumulative(reading, drawing, (drawing.picked + 1) as nat) == c + probability(
        reading,
        drawing,
        drawing.picked,
    ));
}

} // verus!
