//! What cross-entropy losses and their gradients are.

use crate::cuda::command::loss_gathered;
use crate::cuda::loss_kernels::{
    class_gradient, class_loss, device_gradient, device_loss, label_loss, stray,
};
use crate::exact::sums::{
    lemma_sigma_add, lemma_sigma_equal, lemma_sigma_positive, lemma_sigma_scale,
    lemma_sigma_single, sigma,
};
use crate::exact::{natural, Reading};
use crate::forward::{
    averaged, classified, countable, mean_loss, negative, normalizer, row_loss, row_of,
    sample_loss, shifted_exponential, summed, whole,
};
use crate::reverse::{cross_entropy_gradients, labelled_gradient, logit_gradient, shared_out};
use crate::scalar::{
    counted, difference, equals, fractional, logged, product, quotient, sum, truncated, zero,
    Scalar,
};
use vstd::prelude::*;

verus! {

/// The sum of the exponentials of logits.
pub open spec fn mass<T: Scalar>(reading: Reading<T>, logits: Seq<T>) -> real {
    sigma(logits.len(), |j: int| reading.e(reading.of(logits[j])))
}

/// A loss of a row, on the host or on a device.
pub open spec fn any_row_loss<T: Scalar>(logits: Seq<T>, target: int, r: T) -> bool {
    row_loss(logits, target, r) || class_loss(logits, target, r)
}

/// The sum of the shifted exponentials, shifted back.
proof fn lemma_normalizer<T: Scalar>(reading: Reading<T>, logits: Seq<T>, top: T, norm: T)
    requires
        reading.exact(),
        normalizer(logits, top, norm),
    ensures
        reading.of(norm) * reading.e(reading.of(top)) == mass(reading, logits),
        logits.len() > 0 ==> reading.of(norm) > 0 as real,
{
    let terms = choose|terms: Seq<T>|
        {
            &&& terms.len() == logits.len()
            &&& forall|i: int|
                0 <= i < terms.len() ==> shifted_exponential(
                    logits[i],
                    top,
                    #[trigger] terms[i],
                )
            &&& #[trigger] summed(terms, norm)
        };
    reading.lemma_summed(terms, norm);
    let f = |i: int| reading.of(terms[i]);
    let c = reading.e(reading.of(top));
    assert forall|i: int| 0 <= i < terms.len() implies #[trigger] f(i) * c == reading.e(
        reading.of(logits[i]),
    ) && f(i) > 0 as real by {
        assert(shifted_exponential(logits[i], top, terms[i]));
        reading.lemma_e_less(reading.of(logits[i]), reading.of(top));
    }
    lemma_sigma_scale(terms.len(), c, f);
    lemma_sigma_equal(
        terms.len(),
        |i: int| f(i) * c,
        |j: int| reading.e(reading.of(logits[j])),
    );
    if logits.len() > 0 {
        lemma_sigma_positive(terms.len(), f, 0);
        assert(f(0) > 0 as real);
    }
}

/// The loss of a row is the negated logarithm of the probability of its target: its
/// exponential, times that of the target's logit, is the sum of the exponentials of all
/// logits.  It is never negative.
pub proof fn losses_are_negated_log_probabilities<T: Scalar>(
    reading: Reading<T>,
    logits: Seq<T>,
    target: int,
    r: T,
)
    requires
        reading.exact(),
        0 <= target < logits.len(),
        any_row_loss(logits, target, r),
    ensures
        reading.e(reading.of(r)) * reading.e(reading.of(logits[target])) == mass(reading, logits),
        reading.of(r) >= 0 as real,
{
    let (top, norm, log, upper) = if row_loss(logits, target, r) {
        choose|top: T, norm: T, log: T, upper: T|
            {
                &&& crate::forward::peak(logits, top)
                &&& #[trigger] normalizer(logits, top, norm)
                &&& logged(norm, log)
                &&& sum(log, top, upper)
                &&& #[trigger] difference(upper, logits[target], r)
            }
            && #[trigger] logged(norm, log)
    } else {
        choose|top: T, norm: T, log: T, upper: T|
            {
                &&& crate::cuda::loss_kernels::summit(logits, top)
                &&& #[trigger] normalizer(logits, top, norm)
                &&& #[trigger] logged(norm, log)
                &&& sum(log, top, upper)
                &&& #[trigger] difference(upper, logits[target], r)
            }
    };
    lemma_normalizer(reading, logits, top, norm);
    let at = reading.of(logits[target]);
    reading.lemma_e(reading.of(log), reading.of(top));
    reading.lemma_e(reading.of(r), at);
    assert(reading.of(r) + at == reading.of(log) + reading.of(top));
    let f = |j: int| reading.e(reading.of(logits[j]));
    assert forall|j: int| 0 <= j < logits.len() implies #[trigger] f(j) >= 0 as real by {
        reading.lemma_e(reading.of(logits[j]), 0 as real);
    }
    lemma_sigma_positive(logits.len(), f, target);
    assert(mass(reading, logits) >= f(target));
    let (a, b) = (reading.e(reading.of(r)), reading.e(at));
    assert(a >= 1 as real) by (nonlinear_arith)
        requires
            a * b >= b,
            b > 0 as real,
    ;
    reading.lemma_e(reading.of(r), 0 as real);
}

/// One number added to all logits of a row leaves the loss.
pub proof fn losses_ignore_shifts<T: Scalar>(
    reading: Reading<T>,
    logits: Seq<T>,
    shifted: Seq<T>,
    by: real,
    target: int,
    r: T,
    s: T,
)
    requires
        reading.exact(),
        0 <= target < logits.len(),
        shifted.len() == logits.len(),
        forall|j: int|
            0 <= j < logits.len() ==> #[trigger] reading.of(shifted[j]) == reading.of(logits[j])
                + by,
        any_row_loss(logits, target, r),
        any_row_loss(shifted, target, s),
    ensures
        reading.of(s) == reading.of(r),
{
    losses_are_negated_log_probabilities(reading, logits, target, r);
    losses_are_negated_log_probabilities(reading, shifted, target, s);
    let c = reading.e(by);
    let f = |j: int| reading.e(reading.of(logits[j]));
    assert forall|j: int| 0 <= j < logits.len() implies #[trigger] f(j) * c == reading.e(
        reading.of(shifted[j]),
    ) by {
        reading.lemma_e(reading.of(logits[j]), by);
    }
    lemma_sigma_scale(logits.len(), c, f);
    lemma_sigma_equal(
        logits.len(),
        |j: int| f(j) * c,
        |j: int| reading.e(reading.of(shifted[j])),
    );
    reading.lemma_e(reading.of(logits[target]), by);
    let (x, y) = (reading.e(reading.of(r)), reading.e(reading.of(s)));
    let (m, t) = (mass(reading, logits), reading.e(reading.of(logits[target])));
    assert(reading.of(shifted[target]) == reading.of(logits[target]) + by);
    assert(x == y) by (nonlinear_arith)
        requires
            x * t == m,
            y * (t * c) == m * c,
            t > 0 as real,
            c > 0 as real,
    ;
    reading.lemma_e(reading.of(r), reading.of(s));
}

/// A label that names a class is its number.
proof fn lemma_label<T: Scalar>(reading: Reading<T>, label: T, classes: usize, target: usize)
    requires
        reading.exact(),
        classified(label, classes, Ok(target)),
    ensures
        reading.of(label) == target as real,
{
    assert(countable(label, true));
    assert(negative(label, false) && whole(label, true));
    let (part, z) = choose|part: T, z: T|
        fractional(label, part) && zero(z) && #[trigger] equals(part, z, true);
    assert(fractional(label, part) && reading.of(part) == 0 as real);
    assert(reading.of(label) >= 0 as real);
    let n = choose|n: nat|
        reading.of(label) == #[trigger] natural(n) + reading.of(part) && 0 as real <= reading.of(
            part,
        ) < 1 as real;
    assert(reading.of(label) == n as real);
    assert(truncated(label, target));
    if n < usize::MAX {
        assert(target as real <= n as real && (n as real) < target as real + 1 as real);
        assert(target == n);
    }
}

/// A loss over rows: the losses of the rows, of which `r` is the mean.
pub open spec fn averages_rows<T: Scalar>(
    reading: Reading<T>,
    logits: Seq<T>,
    targets: Seq<T>,
    batch: usize,
    classes: usize,
    losses: Seq<real>,
    r: T,
) -> bool {
    &&& losses.len() == batch
    &&& reading.of(r) * batch as real == sigma(batch as nat, |b: int| losses[b])
    &&& forall|b: int|
        0 <= b < batch ==> names_the_loss(
            reading,
            row_of(logits, b, classes as int),
            reading.of(targets[b]),
            #[trigger] losses[b],
        )
}

/// The label is the number of a class, whose negated log-probability is `loss`.
pub open spec fn names_the_loss<T: Scalar>(
    reading: Reading<T>,
    logits: Seq<T>,
    label: real,
    loss: real,
) -> bool {
    exists|target: int|
        {
            &&& 0 <= target < logits.len()
            &&& label == target as real
            &&& reading.e(loss) * reading.e(reading.of(#[trigger] logits[target])) == mass(
                reading,
                logits,
            )
            &&& loss >= 0 as real
        }
}

/// The loss of a batch is the mean, over its rows, of the negated log-probabilities of the
/// classes that the labels name.  It is never negative.
pub proof fn mean_losses_average_the_rows<T: Scalar>(
    reading: Reading<T>,
    logits: Seq<T>,
    targets: Seq<T>,
    batch: usize,
    classes: usize,
    r: T,
) -> (losses: Seq<real>)
    requires
        reading.exact(),
        batch > 0,
        mean_loss(logits, targets, batch, classes, r),
    ensures
        averages_rows(reading, logits, targets, batch, classes, losses, r),
        reading.of(r) >= 0 as real,
{
    let parts = choose|losses: Seq<T>|
        {
            &&& losses.len() == batch
            &&& forall|b: int|
                0 <= b < batch ==> sample_loss(
                    row_of(logits, b, classes as int),
                    targets[b],
                    classes,
                    #[trigger] losses[b],
                )
            &&& #[trigger] averaged(losses, batch, r)
        };
    let losses = reading.all(parts);
    assert forall|b: int| 0 <= b < batch implies names_the_loss(
        reading,
        row_of(logits, b, classes as int),
        reading.of(targets[b]),
        #[trigger] losses[b],
    ) && losses[b] >= 0 as real by {
        let row = row_of(logits, b, classes as int);
        assert(sample_loss(row, targets[b], classes, parts[b]));
        let target = choose|target: usize|
            #[trigger] classified(targets[b], classes, Ok(target)) && row_loss(
                row,
                target as int,
                parts[b],
            );
        lemma_label(reading, targets[b], classes, target);
        losses_are_negated_log_probabilities(reading, row, target as int, parts[b]);
        assert(reading.of(row[target as int]) == reading.of(row[target as int]));
    }
    reading.lemma_averaged(parts, batch, r);
    lemma_sigma_equal(batch as nat, |i: int| reading.of(parts[i]), |b: int| losses[b]);
    lemma_mean_positive(reading, losses, batch, r);
    losses
}

proof fn lemma_mean_positive<T: Scalar>(
    reading: Reading<T>,
    losses: Seq<real>,
    batch: usize,
    r: T,
)
    requires
        batch > 0,
        losses.len() == batch,
        reading.of(r) * batch as real == sigma(batch as nat, |b: int| losses[b]),
        forall|b: int| 0 <= b < batch ==> #[trigger] losses[b] >= 0 as real,
    ensures
        reading.of(r) >= 0 as real,
{
    lemma_sigma_positive(batch as nat, |b: int| losses[b], 0);
    let (x, n) = (reading.of(r), batch as real);
    assert(x >= 0 as real) by (nonlinear_arith)
        requires
            x * n >= 0 as real,
            n > 0 as real,
    ;
}

/// A number is that of a class.
pub open spec fn numbers_a_class(label: real, classes: usize) -> bool {
    exists|n: nat| n < classes && label == #[trigger] natural(n)
}

/// A device reads such a label as it is.
proof fn lemma_device_label<T: Scalar>(
    reading: Reading<T>,
    label: T,
    classes: usize,
    n: usize,
)
    requires
        reading.counts(),
        numbers_a_class(reading.of(label), classes),
        truncated(label, n),
    ensures
        n < classes,
        reading.of(label) == n as real,
{
    let m = choose|m: nat| m < classes && reading.of(label) == #[trigger] natural(m);
    let top = usize::MAX as nat;
    lemma_order(m, top);
    assert(reading.of(label) < usize::MAX as real);
    assert(truncated(label, n));
    lemma_between(n as nat, m);
}

/// Counts as numbers keep their order.
proof fn lemma_order(m: nat, n: nat)
    ensures
        m < n <==> (m as real) < n as real,
        m as real >= 0 as real,
{
}

/// A count between another and the next is the other.
proof fn lemma_between(n: nat, m: nat)
    requires
        n as real <= m as real,
        (m as real) < n as real + 1 as real,
    ensures
        n == m,
{
    assert(n as real + 1 as real == (n + 1) as real);
}

/// The loss of one row on a device.
proof fn lemma_device_row<T: Scalar>(
    reading: Reading<T>,
    row: Seq<T>,
    label: T,
    classes: usize,
    loss: T,
)
    requires
        reading.exact(),
        row.len() == classes,
        numbers_a_class(reading.of(label), classes),
        label_loss(row, label, classes, loss),
    ensures
        names_the_loss(reading, row, reading.of(label), reading.of(loss)),
        reading.of(loss) >= 0 as real,
{
    let target = choose|target: usize| #[trigger]
        truncated(label, target) && target < classes && class_loss(row, target as int, loss);
    lemma_device_label(reading, label, classes, target);
    losses_are_negated_log_probabilities(reading, row, target as int, loss);
    assert(reading.of(row[target as int]) == reading.of(row[target as int]));
}

/// A device gives the same mean for labels that are numbers of classes.
pub proof fn device_losses_average_the_rows<T: Scalar>(
    reading: Reading<T>,
    logits: Seq<T>,
    targets: Seq<T>,
    batch: usize,
    classes: usize,
    r: T,
) -> (losses: Seq<real>)
    requires
        reading.exact(),
        batch > 0,
        device_loss(logits, targets, batch, classes, r),
        forall|b: int|
            0 <= b < batch ==> numbers_a_class(reading.of(#[trigger] targets[b]), classes),
    ensures
        averages_rows(reading, logits, targets, batch, classes, losses, r),
        reading.of(r) >= 0 as real,
{
    if exists|b: int| 0 <= b < batch && stray(#[trigger] targets[b], classes) {
        let b = choose|b: int| 0 <= b < batch && stray(#[trigger] targets[b], classes);
        let n = choose|n: usize| #[trigger] truncated(targets[b], n) && n >= classes;
        lemma_device_label(reading, targets[b], classes, n);
        assert(false);
    }
    let parts = choose|losses: Seq<T>|
        {
            &&& losses.len() == batch
            &&& forall|b: int|
                0 <= b < batch ==> label_loss(
                    row_of(logits, b, classes as int),
                    targets[b],
                    classes,
                    #[trigger] losses[b],
                )
            &&& #[trigger] averaged(losses, batch, r)
        };
    let losses = reading.all(parts);
    assert forall|b: int| 0 <= b < batch implies names_the_loss(
        reading,
        row_of(logits, b, classes as int),
        reading.of(targets[b]),
        #[trigger] losses[b],
    ) && losses[b] >= 0 as real by {
        assert(label_loss(row_of(logits, b, classes as int), targets[b], classes, parts[b]));
        lemma_device_row(
            reading,
            row_of(logits, b, classes as int),
            targets[b],
            classes,
            parts[b],
        );
    }
    reading.lemma_averaged(parts, batch, r);
    lemma_sigma_equal(batch as nat, |i: int| reading.of(parts[i]), |b: int| losses[b]);
    lemma_mean_positive(reading, losses, batch, r);
    losses
}

/// One for the class that a label names, zero for the others.
pub open spec fn hit(class: int, target: int) -> real {
    if class == target {
        1 as real
    } else {
        0 as real
    }
}

/// The gradient of a logit is the gradient of the loss, times the probability of its class
/// less one for the target.
proof fn lemma_logit_gradient<T: Scalar>(
    reading: Reading<T>,
    logits: Seq<T>,
    class: int,
    target: int,
    scale: T,
    r: T,
)
    requires
        reading.exact(),
        0 <= class < logits.len(),
        logit_gradient(logits, class, target, scale, r),
    ensures
        reading.of(r) * mass(reading, logits) == reading.of(scale) * (reading.e(
            reading.of(logits[class]),
        ) - hit(class, target) * mass(reading, logits)),
{
    let (top, norm, weight, probability, one, gap) = choose|
        top: T,
        norm: T,
        weight: T,
        probability: T,
        hit: T,
        gap: T,
    |
        {
            &&& crate::forward::peak(logits, top)
            &&& #[trigger] normalizer(logits, top, norm)
            &&& shifted_exponential(logits[class], top, weight)
            &&& #[trigger] quotient(weight, norm, probability)
            &&& counted(
                if class == target {
                    1
                } else {
                    0
                },
                hit,
            )
            &&& #[trigger] difference(probability, hit, gap)
            &&& #[trigger] product(scale, gap, r)
        };
    lemma_share(reading, logits, class, target, top, norm, weight, probability, one, gap, scale, r);
}

proof fn lemma_share<T: Scalar>(
    reading: Reading<T>,
    logits: Seq<T>,
    class: int,
    target: int,
    top: T,
    norm: T,
    weight: T,
    probability: T,
    one: T,
    gap: T,
    scale: T,
    r: T,
)
    requires
        reading.exact(),
        0 <= class < logits.len(),
        normalizer(logits, top, norm),
        shifted_exponential(logits[class], top, weight),
        quotient(weight, norm, probability),
        counted(
            if class == target {
                1
            } else {
                0
            },
            one,
        ),
        difference(probability, one, gap),
        product(scale, gap, r),
    ensures
        reading.of(r) * mass(reading, logits) == reading.of(scale) * (reading.e(
            reading.of(logits[class]),
        ) - hit(class, target) * mass(reading, logits)),
{
    lemma_normalizer(reading, logits, top, norm);
    reading.lemma_e_less(reading.of(logits[class]), reading.of(top));
    assert(reading.of(one) == hit(class, target));
    let (p, n, w) = (reading.of(probability), reading.of(norm), reading.of(weight));
    let (t, m, x) = (
        reading.e(reading.of(top)),
        mass(reading, logits),
        reading.e(reading.of(logits[class])),
    );
    let (s, h, g) = (reading.of(scale), hit(class, target), reading.of(r));
    assert(g * m == s * (x - h * m)) by (nonlinear_arith)
        requires
            p * n == w,
            w * t == x,
            n * t == m,
            g == s * (p - h),
    {
        assert(p * m == x) by (nonlinear_arith)
            requires
                p * n == w,
                w * t == x,
                n * t == m,
        ;
        assert(s * (p - h) * m == s * (p * m - h * m)) by (nonlinear_arith);
    }
}

/// The gradient of one logit of a batch, on the host or on a device.
pub open spec fn any_gradient<T: Scalar>(
    logits: Seq<T>,
    targets: Seq<T>,
    batch: usize,
    classes: usize,
    outer: T,
    out: Seq<T>,
) -> bool {
    cross_entropy_gradients(logits, targets, batch, classes, outer, out) || exists|
        gradient: Seq<T>,
    |
        gradient.len() == 1 && gradient[0] == outer && #[trigger] loss_gathered(
            logits,
            targets,
            gradient,
            batch,
            classes,
            out,
        )
}

/// The gradients of the logits of a batch are, row by row, the probabilities of the
/// classes, less one for the class that the label names, in equal parts of the gradient of
/// the loss.  Those of a row add up to zero.
pub proof fn loss_gradients_are_probabilities_less_labels<T: Scalar>(
    reading: Reading<T>,
    logits: Seq<T>,
    targets: Seq<T>,
    batch: usize,
    classes: usize,
    outer: T,
    out: Seq<T>,
    b: int,
    target: int,
)
    requires
        reading.exact(),
        any_gradient(logits, targets, batch, classes, outer, out),
        0 <= b < batch,
        0 <= target < classes,
        reading.of(targets[b]) == target as real,
    ensures
        forall|c: int|
            0 <= c < classes ==> reading.of(#[trigger] out[b * classes + c]) * batch as real * mass(
                reading,
                row_of(logits, b, classes as int),
            ) == reading.of(outer) * (reading.e(reading.of(logits[b * classes + c])) - hit(
                c,
                target,
            ) * mass(reading, row_of(logits, b, classes as int))),
        sigma(classes as nat, |c: int| reading.of(out[b * classes + c])) == 0 as real,
{
    let row = row_of(logits, b, classes as int);
    let m = mass(reading, row);
    let n = batch as real;
    assert forall|c: int| 0 <= c < classes implies reading.of(#[trigger] out[b * classes + c]) * n
        * m == reading.of(outer) * (reading.e(reading.of(logits[b * classes + c])) - hit(c, target)
        * m) by {
        let i = b * classes + c;
        crate::index::lemma_flat(b, batch as int, c, classes as int);
        crate::index::lemma_flat_inverse(b, c, classes as int);
        let scale = lemma_gradient_at(
            reading,
            logits,
            targets,
            batch,
            classes,
            outer,
            out,
            b,
            c,
            target,
        );
        let (g, s, o) = (reading.of(out[i]), reading.of(scale), reading.of(outer));
        let d = reading.e(reading.of(row[c])) - hit(c, target) * m;
        assert(g * n * m == o * d) by (nonlinear_arith)
            requires
                g * m == s * d,
                s * n == o,
        ;
    }
    let f = |c: int| reading.of(out[b * classes + c]);
    let e = |c: int| reading.e(reading.of(row[c]));
    let h = |c: int| hit(c, target);
    let o = reading.of(outer);
    let k = n * m;
    assert forall|c: int| 0 <= c < classes implies #[trigger] f(c) * k == o * (e(c) - h(c) * m) by {
        let g = reading.of(out[b * classes + c]);
        assert(g * (n * m) == g * n * m) by (nonlinear_arith);
    }
    let nat_classes = classes as nat;
    lemma_sigma_scale(nat_classes, k, f);
    lemma_sigma_scale(nat_classes, m, h);
    let hm = |c: int| h(c) * m;
    lemma_sigma_add(nat_classes, e, hm);
    let d = |c: int| e(c) - hm(c);
    lemma_sigma_scale(nat_classes, o, d);
    lemma_sigma_equal(nat_classes, |c: int| f(c) * k, |c: int| o * d(c));
    lemma_sigma_single(nat_classes, h, target);
    assert(h(target) == 1 as real);
    lemma_sigma_equal(nat_classes, e, |j: int| reading.e(reading.of(row[j])));
    assert(sigma(nat_classes, d) == 0 as real) by {
        assert(sigma(nat_classes, hm) == sigma(nat_classes, h) * m);
        assert(1 as real * m == m) by (nonlinear_arith);
        lemma_sigma_equal(nat_classes, d, |c: int| e(c) - hm(c));
    }
    assert forall|j: int| 0 <= j < classes implies #[trigger] e(j) >= 0 as real by {
        reading.lemma_e(reading.of(row[j]), 0 as real);
    }
    lemma_sigma_positive(nat_classes, e, target);
    reading.lemma_e(reading.of(row[target]), 0 as real);
    assert(m > 0 as real);
    let total = sigma(nat_classes, f);
    assert(total == 0 as real) by (nonlinear_arith)
        requires
            total * k == o * 0 as real,
            k == n * m,
            n > 0 as real,
            m > 0 as real,
    ;
}

/// The gradient at one class, and its scale.
proof fn lemma_gradient_at<T: Scalar>(
    reading: Reading<T>,
    logits: Seq<T>,
    targets: Seq<T>,
    batch: usize,
    classes: usize,
    outer: T,
    out: Seq<T>,
    b: int,
    c: int,
    target: int,
) -> (scale: T)
    requires
        reading.exact(),
        any_gradient(logits, targets, batch, classes, outer, out),
        0 <= b < batch,
        0 <= c < classes,
        0 <= target < classes,
        reading.of(targets[b]) == target as real,
    ensures
        reading.of(scale) * batch as real == reading.of(outer),
        reading.of(out[b * classes + c]) * mass(reading, row_of(logits, b, classes as int))
            == reading.of(scale) * (reading.e(
            reading.of(row_of(logits, b, classes as int)[c]),
        ) - hit(c, target) * mass(reading, row_of(logits, b, classes as int))),
{
    let row = row_of(logits, b, classes as int);
    let i = b * classes + c;
    crate::index::lemma_flat(b, batch as int, c, classes as int);
    crate::index::lemma_flat_inverse(b, c, classes as int);
    if cross_entropy_gradients(logits, targets, batch, classes, outer, out) {
        let scale = choose|scale: T|
            {
                &&& #[trigger] shared_out(outer, batch, scale)
                &&& out.len() == batch * classes
                &&& forall|i: int|
                    0 <= i < out.len() ==> labelled_gradient(
                        row_of(logits, i / classes as int, classes as int),
                        targets[i / classes as int],
                        classes,
                        i % classes as int,
                        scale,
                        #[trigger] out[i],
                    )
            };
        assert(labelled_gradient(row, targets[b], classes, c, scale, out[i]));
        let named = choose|named: usize|
            #[trigger] classified(targets[b], classes, Ok(named)) && logit_gradient(
                row,
                c,
                named as int,
                scale,
                out[i],
            );
        lemma_label(reading, targets[b], classes, named);
        assert(named == target);
        lemma_logit_gradient(reading, row, c, target, scale, out[i]);
        scale
    } else {
        let gradient = choose|gradient: Seq<T>|
            gradient.len() == 1 && gradient[0] == outer && #[trigger] loss_gathered(
                logits,
                targets,
                gradient,
                batch,
                classes,
                out,
            );
        assert(device_gradient(logits, targets, outer, batch, classes, i, out[i]));
        let named = choose|named: usize| #[trigger]
            truncated(targets[b], named) && if named >= classes {
                crate::scalar::decoded(crate::cuda::loss_kernels::NAN, out[i])
            } else {
                class_gradient(row, c, named as int, outer, batch, out[i])
            };
        assert(target < usize::MAX);
        assert(named as real <= target as real && (target as real) < named as real + 1 as real);
        assert(named == target);
        let (top, norm, weight, probability, scale, one, gap) = choose|
            top: T,
            norm: T,
            weight: T,
            probability: T,
            scale: T,
            hit: T,
            gap: T,
        |
            {
                &&& crate::cuda::loss_kernels::summit(row, top)
                &&& #[trigger] normalizer(row, top, norm)
                &&& shifted_exponential(row[c], top, weight)
                &&& #[trigger] quotient(weight, norm, probability)
                &&& #[trigger] crate::cuda::norm_kernels::divided(outer, batch, scale)
                &&& counted(
                    if c == target {
                        1
                    } else {
                        0
                    },
                    hit,
                )
                &&& #[trigger] difference(probability, hit, gap)
                &&& #[trigger] product(scale, gap, out[i])
            };
        lemma_share(
            reading,
            row,
            c,
            target,
            top,
            norm,
            weight,
            probability,
            one,
            gap,
            scale,
            out[i],
        );
        scale
    }
}

} // verus!
