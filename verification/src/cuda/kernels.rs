//! What each thread of a kernel computes.
//!
//! A kernel writes, in the thread that works on an element, the value that the function
//! here returns for it.

use crate::forward::{dot_product, row_by_column};
use crate::index::{lemma_flat, lemma_unflat};
use crate::optim::{descended, direction, element_updated, first_moved, second_moved, Rates};
use crate::reverse::{gated, left_factors};
use crate::scalar::{
    difference, dotted, lemma_dotted_push, less, product, quotient, sum, zero, Scalar,
};
use vstd::prelude::*;

verus! {

/// One element of a sum.
pub fn add<T: Scalar>(raw: usize, a: &[T], b: &[T]) -> (r: T)
    requires
        raw < a@.len(),
        raw < b@.len(),
    ensures
        sum(a@[raw as int], b@[raw as int], r),
{
    a[raw].plus(b[raw])
}

/// One element of a product.
pub fn mul<T: Scalar>(raw: usize, a: &[T], b: &[T]) -> (r: T)
    requires
        raw < a@.len(),
        raw < b@.len(),
    ensures
        product(a@[raw as int], b@[raw as int], r),
{
    a[raw].times(b[raw])
}

/// One element of the gradient of a product.
pub fn mul_backward<T: Scalar>(raw: usize, gradient: &[T], other: &[T]) -> (r: T)
    requires
        raw < gradient@.len(),
        raw < other@.len(),
    ensures
        product(gradient@[raw as int], other@[raw as int], r),
{
    gradient[raw].times(other[raw])
}

/// One element of the sum of two gradients.
pub fn accumulate<T: Scalar>(raw: usize, a: &[T], b: &[T]) -> (r: T)
    requires
        raw < a@.len(),
        raw < b@.len(),
    ensures
        sum(a@[raw as int], b@[raw as int], r),
{
    a[raw].plus(b[raw])
}

/// One element of a gradient that passes where the input is above zero.
pub fn relu_backward<T: Scalar>(raw: usize, gradient: &[T], input: &[T]) -> (r: T)
    requires
        raw < gradient@.len(),
        raw < input@.len(),
    ensures
        gated(input@[raw as int], gradient@[raw as int], r),
{
    let nothing = T::of_count(0);
    let positive = nothing.below(input[raw]);
    assert(less(nothing, input@[raw as int], positive));
    if positive {
        gradient[raw]
    } else {
        T::of_count(0)
    }
}

/// One rectified element: itself where it is above zero, and zero elsewhere.
pub fn relu<T: Scalar>(raw: usize, input: &[T]) -> (r: T)
    requires
        raw < input@.len(),
    ensures
        gated(input@[raw as int], input@[raw as int], r),
{
    relu_backward(raw, input, input)
}

/// One element of a matrix product.
pub fn matmul<T: Scalar>(raw: usize, m: usize, n: usize, k: usize, a: &[T], b: &[T]) -> (r: T)
    requires
        raw < m * n,
        a@.len() == m * k,
        b@.len() == k * n,
        a@.len() <= usize::MAX,
        b@.len() <= usize::MAX,
    ensures
        dot_product(
            row_by_column(a@, b@, k as int, n as int, raw as int / n as int, raw as int % n as int),
            r,
        ),
{
    proof {
        lemma_unflat(raw as int, m as int, n as int);
    }
    let row: usize = raw / n;
    let col: usize = raw % n;
    let ghost pairs = row_by_column(a@, b@, k as int, n as int, row as int, col as int);
    let mut total = T::of_count(0);
    let ghost start = total;
    let mut inner: usize = 0;
    assert(pairs.take(0) =~= Seq::<(T, T)>::empty());
    while inner < k
        invariant
            inner <= k,
            row < m,
            col < n,
            a@.len() == m * k,
            b@.len() == k * n,
            a@.len() <= usize::MAX,
            b@.len() <= usize::MAX,
            pairs == row_by_column(a@, b@, k as int, n as int, row as int, col as int),
            dotted(start, pairs.take(inner as int), total),
        decreases k - inner,
    {
        proof {
            lemma_flat(row as int, m as int, inner as int, k as int);
            lemma_flat(inner as int, k as int, col as int, n as int);
        }
        let left = a[row * k + inner];
        let right = b[inner * n + col];
        let part = left.times(right);
        let next = total.plus(part);
        proof {
            lemma_dotted_push(start, pairs.take(inner as int), total, left, right, part, next);
            assert(pairs.take(inner + 1) =~= pairs.take(inner as int).push((left, right)));
        }
        total = next;
        inner = inner + 1;
    }
    assert(pairs.take(inner as int) =~= pairs);
    assert(zero(start));
    total
}

/// One element of the gradient of the left operand of a matrix product.
pub fn matmul_left_backward<T: Scalar>(
    raw: usize,
    rows: usize,
    inner: usize,
    columns: usize,
    gradient: &[T],
    right: &[T],
) -> (r: T)
    requires
        raw < rows * inner,
        gradient@.len() == rows * columns,
        right@.len() == inner * columns,
        gradient@.len() <= usize::MAX,
        right@.len() <= usize::MAX,
    ensures
        dot_product(
            left_factors(
                gradient@,
                right@,
                columns as int,
                raw as int / inner as int,
                raw as int % inner as int,
            ),
            r,
        ),
{
    proof {
        lemma_unflat(raw as int, rows as int, inner as int);
    }
    let row: usize = raw / inner;
    let inner_index: usize = raw % inner;
    let ghost pairs = left_factors(
        gradient@,
        right@,
        columns as int,
        row as int,
        inner_index as int,
    );
    let mut total = T::of_count(0);
    let ghost start = total;
    let mut column: usize = 0;
    assert(pairs.take(0) =~= Seq::<(T, T)>::empty());
    while column < columns
        invariant
            column <= columns,
            row < rows,
            inner_index < inner,
            gradient@.len() == rows * columns,
            right@.len() == inner * columns,
            gradient@.len() <= usize::MAX,
            right@.len() <= usize::MAX,
            pairs == left_factors(
                gradient@,
                right@,
                columns as int,
                row as int,
                inner_index as int,
            ),
            dotted(start, pairs.take(column as int), total),
        decreases columns - column,
    {
        proof {
            lemma_flat(row as int, rows as int, column as int, columns as int);
            lemma_flat(inner_index as int, inner as int, column as int, columns as int);
        }
        let left = gradient[row * columns + column];
        let other = right[inner_index * columns + column];
        let part = left.times(other);
        let next = total.plus(part);
        proof {
            lemma_dotted_push(start, pairs.take(column as int), total, left, other, part, next);
            assert(pairs.take(column + 1) =~= pairs.take(column as int).push((left, other)));
        }
        total = next;
        column = column + 1;
    }
    assert(pairs.take(column as int) =~= pairs);
    assert(zero(start));
    total
}

/// The factors of the gradient of one right operand element of a matrix product, the
/// operand before the gradient.
pub open spec fn column_by_column<T>(
    left: Seq<T>,
    gradient: Seq<T>,
    rows: int,
    inner: int,
    columns: int,
    inner_index: int,
    column: int,
) -> Seq<(T, T)> {
    Seq::new(
        rows as nat,
        |row: int| (left[row * inner + inner_index], gradient[row * columns + column]),
    )
}

/// One element of the gradient of the right operand of a matrix product.
pub fn matmul_right_backward<T: Scalar>(
    raw: usize,
    rows: usize,
    inner: usize,
    columns: usize,
    gradient: &[T],
    left: &[T],
) -> (r: T)
    requires
        raw < inner * columns,
        gradient@.len() == rows * columns,
        left@.len() == rows * inner,
        gradient@.len() <= usize::MAX,
        left@.len() <= usize::MAX,
    ensures
        dot_product(
            column_by_column(
                left@,
                gradient@,
                rows as int,
                inner as int,
                columns as int,
                raw as int / columns as int,
                raw as int % columns as int,
            ),
            r,
        ),
{
    proof {
        lemma_unflat(raw as int, inner as int, columns as int);
    }
    let inner_index: usize = raw / columns;
    let column: usize = raw % columns;
    let ghost pairs = column_by_column(
        left@,
        gradient@,
        rows as int,
        inner as int,
        columns as int,
        inner_index as int,
        column as int,
    );
    let mut total = T::of_count(0);
    let ghost start = total;
    let mut row: usize = 0;
    assert(pairs.take(0) =~= Seq::<(T, T)>::empty());
    while row < rows
        invariant
            row <= rows,
            column < columns,
            inner_index < inner,
            gradient@.len() == rows * columns,
            left@.len() == rows * inner,
            gradient@.len() <= usize::MAX,
            left@.len() <= usize::MAX,
            pairs == column_by_column(
                left@,
                gradient@,
                rows as int,
                inner as int,
                columns as int,
                inner_index as int,
                column as int,
            ),
            dotted(start, pairs.take(row as int), total),
        decreases rows - row,
    {
        proof {
            lemma_flat(row as int, rows as int, column as int, columns as int);
            lemma_flat(row as int, rows as int, inner_index as int, inner as int);
        }
        let one = left[row * inner + inner_index];
        let other = gradient[row * columns + column];
        let part = one.times(other);
        let next = total.plus(part);
        proof {
            lemma_dotted_push(start, pairs.take(row as int), total, one, other, part, next);
            assert(pairs.take(row + 1) =~= pairs.take(row as int).push((one, other)));
        }
        total = next;
        row = row + 1;
    }
    assert(pairs.take(row as int) =~= pairs);
    assert(zero(start));
    total
}

/// One element, and its two moments, after an AdamW update.
pub fn adamw<T: Scalar>(
    raw: usize,
    rates: &Rates<T>,
    first_correction: T,
    second_correction: T,
    parameter: &[T],
    gradient: &[T],
    first_moment: &[T],
    second_moment: &[T],
) -> (r: (T, T, T))
    requires
        raw < parameter@.len(),
        raw < gradient@.len(),
        raw < first_moment@.len(),
        raw < second_moment@.len(),
    ensures
        element_updated(
            *rates,
            first_correction,
            second_correction,
            gradient@[raw as int],
            parameter@[raw as int],
            first_moment@[raw as int],
            second_moment@[raw as int],
            r.0,
            r.1,
            r.2,
        ),
{
    let slope = gradient[raw];
    let value = parameter[raw];
    let kept = rates.beta1.times(first_moment[raw]);
    let unit = T::of_count(1);
    let share = unit.minus(rates.beta1);
    let taken = share.times(slope);
    let first = kept.plus(taken);
    assert(product(rates.beta1, first_moment@[raw as int], kept));
    assert(difference(unit, rates.beta1, share));
    assert(product(share, slope, taken));
    assert(sum(kept, taken, first));
    assert(first_moved(rates.beta1, first_moment@[raw as int], slope, first));
    let kept = rates.beta2.times(second_moment[raw]);
    let unit = T::of_count(1);
    let share = unit.minus(rates.beta2);
    let once = share.times(slope);
    let taken = once.times(slope);
    let second = kept.plus(taken);
    assert(product(rates.beta2, second_moment@[raw as int], kept));
    assert(difference(unit, rates.beta2, share));
    assert(product(share, slope, once));
    assert(product(once, slope, taken));
    assert(sum(kept, taken, second));
    assert(second_moved(rates.beta2, second_moment@[raw as int], slope, second));
    let a = first.over(first_correction);
    let b = second.over(second_correction);
    let c = b.root();
    let d = c.plus(rates.epsilon);
    let normalized = a.over(d);
    assert(direction(
        first,
        second,
        first_correction,
        second_correction,
        rates.epsilon,
        normalized,
    )) by {
        assert(quotient(first, first_correction, a));
        assert(quotient(second, second_correction, b));
        assert(crate::scalar::rooted(b, c));
        assert(sum(c, rates.epsilon, d));
        assert(quotient(a, d, normalized));
    }
    let decay = rates.weight_decay.times(value);
    let total = normalized.plus(decay);
    let change = rates.learning_rate.times(total);
    let moved = value.minus(change);
    assert(product(rates.weight_decay, value, decay));
    assert(sum(normalized, decay, total));
    assert(product(rates.learning_rate, total, change));
    assert(difference(value, change, moved));
    assert(descended(value, normalized, rates.learning_rate, rates.weight_decay, moved));
    (moved, first, second)
}

} // verus!
