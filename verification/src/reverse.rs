//! Gradients of the tensor operations, computed on row-major data.

use crate::error::Result;
use crate::forward::{
    class_index, classified, dot_product, label_failure, labelled, normalizer, peak, row_normalizer,
    row_of, row_peak, shifted_exponential, lists, tap_list, Convolution, Pooling,
};
use crate::index::{lemma_flat, lemma_place, lemma_position, lemma_unflat, within, Place};
use crate::norm::{standardized, BatchNormStatistics, Planes, Statistics};
use crate::scalar::{
    all_zero, counted, difference, dotted, exponentiated, filled, lemma_dotted_push, less, product,
    quotient, sum, zero, Scalar,
};
use vstd::prelude::*;

verus! {

/// `out` is `before` with a term added to one element.
pub open spec fn bumped<T: Scalar>(before: Seq<T>, cell: int, term: T, out: Seq<T>) -> bool {
    &&& out.len() == before.len()
    &&& sum(before[cell], term, out[cell])
    &&& out == before.update(cell, out[cell])
}

/// `out` is `start` with each term added to its cell, one after the other.
pub open spec fn tallied<T: Scalar>(
    start: Seq<T>,
    entries: Seq<(int, T)>,
    out: Seq<T>,
) -> bool
    decreases entries.len(),
{
    if entries.len() == 0 {
        out == start
    } else {
        exists|before: Seq<T>|
            {
                &&& tallied(start, entries.drop_last(), before)
                &&& #[trigger] bumped(before, entries.last().0, entries.last().1, out)
            }
    }
}

/// `out` is what adding each term to its cell gives, from zeros.
pub open spec fn tally<T: Scalar>(len: int, entries: Seq<(int, T)>, out: Seq<T>) -> bool {
    exists|start: Seq<T>|
        start.len() == len && all_zero(start) && #[trigger] tallied(start, entries, out)
}

pub proof fn lemma_tallied_push<T: Scalar>(
    start: Seq<T>,
    entries: Seq<(int, T)>,
    before: Seq<T>,
    entry: (int, T),
    out: Seq<T>,
)
    requires
        tallied(start, entries, before),
        bumped(before, entry.0, entry.1, out),
    ensures
        tallied(start, entries.push(entry), out),
{
    assert(entries.push(entry).drop_last() =~= entries);
    assert(bumped(before, entries.push(entry).last().0, entries.push(entry).last().1, out));
}

pub proof fn lemma_tallied_len<T: Scalar>(start: Seq<T>, entries: Seq<(int, T)>, out: Seq<T>)
    requires
        tallied(start, entries, out),
    ensures
        out.len() == start.len(),
    decreases entries.len(),
{
    if entries.len() > 0 {
        let before = choose|before: Seq<T>|
            {
                &&& tallied(start, entries.drop_last(), before)
                &&& #[trigger] bumped(before, entries.last().0, entries.last().1, out)
            };
        lemma_tallied_len(start, entries.drop_last(), before);
    }
}

/// The terms that go to one cell, in order.
pub open spec fn terms_for<T>(entries: Seq<(int, T)>, cell: int) -> Seq<T>
    decreases entries.len(),
{
    if entries.len() == 0 {
        Seq::empty()
    } else if entries.last().0 == cell {
        terms_for(entries.drop_last(), cell).push(entries.last().1)
    } else {
        terms_for(entries.drop_last(), cell)
    }
}

/// Each cell of a tally holds the sum, in order, of the terms that go to it, and of no
/// others.
pub proof fn tally_sums_each_cell<T: Scalar>(
    start: Seq<T>,
    entries: Seq<(int, T)>,
    out: Seq<T>,
    cell: int,
)
    requires
        tallied(start, entries, out),
        0 <= cell < start.len(),
        forall|k: int| 0 <= k < entries.len() ==> 0 <= (#[trigger] entries[k]).0 < start.len(),
    ensures
        crate::scalar::added(start[cell], terms_for(entries, cell), out[cell]),
    decreases entries.len(),
{
    if entries.len() > 0 {
        let before = choose|before: Seq<T>|
            {
                &&& tallied(start, entries.drop_last(), before)
                &&& #[trigger] bumped(before, entries.last().0, entries.last().1, out)
            };
        lemma_tallied_len(start, entries.drop_last(), before);
        assert forall|k: int| 0 <= k < entries.drop_last().len() implies 0 <= (
        #[trigger] entries.drop_last()[k]).0 < start.len() by {
            assert(entries.drop_last()[k] == entries[k]);
        }
        tally_sums_each_cell(start, entries.drop_last(), before, cell);
        assert(0 <= entries[entries.len() - 1].0 < start.len());
        if entries.last().0 == cell {
            crate::scalar::lemma_added_push(
                start[cell],
                terms_for(entries.drop_last(), cell),
                before[cell],
                entries.last().1,
                out[cell],
            );
        }
    }
}

/// Adds a term to one element.
fn bump<T: Scalar>(values: &mut Vec<T>, cell: usize, term: T)
    requires
        cell < old(values).len(),
    ensures
        bumped(old(values)@, cell as int, term, final(values)@),
{
    let next = values[cell].plus(term);
    values.set(cell, next);
}

/// `len` zeros.
pub fn zeros<T: Scalar>(len: usize) -> (r: Vec<T>)
    ensures
        r.len() == len,
        all_zero(r@),
{
    filled(T::of_count(0), len)
}

/// `r` is the gradient that passes a rectifier: `gradient` where `value` is above zero,
/// zero elsewhere.
pub open spec fn gated<T: Scalar>(value: T, gradient: T, r: T) -> bool {
    exists|z: T, positive: bool|
        {
            &&& zero(z)
            &&& #[trigger] less(z, value, positive)
            &&& if positive {
                r == gradient
            } else {
                zero(r)
            }
        }
}

/// The gradient of a rectifier.
pub fn relu_gradient<T: Scalar>(values: &Vec<T>, gradient: &Vec<T>) -> (r: Vec<T>)
    requires
        values.len() == gradient.len(),
    ensures
        r.len() == values.len(),
        forall|i: int| 0 <= i < r.len() ==> gated(values@[i], gradient@[i], #[trigger] r@[i]),
{
    let mut r: Vec<T> = Vec::with_capacity(values.len());
    let mut i: usize = 0;
    while i < values.len()
        invariant
            values.len() == gradient.len(),
            i <= values.len(),
            r.len() == i,
            forall|j: int| 0 <= j < i ==> gated(values@[j], gradient@[j], #[trigger] r@[j]),
        decreases values.len() - i,
    {
        let z = T::of_count(0);
        let positive = z.below(values[i]);
        assert(zero(z) && less(z, values@[i as int], positive));
        let value = if positive {
            gradient[i]
        } else {
            z
        };
        assert(gated(values@[i as int], gradient@[i as int], value));
        r.push(value);
        i = i + 1;
    }
    r
}

/// The factors of the gradient of one left operand element of a matrix product.
pub open spec fn left_factors<T>(
    gradient: Seq<T>,
    rhs: Seq<T>,
    columns: int,
    row: int,
    inner_index: int,
) -> Seq<(T, T)> {
    Seq::new(
        columns as nat,
        |c: int| (gradient[row * columns + c], rhs[inner_index * columns + c]),
    )
}

/// The factors of the gradient of one right operand element of a matrix product.
pub open spec fn right_factors<T>(
    gradient: Seq<T>,
    lhs: Seq<T>,
    rows: int,
    inner: int,
    columns: int,
    inner_index: int,
    column: int,
) -> Seq<(T, T)> {
    Seq::new(
        rows as nat,
        |r: int| (gradient[r * columns + column], lhs[r * inner + inner_index]),
    )
}

/// `out` is the gradient of the left operand of a matrix product: the output gradient
/// times the transposed right operand.
pub open spec fn left_gradient<T: Scalar>(
    gradient: Seq<T>,
    rhs: Seq<T>,
    rows: int,
    inner: int,
    columns: int,
    out: Seq<T>,
) -> bool {
    &&& out.len() == rows * inner
    &&& forall|i: int|
        0 <= i < out.len() ==> dot_product(
            left_factors(gradient, rhs, columns, i / inner, i % inner),
            #[trigger] out[i],
        )
}

/// `out` is the gradient of the right operand of a matrix product: the transposed left
/// operand times the output gradient.
pub open spec fn right_gradient<T: Scalar>(
    gradient: Seq<T>,
    lhs: Seq<T>,
    rows: int,
    inner: int,
    columns: int,
    out: Seq<T>,
) -> bool {
    &&& out.len() == inner * columns
    &&& forall|i: int|
        0 <= i < out.len() ==> dot_product(
            right_factors(gradient, lhs, rows, inner, columns, i / columns, i % columns),
            #[trigger] out[i],
        )
}

/// The gradient of the left operand of a matrix product.
pub fn matmul_left_gradient<T: Scalar>(
    gradient: &Vec<T>,
    rhs: &Vec<T>,
    rows: usize,
    inner: usize,
    columns: usize,
) -> (r: Vec<T>)
    requires
        gradient.len() == rows * columns,
        rhs.len() == inner * columns,
        rows * inner <= usize::MAX,
    ensures
        left_gradient(gradient@, rhs@, rows as int, inner as int, columns as int, r@),
{
    let cells: usize = rows * inner;
    let mut r: Vec<T> = Vec::with_capacity(cells);
    let mut i: usize = 0;
    while i < cells
        invariant
            cells == rows * inner,
            gradient.len() == rows * columns,
            rhs.len() == inner * columns,
            i <= cells,
            r.len() == i,
            forall|j: int|
                0 <= j < i ==> dot_product(
                    left_factors(
                        gradient@,
                        rhs@,
                        columns as int,
                        j / inner as int,
                        j % inner as int,
                    ),
                    #[trigger] r@[j],
                ),
        decreases cells - i,
    {
        proof {
            lemma_unflat(i as int, rows as int, inner as int);
        }
        let row: usize = i / inner;
        let inner_index: usize = i % inner;
        let ghost pairs = left_factors(
            gradient@,
            rhs@,
            columns as int,
            row as int,
            inner_index as int,
        );
        let start = T::of_count(0);
        let mut total = start;
        let mut c: usize = 0;
        assert(pairs.take(0) =~= Seq::empty());
        while c < columns
            invariant
                gradient.len() == rows * columns,
                rhs.len() == inner * columns,
                row < rows,
                inner_index < inner,
                c <= columns,
                zero(start),
                pairs == left_factors(
                    gradient@,
                    rhs@,
                    columns as int,
                    row as int,
                    inner_index as int,
                ),
                dotted(start, pairs.take(c as int), total),
            decreases columns - c,
        {
            proof {
                lemma_flat(row as int, rows as int, c as int, columns as int);
                lemma_flat(inner_index as int, inner as int, c as int, columns as int);
            }
            let a = gradient[row * columns + c];
            let b = rhs[inner_index * columns + c];
            let part = a.times(b);
            let next = total.plus(part);
            proof {
                lemma_dotted_push(start, pairs.take(c as int), total, a, b, part, next);
                assert(pairs.take(c + 1) =~= pairs.take(c as int).push((a, b)));
            }
            total = next;
            c = c + 1;
        }
        assert(pairs.take(c as int) =~= pairs);
        assert(zero(start) && dotted(start, pairs, total));
        r.push(total);
        i = i + 1;
    }
    r
}

/// The gradient of the right operand of a matrix product.
pub fn matmul_right_gradient<T: Scalar>(
    gradient: &Vec<T>,
    lhs: &Vec<T>,
    rows: usize,
    inner: usize,
    columns: usize,
) -> (r: Vec<T>)
    requires
        gradient.len() == rows * columns,
        lhs.len() == rows * inner,
        inner * columns <= usize::MAX,
    ensures
        right_gradient(gradient@, lhs@, rows as int, inner as int, columns as int, r@),
{
    let cells: usize = inner * columns;
    let mut r: Vec<T> = Vec::with_capacity(cells);
    let mut i: usize = 0;
    while i < cells
        invariant
            cells == inner * columns,
            gradient.len() == rows * columns,
            lhs.len() == rows * inner,
            i <= cells,
            r.len() == i,
            forall|j: int|
                0 <= j < i ==> dot_product(
                    right_factors(
                        gradient@,
                        lhs@,
                        rows as int,
                        inner as int,
                        columns as int,
                        j / columns as int,
                        j % columns as int,
                    ),
                    #[trigger] r@[j],
                ),
        decreases cells - i,
    {
        proof {
            lemma_unflat(i as int, inner as int, columns as int);
        }
        let inner_index: usize = i / columns;
        let column: usize = i % columns;
        let ghost pairs = right_factors(
            gradient@,
            lhs@,
            rows as int,
            inner as int,
            columns as int,
            inner_index as int,
            column as int,
        );
        let start = T::of_count(0);
        let mut total = start;
        let mut row: usize = 0;
        assert(pairs.take(0) =~= Seq::empty());
        while row < rows
            invariant
                gradient.len() == rows * columns,
                lhs.len() == rows * inner,
                row <= rows,
                inner_index < inner,
                column < columns,
                zero(start),
                pairs == right_factors(
                    gradient@,
                    lhs@,
                    rows as int,
                    inner as int,
                    columns as int,
                    inner_index as int,
                    column as int,
                ),
                dotted(start, pairs.take(row as int), total),
            decreases rows - row,
        {
            proof {
                lemma_flat(row as int, rows as int, column as int, columns as int);
                lemma_flat(row as int, rows as int, inner_index as int, inner as int);
            }
            let a = gradient[row * columns + column];
            let b = lhs[row * inner + inner_index];
            let part = a.times(b);
            let next = total.plus(part);
            proof {
                lemma_dotted_push(start, pairs.take(row as int), total, a, b, part, next);
                assert(pairs.take(row + 1) =~= pairs.take(row as int).push((a, b)));
            }
            total = next;
            row = row + 1;
        }
        assert(pairs.take(row as int) =~= pairs);
        assert(zero(start) && dotted(start, pairs, total));
        r.push(total);
        i = i + 1;
    }
    r
}

/// The updates that one output element makes to the input gradient.
pub open spec fn input_updates_at<T>(
    geometry: Convolution,
    gradient: Seq<T>,
    weight: Seq<T>,
    cell: int,
) -> Seq<(int, T, T)> {
    let taps = geometry.taps(geometry.output_place(cell));
    Seq::new(taps.len(), |k: int| (taps[k].0, gradient[cell], weight[taps[k].1]))
}

/// The updates that the first `n` output elements make to the input gradient: for each
/// kernel element that reads inside the input, the output gradient times the weight.
pub open spec fn input_updates<T>(
    geometry: Convolution,
    gradient: Seq<T>,
    weight: Seq<T>,
    n: nat,
) -> Seq<(int, T, T)>
    decreases n,
{
    if n == 0 {
        Seq::empty()
    } else {
        input_updates(geometry, gradient, weight, (n - 1) as nat) + input_updates_at(
            geometry,
            gradient,
            weight,
            n - 1,
        )
    }
}

/// The updates that one output element makes to the weight gradient.
pub open spec fn weight_updates_at<T>(
    geometry: Convolution,
    gradient: Seq<T>,
    input: Seq<T>,
    cell: int,
) -> Seq<(int, T, T)> {
    let taps = geometry.taps(geometry.output_place(cell));
    Seq::new(taps.len(), |k: int| (taps[k].1, gradient[cell], input[taps[k].0]))
}

/// The updates that the first `n` output elements make to the weight gradient: for each
/// kernel element that reads inside the input, the output gradient times the input.
pub open spec fn weight_updates<T>(
    geometry: Convolution,
    gradient: Seq<T>,
    input: Seq<T>,
    n: nat,
) -> Seq<(int, T, T)>
    decreases n,
{
    if n == 0 {
        Seq::empty()
    } else {
        weight_updates(geometry, gradient, input, (n - 1) as nat) + weight_updates_at(
            geometry,
            gradient,
            input,
            n - 1,
        )
    }
}

/// The updates that output elements make to the bias gradient of their channel.
pub open spec fn bias_updates<T>(geometry: Convolution, gradient: Seq<T>, n: nat) -> Seq<
    (int, T),
> {
    Seq::new(n, |i: int| (geometry.output_place(i).channel, gradient[i]))
}

/// The entries are the updates with their factors multiplied.
pub open spec fn resolves<T: Scalar>(
    updates: Seq<(int, T, T)>,
    entries: Seq<(int, T)>,
) -> bool {
    &&& entries.len() == updates.len()
    &&& forall|k: int|
        0 <= k < entries.len() ==> {
            &&& (#[trigger] entries[k]).0 == updates[k].0
            &&& product(updates[k].1, updates[k].2, entries[k].1)
        }
}

/// `out` is what adding the products of the updates to their cells gives, from zeros.
pub open spec fn product_tally<T: Scalar>(
    len: int,
    updates: Seq<(int, T, T)>,
    out: Seq<T>,
) -> bool {
    exists|entries: Seq<(int, T)>|
        #[trigger] resolves(updates, entries) && tally(len, entries, out)
}

/// The gradients of a convolution's input, weight and bias.
pub open spec fn convolution_gradients<T: Scalar>(
    geometry: Convolution,
    input: Seq<T>,
    weight: Seq<T>,
    gradient: Seq<T>,
    for_input: Seq<T>,
    for_weight: Seq<T>,
    for_bias: Seq<T>,
) -> bool {
    let n = geometry.output_len() as nat;
    &&& product_tally(
        geometry.input_len(),
        input_updates(geometry, gradient, weight, n),
        for_input,
    )
    &&& product_tally(
        geometry.weight_len(),
        weight_updates(geometry, gradient, input, n),
        for_weight,
    )
    &&& tally(geometry.out_channels as int, bias_updates(geometry, gradient, n), for_bias)
}

proof fn lemma_resolves_push<T: Scalar>(
    updates: Seq<(int, T, T)>,
    entries: Seq<(int, T)>,
    update: (int, T, T),
    part: T,
)
    requires
        resolves(updates, entries),
        product(update.1, update.2, part),
    ensures
        resolves(updates.push(update), entries.push((update.0, part))),
{
}

/// Adds a product to one element.
fn bump_product<T: Scalar>(values: &mut Vec<T>, cell: usize, a: T, b: T) -> (part: T)
    requires
        cell < old(values).len(),
    ensures
        product(a, b, part),
        bumped(old(values)@, cell as int, part, final(values)@),
{
    let part = a.times(b);
    bump(values, cell, part);
    part
}

/// The gradients of a convolution's input, weight and bias.
pub fn conv2d_gradients<T: Scalar>(
    geometry: Convolution,
    input: &Vec<T>,
    weight: &Vec<T>,
    gradient: &Vec<T>,
) -> (r: (Vec<T>, Vec<T>, Vec<T>))
    requires
        geometry.wf(),
        input.len() == geometry.input_len(),
        weight.len() == geometry.weight_len(),
        gradient.len() == geometry.output_len(),
    ensures
        convolution_gradients(geometry, input@, weight@, gradient@, r.0@, r.1@, r.2@),
        r.0.len() == geometry.input_len(),
        r.1.len() == geometry.weight_len(),
        r.2.len() == geometry.out_channels,
{
    let mut for_input: Vec<T> = zeros(input.len());
    let mut for_weight: Vec<T> = zeros(weight.len());
    let mut for_bias: Vec<T> = zeros(geometry.out_channels);
    let ghost zero_input = for_input@;
    let ghost zero_weight = for_weight@;
    let ghost zero_bias = for_bias@;
    let ghost mut input_entries: Seq<(int, T)> = Seq::empty();
    let ghost mut weight_entries: Seq<(int, T)> = Seq::empty();
    proof {
        geometry.lemma_extents();
    }
    let out_h: usize = (geometry.height + 2 * geometry.padding - geometry.kernel_h)
        / geometry.stride + 1;
    let out_w: usize = (geometry.width + 2 * geometry.padding - geometry.kernel_w)
        / geometry.stride + 1;
    let cells: usize = gradient.len();
    let mut i: usize = 0;
    assert(bias_updates(geometry, gradient@, 0) =~= Seq::empty());
    while i < cells
        invariant
            geometry.wf(),
            input.len() == geometry.input_len(),
            weight.len() == geometry.weight_len(),
            cells == gradient.len(),
            cells == geometry.output_len(),
            out_h == geometry.out_h(),
            out_w == geometry.out_w(),
            i <= cells,
            for_input.len() == input.len(),
            for_weight.len() == weight.len(),
            for_bias.len() == geometry.out_channels,
            resolves(input_updates(geometry, gradient@, weight@, i as nat), input_entries),
            tallied(zero_input, input_entries, for_input@),
            resolves(weight_updates(geometry, gradient@, input@, i as nat), weight_entries),
            tallied(zero_weight, weight_entries, for_weight@),
            tallied(zero_bias, bias_updates(geometry, gradient@, i as nat), for_bias@),
        decreases cells - i,
    {
        proof {
            lemma_place(
                i as int,
                geometry.batch as int,
                geometry.out_channels as int,
                geometry.out_h(),
                geometry.out_w(),
            );
        }
        let out_channel: usize = i / out_w / out_h % geometry.out_channels;
        let output_gradient = gradient[i];
        let ghost bias_before = for_bias@;
        bump(&mut for_bias, out_channel, output_gradient);
        proof {
            let done = bias_updates(geometry, gradient@, i as nat);
            lemma_tallied_push(
                zero_bias,
                done,
                bias_before,
                (out_channel as int, output_gradient),
                for_bias@,
            );
            assert(bias_updates(geometry, gradient@, (i + 1) as nat) =~= done.push(
                (out_channel as int, output_gradient),
            ));
        }
        let taps = tap_list(geometry, i);
        let ghost input_done = input_updates(geometry, gradient@, weight@, i as nat);
        let ghost weight_done = weight_updates(geometry, gradient@, input@, i as nat);
        let ghost input_new = input_updates_at(geometry, gradient@, weight@, i as int);
        let ghost weight_new = weight_updates_at(geometry, gradient@, input@, i as int);
        let mut k: usize = 0;
        assert(input_done + input_new.take(0) =~= input_done);
        assert(weight_done + weight_new.take(0) =~= weight_done);
        while k < taps.len()
            invariant
                lists(geometry, taps@, geometry.taps(geometry.output_place(i as int))),
                input.len() == geometry.input_len(),
                weight.len() == geometry.weight_len(),
                i < gradient.len(),
                output_gradient == gradient@[i as int],
                k <= taps.len(),
                for_input.len() == input.len(),
                for_weight.len() == weight.len(),
                input_new == input_updates_at(geometry, gradient@, weight@, i as int),
                weight_new == weight_updates_at(geometry, gradient@, input@, i as int),
                resolves(input_done + input_new.take(k as int), input_entries),
                tallied(zero_input, input_entries, for_input@),
                resolves(weight_done + weight_new.take(k as int), weight_entries),
                tallied(zero_weight, weight_entries, for_weight@),
            decreases taps.len() - k,
        {
            let (input_index, weight_index) = taps[k];
            let ghost input_before = for_input@;
            let ghost weight_before = for_weight@;
            assert(taps@[k as int].0 < geometry.input_len() && taps@[k as int].1
                < geometry.weight_len());
            let a = bump_product(
                &mut for_input,
                input_index,
                output_gradient,
                weight[weight_index],
            );
            let b = bump_product(
                &mut for_weight,
                weight_index,
                output_gradient,
                input[input_index],
            );
            proof {
                lemma_tallied_push(
                    zero_input,
                    input_entries,
                    input_before,
                    (input_index as int, a),
                    for_input@,
                );
                lemma_tallied_push(
                    zero_weight,
                    weight_entries,
                    weight_before,
                    (weight_index as int, b),
                    for_weight@,
                );
                lemma_resolves_push(
                    input_done + input_new.take(k as int),
                    input_entries,
                    input_new[k as int],
                    a,
                );
                lemma_resolves_push(
                    weight_done + weight_new.take(k as int),
                    weight_entries,
                    weight_new[k as int],
                    b,
                );
                assert((input_done + input_new.take(k as int)).push(input_new[k as int])
                    =~= input_done + input_new.take(k + 1));
                assert((weight_done + weight_new.take(k as int)).push(weight_new[k as int])
                    =~= weight_done + weight_new.take(k + 1));
                input_entries = input_entries.push((input_index as int, a));
                weight_entries = weight_entries.push((weight_index as int, b));
            }
            k = k + 1;
        }
        proof {
            assert(input_new.take(k as int) =~= input_new);
            assert(weight_new.take(k as int) =~= weight_new);
        }
        i = i + 1;
    }
    proof {
        assert(tally(geometry.input_len(), input_entries, for_input@));
        assert(tally(geometry.weight_len(), weight_entries, for_weight@));
    }
    (for_input, for_weight, for_bias)
}

/// The updates that the first `n` output elements of an average pool make to the input
/// gradient: each spreads its share evenly over its window.
pub open spec fn pool_updates<T>(geometry: Pooling, shares: Seq<T>, n: nat) -> Seq<(int, T)>
    decreases n,
{
    if n == 0 {
        Seq::empty()
    } else {
        pool_updates(geometry, shares, (n - 1) as nat) + pool_updates_at(geometry, shares, n - 1)
    }
}

/// The updates that one output element makes.
pub open spec fn pool_updates_at<T>(geometry: Pooling, shares: Seq<T>, cell: int) -> Seq<
    (int, T),
> {
    Seq::new(
        geometry.area() as nat,
        |k: int| (geometry.input_index(geometry.output_place(cell), k), shares[cell]),
    )
}

/// `r` is `value` divided by `count`.
pub open spec fn shared_out<T: Scalar>(value: T, count: usize, r: T) -> bool {
    exists|divisor: T| counted(count, divisor) && #[trigger] quotient(value, divisor, r)
}

/// `out` is the input gradient of an average pool.
pub open spec fn pool_gradient<T: Scalar>(
    geometry: Pooling,
    gradient: Seq<T>,
    out: Seq<T>,
) -> bool {
    exists|shares: Seq<T>|
        {
            &&& shares.len() == gradient.len()
            &&& forall|i: int|
                0 <= i < shares.len() ==> shared_out(
                    gradient[i],
                    geometry.area() as usize,
                    #[trigger] shares[i],
                )
            &&& tally(
                geometry.input_len(),
                #[trigger] pool_updates(geometry, shares, gradient.len()),
                out,
            )
        }
}

proof fn lemma_pool_updates_prefix<T>(geometry: Pooling, shares: Seq<T>, share: T, n: nat)
    requires
        n <= shares.len(),
    ensures
        pool_updates(geometry, shares.push(share), n) == pool_updates(geometry, shares, n),
    decreases n,
{
    if n > 0 {
        lemma_pool_updates_prefix(geometry, shares, share, (n - 1) as nat);
        assert(pool_updates_at(geometry, shares.push(share), n - 1) =~= pool_updates_at(
            geometry,
            shares,
            n - 1,
        ));
    }
}

/// The input gradient of an average pool.
pub fn avg_pool2d_gradient<T: Scalar>(geometry: Pooling, gradient: &Vec<T>) -> (r: Vec<T>)
    requires
        geometry.wf(),
        gradient.len() == geometry.output_len(),
    ensures
        pool_gradient(geometry, gradient@, r@),
        r.len() == geometry.input_len(),
{
    proof {
        geometry.lemma_extents();
        let (b, c, h, w) = (
            geometry.batch as int,
            geometry.channels as int,
            geometry.height as int,
            geometry.width as int,
        );
        assert(0 <= b * c && b * c <= b * c * h && b * c * h <= b * c * h * w) by (nonlinear_arith)
            requires
                0 <= b,
                0 <= c,
                0 < h,
                0 < w,
        ;
    }
    let kernel_w: usize = geometry.kernel[1];
    let out_h: usize = (geometry.height - geometry.kernel[0]) / geometry.stride[0] + 1;
    let out_w: usize = (geometry.width - kernel_w) / geometry.stride[1] + 1;
    let area: usize = geometry.kernel[0] * kernel_w;
    let denominator = T::of_count(area);
    let total: usize = geometry.batch * geometry.channels * geometry.height * geometry.width;
    let mut r: Vec<T> = zeros(total);
    let ghost start = r@;
    let ghost mut shares: Seq<T> = Seq::empty();
    let cells: usize = gradient.len();
    let mut i: usize = 0;
    while i < cells
        invariant
            geometry.wf(),
            cells == gradient.len(),
            cells == geometry.output_len(),
            out_h == geometry.out_h(),
            out_w == geometry.out_w(),
            kernel_w == geometry.kernel[1],
            area == geometry.area(),
            counted(area, denominator),
            i <= cells,
            r.len() == geometry.input_len(),
            shares.len() == i,
            forall|j: int|
                0 <= j < i ==> shared_out(
                    gradient@[j],
                    geometry.area() as usize,
                    #[trigger] shares[j],
                ),
            tallied(start, pool_updates(geometry, shares, i as nat), r@),
        decreases cells - i,
    {
        proof {
            lemma_place(
                i as int,
                geometry.batch as int,
                geometry.channels as int,
                geometry.out_h(),
                geometry.out_w(),
            );
        }
        let ghost at = geometry.output_place(i as int);
        let out_x: usize = i % out_w;
        let out_y: usize = i / out_w % out_h;
        let channel: usize = i / out_w / out_h % geometry.channels;
        let sample: usize = i / out_w / out_h / geometry.channels;
        let share = gradient[i].over(denominator);
        assert(counted(area, denominator) && quotient(gradient@[i as int], denominator, share));
        assert(shared_out(gradient@[i as int], area, share));
        let ghost done = pool_updates(geometry, shares, i as nat);
        proof {
            lemma_pool_updates_prefix(geometry, shares, share, i as nat);
            shares = shares.push(share);
        }
        let ghost fresh = pool_updates_at(geometry, shares, i as int);
        let mut k: usize = 0;
        assert(done + fresh.take(0) =~= done);
        while k < area
            invariant
                geometry.wf(),
                kernel_w == geometry.kernel[1],
                area == geometry.area(),
                within(
                    at,
                    geometry.batch as int,
                    geometry.channels as int,
                    geometry.out_h(),
                    geometry.out_w(),
                ),
                at == (Place {
                    sample: sample as int,
                    channel: channel as int,
                    y: out_y as int,
                    x: out_x as int,
                }),
                at == geometry.output_place(i as int),
                shares.len() == i + 1,
                shares[i as int] == share,
                fresh == pool_updates_at(geometry, shares, i as int),
                k <= area,
                r.len() == geometry.input_len(),
                tallied(start, done + fresh.take(k as int), r@),
            decreases area - k,
        {
            proof {
                geometry.lemma_tap(at, k as int);
                lemma_position(
                    geometry.input_place(at, k as int),
                    geometry.batch as int,
                    geometry.channels as int,
                    geometry.height as int,
                    geometry.width as int,
                );
            }
            let in_y: usize = out_y * geometry.stride[0] + k / kernel_w;
            let in_x: usize = out_x * geometry.stride[1] + k % kernel_w;
            let index: usize = ((sample * geometry.channels + channel) * geometry.height + in_y)
                * geometry.width + in_x;
            let ghost before = r@;
            bump(&mut r, index, share);
            proof {
                lemma_tallied_push(
                    start,
                    done + fresh.take(k as int),
                    before,
                    (index as int, share),
                    r@,
                );
                assert((done + fresh.take(k as int)).push((index as int, share)) =~= done
                    + fresh.take(k + 1));
            }
            k = k + 1;
        }
        assert(fresh.take(k as int) =~= fresh);
        i = i + 1;
    }
    proof {
        assert(tally(
            geometry.input_len(),
            pool_updates(geometry, shares, gradient@.len()),
            r@,
        ));
    }
    r
}

/// `r` is the gradient of one logit: the scaled difference between its probability and
/// whether it is the target.
pub open spec fn logit_gradient<T: Scalar>(
    logits: Seq<T>,
    class: int,
    target: int,
    scale: T,
    r: T,
) -> bool {
    exists|top: T, norm: T, weight: T, probability: T, hit: T, gap: T|
        {
            &&& peak(logits, top)
            &&& #[trigger] normalizer(logits, top, norm)
            &&& shifted_exponential(logits[class], top, weight)
            &&& #[trigger] quotient(weight, norm, probability)
            &&& counted(
                if class == target {
                    1
                } else {
                    0
                },
                hit,
            )
            &&& #[trigger] difference(probability, hit, gap)
            &&& #[trigger] product(scale, gap, r)
        }
}

/// `r` is the gradient of one logit in a row with the given label.
pub open spec fn labelled_gradient<T: Scalar>(
    logits: Seq<T>,
    label: T,
    classes: usize,
    class: int,
    scale: T,
    r: T,
) -> bool {
    exists|target: usize|
        #[trigger] classified(label, classes, Ok(target)) && logit_gradient(
            logits,
            class,
            target as int,
            scale,
            r,
        )
}

/// `out` is the gradient of the logits of a mean cross-entropy.
pub open spec fn cross_entropy_gradients<T: Scalar>(
    logits: Seq<T>,
    targets: Seq<T>,
    batch: usize,
    classes: usize,
    outer: T,
    out: Seq<T>,
) -> bool {
    exists|scale: T|
        {
            &&& #[trigger] shared_out(outer, batch, scale)
            &&& out.len() == batch * classes
            &&& forall|i: int|
                0 <= i < out.len() ==> labelled_gradient(
                    row_of(logits, i / classes as int, classes as int),
                    targets[i / classes as int],
                    classes,
                    i % classes as int,
                    scale,
                    #[trigger] out[i],
                )
        }
}

/// The gradient of the logits of a mean cross-entropy.
pub fn cross_entropy_gradient<T: Scalar>(
    logits: &Vec<T>,
    targets: &Vec<T>,
    batch: usize,
    classes: usize,
    outer: T,
) -> (r: Result<Vec<T>>)
    requires
        logits.len() == batch * classes,
        targets.len() == batch,
    ensures
        match r {
            Ok(out) => cross_entropy_gradients(logits@, targets@, batch, classes, outer, out@)
                && out@.len() == logits@.len() && (forall|b: int|
                0 <= b < batch ==> labelled(#[trigger] targets@[b], classes)),
            Err(error) => label_failure(targets@, batch as int, classes, error@),
        },
{
    let count = T::of_count(batch);
    let scale = outer.over(count);
    assert(counted(batch, count) && quotient(outer, count, scale));
    assert(shared_out(outer, batch, scale));
    let mut out: Vec<T> = Vec::with_capacity(logits.len());
    let mut b: usize = 0;
    while b < batch
        invariant
            logits.len() == batch * classes,
            targets.len() == batch,
            b <= batch,
            out.len() == b * classes,
            forall|c: int| 0 <= c < b ==> labelled(#[trigger] targets@[c], classes),
            forall|i: int|
                0 <= i < out.len() ==> labelled_gradient(
                    row_of(logits@, i / classes as int, classes as int),
                    targets@[i / classes as int],
                    classes,
                    i % classes as int,
                    scale,
                    #[trigger] out@[i],
                ),
        decreases batch - b,
    {
        let target: usize = match class_index(targets[b], classes) {
            Ok(target) => target,
            Err(error) => {
                assert(classified(targets@[b as int], classes, Err(error@)));
                return Err(error);
            },
        };
        assert(labelled(targets@[b as int], classes));
        let top = row_peak(logits, b, classes, batch);
        let norm = row_normalizer(logits, b, classes, batch, top);
        let ghost row = row_of(logits@, b as int, classes as int);
        let mut c: usize = 0;
        while c < classes
            invariant
                logits.len() == batch * classes,
                targets.len() == batch,
                b < batch,
                c <= classes,
                target < classes,
                classified(targets@[b as int], classes, Ok(target)),
                row == row_of(logits@, b as int, classes as int),
                peak(row, top),
                normalizer(row, top, norm),
                out.len() == b * classes + c,
                forall|i: int|
                    0 <= i < out.len() ==> labelled_gradient(
                        row_of(logits@, i / classes as int, classes as int),
                        targets@[i / classes as int],
                        classes,
                        i % classes as int,
                        scale,
                        #[trigger] out@[i],
                    ),
            decreases classes - c,
        {
            proof {
                lemma_flat(b as int, batch as int, c as int, classes as int);
                crate::index::lemma_flat_inverse(b as int, c as int, classes as int);
            }
            let d = logits[b * classes + c].minus(top);
            let weight = d.exponential();
            assert(difference(row[c as int], top, d) && exponentiated(d, weight));
            assert(shifted_exponential(row[c as int], top, weight));
            let probability = weight.over(norm);
            let hit = if c == target {
                T::of_count(1)
            } else {
                T::of_count(0)
            };
            let gap = probability.minus(hit);
            let value = scale.times(gap);
            proof {
                assert(quotient(weight, norm, probability) && difference(probability, hit, gap)
                    && product(scale, gap, value));
                assert(logit_gradient(row, c as int, target as int, scale, value));
                assert(labelled_gradient(
                    row,
                    targets@[b as int],
                    classes,
                    c as int,
                    scale,
                    value,
                ));
            }
            out.push(value);
            c = c + 1;
        }
        proof {
            assert(b * classes + classes == (b + 1) * classes) by (nonlinear_arith);
        }
        b = b + 1;
    }
    Ok(out)
}

/// The term of each element, addressed to the element's channel.
pub open spec fn channel_entries<T>(planes: Planes, terms: Seq<T>) -> Seq<(int, T)> {
    Seq::new(terms.len(), |i: int| (planes.channel_of(i), terms[i]))
}

/// Adds up the terms of each channel.
fn channel_tally<T: Scalar>(planes: Planes, terms: &Vec<T>) -> (r: Vec<T>)
    requires
        planes.wf(),
        terms.len() == planes.len(),
    ensures
        tally(planes.channels as int, channel_entries(planes, terms@), r@),
        r.len() == planes.channels,
{
    let mut r: Vec<T> = zeros(planes.channels);
    let ghost start = r@;
    let ghost entries = channel_entries(planes, terms@);
    let mut i: usize = 0;
    assert(entries.take(0) =~= Seq::empty());
    while i < terms.len()
        invariant
            planes.wf(),
            terms.len() == planes.len(),
            entries == channel_entries(planes, terms@),
            i <= terms.len(),
            r.len() == planes.channels,
            tallied(start, entries.take(i as int), r@),
        decreases terms.len() - i,
    {
        proof {
            planes.lemma_channel(i as int);
        }
        let channel: usize = i / planes.spatial % planes.channels;
        let ghost before = r@;
        bump(&mut r, channel, terms[i]);
        proof {
            lemma_tallied_push(start, entries.take(i as int), before, entries[i as int], r@);
            assert(entries.take(i + 1) =~= entries.take(i as int).push(entries[i as int]));
        }
        i = i + 1;
    }
    assert(entries.take(i as int) =~= entries);
    r
}

/// `r` is the input gradient of one element of a training batch normalization.
pub open spec fn trained_gradient<T: Scalar>(
    samples: usize,
    gradient: T,
    standard: T,
    weight: T,
    inverse: T,
    total: T,
    weighted_total: T,
    r: T,
) -> bool {
    exists|n: T, a: T, b: T, c: T, d: T, e: T, f: T|
        {
            &&& counted(samples, n)
            &&& #[trigger] product(weight, inverse, a)
            &&& #[trigger] quotient(a, n, b)
            &&& #[trigger] product(n, gradient, c)
            &&& #[trigger] difference(c, total, d)
            &&& #[trigger] product(standard, weighted_total, e)
            &&& #[trigger] difference(d, e, f)
            &&& #[trigger] product(b, f, r)
        }
}

/// `r` is the input gradient of one element of a batch normalization by fixed
/// statistics.
pub open spec fn fixed_gradient<T: Scalar>(gradient: T, weight: T, inverse: T, r: T) -> bool {
    exists|a: T| product(gradient, weight, a) && #[trigger] product(a, inverse, r)
}

/// The gradients of a batch normalization's input, weight and bias.
pub open spec fn norm_gradients<T: Scalar>(
    planes: Planes,
    data: Seq<T>,
    weight: Seq<T>,
    statistics: Statistics<T>,
    training: bool,
    gradient: Seq<T>,
    for_input: Seq<T>,
    for_weight: Seq<T>,
    for_bias: Seq<T>,
) -> bool {
    exists|standard: Seq<T>, weighted: Seq<T>|
        {
            &&& #[trigger] standardized_all(planes, data, statistics, standard)
            &&& weighted.len() == data.len()
            &&& forall|i: int|
                0 <= i < data.len() ==> product(
                    gradient[i],
                    standard[i],
                    #[trigger] weighted[i],
                )
            &&& tally(
                planes.channels as int,
                #[trigger] channel_entries(planes, weighted),
                for_weight,
            )
            &&& tally(planes.channels as int, channel_entries(planes, gradient), for_bias)
            &&& for_input.len() == data.len()
            &&& forall|i: int|
                0 <= i < data.len() ==> if training {
                    trained_gradient(
                        planes.samples() as usize,
                        gradient[i],
                        standard[i],
                        weight[planes.channel_of(i)],
                        statistics.inverse[planes.channel_of(i)],
                        for_bias[planes.channel_of(i)],
                        for_weight[planes.channel_of(i)],
                        #[trigger] for_input[i],
                    )
                } else {
                    fixed_gradient(
                        gradient[i],
                        weight[planes.channel_of(i)],
                        statistics.inverse[planes.channel_of(i)],
                        for_input[i],
                    )
                }
        }
}

/// `out` are the data, each centred and scaled by the statistics of its channel.
pub open spec fn standardized_all<T: Scalar>(
    planes: Planes,
    data: Seq<T>,
    statistics: Statistics<T>,
    out: Seq<T>,
) -> bool {
    &&& out.len() == data.len()
    &&& forall|i: int|
        0 <= i < data.len() ==> standardized(
            data[i],
            statistics.mean[planes.channel_of(i)],
            statistics.inverse[planes.channel_of(i)],
            #[trigger] out[i],
        )
}

/// The elements centred and scaled by their channel's statistics.
fn standardize<T: Scalar>(
    planes: Planes,
    data: &Vec<T>,
    statistics: &BatchNormStatistics<T>,
) -> (r: Vec<T>)
    requires
        planes.wf(),
        data.len() == planes.len(),
        statistics.mean.len() == planes.channels,
        statistics.inverse_standard_deviation.len() == planes.channels,
    ensures
        r.len() == data.len(),
        forall|i: int|
            0 <= i < data.len() ==> standardized(
                data@[i],
                statistics@.mean[planes.channel_of(i)],
                statistics@.inverse[planes.channel_of(i)],
                #[trigger] r@[i],
            ),
{
    let mut r: Vec<T> = Vec::with_capacity(data.len());
    let mut i: usize = 0;
    while i < data.len()
        invariant
            planes.wf(),
            data.len() == planes.len(),
            statistics.mean.len() == planes.channels,
            statistics.inverse_standard_deviation.len() == planes.channels,
            i <= data.len(),
            r.len() == i,
            forall|j: int|
                0 <= j < i ==> standardized(
                    data@[j],
                    statistics@.mean[planes.channel_of(j)],
                    statistics@.inverse[planes.channel_of(j)],
                    #[trigger] r@[j],
                ),
        decreases data.len() - i,
    {
        proof {
            planes.lemma_channel(i as int);
        }
        let channel: usize = i / planes.spatial % planes.channels;
        let d = data[i].minus(statistics.mean[channel]);
        let value = d.times(statistics.inverse_standard_deviation[channel]);
        assert(difference(data@[i as int], statistics@.mean[channel as int], d) && product(
            d,
            statistics@.inverse[channel as int],
            value,
        ));
        r.push(value);
        i = i + 1;
    }
    r
}

/// The gradients of a batch normalization's input, weight and bias.
pub fn batch_norm2d_gradients<T: Scalar>(
    planes: Planes,
    data: &Vec<T>,
    weight: &Vec<T>,
    statistics: &BatchNormStatistics<T>,
    training: bool,
    gradient: &Vec<T>,
) -> (r: (Vec<T>, Vec<T>, Vec<T>))
    requires
        planes.wf(),
        data.len() == planes.len(),
        gradient.len() == planes.len(),
        weight.len() == planes.channels,
        statistics.mean.len() == planes.channels,
        statistics.inverse_standard_deviation.len() == planes.channels,
    ensures
        norm_gradients(
            planes,
            data@,
            weight@,
            statistics@,
            training,
            gradient@,
            r.0@,
            r.1@,
            r.2@,
        ),
        r.0.len() == data.len(),
        r.1.len() == planes.channels,
        r.2.len() == planes.channels,
{
    let standard = standardize(planes, data, statistics);
    let weighted = crate::forward::zip_map(gradient, &standard, T::times);
    let for_weight = channel_tally(planes, &weighted);
    let for_bias = channel_tally(planes, gradient);
    let mut for_input: Vec<T> = Vec::with_capacity(data.len());
    let samples: usize = planes.batch * planes.spatial;
    let n = T::of_count(samples);
    let mut i: usize = 0;
    while i < data.len()
        invariant
            planes.wf(),
            data.len() == planes.len(),
            gradient.len() == planes.len(),
            standard.len() == planes.len(),
            weight.len() == planes.channels,
            statistics.mean.len() == planes.channels,
            statistics.inverse_standard_deviation.len() == planes.channels,
            for_weight.len() == planes.channels,
            for_bias.len() == planes.channels,
            samples == planes.samples(),
            counted(samples, n),
            i <= data.len(),
            for_input.len() == i,
            forall|j: int|
                0 <= j < i ==> if training {
                    trained_gradient(
                        planes.samples() as usize,
                        gradient@[j],
                        standard@[j],
                        weight@[planes.channel_of(j)],
                        statistics@.inverse[planes.channel_of(j)],
                        for_bias@[planes.channel_of(j)],
                        for_weight@[planes.channel_of(j)],
                        #[trigger] for_input@[j],
                    )
                } else {
                    fixed_gradient(
                        gradient@[j],
                        weight@[planes.channel_of(j)],
                        statistics@.inverse[planes.channel_of(j)],
                        for_input@[j],
                    )
                },
        decreases data.len() - i,
    {
        proof {
            planes.lemma_channel(i as int);
        }
        let channel: usize = i / planes.spatial % planes.channels;
        let g = gradient[i];
        let w = weight[channel];
        let s = statistics.inverse_standard_deviation[channel];
        if training {
            let a = w.times(s);
            let b = a.over(n);
            let c = n.times(g);
            let d = c.minus(for_bias[channel]);
            let e = standard[i].times(for_weight[channel]);
            let f = d.minus(e);
            let value = b.times(f);
            assert(counted(samples, n) && product(w, s, a) && quotient(a, n, b) && product(n, g, c)
                && difference(c, for_bias@[channel as int], d) && product(
                standard@[i as int],
                for_weight@[channel as int],
                e,
            ) && difference(d, e, f) && product(b, f, value));
            for_input.push(value);
        } else {
            let a = g.times(w);
            let value = a.times(s);
            assert(product(g, w, a) && product(a, s, value));
            for_input.push(value);
        }
        i = i + 1;
    }
    proof {
        assert(standardized_all(planes, data@, statistics@, standard@));
        assert(tally(planes.channels as int, channel_entries(planes, weighted@), for_weight@));
    }
    (for_input, for_weight, for_bias)
}

} // verus!
