//! What comes back through the operations that are linear in each operand.

use crate::cuda::command::right_gathered;
use crate::cuda::kernels::column_by_column;
use crate::exact::sums::{
    lemma_sigma_blocks, lemma_sigma_equal, lemma_sigma_exchange, lemma_sigma_scale,
    lemma_sigma_single, lemma_sigma_split, sigma,
};
use crate::exact::{larger, Reading};
use crate::forward::{
    averaged, convolved, dot_product, gathered, multiplied, pooled, rectified, row_by_column,
    Convolution, Pooling,
};
use crate::index::{lemma_flat, lemma_flat_inverse, lemma_place, within, Place};
use crate::reverse::{
    bias_updates, bumped, convolution_gradients, gated, input_updates, input_updates_at,
    left_factors, left_gradient, pool_gradient, pool_updates, pool_updates_at, product_tally,
    resolves, right_factors, right_gradient, shared_out, tallied, tally, weight_updates,
    weight_updates_at,
};
use crate::scalar::{all_zero, bottom, dotted, product, sum, zero, Scalar};
use vstd::prelude::*;

verus! {

/// Each cell of a tally is the sum of the terms that go to it.
pub proof fn lemma_tally_cell<T: Scalar>(
    reading: Reading<T>,
    len: int,
    entries: Seq<(int, T)>,
    out: Seq<T>,
    cell: int,
)
    requires
        reading.exact(),
        tally(len, entries, out),
        0 <= cell < len,
        forall|k: int| 0 <= k < entries.len() ==> 0 <= (#[trigger] entries[k]).0 < len,
    ensures
        out.len() == len,
        reading.of(out[cell]) == sigma(
            entries.len(),
            |k: int|
                if entries[k].0 == cell {
                    reading.of(entries[k].1)
                } else {
                    0 as real
                },
        ),
{
    let start = choose|start: Seq<T>|
        start.len() == len && all_zero(start) && #[trigger] tallied(start, entries, out);
    assert(zero(start[cell]));
    lemma_tallied_cell(reading, start, entries, out, cell);
}

proof fn lemma_tallied_cell<T: Scalar>(
    reading: Reading<T>,
    start: Seq<T>,
    entries: Seq<(int, T)>,
    out: Seq<T>,
    cell: int,
)
    requires
        reading.exact(),
        tallied(start, entries, out),
        0 <= cell < start.len(),
        forall|k: int| 0 <= k < entries.len() ==> 0 <= (#[trigger] entries[k]).0 < start.len(),
    ensures
        out.len() == start.len(),
        reading.of(out[cell]) == reading.of(start[cell]) + sigma(
            entries.len(),
            |k: int|
                if entries[k].0 == cell {
                    reading.of(entries[k].1)
                } else {
                    0 as real
                },
        ),
    decreases entries.len(),
{
    if entries.len() > 0 {
        let rest = entries.drop_last();
        let before = choose|before: Seq<T>|
            {
                &&& tallied(start, entries.drop_last(), before)
                &&& #[trigger] bumped(before, entries.last().0, entries.last().1, out)
            };
        assert forall|k: int| 0 <= k < rest.len() implies 0 <= (#[trigger] rest[k]).0
            < start.len() by {
            assert(rest[k] == entries[k]);
        }
        lemma_tallied_cell(reading, start, rest, before, cell);
        lemma_sigma_equal(
            rest.len(),
            |k: int|
                if rest[k].0 == cell {
                    reading.of(rest[k].1)
                } else {
                    0 as real
                },
            |k: int|
                if entries[k].0 == cell {
                    reading.of(entries[k].1)
                } else {
                    0 as real
                },
        );
        let last = entries[entries.len() - 1];
        assert(0 <= last.0 < start.len());
        assert(sum(before[last.0], last.1, out[last.0]));
    }
}

/// The sum of the products of elements, one by one.
pub open spec fn inner<T>(reading: Reading<T>, n: int, a: Seq<T>, b: Seq<T>) -> real {
    sigma(n as nat, |i: int| reading.of(a[i]) * reading.of(b[i]))
}

/// A matrix is moved from one side of a product to the other.
proof fn lemma_transpose(
    m: nat,
    n: nat,
    g: spec_fn(int) -> real,
    a: spec_fn(int, int) -> real,
    x: spec_fn(int) -> real,
)
    ensures
        sigma(m, |k: int| sigma(n, |c: int| g(c) * a(k, c)) * x(k)) == sigma(
            n,
            |c: int| g(c) * sigma(m, |k: int| x(k) * a(k, c)),
        ),
{
    let f = |k: int, c: int| g(c) * a(k, c) * x(k);
    let rows = |k: int| sigma(n, |c: int| g(c) * a(k, c)) * x(k);
    let columns = |c: int| g(c) * sigma(m, |k: int| x(k) * a(k, c));
    assert forall|k: int| #[trigger] rows(k) == sigma(n, |c: int| f(k, c)) by {
        let row = |c: int| g(c) * a(k, c);
        lemma_sigma_scale(n, x(k), row);
        lemma_sigma_equal(n, |c: int| row(c) * x(k), |c: int| f(k, c));
    }
    lemma_sigma_equal(m, rows, |k: int| sigma(n, |c: int| f(k, c)));
    lemma_sigma_exchange(m, n, f);
    assert forall|c: int| #[trigger] columns(c) == sigma(m, |k: int| f(k, c)) by {
        let column = |k: int| x(k) * a(k, c);
        lemma_sigma_scale(m, g(c), column);
        assert forall|k: int| g(c) * #[trigger] column(k) == f(k, c) by {
            let (p, q, r) = (g(c), a(k, c), x(k));
            assert(p * (r * q) == p * q * r) by (nonlinear_arith);
        }
        lemma_sigma_equal(m, |k: int| g(c) * column(k), |k: int| f(k, c));
    }
    lemma_sigma_equal(n, columns, |c: int| sigma(m, |k: int| f(k, c)));
}

/// An element of a product of matrices is the sum, over the columns of the one and the rows of
/// the other, of the products of the elements.
pub proof fn products_sum_rows_by_columns<T: Scalar>(
    reading: Reading<T>,
    lhs: Seq<T>,
    rhs: Seq<T>,
    rows: int,
    inside: int,
    columns: int,
    out: Seq<T>,
    r: int,
    c: int,
)
    requires
        reading.exact(),
        multiplied(lhs, rhs, rows, inside, columns, out),
        0 <= r < rows,
        0 <= c < columns,
        inside >= 0,
    ensures
        reading.of(out[r * columns + c]) == sigma(
            inside as nat,
            |k: int| reading.of(lhs[r * inside + k]) * reading.of(rhs[k * columns + c]),
        ),
{
    lemma_flat(r, rows, c, columns);
    lemma_flat_inverse(r, c, columns);
    let pairs = row_by_column(lhs, rhs, inside, columns, r, c);
    assert(dot_product(pairs, out[r * columns + c]));
    reading.lemma_dot_product(pairs, out[r * columns + c]);
    lemma_sigma_equal(
        inside as nat,
        |i: int| reading.of(pairs[i].0) * reading.of(pairs[i].1),
        |k: int| reading.of(lhs[r * inside + k]) * reading.of(rhs[k * columns + c]),
    );
}

/// The gradient of the left operand of a matrix product is what its transpose makes of the
/// gradient of the product: for every matrix in the place of the operand, the products of its
/// elements with the gradient add up to those of the product's elements with the product's
/// gradient.
pub proof fn left_gradients_are_adjoint<T: Scalar>(
    reading: Reading<T>,
    gradient: Seq<T>,
    rhs: Seq<T>,
    rows: int,
    inside: int,
    columns: int,
    for_left: Seq<T>,
    left: Seq<T>,
    out: Seq<T>,
)
    requires
        reading.exact(),
        rows >= 0,
        inside >= 0,
        columns >= 0,
        left_gradient(gradient, rhs, rows, inside, columns, for_left),
        multiplied(left, rhs, rows, inside, columns, out),
    ensures
        inner(reading, rows * inside, for_left, left) == inner(
            reading,
            rows * columns,
            gradient,
            out,
        ),
{
    let (m, n, p) = (rows as nat, inside as nat, columns as nat);
    assert(rows * inside == m * n && rows * columns == m * p);
    let d = |i: int| reading.of(for_left[i]) * reading.of(left[i]);
    let e = |i: int| reading.of(gradient[i]) * reading.of(out[i]);
    lemma_sigma_blocks(m, n, d);
    lemma_sigma_blocks(m, p, e);
    let one = |r: int| sigma(n, |k: int| d(r * n + k));
    let two = |r: int| sigma(p, |c: int| e(r * p + c));
    assert forall|r: int| 0 <= r < rows implies #[trigger] one(r) == two(r) by {
        let g = |c: int| reading.of(gradient[r * columns + c]);
        let a = |k: int, c: int| reading.of(rhs[k * columns + c]);
        let x = |k: int| reading.of(left[r * inside + k]);
        lemma_transpose(n, p, g, a, x);
        let from = |k: int| sigma(p, |c: int| g(c) * a(k, c)) * x(k);
        let to = |c: int| g(c) * sigma(n, |k: int| x(k) * a(k, c));
        assert forall|k: int| 0 <= k < n implies d(r * n + k) == #[trigger] from(k) by {
            lemma_flat(r, rows, k, inside);
            lemma_flat_inverse(r, k, inside);
            let cell = r * inside + k;
            let pairs = left_factors(gradient, rhs, columns, r, k);
            assert(dot_product(pairs, for_left[cell]));
            reading.lemma_dot_product(pairs, for_left[cell]);
            lemma_sigma_equal(
                p,
                |i: int| reading.of(pairs[i].0) * reading.of(pairs[i].1),
                |c: int| g(c) * a(k, c),
            );
        }
        lemma_sigma_equal(n, |k: int| d(r * n + k), from);
        assert forall|c: int| 0 <= c < p implies e(r * p + c) == #[trigger] to(c) by {
            products_sum_rows_by_columns(reading, left, rhs, rows, inside, columns, out, r, c);
            lemma_sigma_equal(
                n,
                |k: int| reading.of(left[r * inside + k]) * reading.of(rhs[k * columns + c]),
                |k: int| x(k) * a(k, c),
            );
        }
        lemma_sigma_equal(p, |c: int| e(r * p + c), to);
    }
    lemma_sigma_equal(m, one, two);
}

/// Rows of numbers, by their place and by row and column.
proof fn lemma_rows_equal(m: nat, n: nat, d: spec_fn(int) -> real)
    ensures
        sigma(m, |i: int| sigma(n, |k: int| d(i * n + k))) == sigma(
            m,
            |i: int| sigma(n, |k: int| (|i: int, k: int| d(i * n + k))(i, k)),
        ),
{
    let f = |i: int, k: int| d(i * n + k);
    let one = |i: int| sigma(n, |k: int| d(i * n + k));
    let two = |i: int| sigma(n, |k: int| f(i, k));
    assert forall|i: int| #[trigger] one(i) == two(i) by {
        lemma_sigma_equal(n, |k: int| d(i * n + k), |k: int| f(i, k));
    }
    lemma_sigma_equal(m, one, two);
}

/// The same of the right operand, on the host and on a device.
pub proof fn right_gradients_are_adjoint<T: Scalar>(
    reading: Reading<T>,
    gradient: Seq<T>,
    lhs: Seq<T>,
    rows: int,
    inside: int,
    columns: int,
    for_right: Seq<T>,
    right: Seq<T>,
    out: Seq<T>,
)
    requires
        reading.exact(),
        rows >= 0,
        inside >= 0,
        columns >= 0,
        right_gradient(gradient, lhs, rows, inside, columns, for_right) || right_gathered(
            gradient,
            lhs,
            rows,
            inside,
            columns,
            for_right,
        ),
        multiplied(lhs, right, rows, inside, columns, out),
    ensures
        inner(reading, inside * columns, for_right, right) == inner(
            reading,
            rows * columns,
            gradient,
            out,
        ),
{
    let (m, n, p) = (rows as nat, inside as nat, columns as nat);
    assert(inside * columns == n * p && rows * columns == m * p);
    let d = |i: int| reading.of(for_right[i]) * reading.of(right[i]);
    let e = |i: int| reading.of(gradient[i]) * reading.of(out[i]);
    lemma_sigma_blocks(n, p, d);
    lemma_sigma_blocks(m, p, e);
    let dd = |k: int, c: int| d(k * p + c);
    let ee = |r: int, c: int| e(r * p + c);
    lemma_rows_equal(n, p, d);
    lemma_rows_equal(m, p, e);
    lemma_sigma_exchange(n, p, dd);
    lemma_sigma_exchange(m, p, ee);
    let one = |c: int| sigma(n, |k: int| dd(k, c));
    let two = |c: int| sigma(m, |r: int| ee(r, c));
    assert forall|c: int| 0 <= c < p implies #[trigger] one(c) == two(c) by {
        let g = |r: int| reading.of(gradient[r * columns + c]);
        let a = |k: int, r: int| reading.of(lhs[r * inside + k]);
        let x = |k: int| reading.of(right[k * columns + c]);
        lemma_transpose(n, m, g, a, x);
        let from = |k: int| sigma(m, |r: int| g(r) * a(k, r)) * x(k);
        let to = |r: int| g(r) * sigma(n, |k: int| x(k) * a(k, r));
        assert forall|k: int| 0 <= k < n implies dd(k, c) == #[trigger] from(k) by {
            lemma_flat(k, inside, c, columns);
            lemma_flat_inverse(k, c, columns);
            let cell = k * columns + c;
            let product_of = |r: int| g(r) * a(k, r);
            if right_gradient(gradient, lhs, rows, inside, columns, for_right) {
                let pairs = right_factors(gradient, lhs, rows, inside, columns, k, c);
                assert(dot_product(pairs, for_right[cell]));
                reading.lemma_dot_product(pairs, for_right[cell]);
                lemma_sigma_equal(
                    m,
                    |i: int| reading.of(pairs[i].0) * reading.of(pairs[i].1),
                    product_of,
                );
            } else {
                let pairs = column_by_column(lhs, gradient, rows, inside, columns, k, c);
                assert(dot_product(pairs, for_right[cell]));
                reading.lemma_dot_product(pairs, for_right[cell]);
                assert forall|r: int| 0 <= r < m implies reading.of(#[trigger] pairs[r].0)
                    * reading.of(pairs[r].1) == product_of(r) by {
                    let (y, z) = (reading.of(pairs[r].0), reading.of(pairs[r].1));
                    assert(y * z == z * y) by (nonlinear_arith);
                }
                lemma_sigma_equal(
                    m,
                    |i: int| reading.of(pairs[i].0) * reading.of(pairs[i].1),
                    product_of,
                );
            }
        }
        lemma_sigma_equal(n, |k: int| dd(k, c), from);
        assert forall|r: int| 0 <= r < m implies ee(r, c) == #[trigger] to(r) by {
            products_sum_rows_by_columns(reading, lhs, right, rows, inside, columns, out, r, c);
            let forward = |k: int| reading.of(lhs[r * inside + k]) * reading.of(right[k * columns + c]);
            assert forall|k: int| #[trigger] forward(k) == x(k) * a(k, r) by {
                let (y, z) = (x(k), a(k, r));
                assert(z * y == y * z) by (nonlinear_arith);
            }
            lemma_sigma_equal(n, forward, |k: int| x(k) * a(k, r));
        }
        lemma_sigma_equal(m, |r: int| ee(r, c), to);
    }
    lemma_sigma_equal(p, one, two);
}

/// A cell of a tally, multiplied by a number.
proof fn lemma_tally_weighed<T: Scalar>(
    reading: Reading<T>,
    len: int,
    entries: Seq<(int, T)>,
    out: Seq<T>,
    cell: int,
    z: real,
    g: spec_fn(int) -> real,
)
    requires
        reading.exact(),
        tally(len, entries, out),
        0 <= cell < len,
        forall|k: int| 0 <= k < entries.len() ==> 0 <= (#[trigger] entries[k]).0 < len,
        forall|k: int|
            0 <= k < entries.len() ==> #[trigger] g(k) == (if entries[k].0 == cell {
                reading.of(entries[k].1)
            } else {
                0 as real
            }) * z,
    ensures
        reading.of(out[cell]) * z == sigma(entries.len(), g),
{
    lemma_tally_cell(reading, len, entries, out, cell);
    let row = |k: int|
        if entries[k].0 == cell {
            reading.of(entries[k].1)
        } else {
            0 as real
        };
    lemma_sigma_equal(
        entries.len(),
        |k: int|
            if entries[k].0 == cell {
                reading.of(entries[k].1)
            } else {
                0 as real
            },
        row,
    );
    lemma_sigma_scale(entries.len(), z, row);
    lemma_sigma_equal(entries.len(), |k: int| row(k) * z, g);
}

/// What a tally of terms, multiplied by numbers for its cells, adds up to.
pub proof fn lemma_tally_inner<T: Scalar>(
    reading: Reading<T>,
    len: int,
    entries: Seq<(int, T)>,
    out: Seq<T>,
    y: spec_fn(int) -> real,
)
    requires
        reading.exact(),
        len >= 0,
        tally(len, entries, out),
        forall|k: int| 0 <= k < entries.len() ==> 0 <= (#[trigger] entries[k]).0 < len,
    ensures
        sigma(len as nat, |c: int| reading.of(out[c]) * y(c)) == sigma(
            entries.len(),
            |k: int| reading.of(entries[k].1) * y(entries[k].0),
        ),
{
    let (m, n) = (len as nat, entries.len());
    let mask = |c: int, k: int|
        if entries[k].0 == c {
            reading.of(entries[k].1)
        } else {
            0 as real
        };
    let f = |c: int, k: int| mask(c, k) * y(c);
    let cells = |c: int| reading.of(out[c]) * y(c);
    assert forall|c: int| 0 <= c < m implies #[trigger] cells(c) == sigma(n, |k: int| f(c, k)) by {
        let g = |k: int| f(c, k);
        lemma_tally_weighed(reading, len, entries, out, c, y(c), g);
    }
    lemma_sigma_equal(m, cells, |c: int| sigma(n, |k: int| f(c, k)));
    lemma_sigma_exchange(m, n, f);
    let terms = |k: int| reading.of(entries[k].1) * y(entries[k].0);
    assert forall|k: int| 0 <= k < n implies sigma(m, |c: int| f(c, k)) == #[trigger] terms(k) by {
        let column = |c: int| f(c, k);
        let at = entries[k].0;
        assert(0 <= at < len);
        assert forall|c: int| 0 <= c < m && c != at implies #[trigger] column(c) == 0 as real by {
            let z = y(c);
            assert(0 as real * z == 0 as real) by (nonlinear_arith);
        }
        lemma_sigma_single(m, column, at);
    }
    lemma_sigma_equal(n, |k: int| sigma(m, |c: int| f(c, k)), terms);
}

/// Positions that a convolution reads are inside.
pub open spec fn inside(geometry: Convolution, taps: Seq<(int, int)>) -> bool {
    forall|k: int|
        0 <= k < taps.len() ==> 0 <= (#[trigger] taps[k]).0 < geometry.input_len() && 0
            <= taps[k].1 < geometry.weight_len()
}

proof fn lemma_row_taps(geometry: Convolution, at: Place, local: int, ky: int, n: nat)
    requires
        geometry.wf(),
        within(
            at,
            geometry.batch as int,
            geometry.out_channels as int,
            geometry.out_h(),
            geometry.out_w(),
        ),
        0 <= local < geometry.in_per_group(),
        0 <= ky < geometry.kernel_h,
        n <= geometry.kernel_w,
    ensures
        inside(geometry, geometry.row_taps(at, local, ky, n)),
    decreases n,
{
    if n > 0 {
        lemma_row_taps(geometry, at, local, ky, (n - 1) as nat);
        geometry.lemma_tap(at, local, ky, n - 1);
    }
}

proof fn lemma_plane_taps(geometry: Convolution, at: Place, local: int, n: nat)
    requires
        geometry.wf(),
        within(
            at,
            geometry.batch as int,
            geometry.out_channels as int,
            geometry.out_h(),
            geometry.out_w(),
        ),
        0 <= local < geometry.in_per_group(),
        n <= geometry.kernel_h,
    ensures
        inside(geometry, geometry.plane_taps(at, local, n)),
    decreases n,
{
    if n > 0 {
        lemma_plane_taps(geometry, at, local, (n - 1) as nat);
        lemma_row_taps(geometry, at, local, n - 1, geometry.kernel_w as nat);
    }
}

proof fn lemma_channel_taps(geometry: Convolution, at: Place, n: nat)
    requires
        geometry.wf(),
        within(
            at,
            geometry.batch as int,
            geometry.out_channels as int,
            geometry.out_h(),
            geometry.out_w(),
        ),
        n <= geometry.in_per_group(),
    ensures
        inside(geometry, geometry.channel_taps(at, n)),
    decreases n,
{
    if n > 0 {
        lemma_channel_taps(geometry, at, (n - 1) as nat);
        lemma_plane_taps(geometry, at, n - 1, geometry.kernel_h as nat);
    }
}

proof fn lemma_taps(geometry: Convolution, cell: int)
    requires
        geometry.wf(),
        0 <= cell < geometry.output_len(),
    ensures
        inside(geometry, geometry.taps(geometry.output_place(cell))),
        0 <= geometry.output_place(cell).channel < geometry.out_channels,
{
    geometry.lemma_extents();
    lemma_place(
        cell,
        geometry.batch as int,
        geometry.out_channels as int,
        geometry.out_h(),
        geometry.out_w(),
    );
    lemma_channel_taps(
        geometry,
        geometry.output_place(cell),
        geometry.in_per_group() as nat,
    );
}

/// What updates add up to, each multiplied by a number for its cell.
pub open spec fn weighed<T>(
    reading: Reading<T>,
    updates: Seq<(int, T, T)>,
    y: spec_fn(int) -> real,
) -> real {
    sigma(
        updates.len(),
        |k: int| reading.of(updates[k].1) * reading.of(updates[k].2) * y(updates[k].0),
    )
}

proof fn lemma_weighed_join<T>(
    reading: Reading<T>,
    a: Seq<(int, T, T)>,
    b: Seq<(int, T, T)>,
    y: spec_fn(int) -> real,
)
    ensures
        weighed(reading, a + b, y) == weighed(reading, a, y) + weighed(reading, b, y),
{
    let c = a + b;
    let f = |k: int| reading.of(c[k].1) * reading.of(c[k].2) * y(c[k].0);
    lemma_sigma_split(a.len(), b.len(), f);
    lemma_sigma_equal(
        a.len(),
        f,
        |k: int| reading.of(a[k].1) * reading.of(a[k].2) * y(a[k].0),
    );
    lemma_sigma_equal(
        b.len(),
        |k: int| f(a.len() + k),
        |k: int| reading.of(b[k].1) * reading.of(b[k].2) * y(b[k].0),
    );
}

/// A tally of products, multiplied by numbers for its cells.
proof fn lemma_product_tally<T: Scalar>(
    reading: Reading<T>,
    len: int,
    updates: Seq<(int, T, T)>,
    out: Seq<T>,
    y: spec_fn(int) -> real,
)
    requires
        reading.exact(),
        len >= 0,
        product_tally(len, updates, out),
        forall|k: int| 0 <= k < updates.len() ==> 0 <= (#[trigger] updates[k]).0 < len,
    ensures
        sigma(len as nat, |c: int| reading.of(out[c]) * y(c)) == weighed(reading, updates, y),
{
    let entries = choose|entries: Seq<(int, T)>|
        #[trigger] resolves(updates, entries) && tally(len, entries, out);
    assert forall|k: int| 0 <= k < entries.len() implies 0 <= (#[trigger] entries[k]).0 < len by {
        assert(entries[k].0 == updates[k].0);
    }
    lemma_tally_inner(reading, len, entries, out, y);
    assert forall|k: int| 0 <= k < entries.len() implies reading.of((#[trigger] entries[k]).1) * y(
        entries[k].0,
    ) == reading.of(updates[k].1) * reading.of(updates[k].2) * y(updates[k].0) by {
        assert(product(updates[k].1, updates[k].2, entries[k].1));
    }
    lemma_sigma_equal(
        entries.len(),
        |k: int| reading.of(entries[k].1) * y(entries[k].0),
        |k: int| reading.of(updates[k].1) * reading.of(updates[k].2) * y(updates[k].0),
    );
}

/// What an output element of a convolution adds to its bias.
pub open spec fn above_bias<T>(
    reading: Reading<T>,
    geometry: Convolution,
    bias: Seq<T>,
    out: Seq<T>,
    i: int,
) -> real {
    reading.of(out[i]) - reading.of(bias[geometry.output_place(i).channel])
}

proof fn lemma_convolved_at<T: Scalar>(
    reading: Reading<T>,
    geometry: Convolution,
    input: Seq<T>,
    weight: Seq<T>,
    bias: Seq<T>,
    out: Seq<T>,
    i: int,
)
    requires
        reading.exact(),
        convolved(geometry, input, weight, bias, out),
        0 <= i < geometry.output_len(),
    ensures
        above_bias(reading, geometry, bias, out, i) == sigma(
            geometry.taps(geometry.output_place(i)).len(),
            |k: int|
                reading.of(input[geometry.taps(geometry.output_place(i))[k].0]) * reading.of(
                    weight[geometry.taps(geometry.output_place(i))[k].1],
                ),
        ),
{
    let taps = geometry.taps(geometry.output_place(i));
    let pairs = gathered(input, weight, taps);
    let start = bias[geometry.output_place(i).channel];
    assert(dotted(start, pairs, out[i]));
    reading.lemma_dotted(start, pairs, out[i]);
    lemma_sigma_equal(
        taps.len(),
        |i: int| reading.of(pairs[i].0) * reading.of(pairs[i].1),
        |k: int| reading.of(input[taps[k].0]) * reading.of(weight[taps[k].1]),
    );
}

/// The updates to the input, cell by cell.
proof fn lemma_input_weighed<T: Scalar>(
    reading: Reading<T>,
    geometry: Convolution,
    gradient: Seq<T>,
    weight: Seq<T>,
    bias: Seq<T>,
    input: Seq<T>,
    out: Seq<T>,
    n: nat,
)
    requires
        reading.exact(),
        geometry.wf(),
        n <= geometry.output_len(),
        convolved(geometry, input, weight, bias, out),
    ensures
        weighed(
            reading,
            input_updates(geometry, gradient, weight, n),
            |c: int| reading.of(input[c]),
        ) == sigma(
            n,
            |i: int| reading.of(gradient[i]) * above_bias(reading, geometry, bias, out, i),
        ),
        forall|k: int|
            0 <= k < input_updates(geometry, gradient, weight, n).len() ==> 0 <= (
            #[trigger] input_updates(geometry, gradient, weight, n)[k]).0 < geometry.input_len(),
    decreases n,
{
    let y = |c: int| reading.of(input[c]);
    if n > 0 {
        let cell = n - 1;
        lemma_input_weighed(
            reading,
            geometry,
            gradient,
            weight,
            bias,
            input,
            out,
            (n - 1) as nat,
        );
        let before = input_updates(geometry, gradient, weight, (n - 1) as nat);
        let fresh = input_updates_at(geometry, gradient, weight, cell);
        lemma_weighed_join(reading, before, fresh, y);
        lemma_taps(geometry, cell);
        let taps = geometry.taps(geometry.output_place(cell));
        lemma_convolved_at(reading, geometry, input, weight, bias, out, cell);
        let g = reading.of(gradient[cell]);
        let forward = |k: int| reading.of(input[taps[k].0]) * reading.of(weight[taps[k].1]);
        lemma_sigma_scale(taps.len(), g, forward);
        let terms = |k: int| reading.of(fresh[k].1) * reading.of(fresh[k].2) * y(fresh[k].0);
        assert forall|k: int| 0 <= k < taps.len() implies #[trigger] terms(k) == g * forward(k) by {
            let (a, b) = (reading.of(weight[taps[k].1]), reading.of(input[taps[k].0]));
            assert(g * a * b == g * (b * a)) by (nonlinear_arith);
        }
        lemma_sigma_equal(taps.len(), terms, |k: int| g * forward(k));
        let all = input_updates(geometry, gradient, weight, n);
        assert(all == before + fresh);
        assert forall|k: int| 0 <= k < all.len() implies 0 <= (#[trigger] all[k]).0
            < geometry.input_len() by {
            if k < before.len() {
                assert(all[k] == before[k]);
            } else {
                assert(all[k] == fresh[k - before.len()]);
                assert(0 <= taps[k - before.len()].0 < geometry.input_len());
            }
        }
    }
}

/// The updates to the weight, cell by cell.
proof fn lemma_weight_weighed<T: Scalar>(
    reading: Reading<T>,
    geometry: Convolution,
    gradient: Seq<T>,
    input: Seq<T>,
    bias: Seq<T>,
    weight: Seq<T>,
    out: Seq<T>,
    n: nat,
)
    requires
        reading.exact(),
        geometry.wf(),
        n <= geometry.output_len(),
        convolved(geometry, input, weight, bias, out),
    ensures
        weighed(
            reading,
            weight_updates(geometry, gradient, input, n),
            |c: int| reading.of(weight[c]),
        ) == sigma(
            n,
            |i: int| reading.of(gradient[i]) * above_bias(reading, geometry, bias, out, i),
        ),
        forall|k: int|
            0 <= k < weight_updates(geometry, gradient, input, n).len() ==> 0 <= (
            #[trigger] weight_updates(geometry, gradient, input, n)[k]).0 < geometry.weight_len(),
    decreases n,
{
    let y = |c: int| reading.of(weight[c]);
    if n > 0 {
        let cell = n - 1;
        lemma_weight_weighed(
            reading,
            geometry,
            gradient,
            input,
            bias,
            weight,
            out,
            (n - 1) as nat,
        );
        let before = weight_updates(geometry, gradient, input, (n - 1) as nat);
        let fresh = weight_updates_at(geometry, gradient, input, cell);
        lemma_weighed_join(reading, before, fresh, y);
        lemma_taps(geometry, cell);
        let taps = geometry.taps(geometry.output_place(cell));
        lemma_convolved_at(reading, geometry, input, weight, bias, out, cell);
        let g = reading.of(gradient[cell]);
        let forward = |k: int| reading.of(input[taps[k].0]) * reading.of(weight[taps[k].1]);
        lemma_sigma_scale(taps.len(), g, forward);
        let terms = |k: int| reading.of(fresh[k].1) * reading.of(fresh[k].2) * y(fresh[k].0);
        assert forall|k: int| 0 <= k < taps.len() implies #[trigger] terms(k) == g * forward(k) by {
            let (a, b) = (reading.of(input[taps[k].0]), reading.of(weight[taps[k].1]));
            assert(g * a * b == g * (a * b)) by (nonlinear_arith);
        }
        lemma_sigma_equal(taps.len(), terms, |k: int| g * forward(k));
        let all = weight_updates(geometry, gradient, input, n);
        assert(all == before + fresh);
        assert forall|k: int| 0 <= k < all.len() implies 0 <= (#[trigger] all[k]).0
            < geometry.weight_len() by {
            if k < before.len() {
                assert(all[k] == before[k]);
            } else {
                assert(all[k] == fresh[k - before.len()]);
                assert(0 <= taps[k - before.len()].1 < geometry.weight_len());
            }
        }
    }
}

/// The gradients of a convolution are what its transposes make of the gradient of its output:
/// for every input in the place of the input, and every weight in that of the weight, the
/// products of its elements with the gradient add up to those of what the convolution makes of
/// it, above the bias, with the gradient of the output.  The gradient of a bias is the sum of
/// the gradients of its channel.
pub proof fn convolution_gradients_are_adjoint<T: Scalar>(
    reading: Reading<T>,
    geometry: Convolution,
    input: Seq<T>,
    weight: Seq<T>,
    gradient: Seq<T>,
    for_input: Seq<T>,
    for_weight: Seq<T>,
    for_bias: Seq<T>,
    bias: Seq<T>,
    other_input: Seq<T>,
    of_input: Seq<T>,
    other_weight: Seq<T>,
    of_weight: Seq<T>,
    channel: int,
)
    requires
        reading.exact(),
        geometry.wf(),
        gradient.len() == geometry.output_len(),
        convolution_gradients(
            geometry,
            input,
            weight,
            gradient,
            for_input,
            for_weight,
            for_bias,
        ),
        convolved(geometry, other_input, weight, bias, of_input),
        convolved(geometry, input, other_weight, bias, of_weight),
        0 <= channel < geometry.out_channels,
    ensures
        inner(reading, geometry.input_len(), for_input, other_input) == sigma(
            geometry.output_len() as nat,
            |i: int| reading.of(gradient[i]) * above_bias(reading, geometry, bias, of_input, i),
        ),
        inner(reading, geometry.weight_len(), for_weight, other_weight) == sigma(
            geometry.output_len() as nat,
            |i: int| reading.of(gradient[i]) * above_bias(reading, geometry, bias, of_weight, i),
        ),
        reading.of(for_bias[channel]) == sigma(
            geometry.output_len() as nat,
            |i: int|
                if geometry.output_place(i).channel == channel {
                    reading.of(gradient[i])
                } else {
                    0 as real
                },
        ),
{
    let n = geometry.output_len() as nat;
    geometry.lemma_extents();
    lemma_sizes(geometry);
    lemma_input_weighed(
        reading,
        geometry,
        gradient,
        weight,
        bias,
        other_input,
        of_input,
        n,
    );
    lemma_product_tally(
        reading,
        geometry.input_len(),
        input_updates(geometry, gradient, weight, n),
        for_input,
        |c: int| reading.of(other_input[c]),
    );
    lemma_sigma_equal(
        geometry.input_len() as nat,
        |c: int| reading.of(for_input[c]) * (|c: int| reading.of(other_input[c]))(c),
        |i: int| reading.of(for_input[i]) * reading.of(other_input[i]),
    );
    lemma_weight_weighed(
        reading,
        geometry,
        gradient,
        input,
        bias,
        other_weight,
        of_weight,
        n,
    );
    lemma_product_tally(
        reading,
        geometry.weight_len(),
        weight_updates(geometry, gradient, input, n),
        for_weight,
        |c: int| reading.of(other_weight[c]),
    );
    lemma_sigma_equal(
        geometry.weight_len() as nat,
        |c: int| reading.of(for_weight[c]) * (|c: int| reading.of(other_weight[c]))(c),
        |i: int| reading.of(for_weight[i]) * reading.of(other_weight[i]),
    );
    let entries = bias_updates(geometry, gradient, n);
    assert forall|k: int| 0 <= k < entries.len() implies 0 <= (#[trigger] entries[k]).0
        < geometry.out_channels by {
        lemma_taps(geometry, k);
    }
    lemma_tally_cell(reading, geometry.out_channels as int, entries, for_bias, channel);
    lemma_sigma_equal(
        n,
        |k: int|
            if entries[k].0 == channel {
                reading.of(entries[k].1)
            } else {
                0 as real
            },
        |i: int|
            if geometry.output_place(i).channel == channel {
                reading.of(gradient[i])
            } else {
                0 as real
            },
    );
}

/// Sizes are not negative.
proof fn lemma_sizes(geometry: Convolution)
    requires
        geometry.wf(),
    ensures
        geometry.input_len() >= 0,
        geometry.weight_len() >= 0,
        geometry.output_len() >= 0,
{
    geometry.lemma_extents();
    let (b, c, h, w) = (
        geometry.batch as int,
        geometry.in_channels as int,
        geometry.height as int,
        geometry.width as int,
    );
    lemma_four(b, c, h, w);
    lemma_four(
        geometry.out_channels as int,
        geometry.in_per_group(),
        geometry.kernel_h as int,
        geometry.kernel_w as int,
    );
    lemma_four(b, geometry.out_channels as int, geometry.out_h(), geometry.out_w());
}

proof fn lemma_four(a: int, b: int, c: int, d: int)
    requires
        a >= 0,
        b >= 0,
        c >= 0,
        d >= 0,
    ensures
        a * b * c * d >= 0,
{
    vstd::arithmetic::mul::lemma_mul_nonnegative(a, b);
    vstd::arithmetic::mul::lemma_mul_nonnegative(a * b, c);
    vstd::arithmetic::mul::lemma_mul_nonnegative(a * b * c, d);
}

/// A rectifier keeps what is above zero, and gives zero for the rest; what comes back through
/// it is kept where its input was above zero, and zero elsewhere.
pub proof fn rectifiers_pass_what_is_positive<T: Scalar>(
    reading: Reading<T>,
    value: T,
    r: T,
    gradient: T,
    back: T,
)
    requires
        reading.exact(),
        !bottom(value),
        forall|z: T| zero(z) ==> !bottom(z),
        rectified(value, r),
        gated(value, gradient, back),
    ensures
        reading.of(r) == larger(reading.of(value), 0 as real),
        reading.of(back) == if reading.of(value) > 0 as real {
            reading.of(gradient)
        } else {
            0 as real
        },
{
}

/// The updates of a pool, each multiplied by a number for its cell.
proof fn lemma_pool_weighed<T: Scalar>(
    reading: Reading<T>,
    geometry: Pooling,
    gradient: Seq<T>,
    shares: Seq<T>,
    input: Seq<T>,
    out: Seq<T>,
    n: nat,
)
    requires
        reading.exact(),
        geometry.wf(),
        n <= geometry.output_len(),
        shares.len() == geometry.output_len(),
        gradient.len() == geometry.output_len(),
        forall|i: int|
            0 <= i < shares.len() ==> shared_out(
                gradient[i],
                geometry.area() as usize,
                #[trigger] shares[i],
            ),
        pooled(geometry, input, out),
        0 < geometry.area() <= usize::MAX,
    ensures
        sigma(
            pool_updates(geometry, shares, n).len(),
            |k: int|
                reading.of(pool_updates(geometry, shares, n)[k].1) * reading.of(
                    input[pool_updates(geometry, shares, n)[k].0],
                ),
        ) == sigma(n, |i: int| reading.of(gradient[i]) * reading.of(out[i])),
        forall|k: int|
            0 <= k < pool_updates(geometry, shares, n).len() ==> 0 <= (#[trigger] pool_updates(
                geometry,
                shares,
                n,
            )[k]).0 < geometry.input_len(),
    decreases n,
{
    if n > 0 {
        let cell = n - 1;
        lemma_pool_weighed(
            reading,
            geometry,
            gradient,
            shares,
            input,
            out,
            (n - 1) as nat,
        );
        let before = pool_updates(geometry, shares, (n - 1) as nat);
        let fresh = pool_updates_at(geometry, shares, cell);
        let all = pool_updates(geometry, shares, n);
        assert(all == before + fresh);
        let f = |k: int| reading.of(all[k].1) * reading.of(input[all[k].0]);
        lemma_sigma_split(before.len(), fresh.len(), f);
        lemma_sigma_equal(
            before.len(),
            f,
            |k: int| reading.of(before[k].1) * reading.of(input[before[k].0]),
        );
        let at = geometry.output_place(cell);
        geometry.lemma_extents();
        lemma_place(
            cell,
            geometry.batch as int,
            geometry.channels as int,
            geometry.out_h(),
            geometry.out_w(),
        );
        let area = geometry.area() as usize;
        let window = geometry.window(input, at);
        assert(averaged(window, area, out[cell]));
        reading.lemma_averaged(window, area, out[cell]);
        let w = |i: int| reading.of(window[i]);
        let share = reading.of(shares[cell]);
        assert(shared_out(gradient[cell], area, shares[cell]));
        lemma_sigma_scale(area as nat, share, w);
        assert forall|k: int| 0 <= k < area implies share * #[trigger] w(k) == f(
            before.len() + k,
        ) by {
            assert(all[before.len() + k] == fresh[k]);
        }
        lemma_sigma_equal(area as nat, |k: int| share * w(k), |k: int| f(before.len() + k));
        let (x, c, g) = (reading.of(out[cell]), area as real, reading.of(gradient[cell]));
        assert(share * (x * c) == (share * c) * x) by (nonlinear_arith);
        assert(share * c == g);
        assert forall|k: int| 0 <= k < all.len() implies 0 <= (#[trigger] all[k]).0
            < geometry.input_len() by {
            if k < before.len() {
                assert(all[k] == before[k]);
            } else {
                assert(all[k] == fresh[k - before.len()]);
                geometry.lemma_tap(at, k - before.len());
            }
        }
    }
}

/// The gradient of an average pool is what its transpose makes of the gradient of its output:
/// for every input in the place of the input, the products of its elements with the gradient
/// add up to those of its pool with the gradient of the output.
pub proof fn pool_gradients_are_adjoint<T: Scalar>(
    reading: Reading<T>,
    geometry: Pooling,
    gradient: Seq<T>,
    for_input: Seq<T>,
    input: Seq<T>,
    out: Seq<T>,
)
    requires
        reading.exact(),
        geometry.wf(),
        gradient.len() == geometry.output_len(),
        0 < geometry.area() <= usize::MAX,
        geometry.input_len() >= 0,
        pool_gradient(geometry, gradient, for_input),
        pooled(geometry, input, out),
    ensures
        inner(reading, geometry.input_len(), for_input, input) == inner(
            reading,
            geometry.output_len(),
            gradient,
            out,
        ),
{
    let shares = choose|shares: Seq<T>|
        {
            &&& shares.len() == gradient.len()
            &&& forall|i: int|
                0 <= i < shares.len() ==> shared_out(
                    gradient[i],
                    geometry.area() as usize,
                    #[trigger] shares[i],
                )
            &&& tally(
                geometry.input_len(),
                #[trigger] pool_updates(geometry, shares, gradient.len()),
                for_input,
            )
        };
    let n = gradient.len();
    lemma_pool_weighed(reading, geometry, gradient, shares, input, out, n);
    let updates = pool_updates(geometry, shares, n);
    let y = |c: int| reading.of(input[c]);
    lemma_tally_inner(reading, geometry.input_len(), updates, for_input, y);
    lemma_sigma_equal(
        geometry.input_len() as nat,
        |c: int| reading.of(for_input[c]) * y(c),
        |i: int| reading.of(for_input[i]) * reading.of(input[i]),
    );
    lemma_sigma_equal(
        updates.len(),
        |k: int| reading.of(updates[k].1) * y(updates[k].0),
        |k: int|
            reading.of(pool_updates(geometry, shares, n)[k].1) * reading.of(
                input[pool_updates(geometry, shares, n)[k].0],
            ),
    );
}

} // verus!
