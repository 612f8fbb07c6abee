//! Values of the tensor operations, computed on row-major data.

use crate::error::{Error, Failure, Result};
use crate::index::{
    lemma_flat, lemma_place, lemma_position, lemma_unflat, lemma_window, place, position, within,
    Place,
};
use crate::scalar::{
    added, bottom, counted, difference, displayed, dotted, equals, exponentiated, fractional,
    highest, is_finite, lemma_added_push, lemma_dotted_push, lemma_highest_push, less, logged,
    maximum, quotient, sum, truncated, zero, Scalar,
};
use crate::text::{decimal, owned, push_decimal};
use vstd::prelude::*;

verus! {

/// Applies `op` to the elements of two vectors pairwise.
pub fn zip_map<T: Copy, F: Fn(T, T) -> T>(lhs: &Vec<T>, rhs: &Vec<T>, op: F) -> (r: Vec<T>)
    requires
        lhs.len() == rhs.len(),
        forall|a: T, b: T| call_requires(op, (a, b)),
    ensures
        r.len() == lhs.len(),
        forall|i: int|
            0 <= i < r.len() ==> call_ensures(op, (lhs@[i], rhs@[i]), #[trigger] r@[i]),
{
    let mut r: Vec<T> = Vec::with_capacity(lhs.len());
    let mut i: usize = 0;
    while i < lhs.len()
        invariant
            lhs.len() == rhs.len(),
            forall|a: T, b: T| call_requires(op, (a, b)),
            i <= lhs.len(),
            r.len() == i,
            forall|j: int| 0 <= j < i ==> call_ensures(op, (lhs@[j], rhs@[j]), #[trigger] r@[j]),
        decreases lhs.len() - i,
    {
        r.push(op(lhs[i], rhs[i]));
        i = i + 1;
    }
    r
}

/// `r` is a result of rectifying `a`: the larger of `a` and zero.
pub open spec fn rectified<T: Scalar>(a: T, r: T) -> bool {
    exists|z: T| zero(z) && #[trigger] maximum(a, z, r)
}

/// Rectifies each element.
pub fn relu_values<T: Scalar>(input: &Vec<T>) -> (r: Vec<T>)
    ensures
        r.len() == input.len(),
        forall|i: int| 0 <= i < r.len() ==> rectified(input@[i], #[trigger] r@[i]),
{
    let mut r: Vec<T> = Vec::with_capacity(input.len());
    let mut i: usize = 0;
    while i < input.len()
        invariant
            i <= input.len(),
            r.len() == i,
            forall|j: int| 0 <= j < i ==> rectified(input@[j], #[trigger] r@[j]),
        decreases input.len() - i,
    {
        let z = T::of_count(0);
        let value = input[i].larger(z);
        assert(zero(z) && maximum(input@[i as int], z, value));
        r.push(value);
        i = i + 1;
    }
    r
}

/// The factors that make up one element of a matrix product.
pub open spec fn row_by_column<T>(
    lhs: Seq<T>,
    rhs: Seq<T>,
    inner: int,
    columns: int,
    row: int,
    column: int,
) -> Seq<(T, T)> {
    Seq::new(inner as nat, |k: int| (lhs[row * inner + k], rhs[k * columns + column]))
}

/// `out` is the product of a matrix with `inner` columns and one with `columns`.
pub open spec fn multiplied<T: Scalar>(
    lhs: Seq<T>,
    rhs: Seq<T>,
    rows: int,
    inner: int,
    columns: int,
    out: Seq<T>,
) -> bool {
    &&& out.len() == rows * columns
    &&& forall|i: int|
        0 <= i < out.len() ==> dot_product(
            row_by_column(lhs, rhs, inner, columns, i / columns, i % columns),
            #[trigger] out[i],
        )
}

/// `r` is the sum of the products of the pairs, added up from zero.
pub open spec fn dot_product<T: Scalar>(pairs: Seq<(T, T)>, r: T) -> bool {
    exists|z: T| zero(z) && #[trigger] dotted(z, pairs, r)
}

/// Multiplies two row-major matrices.
pub fn matmul_values<T: Scalar>(
    lhs: &Vec<T>,
    rhs: &Vec<T>,
    rows: usize,
    inner: usize,
    columns: usize,
) -> (r: Vec<T>)
    requires
        lhs.len() == rows * inner,
        rhs.len() == inner * columns,
        rows * columns <= usize::MAX,
    ensures
        multiplied(lhs@, rhs@, rows as int, inner as int, columns as int, r@),
{
    let cells: usize = rows * columns;
    let mut r: Vec<T> = Vec::with_capacity(cells);
    let mut i: usize = 0;
    while i < cells
        invariant
            cells == rows * columns,
            lhs.len() == rows * inner,
            rhs.len() == inner * columns,
            i <= cells,
            r.len() == i,
            forall|j: int|
                0 <= j < i ==> dot_product(
                    row_by_column(
                        lhs@,
                        rhs@,
                        inner as int,
                        columns as int,
                        j / columns as int,
                        j % columns as int,
                    ),
                    #[trigger] r@[j],
                ),
        decreases cells - i,
    {
        proof {
            lemma_unflat(i as int, rows as int, columns as int);
        }
        let row: usize = i / columns;
        let column: usize = i % columns;
        let ghost pairs = row_by_column(
            lhs@,
            rhs@,
            inner as int,
            columns as int,
            row as int,
            column as int,
        );
        let start = T::of_count(0);
        let mut total = start;
        let mut k: usize = 0;
        assert(pairs.take(0) =~= Seq::empty());
        while k < inner
            invariant
                lhs.len() == rows * inner,
                rhs.len() == inner * columns,
                row < rows,
                column < columns,
                k <= inner,
                zero(start),
                pairs == row_by_column(
                    lhs@,
                    rhs@,
                    inner as int,
                    columns as int,
                    row as int,
                    column as int,
                ),
                dotted(start, pairs.take(k as int), total),
            decreases inner - k,
        {
            proof {
                lemma_flat(row as int, rows as int, k as int, inner as int);
                lemma_flat(k as int, inner as int, column as int, columns as int);
            }
            let a = lhs[row * inner + k];
            let b = rhs[k * columns + column];
            let part = a.times(b);
            let next = total.plus(part);
            proof {
                lemma_dotted_push(start, pairs.take(k as int), total, a, b, part, next);
                assert(pairs.take(k + 1) =~= pairs.take(k as int).push((a, b)));
            }
            total = next;
            k = k + 1;
        }
        assert(pairs.take(k as int) =~= pairs);
        assert(zero(start) && dotted(start, pairs, total));
        r.push(total);
        i = i + 1;
    }
    r
}

/// The extents of a grouped convolution of an NCHW input with an OIHW weight.
#[derive(Clone, Copy)]
pub struct Convolution {
    pub batch: usize,
    pub in_channels: usize,
    pub height: usize,
    pub width: usize,
    pub out_channels: usize,
    pub kernel_h: usize,
    pub kernel_w: usize,
    pub stride: usize,
    pub padding: usize,
    pub groups: usize,
}

impl Convolution {
    /// The input channels that each group reads.
    pub open spec fn in_per_group(self) -> int {
        self.in_channels as int / self.groups as int
    }

    /// The output channels that each group writes.
    pub open spec fn out_per_group(self) -> int {
        self.out_channels as int / self.groups as int
    }

    /// The rows of an output plane.
    pub open spec fn out_h(self) -> int {
        (self.height + 2 * self.padding - self.kernel_h) / self.stride as int + 1
    }

    /// The columns of an output plane.
    pub open spec fn out_w(self) -> int {
        (self.width + 2 * self.padding - self.kernel_w) / self.stride as int + 1
    }

    /// The number of input elements.
    pub open spec fn input_len(self) -> int {
        self.batch * self.in_channels * self.height * self.width
    }

    /// The number of weight elements.
    pub open spec fn weight_len(self) -> int {
        self.out_channels * self.in_per_group() * self.kernel_h * self.kernel_w
    }

    /// The number of output elements.
    pub open spec fn output_len(self) -> int {
        self.batch * self.out_channels * self.out_h() * self.out_w()
    }

    /// The channels divide into the groups, the kernel fits into the padded input, and
    /// every count is in range.
    pub open spec fn wf(self) -> bool {
        &&& self.stride > 0
        &&& self.groups > 0
        &&& self.in_channels % self.groups == 0
        &&& self.out_channels % self.groups == 0
        &&& 0 < self.kernel_h <= self.height + 2 * self.padding <= usize::MAX
        &&& 0 < self.kernel_w <= self.width + 2 * self.padding <= usize::MAX
        &&& self.input_len() <= usize::MAX
        &&& self.weight_len() <= usize::MAX
        &&& self.output_len() <= usize::MAX
    }

    /// The place that an output element stands at.
    pub open spec fn output_place(self, cell: int) -> Place {
        place(cell, self.out_channels as int, self.out_h(), self.out_w())
    }

    /// The input place that one kernel element reads for an output place.
    pub open spec fn input_place(self, at: Place, local: int, ky: int, kx: int) -> Place {
        Place {
            sample: at.sample,
            channel: (at.channel / self.out_per_group()) * self.in_per_group() + local,
            y: at.y * self.stride + ky - self.padding,
            x: at.x * self.stride + kx - self.padding,
        }
    }

    /// The kernel row reads inside the input, not its padding.
    pub open spec fn covers_row(self, at: Place, ky: int) -> bool {
        0 <= at.y * self.stride + ky - self.padding < self.height
    }

    /// The kernel element reads inside the input, not its padding.
    pub open spec fn covers(self, at: Place, ky: int, kx: int) -> bool {
        &&& self.covers_row(at, ky)
        &&& 0 <= at.x * self.stride + kx - self.padding < self.width
    }

    /// The position that one kernel element reads in the input.
    pub open spec fn input_index(self, at: Place, local: int, ky: int, kx: int) -> int {
        position(
            self.input_place(at, local, ky, kx),
            self.in_channels as int,
            self.height as int,
            self.width as int,
        )
    }

    /// The position of one kernel element in the weight.
    pub open spec fn weight_index(self, at: Place, local: int, ky: int, kx: int) -> int {
        position(
            Place { sample: at.channel, channel: local, y: ky, x: kx },
            self.in_per_group(),
            self.kernel_h as int,
            self.kernel_w as int,
        )
    }

    /// The (input, weight) positions that the first `n` elements of a kernel row read,
    /// from left to right, without those that fall on padding.
    pub open spec fn row_taps(self, at: Place, local: int, ky: int, n: nat) -> Seq<(int, int)>
        decreases n,
    {
        if n == 0 {
            Seq::empty()
        } else {
            let before = self.row_taps(at, local, ky, (n - 1) as nat);
            if self.covers(at, ky, n - 1) {
                before.push(
                    (self.input_index(at, local, ky, n - 1), self.weight_index(at, local, ky, n - 1)),
                )
            } else {
                before
            }
        }
    }

    /// The same for the first `n` rows of a kernel plane, from top to bottom.
    pub open spec fn plane_taps(self, at: Place, local: int, n: nat) -> Seq<(int, int)>
        decreases n,
    {
        if n == 0 {
            Seq::empty()
        } else {
            self.plane_taps(at, local, (n - 1) as nat) + self.row_taps(
                at,
                local,
                n - 1,
                self.kernel_w as nat,
            )
        }
    }

    /// The same for the first `n` input channels of the group, in order.
    pub open spec fn channel_taps(self, at: Place, n: nat) -> Seq<(int, int)>
        decreases n,
    {
        if n == 0 {
            Seq::empty()
        } else {
            self.channel_taps(at, (n - 1) as nat) + self.plane_taps(
                at,
                n - 1,
                self.kernel_h as nat,
            )
        }
    }

    /// The (input, weight) positions that make up one output element.
    pub open spec fn taps(self, at: Place) -> Seq<(int, int)> {
        self.channel_taps(at, self.in_per_group() as nat)
    }

    /// The output extents are in range.
    pub proof fn lemma_extents(self)
        requires
            self.wf(),
        ensures
            1 <= self.out_h() <= usize::MAX,
            1 <= self.out_w() <= usize::MAX,
            0 <= self.in_per_group() <= self.in_channels,
            0 <= self.out_per_group() <= self.out_channels,
            self.in_per_group() * self.groups == self.in_channels,
            self.out_per_group() * self.groups == self.out_channels,
            0 <= self.batch * self.out_channels,
            0 <= self.batch * self.out_channels * self.out_h(),
            self.batch * self.out_channels <= usize::MAX,
            self.batch * self.out_channels * self.out_h() <= usize::MAX,
    {
        let h = self.height + 2 * self.padding - self.kernel_h;
        let w = self.width + 2 * self.padding - self.kernel_w;
        crate::index::lemma_div_bound(h, self.stride as int);
        crate::index::lemma_div_bound(w, self.stride as int);
        crate::index::lemma_div_bound(self.in_channels as int, self.groups as int);
        crate::index::lemma_div_bound(self.out_channels as int, self.groups as int);
        vstd::arithmetic::div_mod::lemma_fundamental_div_mod(
            self.in_channels as int,
            self.groups as int,
        );
        vstd::arithmetic::div_mod::lemma_fundamental_div_mod(
            self.out_channels as int,
            self.groups as int,
        );
        let i = self.in_per_group();
        let o = self.out_per_group();
        let g = self.groups as int;
        assert(i * g == g * i && o * g == g * o) by (nonlinear_arith);
        let b = self.batch as int;
        let c = self.out_channels as int;
        let oh = self.out_h();
        let ow = self.out_w();
        assert(0 <= b * c && 0 <= b * c * oh && b * c <= b * c * oh && b * c * oh <= b * c * oh
            * ow) by (nonlinear_arith)
            requires
                0 <= b,
                0 <= c,
                1 <= oh,
                1 <= ow,
        ;
    }

    /// A kernel element that reads inside the input reads it, and the weight, at
    /// positions in range.
    pub proof fn lemma_tap(self, at: Place, local: int, ky: int, kx: int)
        requires
            self.wf(),
            within(at, self.batch as int, self.out_channels as int, self.out_h(), self.out_w()),
            0 <= local < self.in_per_group(),
            0 <= ky < self.kernel_h,
            0 <= kx < self.kernel_w,
        ensures
            0 <= at.y * self.stride,
            at.y * self.stride + ky <= usize::MAX,
            0 <= at.x * self.stride,
            at.x * self.stride + kx <= usize::MAX,
            self.out_per_group() > 0,
            0 <= at.channel / self.out_per_group() < self.groups,
            0 <= (at.channel / self.out_per_group()) * self.in_per_group(),
            (at.channel / self.out_per_group()) * self.in_per_group() + local < self.in_channels,
            within(
                Place { sample: at.channel, channel: local, y: ky, x: kx },
                self.out_channels as int,
                self.in_per_group(),
                self.kernel_h as int,
                self.kernel_w as int,
            ),
            0 <= self.weight_index(at, local, ky, kx) < self.weight_len(),
            self.covers(at, ky, kx) ==> within(
                self.input_place(at, local, ky, kx),
                self.batch as int,
                self.in_channels as int,
                self.height as int,
                self.width as int,
            ),
            self.covers(at, ky, kx) ==> 0 <= self.input_index(at, local, ky, kx)
                < self.input_len(),
    {
        self.lemma_extents();
        lemma_window(
            at.y,
            self.height + 2 * self.padding,
            self.kernel_h as int,
            self.stride as int,
        );
        lemma_window(
            at.x,
            self.width + 2 * self.padding,
            self.kernel_w as int,
            self.stride as int,
        );
        let o = self.out_per_group();
        let i = self.in_per_group();
        let g = self.groups as int;
        assert(g * o == o * g && g * i == i * g) by (nonlinear_arith);
        lemma_unflat(at.channel, g, o);
        lemma_flat(at.channel / o, g, local, i);
        lemma_position(
            Place { sample: at.channel, channel: local, y: ky, x: kx },
            self.out_channels as int,
            self.in_per_group(),
            self.kernel_h as int,
            self.kernel_w as int,
        );
        if self.covers(at, ky, kx) {
            lemma_position(
                self.input_place(at, local, ky, kx),
                self.batch as int,
                self.in_channels as int,
                self.height as int,
                self.width as int,
            );
        }
    }

    /// A kernel row that lies on padding reads nothing.
    proof fn lemma_row_outside(self, at: Place, local: int, ky: int, n: nat)
        requires
            !self.covers_row(at, ky),
        ensures
            self.row_taps(at, local, ky, n) =~= Seq::<(int, int)>::empty(),
        decreases n,
    {
        if n > 0 {
            self.lemma_row_outside(at, local, ky, (n - 1) as nat);
        }
    }
}

/// The elements at a list of (input, weight) positions.
pub open spec fn gathered<T>(input: Seq<T>, weight: Seq<T>, taps: Seq<(int, int)>) -> Seq<(T, T)> {
    Seq::new(taps.len(), |k: int| (input[taps[k].0], weight[taps[k].1]))
}

/// `out` is the grouped convolution: each element starts from its channel's bias and
/// adds the products over the kernel.
pub open spec fn convolved<T: Scalar>(
    geometry: Convolution,
    input: Seq<T>,
    weight: Seq<T>,
    bias: Seq<T>,
    out: Seq<T>,
) -> bool {
    &&& out.len() == geometry.output_len()
    &&& forall|i: int|
        0 <= i < out.len() ==> dotted(
            bias[geometry.output_place(i).channel],
            gathered(input, weight, geometry.taps(geometry.output_place(i))),
            #[trigger] out[i],
        )
}

proof fn lemma_gathered_push<T>(
    input: Seq<T>,
    weight: Seq<T>,
    head: Seq<(int, int)>,
    row: Seq<(int, int)>,
    tap: (int, int),
)
    ensures
        gathered(input, weight, head + row.push(tap)) == gathered(input, weight, head + row).push(
            (input[tap.0], weight[tap.1]),
        ),
{
    assert(head + row.push(tap) =~= (head + row).push(tap));
    assert(gathered(input, weight, head + row.push(tap)) =~= gathered(
        input,
        weight,
        head + row,
    ).push((input[tap.0], weight[tap.1])));
}

/// One element of a grouped convolution.
fn conv2d_element<T: Scalar>(
    geometry: Convolution,
    input: &Vec<T>,
    weight: &Vec<T>,
    bias: &Vec<T>,
    cell: usize,
) -> (r: T)
    requires
        geometry.wf(),
        input.len() == geometry.input_len(),
        weight.len() == geometry.weight_len(),
        bias.len() == geometry.out_channels,
        cell < geometry.output_len(),
    ensures
        dotted(
            bias@[geometry.output_place(cell as int).channel],
            gathered(input@, weight@, geometry.taps(geometry.output_place(cell as int))),
            r,
        ),
{
    proof {
        geometry.lemma_extents();
        lemma_place(
            cell as int,
            geometry.batch as int,
            geometry.out_channels as int,
            geometry.out_h(),
            geometry.out_w(),
        );
    }
    let ghost at = geometry.output_place(cell as int);
    let out_h: usize = (geometry.height + 2 * geometry.padding - geometry.kernel_h)
        / geometry.stride + 1;
    let out_w: usize = (geometry.width + 2 * geometry.padding - geometry.kernel_w)
        / geometry.stride + 1;
    let in_per_group: usize = geometry.in_channels / geometry.groups;
    let out_per_group: usize = geometry.out_channels / geometry.groups;
    let out_x: usize = cell % out_w;
    let out_y: usize = cell / out_w % out_h;
    let out_channel: usize = cell / out_w / out_h % geometry.out_channels;
    let sample: usize = cell / out_w / out_h / geometry.out_channels;
    let start = bias[out_channel];
    let mut total = start;
    let ghost mut done: Seq<(int, int)> = Seq::empty();
    let mut local: usize = 0;
    assert(gathered(input@, weight@, done) =~= Seq::empty());
    while local < in_per_group
        invariant
            geometry.wf(),
            input.len() == geometry.input_len(),
            weight.len() == geometry.weight_len(),
            within(
                at,
                geometry.batch as int,
                geometry.out_channels as int,
                geometry.out_h(),
                geometry.out_w(),
            ),
            at == (Place {
                sample: sample as int,
                channel: out_channel as int,
                y: out_y as int,
                x: out_x as int,
            }),
            in_per_group == geometry.in_per_group(),
            out_per_group == geometry.out_per_group(),
            local <= in_per_group,
            done == geometry.channel_taps(at, local as nat),
            dotted(start, gathered(input@, weight@, done), total),
        decreases in_per_group - local,
    {
        let ghost channel_start = done;
        let mut ky: usize = 0;
        assert(channel_start + geometry.plane_taps(at, local as int, 0) =~= done);
        while ky < geometry.kernel_h
            invariant
                geometry.wf(),
                input.len() == geometry.input_len(),
                weight.len() == geometry.weight_len(),
                within(
                    at,
                    geometry.batch as int,
                    geometry.out_channels as int,
                    geometry.out_h(),
                    geometry.out_w(),
                ),
                at == (Place {
                    sample: sample as int,
                    channel: out_channel as int,
                    y: out_y as int,
                    x: out_x as int,
                }),
                in_per_group == geometry.in_per_group(),
                out_per_group == geometry.out_per_group(),
                local < in_per_group,
                ky <= geometry.kernel_h,
                done == channel_start + geometry.plane_taps(at, local as int, ky as nat),
                dotted(start, gathered(input@, weight@, done), total),
            decreases geometry.kernel_h - ky,
        {
            proof {
                geometry.lemma_tap(at, local as int, ky as int, 0);
            }
            let group: usize = out_channel / out_per_group;
            let in_channel: usize = group * in_per_group + local;
            let padded_y: usize = out_y * geometry.stride + ky;
            let ghost row_start = done;
            if padded_y >= geometry.padding && padded_y - geometry.padding < geometry.height {
                let in_y: usize = padded_y - geometry.padding;
                let mut kx: usize = 0;
                assert(row_start + geometry.row_taps(at, local as int, ky as int, 0) =~= done);
                while kx < geometry.kernel_w
                    invariant
                        geometry.wf(),
                        input.len() == geometry.input_len(),
                        weight.len() == geometry.weight_len(),
                        within(
                            at,
                            geometry.batch as int,
                            geometry.out_channels as int,
                            geometry.out_h(),
                            geometry.out_w(),
                        ),
                        at == (Place {
                            sample: sample as int,
                            channel: out_channel as int,
                            y: out_y as int,
                            x: out_x as int,
                        }),
                        in_per_group == geometry.in_per_group(),
                        local < in_per_group,
                        ky < geometry.kernel_h,
                        kx <= geometry.kernel_w,
                        in_channel == (out_channel as int / geometry.out_per_group())
                            * geometry.in_per_group() + local,
                        in_y == at.y * geometry.stride + ky - geometry.padding,
                        geometry.covers_row(at, ky as int),
                        done == row_start + geometry.row_taps(
                            at,
                            local as int,
                            ky as int,
                            kx as nat,
                        ),
                        dotted(start, gathered(input@, weight@, done), total),
                    decreases geometry.kernel_w - kx,
                {
                    proof {
                        geometry.lemma_tap(at, local as int, ky as int, kx as int);
                    }
                    let padded_x: usize = out_x * geometry.stride + kx;
                    if padded_x >= geometry.padding && padded_x - geometry.padding
                        < geometry.width {
                        let in_x: usize = padded_x - geometry.padding;
                        proof {
                            assert(geometry.covers(at, ky as int, kx as int));
                            lemma_position(
                                geometry.input_place(at, local as int, ky as int, kx as int),
                                geometry.batch as int,
                                geometry.in_channels as int,
                                geometry.height as int,
                                geometry.width as int,
                            );
                            lemma_position(
                                Place {
                                    sample: out_channel as int,
                                    channel: local as int,
                                    y: ky as int,
                                    x: kx as int,
                                },
                                geometry.out_channels as int,
                                geometry.in_per_group(),
                                geometry.kernel_h as int,
                                geometry.kernel_w as int,
                            );
                        }
                        let input_index: usize = ((sample * geometry.in_channels + in_channel)
                            * geometry.height + in_y) * geometry.width + in_x;
                        let weight_index: usize = ((out_channel * in_per_group + local)
                            * geometry.kernel_h + ky) * geometry.kernel_w + kx;
                        let a = input[input_index];
                        let b = weight[weight_index];
                        let part = a.times(b);
                        let next = total.plus(part);
                        proof {
                            let row = geometry.row_taps(at, local as int, ky as int, kx as nat);
                            let tap = (input_index as int, weight_index as int);
                            lemma_dotted_push(
                                start,
                                gathered(input@, weight@, done),
                                total,
                                a,
                                b,
                                part,
                                next,
                            );
                            lemma_gathered_push(input@, weight@, row_start, row, tap);
                            done = row_start + row.push(tap);
                        }
                        total = next;
                    }
                    kx = kx + 1;
                }
            } else {
                proof {
                    assert(!geometry.covers_row(at, ky as int));
                    geometry.lemma_row_outside(
                        at,
                        local as int,
                        ky as int,
                        geometry.kernel_w as nat,
                    );
                    assert(row_start + geometry.row_taps(
                        at,
                        local as int,
                        ky as int,
                        geometry.kernel_w as nat,
                    ) =~= done);
                }
            }
            proof {
                assert(done =~= channel_start + geometry.plane_taps(
                    at,
                    local as int,
                    (ky + 1) as nat,
                ));
            }
            ky = ky + 1;
        }
        local = local + 1;
    }
    total
}

/// Grouped convolution of row-major NCHW data with an OIHW weight.
pub fn conv2d_values<T: Scalar>(
    geometry: Convolution,
    input: &Vec<T>,
    weight: &Vec<T>,
    bias: &Vec<T>,
) -> (r: Vec<T>)
    requires
        geometry.wf(),
        input.len() == geometry.input_len(),
        weight.len() == geometry.weight_len(),
        bias.len() == geometry.out_channels,
    ensures
        convolved(geometry, input@, weight@, bias@, r@),
{
    proof {
        geometry.lemma_extents();
    }
    let out_h: usize = (geometry.height + 2 * geometry.padding - geometry.kernel_h)
        / geometry.stride + 1;
    let out_w: usize = (geometry.width + 2 * geometry.padding - geometry.kernel_w)
        / geometry.stride + 1;
    let cells: usize = geometry.batch * geometry.out_channels * out_h * out_w;
    let mut r: Vec<T> = Vec::with_capacity(cells);
    let mut i: usize = 0;
    while i < cells
        invariant
            geometry.wf(),
            input.len() == geometry.input_len(),
            weight.len() == geometry.weight_len(),
            bias.len() == geometry.out_channels,
            cells == geometry.output_len(),
            i <= cells,
            r.len() == i,
            forall|j: int|
                0 <= j < i ==> dotted(
                    bias@[geometry.output_place(j).channel],
                    gathered(input@, weight@, geometry.taps(geometry.output_place(j))),
                    #[trigger] r@[j],
                ),
        decreases cells - i,
    {
        let value = conv2d_element(geometry, input, weight, bias, i);
        r.push(value);
        i = i + 1;
    }
    r
}

/// The list holds the positions, all of them in range.
pub open spec fn lists(geometry: Convolution, list: Seq<(usize, usize)>, taps: Seq<(int, int)>) -> bool {
    &&& list.len() == taps.len()
    &&& forall|k: int|
        0 <= k < list.len() ==> {
            &&& (#[trigger] list[k]).0 == taps[k].0
            &&& list[k].1 == taps[k].1
            &&& list[k].0 < geometry.input_len()
            &&& list[k].1 < geometry.weight_len()
        }
}

/// The (input, weight) positions that make up one output element of a convolution.
pub fn tap_list(geometry: Convolution, cell: usize) -> (r: Vec<(usize, usize)>)
    requires
        geometry.wf(),
        cell < geometry.output_len(),
    ensures
        lists(geometry, r@, geometry.taps(geometry.output_place(cell as int))),
{
    proof {
        geometry.lemma_extents();
        lemma_place(
            cell as int,
            geometry.batch as int,
            geometry.out_channels as int,
            geometry.out_h(),
            geometry.out_w(),
        );
    }
    let ghost at = geometry.output_place(cell as int);
    let out_h: usize = (geometry.height + 2 * geometry.padding - geometry.kernel_h)
        / geometry.stride + 1;
    let out_w: usize = (geometry.width + 2 * geometry.padding - geometry.kernel_w)
        / geometry.stride + 1;
    let in_per_group: usize = geometry.in_channels / geometry.groups;
    let out_per_group: usize = geometry.out_channels / geometry.groups;
    let out_x: usize = cell % out_w;
    let out_y: usize = cell / out_w % out_h;
    let out_channel: usize = cell / out_w / out_h % geometry.out_channels;
    let sample: usize = cell / out_w / out_h / geometry.out_channels;
    let mut r: Vec<(usize, usize)> = Vec::new();
    let mut local: usize = 0;
    while local < in_per_group
        invariant
            geometry.wf(),
            within(
                at,
                geometry.batch as int,
                geometry.out_channels as int,
                geometry.out_h(),
                geometry.out_w(),
            ),
            at == (Place {
                sample: sample as int,
                channel: out_channel as int,
                y: out_y as int,
                x: out_x as int,
            }),
            in_per_group == geometry.in_per_group(),
            out_per_group == geometry.out_per_group(),
            local <= in_per_group,
            lists(geometry, r@, geometry.channel_taps(at, local as nat)),
        decreases in_per_group - local,
    {
        let ghost channel_start = geometry.channel_taps(at, local as nat);
        let mut ky: usize = 0;
        assert(channel_start + geometry.plane_taps(at, local as int, 0) =~= channel_start);
        while ky < geometry.kernel_h
            invariant
                geometry.wf(),
                within(
                    at,
                    geometry.batch as int,
                    geometry.out_channels as int,
                    geometry.out_h(),
                    geometry.out_w(),
                ),
                at == (Place {
                    sample: sample as int,
                    channel: out_channel as int,
                    y: out_y as int,
                    x: out_x as int,
                }),
                in_per_group == geometry.in_per_group(),
                out_per_group == geometry.out_per_group(),
                local < in_per_group,
                ky <= geometry.kernel_h,
                lists(
                    geometry,
                    r@,
                    channel_start + geometry.plane_taps(at, local as int, ky as nat),
                ),
            decreases geometry.kernel_h - ky,
        {
            proof {
                geometry.lemma_tap(at, local as int, ky as int, 0);
            }
            let group: usize = out_channel / out_per_group;
            let in_channel: usize = group * in_per_group + local;
            let padded_y: usize = out_y * geometry.stride + ky;
            let ghost row_start = channel_start + geometry.plane_taps(at, local as int, ky as nat);
            if padded_y >= geometry.padding && padded_y - geometry.padding < geometry.height {
                let in_y: usize = padded_y - geometry.padding;
                let mut kx: usize = 0;
                assert(row_start + geometry.row_taps(at, local as int, ky as int, 0)
                    =~= row_start);
                while kx < geometry.kernel_w
                    invariant
                        geometry.wf(),
                        within(
                            at,
                            geometry.batch as int,
                            geometry.out_channels as int,
                            geometry.out_h(),
                            geometry.out_w(),
                        ),
                        at == (Place {
                            sample: sample as int,
                            channel: out_channel as int,
                            y: out_y as int,
                            x: out_x as int,
                        }),
                        in_per_group == geometry.in_per_group(),
                        local < in_per_group,
                        ky < geometry.kernel_h,
                        kx <= geometry.kernel_w,
                        in_channel == (out_channel as int / geometry.out_per_group())
                            * geometry.in_per_group() + local,
                        in_y == at.y * geometry.stride + ky - geometry.padding,
                        geometry.covers_row(at, ky as int),
                        lists(
                            geometry,
                            r@,
                            row_start + geometry.row_taps(at, local as int, ky as int, kx as nat),
                        ),
                    decreases geometry.kernel_w - kx,
                {
                    proof {
                        geometry.lemma_tap(at, local as int, ky as int, kx as int);
                    }
                    let padded_x: usize = out_x * geometry.stride + kx;
                    if padded_x >= geometry.padding && padded_x - geometry.padding
                        < geometry.width {
                        let in_x: usize = padded_x - geometry.padding;
                        proof {
                            assert(geometry.covers(at, ky as int, kx as int));
                            lemma_position(
                                geometry.input_place(at, local as int, ky as int, kx as int),
                                geometry.batch as int,
                                geometry.in_channels as int,
                                geometry.height as int,
                                geometry.width as int,
                            );
                            lemma_position(
                                Place {
                                    sample: out_channel as int,
                                    channel: local as int,
                                    y: ky as int,
                                    x: kx as int,
                                },
                                geometry.out_channels as int,
                                geometry.in_per_group(),
                                geometry.kernel_h as int,
                                geometry.kernel_w as int,
                            );
                        }
                        let input_index: usize = ((sample * geometry.in_channels + in_channel)
                            * geometry.height + in_y) * geometry.width + in_x;
                        let weight_index: usize = ((out_channel * in_per_group + local)
                            * geometry.kernel_h + ky) * geometry.kernel_w + kx;
                        let ghost before = r@;
                        r.push((input_index, weight_index));
                        proof {
                            let row = geometry.row_taps(at, local as int, ky as int, kx as nat);
                            let tap = (input_index as int, weight_index as int);
                            assert(row_start + row.push(tap) =~= (row_start + row).push(tap));
                            assert(lists(geometry, r@, (row_start + row).push(tap)));
                        }
                    }
                    kx = kx + 1;
                }
            } else {
                proof {
                    assert(!geometry.covers_row(at, ky as int));
                    geometry.lemma_row_outside(
                        at,
                        local as int,
                        ky as int,
                        geometry.kernel_w as nat,
                    );
                    assert(row_start + geometry.row_taps(
                        at,
                        local as int,
                        ky as int,
                        geometry.kernel_w as nat,
                    ) =~= row_start);
                }
            }
            proof {
                assert(row_start + geometry.row_taps(
                    at,
                    local as int,
                    ky as int,
                    geometry.kernel_w as nat,
                ) =~= channel_start + geometry.plane_taps(at, local as int, (ky + 1) as nat));
            }
            ky = ky + 1;
        }
        local = local + 1;
    }
    r
}

/// The extents of an average pool over an NCHW input.
#[derive(Clone, Copy)]
pub struct Pooling {
    pub batch: usize,
    pub channels: usize,
    pub height: usize,
    pub width: usize,
    pub kernel: [usize; 2],
    pub stride: [usize; 2],
}

impl Pooling {
    /// The rows of an output plane.
    pub open spec fn out_h(self) -> int {
        (self.height - self.kernel[0]) / self.stride[0] as int + 1
    }

    /// The columns of an output plane.
    pub open spec fn out_w(self) -> int {
        (self.width - self.kernel[1]) / self.stride[1] as int + 1
    }

    /// The number of elements in a window.
    pub open spec fn area(self) -> int {
        self.kernel[0] * self.kernel[1]
    }

    /// The number of input elements.
    pub open spec fn input_len(self) -> int {
        self.batch * self.channels * self.height * self.width
    }

    /// The number of output elements.
    pub open spec fn output_len(self) -> int {
        self.batch * self.channels * self.out_h() * self.out_w()
    }

    /// The windows are not empty and fit into the input, and every count is in range.
    pub open spec fn wf(self) -> bool {
        &&& self.stride[0] > 0
        &&& self.stride[1] > 0
        &&& 0 < self.kernel[0] <= self.height
        &&& 0 < self.kernel[1] <= self.width
        &&& self.area() <= usize::MAX
        &&& self.input_len() <= usize::MAX
        &&& self.output_len() <= usize::MAX
    }

    /// The place that an output element stands at.
    pub open spec fn output_place(self, cell: int) -> Place {
        place(cell, self.channels as int, self.out_h(), self.out_w())
    }

    /// The input place of the `k`-th element of a window, row by row.
    pub open spec fn input_place(self, at: Place, k: int) -> Place {
        Place {
            sample: at.sample,
            channel: at.channel,
            y: at.y * self.stride[0] + k / self.kernel[1] as int,
            x: at.x * self.stride[1] + k % self.kernel[1] as int,
        }
    }

    /// The input position of the `k`-th element of a window.
    pub open spec fn input_index(self, at: Place, k: int) -> int {
        position(
            self.input_place(at, k),
            self.channels as int,
            self.height as int,
            self.width as int,
        )
    }

    /// The elements of the window that makes up one output element, row by row.
    pub open spec fn window<T>(self, input: Seq<T>, at: Place) -> Seq<T> {
        Seq::new(self.area() as nat, |k: int| input[self.input_index(at, k)])
    }

    /// The output extents are in range.
    pub proof fn lemma_extents(self)
        requires
            self.wf(),
        ensures
            1 <= self.out_h() <= usize::MAX,
            1 <= self.out_w() <= usize::MAX,
            0 < self.area(),
            0 <= self.batch * self.channels,
            0 <= self.batch * self.channels * self.out_h(),
            self.batch * self.channels <= usize::MAX,
            self.batch * self.channels * self.out_h() <= usize::MAX,
    {
        crate::index::lemma_div_bound(self.height - self.kernel[0], self.stride[0] as int);
        crate::index::lemma_div_bound(self.width - self.kernel[1], self.stride[1] as int);
        let b = self.batch as int;
        let c = self.channels as int;
        let oh = self.out_h();
        let ow = self.out_w();
        let kh = self.kernel[0] as int;
        let kw = self.kernel[1] as int;
        assert(0 < kh * kw) by (nonlinear_arith)
            requires
                0 < kh,
                0 < kw,
        ;
        assert(0 <= b * c && 0 <= b * c * oh && b * c <= b * c * oh && b * c * oh <= b * c * oh
            * ow) by (nonlinear_arith)
            requires
                0 <= b,
                0 <= c,
                1 <= oh,
                1 <= ow,
        ;
    }

    /// Each element of a window is read at a position in range.
    pub proof fn lemma_tap(self, at: Place, k: int)
        requires
            self.wf(),
            within(at, self.batch as int, self.channels as int, self.out_h(), self.out_w()),
            0 <= k < self.area(),
        ensures
            0 <= k / self.kernel[1] as int,
            k / (self.kernel[1] as int) < self.kernel[0],
            0 <= at.y * self.stride[0] <= usize::MAX,
            0 <= at.x * self.stride[1] <= usize::MAX,
            within(
                self.input_place(at, k),
                self.batch as int,
                self.channels as int,
                self.height as int,
                self.width as int,
            ),
            0 <= self.input_index(at, k) < self.input_len(),
    {
        lemma_unflat(k, self.kernel[0] as int, self.kernel[1] as int);
        lemma_window(at.y, self.height as int, self.kernel[0] as int, self.stride[0] as int);
        lemma_window(at.x, self.width as int, self.kernel[1] as int, self.stride[1] as int);
        lemma_position(
            self.input_place(at, k),
            self.batch as int,
            self.channels as int,
            self.height as int,
            self.width as int,
        );
    }
}

/// `r` is the mean of the terms: their sum from zero, divided by `count`.
pub open spec fn averaged<T: Scalar>(terms: Seq<T>, count: usize, r: T) -> bool {
    exists|z: T, total: T, divisor: T|
        {
            &&& zero(z)
            &&& #[trigger] added(z, terms, total)
            &&& counted(count, divisor)
            &&& #[trigger] quotient(total, divisor, r)
        }
}

/// `out` is the average pool: each element is the mean of its window.
pub open spec fn pooled<T: Scalar>(geometry: Pooling, input: Seq<T>, out: Seq<T>) -> bool {
    &&& out.len() == geometry.output_len()
    &&& forall|i: int|
        0 <= i < out.len() ==> averaged(
            geometry.window(input, geometry.output_place(i)),
            geometry.area() as usize,
            #[trigger] out[i],
        )
}

/// Average pool of row-major NCHW data.
pub fn avg_pool2d_values<T: Scalar>(geometry: Pooling, input: &Vec<T>) -> (r: Vec<T>)
    requires
        geometry.wf(),
        input.len() == geometry.input_len(),
    ensures
        pooled(geometry, input@, r@),
{
    proof {
        geometry.lemma_extents();
    }
    let kernel_h: usize = geometry.kernel[0];
    let kernel_w: usize = geometry.kernel[1];
    let out_h: usize = (geometry.height - kernel_h) / geometry.stride[0] + 1;
    let out_w: usize = (geometry.width - kernel_w) / geometry.stride[1] + 1;
    let area: usize = kernel_h * kernel_w;
    let denominator = T::of_count(area);
    let cells: usize = geometry.batch * geometry.channels * out_h * out_w;
    let mut r: Vec<T> = Vec::with_capacity(cells);
    let mut i: usize = 0;
    while i < cells
        invariant
            geometry.wf(),
            input.len() == geometry.input_len(),
            out_h == geometry.out_h(),
            out_w == geometry.out_w(),
            kernel_w == geometry.kernel[1],
            area == geometry.area(),
            counted(area, denominator),
            cells == geometry.output_len(),
            i <= cells,
            r.len() == i,
            forall|j: int|
                0 <= j < i ==> averaged(
                    geometry.window(input@, geometry.output_place(j)),
                    geometry.area() as usize,
                    #[trigger] r@[j],
                ),
        decreases cells - i,
    {
        proof {
            lemma_place(
                i as int,
                geometry.batch as int,
                geometry.channels as int,
                geometry.out_h(),
                geometry.out_w(),
            );
        }
        let ghost at = geometry.output_place(i as int);
        let out_x: usize = i % out_w;
        let out_y: usize = i / out_w % out_h;
        let channel: usize = i / out_w / out_h % geometry.channels;
        let sample: usize = i / out_w / out_h / geometry.channels;
        let ghost terms = geometry.window(input@, at);
        let start = T::of_count(0);
        let mut total = start;
        let mut k: usize = 0;
        assert(terms.take(0) =~= Seq::empty());
        while k < area
            invariant
                geometry.wf(),
                input.len() == geometry.input_len(),
                kernel_w == geometry.kernel[1],
                area == geometry.area(),
                within(
                    at,
                    geometry.batch as int,
                    geometry.channels as int,
                    geometry.out_h(),
                    geometry.out_w(),
                ),
                at == (Place {
                    sample: sample as int,
                    channel: channel as int,
                    y: out_y as int,
                    x: out_x as int,
                }),
                terms == geometry.window(input@, at),
                k <= area,
                zero(start),
                added(start, terms.take(k as int), total),
            decreases area - k,
        {
            proof {
                geometry.lemma_tap(at, k as int);
                lemma_position(
                    geometry.input_place(at, k as int),
                    geometry.batch as int,
                    geometry.channels as int,
                    geometry.height as int,
                    geometry.width as int,
                );
            }
            let in_y: usize = out_y * geometry.stride[0] + k / kernel_w;
            let in_x: usize = out_x * geometry.stride[1] + k % kernel_w;
            let term = input[((sample * geometry.channels + channel) * geometry.height + in_y)
                * geometry.width + in_x];
            let next = total.plus(term);
            proof {
                lemma_added_push(start, terms.take(k as int), total, term, next);
                assert(terms.take(k + 1) =~= terms.take(k as int).push(term));
            }
            total = next;
            k = k + 1;
        }
        let value = total.over(denominator);
        proof {
            assert(terms.take(k as int) =~= terms);
            assert(zero(start) && added(start, terms, total) && counted(area, denominator)
                && quotient(total, denominator, value));
        }
        r.push(value);
        i = i + 1;
    }
    r
}

/// `r` answers whether `value` is below zero.
pub open spec fn negative<T: Scalar>(value: T, r: bool) -> bool {
    exists|z: T| zero(z) && #[trigger] less(value, z, r)
}

/// `r` answers whether `value` has no fractional part.
pub open spec fn whole<T: Scalar>(value: T, r: bool) -> bool {
    exists|part: T, z: T| fractional(value, part) && zero(z) && #[trigger] equals(part, z, r)
}

/// `r` answers whether `value` is a non-negative integer.
pub open spec fn countable<T: Scalar>(value: T, r: bool) -> bool {
    ||| is_finite(value, false) && !r
    ||| is_finite(value, true) && negative(value, true) && !r
    ||| is_finite(value, true) && negative(value, false) && whole(value, r)
}

/// `r` is the outcome of reading `value` as an index of one of `classes` classes.
pub open spec fn classified<T: Scalar>(
    value: T,
    classes: usize,
    r: std::result::Result<usize, Failure>,
) -> bool {
    match r {
        Ok(index) => countable(value, true) && truncated(value, index) && index < classes,
        Err(failure) => {
            ||| {
                &&& countable(value, false)
                &&& exists|text: Seq<char>| #[trigger]
                    displayed(value, text) && failure == Failure::InvalidShape(
                        "target class must be a non-negative integer, got "@ + text,
                    )
            }
            ||| {
                &&& countable(value, true)
                &&& exists|index: usize| #[trigger]
                    truncated(value, index) && index >= classes && failure
                        == Failure::InvalidShape(
                        "target class "@ + decimal(index as nat) + " is outside 0.."@ + decimal(
                            classes as nat,
                        ),
                    )
            }
        },
    }
}

/// Reads an element as a class index.
pub fn class_index<T: Scalar>(value: T, classes: usize) -> (r: Result<usize>)
    ensures
        match r {
            Ok(index) => classified(value, classes, Ok(index)),
            Err(error) => classified(value, classes, Err(error@)),
        },
{
    let z = T::of_count(0);
    if value.finite() {
        assert(is_finite(value, true));
        if value.below(z) {
            assert(zero(z) && less(value, z, true));
        } else {
            assert(zero(z) && less(value, z, false));
            let part = value.fraction();
            let matches_zero = part.same(z);
            assert(fractional(value, part) && zero(z) && equals(part, z, matches_zero));
            if matches_zero {
                let index: usize = value.count();
                assert(truncated(value, index));
                if index >= classes {
                    let mut message = owned("target class ");
                    push_decimal(&mut message, index);
                    message.append(" is outside 0..");
                    push_decimal(&mut message, classes);
                    return Err(Error::InvalidShape(message));
                }
                return Ok(index);
            }
        }
    }
    assert(countable(value, false));
    let text = value.shown();
    assert(displayed(value, text@));
    let mut message = owned("target class must be a non-negative integer, got ");
    message.append(text.as_str());
    Err(Error::InvalidShape(message))
}

/// `r` is the sum of the terms, added up from zero.
pub open spec fn summed<T: Scalar>(terms: Seq<T>, r: T) -> bool {
    exists|z: T| zero(z) && #[trigger] added(z, terms, r)
}

/// `r` is the largest of the values, starting from negative infinity.
pub open spec fn peak<T: Scalar>(values: Seq<T>, r: T) -> bool {
    exists|low: T| bottom(low) && #[trigger] highest(low, values, r)
}

/// `r` is the exponential of `value` less `shift`.
pub open spec fn shifted_exponential<T: Scalar>(value: T, shift: T, r: T) -> bool {
    exists|d: T| difference(value, shift, d) && #[trigger] exponentiated(d, r)
}

/// `r` is the sum of the exponentials of the values less `shift`.
pub open spec fn normalizer<T: Scalar>(values: Seq<T>, shift: T, r: T) -> bool {
    exists|terms: Seq<T>|
        {
            &&& terms.len() == values.len()
            &&& forall|i: int|
                0 <= i < terms.len() ==> shifted_exponential(
                    values[i],
                    shift,
                    #[trigger] terms[i],
                )
            &&& #[trigger] summed(terms, r)
        }
}

/// One row of a row-major matrix.
pub open spec fn row_of<T>(values: Seq<T>, row: int, columns: int) -> Seq<T> {
    Seq::new(columns as nat, |k: int| values[row * columns + k])
}

/// `r` is the negated log-probability of class `target` among `logits`.
pub open spec fn row_loss<T: Scalar>(logits: Seq<T>, target: int, r: T) -> bool {
    exists|top: T, norm: T, log: T, upper: T|
        {
            &&& peak(logits, top)
            &&& #[trigger] normalizer(logits, top, norm)
            &&& logged(norm, log)
            &&& sum(log, top, upper)
            &&& #[trigger] difference(upper, logits[target], r)
        }
        && #[trigger] logged(norm, log)
}

/// The element names a class, and `r` is the loss of its row.
pub open spec fn sample_loss<T: Scalar>(
    logits: Seq<T>,
    label: T,
    classes: usize,
    r: T,
) -> bool {
    exists|target: usize|
        #[trigger] classified(label, classes, Ok(target)) && row_loss(logits, target as int, r)
}

/// `r` is the mean loss over the rows.
pub open spec fn mean_loss<T: Scalar>(
    logits: Seq<T>,
    targets: Seq<T>,
    batch: usize,
    classes: usize,
    r: T,
) -> bool {
    exists|losses: Seq<T>|
        {
            &&& losses.len() == batch
            &&& forall|b: int|
                0 <= b < batch ==> sample_loss(
                    row_of(logits, b, classes as int),
                    targets[b],
                    classes,
                    #[trigger] losses[b],
                )
            &&& #[trigger] averaged(losses, batch, r)
        }
}

/// The element names one of the classes.
pub open spec fn labelled<T: Scalar>(value: T, classes: usize) -> bool {
    exists|target: usize| #[trigger] classified(value, classes, Ok(target))
}

/// The first label that names no class gives this failure.
pub open spec fn label_failure<T: Scalar>(
    targets: Seq<T>,
    batch: int,
    classes: usize,
    failure: Failure,
) -> bool {
    exists|b: int|
        {
            &&& 0 <= b < batch
            &&& classified(#[trigger] targets[b], classes, Err(failure))
            &&& forall|c: int| 0 <= c < b ==> labelled(#[trigger] targets[c], classes)
        }
}

/// Holds labels against the number of classes.
pub fn check_labels<T: Scalar>(targets: &Vec<T>, classes: usize) -> (r: Result<()>)
    ensures
        match r {
            Ok(_) => forall|b: int|
                0 <= b < targets@.len() ==> labelled(#[trigger] targets@[b], classes),
            Err(error) => label_failure(targets@, targets@.len() as int, classes, error@),
        },
{
    let mut b: usize = 0;
    while b < targets.len()
        invariant
            b <= targets.len(),
            forall|c: int| 0 <= c < b ==> labelled(#[trigger] targets@[c], classes),
        decreases targets.len() - b,
    {
        match class_index(targets[b], classes) {
            Ok(target) => {
                assert(classified(targets@[b as int], classes, Ok(target)));
            },
            Err(error) => {
                assert(classified(targets@[b as int], classes, Err(error@)));
                return Err(error);
            },
        }
        b = b + 1;
    }
    Ok(())
}

/// The largest element of a row.
pub fn row_peak<T: Scalar>(values: &Vec<T>, row: usize, columns: usize, rows: usize) -> (r: T)
    requires
        row < rows,
        values.len() == rows * columns,
    ensures
        peak(row_of(values@, row as int, columns as int), r),
{
    let ghost terms = row_of(values@, row as int, columns as int);
    let low = T::lowest();
    let mut top = low;
    let mut k: usize = 0;
    assert(terms.take(0) =~= Seq::empty());
    while k < columns
        invariant
            row < rows,
            values.len() == rows * columns,
            terms == row_of(values@, row as int, columns as int),
            k <= columns,
            bottom(low),
            highest(low, terms.take(k as int), top),
        decreases columns - k,
    {
        proof {
            lemma_flat(row as int, rows as int, k as int, columns as int);
        }
        let value = values[row * columns + k];
        let next = top.larger(value);
        proof {
            lemma_highest_push(low, terms.take(k as int), top, value, next);
            assert(terms.take(k + 1) =~= terms.take(k as int).push(value));
        }
        top = next;
        k = k + 1;
    }
    assert(terms.take(k as int) =~= terms);
    assert(bottom(low) && highest(low, terms, top));
    top
}

/// The sum of the exponentials of a row less `shift`.
pub fn row_normalizer<T: Scalar>(
    values: &Vec<T>,
    row: usize,
    columns: usize,
    rows: usize,
    shift: T,
) -> (r: T)
    requires
        row < rows,
        values.len() == rows * columns,
    ensures
        normalizer(row_of(values@, row as int, columns as int), shift, r),
{
    let ghost source = row_of(values@, row as int, columns as int);
    let ghost mut terms: Seq<T> = Seq::empty();
    let start = T::of_count(0);
    let mut total = start;
    let mut k: usize = 0;
    while k < columns
        invariant
            row < rows,
            values.len() == rows * columns,
            source == row_of(values@, row as int, columns as int),
            k <= columns,
            terms.len() == k,
            forall|i: int|
                0 <= i < k ==> shifted_exponential(source[i], shift, #[trigger] terms[i]),
            zero(start),
            added(start, terms, total),
        decreases columns - k,
    {
        proof {
            lemma_flat(row as int, rows as int, k as int, columns as int);
        }
        let value = values[row * columns + k];
        let d = value.minus(shift);
        let term = d.exponential();
        assert(difference(value, shift, d) && exponentiated(d, term));
        let next = total.plus(term);
        proof {
            lemma_added_push(start, terms, total, term, next);
            terms = terms.push(term);
        }
        total = next;
        k = k + 1;
    }
    assert(zero(start) && added(start, terms, total));
    assert(summed(terms, total));
    total
}

/// Mean sparse cross-entropy of row-major logits.
pub fn cross_entropy_value<T: Scalar>(
    logits: &Vec<T>,
    targets: &Vec<T>,
    batch: usize,
    classes: usize,
) -> (r: Result<T>)
    requires
        logits.len() == batch * classes,
        targets.len() == batch,
    ensures
        match r {
            Ok(loss) => mean_loss(logits@, targets@, batch, classes, loss),
            Err(error) => label_failure(targets@, batch as int, classes, error@),
        },
{
    let start = T::of_count(0);
    let mut total = start;
    let ghost mut losses: Seq<T> = Seq::empty();
    let mut b: usize = 0;
    while b < batch
        invariant
            logits.len() == batch * classes,
            targets.len() == batch,
            b <= batch,
            losses.len() == b,
            forall|c: int|
                0 <= c < b ==> sample_loss(
                    row_of(logits@, c, classes as int),
                    targets@[c],
                    classes,
                    #[trigger] losses[c],
                ),
            zero(start),
            added(start, losses, total),
        decreases batch - b,
    {
        let target: usize = match class_index(targets[b], classes) {
            Ok(target) => target,
            Err(error) => {
                proof {
                    assert forall|c: int| 0 <= c < b implies labelled(
                        #[trigger] targets@[c],
                        classes,
                    ) by {
                        assert(sample_loss(
                            row_of(logits@, c, classes as int),
                            targets@[c],
                            classes,
                            losses[c],
                        ));
                    }
                    assert(classified(targets@[b as int], classes, Err(error@)));
                }
                return Err(error);
            },
        };
        let top = row_peak(logits, b, classes, batch);
        let norm = row_normalizer(logits, b, classes, batch, top);
        proof {
            lemma_flat(b as int, batch as int, target as int, classes as int);
        }
        let log = norm.logarithm();
        let upper = log.plus(top);
        let loss = upper.minus(logits[b * classes + target]);
        let next = total.plus(loss);
        proof {
            let row = row_of(logits@, b as int, classes as int);
            assert(peak(row, top) && normalizer(row, top, norm) && logged(norm, log) && sum(
                log,
                top,
                upper,
            ) && difference(upper, row[target as int], loss));
            assert(row_loss(row, target as int, loss));
            assert(sample_loss(row, targets@[b as int], classes, loss));
            lemma_added_push(start, losses, total, loss, next);
            losses = losses.push(loss);
        }
        total = next;
        b = b + 1;
    }
    let count = T::of_count(batch);
    let value = total.over(count);
    assert(zero(start) && added(start, losses, total) && counted(batch, count) && quotient(
        total,
        count,
        value,
    ));
    assert(averaged(losses, batch, value));
    Ok(value)
}

} // verus!
