//! What the operations of a graph compute, element by element.

use crate::backward::{accumulates, spreads};
use crate::eval::{at, computes, Machine};
use crate::exact::sums::{lemma_sigma_blocks, lemma_sigma_equal, lemma_sigma_split, sigma};
use crate::exact::Reading;
use crate::forward::{averaged, convolved, gathered, pooled, Convolution, Pooling};
use crate::graph::{Memory, Node, Op};
use crate::index::{lemma_position, position, within, Place};
use crate::scalar::{dotted, product, sum, Scalar};
use vstd::prelude::*;

verus! {

/// The number at a place of an input, or zero on its padding.
pub open spec fn padded<T>(
    reading: Reading<T>,
    geometry: Convolution,
    input: Seq<T>,
    sample: int,
    channel: int,
    y: int,
    x: int,
) -> real {
    if 0 <= y < geometry.height && 0 <= x < geometry.width {
        reading.of(
            input[((sample * geometry.in_channels + channel) * geometry.height + y) * geometry.width
                + x],
        )
    } else {
        0 as real
    }
}

/// One term of a convolution: the padded input under a kernel element, times its weight.
pub open spec fn under_kernel<T>(
    reading: Reading<T>,
    geometry: Convolution,
    input: Seq<T>,
    weight: Seq<T>,
    place: Place,
    local: int,
    ky: int,
    kx: int,
) -> real {
    let per_group = geometry.in_channels as int / geometry.groups as int;
    let group = place.channel / (geometry.out_channels as int / geometry.groups as int);
    padded(
        reading,
        geometry,
        input,
        place.sample,
        group * per_group + local,
        place.y * geometry.stride + ky - geometry.padding,
        place.x * geometry.stride + kx - geometry.padding,
    ) * reading.of(
        weight[((place.channel * per_group + local) * geometry.kernel_h + ky) * geometry.kernel_w
            + kx],
    )
}

/// The products at positions, added up.
spec fn tapped<T>(
    reading: Reading<T>,
    input: Seq<T>,
    weight: Seq<T>,
    taps: Seq<(int, int)>,
) -> real {
    sigma(taps.len(), |k: int| reading.of(input[taps[k].0]) * reading.of(weight[taps[k].1]))
}

proof fn lemma_tapped_join<T>(
    reading: Reading<T>,
    input: Seq<T>,
    weight: Seq<T>,
    a: Seq<(int, int)>,
    b: Seq<(int, int)>,
)
    ensures
        tapped(reading, input, weight, a + b) == tapped(reading, input, weight, a) + tapped(
            reading,
            input,
            weight,
            b,
        ),
{
    let c = a + b;
    let f = |k: int| reading.of(input[c[k].0]) * reading.of(weight[c[k].1]);
    lemma_sigma_split(a.len(), b.len(), f);
    lemma_sigma_equal(
        a.len(),
        f,
        |k: int| reading.of(input[a[k].0]) * reading.of(weight[a[k].1]),
    );
    lemma_sigma_equal(
        b.len(),
        |k: int| f(a.len() + k),
        |k: int| reading.of(input[b[k].0]) * reading.of(weight[b[k].1]),
    );
}

proof fn lemma_tapped_row<T>(
    reading: Reading<T>,
    geometry: Convolution,
    input: Seq<T>,
    weight: Seq<T>,
    place: Place,
    local: int,
    ky: int,
    n: nat,
)
    ensures
        tapped(reading, input, weight, geometry.row_taps(place, local, ky, n)) == sigma(
            n,
            |kx: int| under_kernel(reading, geometry, input, weight, place, local, ky, kx),
        ),
    decreases n,
{
    if n > 0 {
        let kx = n - 1;
        lemma_tapped_row(reading, geometry, input, weight, place, local, ky, (n - 1) as nat);
        let before = geometry.row_taps(place, local, ky, (n - 1) as nat);
        let term = under_kernel(reading, geometry, input, weight, place, local, ky, kx);
        if geometry.covers(place, ky, kx) {
            let tap = (
                geometry.input_index(place, local, ky, kx),
                geometry.weight_index(place, local, ky, kx),
            );
            assert(geometry.row_taps(place, local, ky, n) == before.push(tap));
            assert(before.push(tap) =~= before + seq![tap]);
            lemma_tapped_join(reading, input, weight, before, seq![tap]);
            reveal_with_fuel(sigma, 2);
            assert(tapped(reading, input, weight, seq![tap]) == reading.of(input[tap.0])
                * reading.of(weight[tap.1]));
            assert(reading.of(input[tap.0]) * reading.of(weight[tap.1]) == term);
        } else {
            let z = reading.of(
                weight[((place.channel * (geometry.in_channels as int / geometry.groups as int)
                    + local) * geometry.kernel_h + ky) * geometry.kernel_w + kx],
            );
            assert(0 as real * z == 0 as real) by (nonlinear_arith);
            assert(term == 0 as real);
        }
    }
}

proof fn lemma_tapped_plane<T>(
    reading: Reading<T>,
    geometry: Convolution,
    input: Seq<T>,
    weight: Seq<T>,
    place: Place,
    local: int,
    n: nat,
)
    ensures
        tapped(reading, input, weight, geometry.plane_taps(place, local, n)) == sigma(
            n,
            |ky: int|
                sigma(
                    geometry.kernel_w as nat,
                    |kx: int| under_kernel(reading, geometry, input, weight, place, local, ky, kx),
                ),
        ),
    decreases n,
{
    if n > 0 {
        lemma_tapped_plane(reading, geometry, input, weight, place, local, (n - 1) as nat);
        let w = geometry.kernel_w as nat;
        lemma_tapped_row(reading, geometry, input, weight, place, local, n - 1, w);
        lemma_tapped_join(
            reading,
            input,
            weight,
            geometry.plane_taps(place, local, (n - 1) as nat),
            geometry.row_taps(place, local, n - 1, w),
        );
    }
}

proof fn lemma_tapped_channels<T>(
    reading: Reading<T>,
    geometry: Convolution,
    input: Seq<T>,
    weight: Seq<T>,
    place: Place,
    n: nat,
)
    ensures
        tapped(reading, input, weight, geometry.channel_taps(place, n)) == sigma(
            n,
            |local: int|
                sigma(
                    geometry.kernel_h as nat,
                    |ky: int|
                        sigma(
                            geometry.kernel_w as nat,
                            |kx: int|
                                under_kernel(
                                    reading,
                                    geometry,
                                    input,
                                    weight,
                                    place,
                                    local,
                                    ky,
                                    kx,
                                ),
                        ),
                ),
        ),
    decreases n,
{
    if n > 0 {
        lemma_tapped_channels(reading, geometry, input, weight, place, (n - 1) as nat);
        let h = geometry.kernel_h as nat;
        lemma_tapped_plane(reading, geometry, input, weight, place, n - 1, h);
        lemma_tapped_join(
            reading,
            input,
            weight,
            geometry.channel_taps(place, (n - 1) as nat),
            geometry.plane_taps(place, n - 1, h),
        );
    }
}

/// An element of a convolution is its channel's bias and, over the input channels of its group
/// and the elements of the kernel, the sum of the products of the padded input under the kernel
/// and the weight.
pub proof fn convolutions_sum_padded_windows<T: Scalar>(
    reading: Reading<T>,
    geometry: Convolution,
    input: Seq<T>,
    weight: Seq<T>,
    bias: Seq<T>,
    out: Seq<T>,
    place: Place,
)
    requires
        reading.exact(),
        geometry.wf(),
        convolved(geometry, input, weight, bias, out),
        0 <= place.sample < geometry.batch,
        0 <= place.channel < geometry.out_channels,
        0 <= place.y <= (geometry.height + 2 * geometry.padding - geometry.kernel_h)
            / geometry.stride as int,
        0 <= place.x <= (geometry.width + 2 * geometry.padding - geometry.kernel_w)
            / geometry.stride as int,
    ensures
        ({
            let out_h = (geometry.height + 2 * geometry.padding - geometry.kernel_h)
                / geometry.stride as int + 1;
            let out_w = (geometry.width + 2 * geometry.padding - geometry.kernel_w)
                / geometry.stride as int + 1;
            reading.of(
                out[((place.sample * geometry.out_channels + place.channel) * out_h + place.y)
                    * out_w + place.x],
            ) == reading.of(bias[place.channel]) + sigma(
                (geometry.in_channels as int / geometry.groups as int) as nat,
                |local: int|
                    sigma(
                        geometry.kernel_h as nat,
                        |ky: int|
                            sigma(
                                geometry.kernel_w as nat,
                                |kx: int|
                                    under_kernel(
                                        reading,
                                        geometry,
                                        input,
                                        weight,
                                        place,
                                        local,
                                        ky,
                                        kx,
                                    ),
                            ),
                    ),
            )
        }),
{
    let i = position(
        place,
        geometry.out_channels as int,
        geometry.out_h(),
        geometry.out_w(),
    );
    lemma_position(
        place,
        geometry.batch as int,
        geometry.out_channels as int,
        geometry.out_h(),
        geometry.out_w(),
    );
    assert(geometry.output_place(i) == place);
    let taps = geometry.taps(place);
    let pairs = gathered(input, weight, taps);
    let start = bias[place.channel];
    assert(dotted(start, pairs, out[i]));
    reading.lemma_dotted(start, pairs, out[i]);
    lemma_sigma_equal(
        taps.len(),
        |i: int| reading.of(pairs[i].0) * reading.of(pairs[i].1),
        |k: int| reading.of(input[taps[k].0]) * reading.of(weight[taps[k].1]),
    );
    lemma_tapped_channels(
        reading,
        geometry,
        input,
        weight,
        place,
        geometry.in_per_group() as nat,
    );
}

/// An element of an average pool, times the size of its window, is the sum of the window: the
/// rows and columns of its channel that begin at its place times the stride.
pub proof fn pools_average_their_windows<T: Scalar>(
    reading: Reading<T>,
    geometry: Pooling,
    input: Seq<T>,
    out: Seq<T>,
    place: Place,
)
    requires
        reading.exact(),
        geometry.wf(),
        pooled(geometry, input, out),
        within(
            place,
            geometry.batch as int,
            geometry.channels as int,
            geometry.out_h(),
            geometry.out_w(),
        ),
        0 < geometry.area() <= usize::MAX,
    ensures
        reading.of(
            out[((place.sample * geometry.channels + place.channel) * geometry.out_h() + place.y)
                * geometry.out_w() + place.x],
        ) * (geometry.kernel[0] * geometry.kernel[1]) as real == sigma(
            geometry.kernel[0] as nat,
            |ky: int|
                sigma(
                    geometry.kernel[1] as nat,
                    |kx: int|
                        reading.of(
                            input[((place.sample * geometry.channels + place.channel)
                                * geometry.height + (place.y * geometry.stride[0] + ky))
                                * geometry.width + (place.x * geometry.stride[1] + kx)],
                        ),
                ),
        ),
{
    let i = position(place, geometry.channels as int, geometry.out_h(), geometry.out_w());
    lemma_position(
        place,
        geometry.batch as int,
        geometry.channels as int,
        geometry.out_h(),
        geometry.out_w(),
    );
    assert(geometry.output_place(i) == place);
    let window = geometry.window(input, place);
    let area = geometry.area() as usize;
    assert(averaged(window, area, out[i]));
    reading.lemma_averaged(window, area, out[i]);
    let (h, w) = (geometry.kernel[0] as nat, geometry.kernel[1] as nat);
    let f = |k: int| reading.of(window[k]);
    assert(geometry.area() == h * w);
    lemma_sigma_blocks(h, w, f);
    let rows = |ky: int| sigma(w, |kx: int| f(ky * w + kx));
    let own = |ky: int|
        sigma(
            w,
            |kx: int|
                reading.of(
                    input[((place.sample * geometry.channels + place.channel) * geometry.height + (
                    place.y * geometry.stride[0] + ky)) * geometry.width + (place.x
                        * geometry.stride[1] + kx)],
                ),
        );
    assert forall|ky: int| 0 <= ky < h implies #[trigger] rows(ky) == own(ky) by {
        let row = |kx: int| f(ky * w + kx);
        let target = |kx: int|
            reading.of(
                input[((place.sample * geometry.channels + place.channel) * geometry.height + (
                place.y * geometry.stride[0] + ky)) * geometry.width + (place.x
                    * geometry.stride[1] + kx)],
            );
        assert forall|kx: int| 0 <= kx < w implies #[trigger] row(kx) == target(kx) by {
            crate::index::lemma_flat(ky, h as int, kx, w as int);
            crate::index::lemma_flat_inverse(ky, kx, w as int);
        }
        lemma_sigma_equal(w, row, target);
    }
    lemma_sigma_equal(h, rows, own);
}

/// Sums and products of nodes are those of the numbers, and what comes back through them
/// belongs to them: for a sum the gradients of both terms, and for a product that of either
/// factor, times the operands, give the gradient of the result times the result.
pub proof fn sums_and_products_differentiate<T: Scalar>(
    reading: Reading<T>,
    nodes: Seq<Node<T>>,
    machine: Machine<T>,
    i: int,
    value: Seq<T>,
    after: Memory<T>,
    gradient: Seq<T>,
    parts: Seq<(usize, Seq<T>)>,
    k: int,
)
    requires
        reading.exact(),
        computes(nodes, None, machine, i, value, after),
        spreads(nodes, machine, i, gradient, parts),
        gradient.len() == value.len(),
        0 <= k < value.len(),
    ensures
        match nodes[i].op {
            Op::Add(left, right) => {
                let (x, y) = (
                    reading.of(at(machine.values, left)[k]),
                    reading.of(at(machine.values, right)[k]),
                );
                &&& parts.len() == 2 && parts[0].0 == left && parts[1].0 == right
                &&& reading.of(value[k]) == x + y
                &&& reading.of(parts[0].1[k]) == reading.of(gradient[k])
                &&& reading.of(parts[1].1[k]) == reading.of(gradient[k])
            },
            Op::Mul(left, right) => {
                let (x, y) = (
                    reading.of(at(machine.values, left)[k]),
                    reading.of(at(machine.values, right)[k]),
                );
                &&& parts.len() == 2 && parts[0].0 == left && parts[1].0 == right
                &&& reading.of(value[k]) == x * y
                &&& reading.of(parts[0].1[k]) * x == reading.of(gradient[k]) * reading.of(value[k])
                &&& reading.of(parts[1].1[k]) * y == reading.of(gradient[k]) * reading.of(value[k])
            },
            Op::Reshape(input) => {
                &&& value == at(machine.values, input)
                &&& parts.len() == 1 && parts[0].0 == input
                &&& parts[0].1 == gradient
            },
            _ => true,
        },
{
    match nodes[i].op {
        Op::Add(left, right) => {
            assert(sum(at(machine.values, left)[k], at(machine.values, right)[k], value[k]));
        },
        Op::Mul(left, right) => {
            let (a, b) = (at(machine.values, left)[k], at(machine.values, right)[k]);
            assert(product(a, b, value[k]));
            assert(product(gradient[k], b, parts[0].1[k]));
            assert(product(gradient[k], a, parts[1].1[k]));
            let (g, x, y) = (reading.of(gradient[k]), reading.of(a), reading.of(b));
            assert((g * y) * x == g * (x * y)) by (nonlinear_arith);
            assert((g * x) * y == g * (x * y)) by (nonlinear_arith);
        },
        _ => {},
    }
}

/// Gradients that reach a node by several ways add up.
pub proof fn gradients_add_up<T: Scalar>(
    reading: Reading<T>,
    before: Option<Seq<T>>,
    incoming: Seq<T>,
    after: Option<Seq<T>>,
    k: int,
)
    requires
        reading.exact(),
        accumulates(before, incoming, after),
        0 <= k < incoming.len(),
        before matches Some(current) ==> current.len() == incoming.len(),
    ensures
        after matches Some(new) && reading.of(new[k]) == reading.of(incoming[k]) + match before {
            Some(current) => reading.of(current[k]),
            None => 0 as real,
        },
{
    if let (Some(current), Some(new)) = (before, after) {
        assert(sum(current[k], incoming[k], new[k]));
    }
}

} // verus!
