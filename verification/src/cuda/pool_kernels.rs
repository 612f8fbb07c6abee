//! What each thread of an average pool, and of its gradient, computes.

use crate::forward::{averaged, Pooling};
use crate::index::{
    lemma_flat, lemma_flat_inverse, lemma_place, lemma_position, lemma_unflat, lemma_window, place,
    position, within, Place,
};
use crate::reverse::shared_out;
use crate::scalar::{added, counted, lemma_added_push, quotient, zero, Scalar};
use vstd::prelude::*;

verus! {

/// One element of an average pool: the mean of its window.
pub fn avg_pool2d<T: Scalar>(raw: usize, geometry: Pooling, input: &[T]) -> (r: T)
    requires
        geometry.wf(),
        input@.len() == geometry.input_len(),
        raw < geometry.output_len(),
    ensures
        averaged(
            geometry.window(input@, geometry.output_place(raw as int)),
            geometry.area() as usize,
            r,
        ),
{
    proof {
        geometry.lemma_extents();
        lemma_place(
            raw as int,
            geometry.batch as int,
            geometry.channels as int,
            geometry.out_h(),
            geometry.out_w(),
        );
    }
    let kernel_h: usize = geometry.kernel[0];
    let kernel_w: usize = geometry.kernel[1];
    let out_height: usize = (geometry.height - kernel_h) / geometry.stride[0] + 1;
    let out_width: usize = (geometry.width - kernel_w) / geometry.stride[1] + 1;
    let area: usize = kernel_h * kernel_w;
    let out_x: usize = raw % out_width;
    let out_y: usize = raw / out_width % out_height;
    let channel: usize = raw / out_width / out_height % geometry.channels;
    let batch_index: usize = raw / out_width / out_height / geometry.channels;
    let ghost at = geometry.output_place(raw as int);
    let ghost window = geometry.window(input@, at);
    let mut total = T::of_count(0);
    let ghost start = total;
    let mut k: usize = 0;
    assert(window.take(0) =~= Seq::<T>::empty());
    while k < area
        invariant
            k <= area,
            area == geometry.area(),
            geometry.wf(),
            input@.len() == geometry.input_len(),
            kernel_w == geometry.kernel[1],
            at == geometry.output_place(raw as int),
            within(
                at,
                geometry.batch as int,
                geometry.channels as int,
                geometry.out_h(),
                geometry.out_w(),
            ),
            at.x == out_x,
            at.y == out_y,
            at.channel == channel,
            at.sample == batch_index,
            window == geometry.window(input@, at),
            added(start, window.take(k as int), total),
        decreases area - k,
    {
        proof {
            geometry.lemma_tap(at, k as int);
            lemma_position(
                geometry.input_place(at, k as int),
                geometry.batch as int,
                geometry.channels as int,
                geometry.height as int,
                geometry.width as int,
            );
        }
        let in_y: usize = out_y * geometry.stride[0] + k / kernel_w;
        let in_x: usize = out_x * geometry.stride[1] + k % kernel_w;
        let element = input[((batch_index * geometry.channels + channel) * geometry.height + in_y)
            * geometry.width + in_x];
        assert(element == window[k as int]);
        let next = total.plus(element);
        proof {
            lemma_added_push(start, window.take(k as int), total, element, next);
            assert(window.take(k + 1) =~= window.take(k as int).push(element));
        }
        total = next;
        k = k + 1;
    }
    assert(window.take(k as int) =~= window);
    let divisor = T::of_count(area);
    let r = total.over(divisor);
    assert(zero(start) && added(start, window, total) && counted(area, divisor) && quotient(
        total,
        divisor,
        r,
    ));
    r
}

/// A window holds a place of the input plane.
pub open spec fn holds(geometry: Pooling, out_y: int, out_x: int, at: Place) -> bool {
    &&& out_y * geometry.stride[0] <= at.y < out_y * geometry.stride[0] + geometry.kernel[0]
    &&& out_x * geometry.stride[1] <= at.x < out_x * geometry.stride[1] + geometry.kernel[1]
}

/// The output place of the `n`-th window over the plane of an input place.
pub open spec fn window_place(geometry: Pooling, at: Place, n: int) -> Place {
    Place {
        sample: at.sample,
        channel: at.channel,
        y: n / geometry.out_w(),
        x: n % geometry.out_w(),
    }
}

/// The output position of a place.
pub open spec fn output_index(geometry: Pooling, at: Place) -> int {
    position(at, geometry.channels as int, geometry.out_h(), geometry.out_w())
}

/// The output positions, among the first `n` windows of a plane, whose window holds an
/// input place.
pub open spec fn holders(geometry: Pooling, at: Place, n: nat) -> Seq<int>
    decreases n,
{
    if n == 0 {
        Seq::empty()
    } else {
        let before = holders(geometry, at, (n - 1) as nat);
        let out = window_place(geometry, at, n - 1);
        if holds(geometry, out.y, out.x, at) {
            before.push(output_index(geometry, out))
        } else {
            before
        }
    }
}

/// `r` is the sum of the shares that an input element has in the gradients of the
/// windows that hold it.
pub open spec fn pool_share<T: Scalar>(
    geometry: Pooling,
    gradient: Seq<T>,
    at: Place,
    n: nat,
    shares: Seq<T>,
) -> bool {
    let from = holders(geometry, at, n);
    &&& shares.len() == from.len()
    &&& forall|k: int|
        0 <= k < shares.len() ==> shared_out(
            gradient[from[k]],
            geometry.area() as usize,
            #[trigger] shares[k],
        )
}

/// The input place of a position.
pub open spec fn input_place(geometry: Pooling, raw: int) -> Place {
    place(raw, geometry.channels as int, geometry.height as int, geometry.width as int)
}

/// One element of the input gradient of an average pool.
pub fn avg_pool2d_backward<T: Scalar>(raw: usize, geometry: Pooling, gradient: &[T]) -> (r: T)
    requires
        geometry.wf(),
        gradient@.len() == geometry.output_len(),
        raw < geometry.input_len(),
    ensures
        exists|start: T, shares: Seq<T>|
            {
                &&& zero(start)
                &&& pool_share(
                    geometry,
                    gradient@,
                    input_place(geometry, raw as int),
                    (geometry.out_h() * geometry.out_w()) as nat,
                    shares,
                )
                &&& #[trigger] added(start, shares, r)
            },
{
    proof {
        geometry.lemma_extents();
        lemma_place(
            raw as int,
            geometry.batch as int,
            geometry.channels as int,
            geometry.height as int,
            geometry.width as int,
        );
    }
    let ghost at = input_place(geometry, raw as int);
    let kernel_h: usize = geometry.kernel[0];
    let kernel_w: usize = geometry.kernel[1];
    let out_height: usize = (geometry.height - kernel_h) / geometry.stride[0] + 1;
    let out_width: usize = (geometry.width - kernel_w) / geometry.stride[1] + 1;
    let area: usize = kernel_h * kernel_w;
    let in_x: usize = raw % geometry.width;
    let in_y: usize = raw / geometry.width % geometry.height;
    let channel: usize = raw / geometry.width / geometry.height % geometry.channels;
    let batch_index: usize = raw / geometry.width / geometry.height / geometry.channels;
    proof {
        lemma_position(
            window_place(geometry, at, 0),
            geometry.batch as int,
            geometry.channels as int,
            geometry.out_h(),
            geometry.out_w(),
        );
        lemma_plane(geometry);
    }
    let windows: usize = out_height * out_width;
    let mut total = T::of_count(0);
    let ghost start = total;
    let ghost mut shares: Seq<T> = seq![];
    let mut n: usize = 0;
    while n < windows
        invariant
            n <= windows,
            geometry.wf(),
            gradient@.len() == geometry.output_len(),
            kernel_h == geometry.kernel[0],
            kernel_w == geometry.kernel[1],
            area == geometry.area(),
            out_height == geometry.out_h(),
            out_width == geometry.out_w(),
            windows == out_height * out_width,
            within(
                at,
                geometry.batch as int,
                geometry.channels as int,
                geometry.height as int,
                geometry.width as int,
            ),
            at.x == in_x,
            at.y == in_y,
            at.channel == channel,
            at.sample == batch_index,
            pool_share(geometry, gradient@, at, n as nat, shares),
            added(start, shares, total),
        decreases windows - n,
    {
        proof {
            lemma_unflat(n as int, out_height as int, out_width as int);
        }
        let out_y: usize = n / out_width;
        let out_x: usize = n % out_width;
        let ghost out = window_place(geometry, at, n as int);
        proof {
            lemma_window(
                out_y as int,
                geometry.height as int,
                kernel_h as int,
                geometry.stride[0] as int,
            );
            lemma_window(
                out_x as int,
                geometry.width as int,
                kernel_w as int,
                geometry.stride[1] as int,
            );
            lemma_position(
                out,
                geometry.batch as int,
                geometry.channels as int,
                geometry.out_h(),
                geometry.out_w(),
            );
        }
        let start_y: usize = out_y * geometry.stride[0];
        let start_x: usize = out_x * geometry.stride[1];
        if in_y >= start_y && in_y < start_y + kernel_h && in_x >= start_x && in_x < start_x
            + kernel_w {
            let slope = gradient[((batch_index * geometry.channels + channel) * out_height
                + out_y) * out_width + out_x];
            let divisor = T::of_count(area);
            let share = slope.over(divisor);
            let next = total.plus(share);
            proof {
                let before = shares;
                let from = holders(geometry, at, n as nat);
                let more = holders(geometry, at, (n + 1) as nat);
                assert(more == from.push(output_index(geometry, out)));
                lemma_added_push(start, shares, total, share, next);
                shares = shares.push(share);
                assert(counted(area, divisor) && quotient(slope, divisor, share));
                assert(shared_out(slope, area, share));
                assert forall|k: int| 0 <= k < shares.len() implies shared_out(
                    gradient@[more[k]],
                    geometry.area() as usize,
                    #[trigger] shares[k],
                ) by {
                    if k < before.len() {
                        assert(shares[k] == before[k] && more[k] == from[k]);
                    }
                }
            }
            total = next;
        }
        n = n + 1;
    }
    assert(zero(start) && added(start, shares, total));
    total
}

/// The windows of a plane can be counted.
proof fn lemma_plane(geometry: Pooling)
    requires
        geometry.wf(),
        geometry.batch > 0,
        geometry.channels > 0,
    ensures
        geometry.out_h() * geometry.out_w() <= usize::MAX,
{
    geometry.lemma_extents();
    let (b, c, h, w) = (
        geometry.batch as int,
        geometry.channels as int,
        geometry.out_h(),
        geometry.out_w(),
    );
    assert(h * w <= b * c * h * w) by (nonlinear_arith)
        requires
            b >= 1,
            c >= 1,
            h >= 1,
            w >= 1,
    ;
}

/// The gradient of an input element is gathered from exactly the windows that it was
/// averaged in: an output position is among its holders just when one of the elements
/// of that window is the input element.
pub proof fn holders_are_the_windows_that_read(geometry: Pooling, raw: int, cell: int)
    requires
        geometry.wf(),
        0 <= raw < geometry.input_len(),
        0 <= cell < geometry.output_len(),
    ensures
        holders(
            geometry,
            input_place(geometry, raw),
            (geometry.out_h() * geometry.out_w()) as nat,
        ).contains(cell) == exists|k: int|
            0 <= k < geometry.area() && #[trigger] geometry.input_index(
                geometry.output_place(cell),
                k,
            ) == raw,
{
    geometry.lemma_extents();
    let (b, c, h, w) = (
        geometry.batch as int,
        geometry.channels as int,
        geometry.height as int,
        geometry.width as int,
    );
    let (oh, ow) = (geometry.out_h(), geometry.out_w());
    let at = input_place(geometry, raw);
    let out = geometry.output_place(cell);
    lemma_place(raw, b, c, h, w);
    lemma_place(cell, b, c, oh, ow);
    let windows = (oh * ow) as nat;
    assert(oh * ow >= 0) by (nonlinear_arith)
        requires
            oh >= 1,
            ow >= 1,
    ;
    let all = holders(geometry, at, windows);
    if all.contains(cell) {
        let i = choose|i: int| 0 <= i < all.len() && all[i] == cell;
        lemma_holder(geometry, at, windows, i);
        let n = choose|n: int|
            0 <= n < windows && all[i] == #[trigger] output_index(
                geometry,
                window_place(geometry, at, n),
            ) && holds(
                geometry,
                window_place(geometry, at, n).y,
                window_place(geometry, at, n).x,
                at,
            );
        lemma_unflat(n, oh, ow);
        let found = window_place(geometry, at, n);
        lemma_position(found, b, c, oh, ow);
        assert(found == out);
        let dy = at.y - out.y * geometry.stride[0];
        let dx = at.x - out.x * geometry.stride[1];
        let k = dy * geometry.kernel[1] + dx;
        lemma_flat(dy, geometry.kernel[0] as int, dx, geometry.kernel[1] as int);
        lemma_flat_inverse(dy, dx, geometry.kernel[1] as int);
        assert(geometry.input_place(out, k) == at);
        assert(geometry.input_index(out, k) == raw);
    }
    if exists|k: int|
        0 <= k < geometry.area() && #[trigger] geometry.input_index(
            geometry.output_place(cell),
            k,
        ) == raw {
        let k = choose|k: int|
            0 <= k < geometry.area() && #[trigger] geometry.input_index(
                geometry.output_place(cell),
                k,
            ) == raw;
        geometry.lemma_tap(out, k);
        let read = geometry.input_place(out, k);
        lemma_position(read, b, c, h, w);
        assert(read == at);
        lemma_unflat(k, geometry.kernel[0] as int, geometry.kernel[1] as int);
        let n = out.y * ow + out.x;
        lemma_flat(out.y, oh, out.x, ow);
        lemma_flat_inverse(out.y, out.x, ow);
        assert(window_place(geometry, at, n) == out);
        assert(holds(geometry, out.y, out.x, at));
        lemma_holder_found(geometry, at, windows, n);
    }
}

/// Every holder is the output position of a window that holds the place.
proof fn lemma_holder(geometry: Pooling, at: Place, n: nat, i: int)
    requires
        0 <= i < holders(geometry, at, n).len(),
    ensures
        exists|m: int|
            0 <= m < n && holders(geometry, at, n)[i] == #[trigger] output_index(
                geometry,
                window_place(geometry, at, m),
            ) && holds(
                geometry,
                window_place(geometry, at, m).y,
                window_place(geometry, at, m).x,
                at,
            ),
    decreases n,
{
    if n > 0 {
        let before = holders(geometry, at, (n - 1) as nat);
        let out = window_place(geometry, at, n - 1);
        if i < before.len() {
            lemma_holder(geometry, at, (n - 1) as nat, i);
        } else {
            assert(holders(geometry, at, n)[i] == output_index(geometry, out));
        }
    }
}

/// A window that holds the place is among the holders.
proof fn lemma_holder_found(geometry: Pooling, at: Place, n: nat, m: int)
    requires
        0 <= m < n,
        holds(geometry, window_place(geometry, at, m).y, window_place(geometry, at, m).x, at),
    ensures
        holders(geometry, at, n).contains(output_index(geometry, window_place(geometry, at, m))),
    decreases n,
{
    let all = holders(geometry, at, n);
    let before = holders(geometry, at, (n - 1) as nat);
    let wanted = output_index(geometry, window_place(geometry, at, m));
    if m == n - 1 {
        assert(all.last() == wanted);
    } else {
        lemma_holder_found(geometry, at, (n - 1) as nat, m);
        let i = choose|i: int| 0 <= i < before.len() && before[i] == wanted;
        assert(all[i] == wanted);
    }
}

} // verus!
