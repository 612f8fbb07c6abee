//! Sums over the elements of a channel.

use crate::cuda::norm_kernels::channel_at;
use crate::exact::sums::{
    lemma_sigma_add, lemma_sigma_blocks, lemma_sigma_constant, lemma_sigma_equal,
    lemma_sigma_scale, lemma_sigma_single, lemma_sigma_zero, sigma,
};
use crate::norm::Planes;
use vstd::prelude::*;

verus! {

/// The sum over the elements of a channel.
pub open spec fn over_channel(planes: Planes, channel: int, f: spec_fn(int) -> real) -> real {
    sigma(
        planes.batch as nat,
        |b: int|
            sigma(
                planes.spatial as nat,
                |k: int| f((b * planes.channels + channel) * planes.spatial + k),
            ),
    )
}

pub proof fn lemma_over_equal(
    planes: Planes,
    channel: int,
    f: spec_fn(int) -> real,
    g: spec_fn(int) -> real,
)
    requires
        planes.wf(),
        0 <= channel < planes.channels,
        forall|i: int|
            0 <= i < planes.len() && planes.channel_of(i) == channel ==> #[trigger] f(i) == g(i),
    ensures
        over_channel(planes, channel, f) == over_channel(planes, channel, g),
{
    let (m, n) = (planes.batch as nat, planes.spatial as nat);
    let fs = |b: int| sigma(n, |k: int| f((b * planes.channels + channel) * planes.spatial + k));
    let gs = |b: int| sigma(n, |k: int| g((b * planes.channels + channel) * planes.spatial + k));
    assert forall|b: int| 0 <= b < m implies #[trigger] fs(b) == gs(b) by {
        assert forall|k: int| 0 <= k < n implies #[trigger] f(
            (b * planes.channels + channel) * planes.spatial + k,
        ) == g((b * planes.channels + channel) * planes.spatial + k) by {
            lemma_channel_place(planes, channel, b, k);
        }
        lemma_sigma_equal(
            n,
            |k: int| f((b * planes.channels + channel) * planes.spatial + k),
            |k: int| g((b * planes.channels + channel) * planes.spatial + k),
        );
    }
    lemma_sigma_equal(m, fs, gs);
}

/// Where an element of a channel stands.
pub proof fn lemma_channel_place(planes: Planes, channel: int, b: int, k: int)
    requires
        planes.wf(),
        0 <= channel < planes.channels,
        0 <= b < planes.batch,
        0 <= k < planes.spatial,
    ensures
        0 <= (b * planes.channels + channel) * planes.spatial + k < planes.len(),
        planes.channel_of((b * planes.channels + channel) * planes.spatial + k) == channel,
{
    planes.lemma_plane(b, channel, k);
    crate::index::lemma_flat_inverse(
        b * planes.channels + channel,
        k,
        planes.spatial as int,
    );
    crate::index::lemma_flat_inverse(b, channel, planes.channels as int);
}

pub proof fn lemma_over_add(
    planes: Planes,
    channel: int,
    f: spec_fn(int) -> real,
    g: spec_fn(int) -> real,
)
    ensures
        over_channel(planes, channel, |i: int| f(i) + g(i)) == over_channel(planes, channel, f)
            + over_channel(planes, channel, g),
        over_channel(planes, channel, |i: int| f(i) - g(i)) == over_channel(planes, channel, f)
            - over_channel(planes, channel, g),
{
    let (m, n) = (planes.batch as nat, planes.spatial as nat);
    let fs = |b: int| sigma(n, |k: int| f((b * planes.channels + channel) * planes.spatial + k));
    let gs = |b: int| sigma(n, |k: int| g((b * planes.channels + channel) * planes.spatial + k));
    let plus = |i: int| f(i) + g(i);
    let minus = |i: int| f(i) - g(i);
    let ps = |b: int|
        sigma(n, |k: int| plus((b * planes.channels + channel) * planes.spatial + k));
    let ms = |b: int|
        sigma(n, |k: int| minus((b * planes.channels + channel) * planes.spatial + k));
    assert forall|b: int| #[trigger] ps(b) == fs(b) + gs(b) by {
        let fb = |k: int| f((b * planes.channels + channel) * planes.spatial + k);
        let gb = |k: int| g((b * planes.channels + channel) * planes.spatial + k);
        lemma_sigma_add(n, fb, gb);
        lemma_sigma_equal(
            n,
            |k: int| plus((b * planes.channels + channel) * planes.spatial + k),
            |k: int| fb(k) + gb(k),
        );
    }
    assert forall|b: int| #[trigger] ms(b) == fs(b) - gs(b) by {
        let fb = |k: int| f((b * planes.channels + channel) * planes.spatial + k);
        let gb = |k: int| g((b * planes.channels + channel) * planes.spatial + k);
        lemma_sigma_add(n, fb, gb);
        lemma_sigma_equal(
            n,
            |k: int| minus((b * planes.channels + channel) * planes.spatial + k),
            |k: int| fb(k) - gb(k),
        );
    }
    lemma_sigma_add(m, fs, gs);
    lemma_sigma_equal(m, ps, |b: int| fs(b) + gs(b));
    lemma_sigma_equal(m, ms, |b: int| fs(b) - gs(b));
}

pub proof fn lemma_over_scale(planes: Planes, channel: int, c: real, f: spec_fn(int) -> real)
    ensures
        over_channel(planes, channel, |i: int| c * f(i)) == c * over_channel(planes, channel, f),
{
    let (m, n) = (planes.batch as nat, planes.spatial as nat);
    let fs = |b: int| sigma(n, |k: int| f((b * planes.channels + channel) * planes.spatial + k));
    let scaled = |i: int| c * f(i);
    let ss = |b: int|
        sigma(n, |k: int| scaled((b * planes.channels + channel) * planes.spatial + k));
    assert forall|b: int| #[trigger] ss(b) == c * fs(b) by {
        let fb = |k: int| f((b * planes.channels + channel) * planes.spatial + k);
        lemma_sigma_scale(n, c, fb);
        lemma_sigma_equal(
            n,
            |k: int| scaled((b * planes.channels + channel) * planes.spatial + k),
            |k: int| c * fb(k),
        );
    }
    lemma_sigma_scale(m, c, fs);
    lemma_sigma_equal(m, ss, |b: int| c * fs(b));
}

pub proof fn lemma_over_constant(planes: Planes, channel: int, c: real)
    requires
        planes.wf(),
    ensures
        over_channel(planes, channel, |i: int| c) == c * planes.samples() as real,
{
    let (m, n) = (planes.batch as nat, planes.spatial as nat);
    let f = |i: int| c;
    let rows = |b: int| sigma(n, |k: int| f((b * planes.channels + channel) * planes.spatial + k));
    lemma_sigma_constant(n, c);
    assert forall|b: int| #[trigger] rows(b) == c * n as real by {
        lemma_sigma_equal(
            n,
            |k: int| f((b * planes.channels + channel) * planes.spatial + k),
            |k: int| c,
        );
    }
    lemma_sigma_constant(m, c * n as real);
    lemma_sigma_equal(m, rows, |b: int| c * n as real);
    let (x, y, z) = (n as real, m as real, planes.samples() as real);
    lemma_product_number(m, n);
    assert(c * x * y == c * z) by (nonlinear_arith)
        requires
            z == y * x,
    ;
}

/// The product of counts as a number.
pub proof fn lemma_product_number(m: nat, n: nat)
    ensures
        (m * n) as real == m as real * n as real,
{
    assert((m * n) as real == m as real * n as real) by (nonlinear_arith);
}

/// A sum over all elements that skips other channels is one over the channel.
pub proof fn lemma_masked(planes: Planes, channel: int, f: spec_fn(int) -> real)
    requires
        planes.wf(),
        0 <= channel < planes.channels,
    ensures
        sigma(
            planes.len() as nat,
            |i: int|
                if planes.channel_of(i) == channel {
                    f(i)
                } else {
                    0 as real
                },
        ) == over_channel(planes, channel, f),
{
    let (b, c, s) = (planes.batch as nat, planes.channels as nat, planes.spatial as nat);
    let masked = |i: int|
        if planes.channel_of(i) == channel {
            f(i)
        } else {
            0 as real
        };
    let plane = |p: int| sigma(s, |k: int| masked(p * s + k));
    assert(planes.len() == b * c * s);
    assert(b * c >= 0) by (nonlinear_arith);
    lemma_sigma_blocks(b * c, s, masked);
    lemma_sigma_blocks(b, c, plane);
    let sample = |n: int| sigma(c, |q: int| plane(n * c + q));
    let own = |n: int|
        sigma(s, |k: int| f((n * planes.channels + channel) * planes.spatial + k));
    assert forall|n: int| 0 <= n < b implies #[trigger] sample(n) == own(n) by {
        let planes_of = |q: int| plane(n * c + q);
        assert forall|q: int| 0 <= q < c && q != channel implies #[trigger] planes_of(q)
            == 0 as real by {
            assert forall|k: int| 0 <= k < s implies #[trigger] masked((n * c + q) * s + k)
                == 0 as real by {
                lemma_channel_place(planes, q, n, k);
            }
            lemma_sigma_zero(s, |k: int| masked((n * c + q) * s + k));
        }
        lemma_sigma_single(c, planes_of, channel);
        assert forall|k: int| 0 <= k < s implies masked((n * c + channel) * s + k) == #[trigger] f(
            (n * planes.channels + channel) * planes.spatial + k,
        ) by {
            lemma_channel_place(planes, channel, n, k);
        }
        lemma_sigma_equal(
            s,
            |k: int| masked((n * c + channel) * s + k),
            |k: int| f((n * planes.channels + channel) * planes.spatial + k),
        );
    }
    lemma_sigma_equal(b, sample, own);
}

/// The elements of a channel, one after the other.
pub proof fn lemma_channel_values(
    planes: Planes,
    channel: int,
    f: spec_fn(int) -> real,
)
    requires
        planes.wf(),
        0 <= channel < planes.channels,
    ensures
        sigma(planes.samples() as nat, |n: int| f(channel_at(planes, channel, n))) == over_channel(
            planes,
            channel,
            f,
        ),
{
    let (b, s) = (planes.batch as nat, planes.spatial as nat);
    let g = |n: int| f(channel_at(planes, channel, n));
    lemma_sigma_blocks(b, s, g);
    let rows = |i: int| sigma(s, |k: int| g(i * s + k));
    let own = |n: int|
        sigma(s, |k: int| f((n * planes.channels + channel) * planes.spatial + k));
    assert forall|i: int| 0 <= i < b implies #[trigger] rows(i) == own(i) by {
        assert forall|k: int| 0 <= k < s implies #[trigger] g(i * s + k) == f(
            (i * planes.channels + channel) * planes.spatial + k,
        ) by {
            crate::index::lemma_flat_inverse(i, k, s as int);
        }
        lemma_sigma_equal(
            s,
            |k: int| g(i * s + k),
            |k: int| f((i * planes.channels + channel) * planes.spatial + k),
        );
    }
    lemma_sigma_equal(b, rows, own);
}


} // verus!
