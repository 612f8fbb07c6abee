//! What each thread of a convolution, and of its gradients, computes.
//!
//! The threads of a block share a tile of weights or gradients: each thread fetches one
//! element of the tile, all threads wait, and each goes over the tile.

use crate::cuda::launch::{lemma_tiles, offset, spot, tiles, GRADIENT_TILE, TILE};
use crate::forward::{gathered, Convolution};
use crate::index::{
    lemma_flat, lemma_flat_inverse, lemma_place, lemma_position, lemma_unflat, place, position,
    within, Place,
};
use crate::scalar::{added, dotted, lemma_added_push, lemma_dotted_push, product, sum, zero, Scalar};
use vstd::prelude::*;

verus! {

/// The kernel is as high as it is wide.
pub open spec fn square(geometry: Convolution) -> bool {
    geometry.kernel_h == geometry.kernel_w
}

/// The number of weights that an output element reads.
pub open spec fn reduction(geometry: Convolution) -> int {
    geometry.in_per_group() * geometry.kernel_h * geometry.kernel_h
}

/// The input channel of the group, the row and the column of the `r`-th weight.
pub open spec fn unreduced(geometry: Convolution, r: int) -> (int, int, int) {
    let k = geometry.kernel_h as int;
    (r / k / k, r / k % k, r % k)
}

/// The (input, weight) positions of `n` weights from the `from`-th on that make up an
/// output element, without those that fall on padding.
pub open spec fn scan(geometry: Convolution, at: Place, from: int, n: nat) -> Seq<(int, int)>
    decreases n,
{
    if n == 0 {
        Seq::empty()
    } else {
        let before = scan(geometry, at, from, (n - 1) as nat);
        let (local, ky, kx) = unreduced(geometry, from + n - 1);
        if geometry.covers(at, ky, kx) {
            before.push(
                (
                    geometry.input_index(at, local, ky, kx),
                    geometry.weight_index(at, local, ky, kx),
                ),
            )
        } else {
            before
        }
    }
}

/// Two scans one after the other are one scan.
proof fn lemma_scan_joins(geometry: Convolution, at: Place, from: int, n: nat, m: nat)
    ensures
        scan(geometry, at, from, n + m) == scan(geometry, at, from, n) + scan(
            geometry,
            at,
            from + n,
            m,
        ),
    decreases m,
{
    let head = scan(geometry, at, from, n);
    if m == 0 {
        assert(head + scan(geometry, at, from + n, 0) =~= head);
    } else {
        lemma_scan_joins(geometry, at, from, n, (m - 1) as nat);
        let tail = scan(geometry, at, from + n, (m - 1) as nat);
        assert(from + (n + m) - 1 == from + n + m - 1);
        let (local, ky, kx) = unreduced(geometry, from + n + m - 1);
        if geometry.covers(at, ky, kx) {
            let tap = (
                geometry.input_index(at, local, ky, kx),
                geometry.weight_index(at, local, ky, kx),
            );
            assert((head + tail).push(tap) =~= head + tail.push(tap));
        }
    }
}

/// The `r`-th weight in terms of its channel, row and column.
proof fn lemma_unreduced(geometry: Convolution, local: int, ky: int, kx: int)
    requires
        geometry.wf(),
        square(geometry),
        0 <= local,
        0 <= ky < geometry.kernel_h,
        0 <= kx < geometry.kernel_h,
    ensures
        unreduced(
            geometry,
            (local * geometry.kernel_h + ky) * geometry.kernel_h + kx,
        ) == (local, ky, kx),
{
    let k = geometry.kernel_h as int;
    lemma_flat_inverse(local, ky, k);
    assert(0 <= local * k + ky) by (nonlinear_arith)
        requires
            0 <= local,
            0 <= ky,
            0 <= k,
    ;
    lemma_flat_inverse(local * k + ky, kx, k);
}

/// Going over the weights one by one reads what going over channels, rows and columns
/// reads.
proof fn lemma_scan(geometry: Convolution, at: Place, local: nat, ky: nat, kx: nat)
    requires
        geometry.wf(),
        square(geometry),
        ky <= geometry.kernel_h,
        kx <= geometry.kernel_h,
        ky == geometry.kernel_h ==> kx == 0,
    ensures
        (local * geometry.kernel_h + ky) * geometry.kernel_h + kx >= 0,
        scan(
            geometry,
            at,
            0,
            ((local * geometry.kernel_h + ky) * geometry.kernel_h + kx) as nat,
        ) == geometry.channel_taps(at, local) + geometry.plane_taps(at, local as int, ky)
            + geometry.row_taps(at, local as int, ky as int, kx),
    decreases local, ky, kx,
{
    let k = geometry.kernel_h as int;
    let n = (local * k + ky) * k + kx;
    assert(n >= 0) by (nonlinear_arith)
        requires
            n == (local * k + ky) * k + kx,
            0 <= local,
            0 <= ky,
            0 <= kx,
            0 <= k,
    ;
    let whole = geometry.channel_taps(at, local);
    let plane = geometry.plane_taps(at, local as int, ky);
    let row = geometry.row_taps(at, local as int, ky as int, kx);
    if kx > 0 {
        lemma_scan(geometry, at, local, ky, (kx - 1) as nat);
        lemma_unreduced(geometry, local as int, ky as int, kx - 1);
        let short = geometry.row_taps(at, local as int, ky as int, (kx - 1) as nat);
        assert((n - 1) as nat == ((local * k + ky) * k + (kx - 1)) as nat);
        if geometry.covers(at, ky as int, kx - 1) {
            let tap = (
                geometry.input_index(at, local as int, ky as int, kx - 1),
                geometry.weight_index(at, local as int, ky as int, kx - 1),
            );
            assert((whole + plane + short).push(tap) =~= whole + plane + short.push(tap));
        }
        assert(scan(geometry, at, 0, n as nat) == whole + plane + row);
    } else if ky > 0 {
        lemma_scan(geometry, at, local, (ky - 1) as nat, geometry.kernel_h as nat);
        assert((local * k + (ky - 1)) * k + k == n) by (nonlinear_arith)
            requires
                n == (local * k + ky) * k + kx,
                kx == 0,
        ;
        let above = geometry.plane_taps(at, local as int, (ky - 1) as nat);
        let last = geometry.row_taps(at, local as int, ky - 1, geometry.kernel_h as nat);
        assert(whole + above + last =~= whole + plane + row);
    } else if local > 0 {
        lemma_scan(geometry, at, (local - 1) as nat, geometry.kernel_h as nat, 0);
        assert(((local - 1) * k + k) * k + 0 == n) by (nonlinear_arith)
            requires
                n == (local * k + ky) * k + kx,
                kx == 0,
                ky == 0,
        ;
        let before = geometry.channel_taps(at, (local - 1) as nat);
        let last = geometry.plane_taps(at, local - 1, geometry.kernel_h as nat);
        assert(before + last + geometry.row_taps(at, local - 1, geometry.kernel_h as int, 0)
            =~= whole + plane + row);
    } else {
        assert(n == 0) by (nonlinear_arith)
            requires
                n == (local * k + ky) * k + kx,
                kx == 0,
                ky == 0,
                local == 0,
        ;
        assert(whole + plane + row =~= Seq::<(int, int)>::empty());
    }
}

/// Going over all weights one by one reads what makes up an output element.
pub proof fn scan_reads_every_tap(geometry: Convolution, at: Place)
    requires
        geometry.wf(),
        square(geometry),
    ensures
        reduction(geometry) >= 0,
        scan(geometry, at, 0, reduction(geometry) as nat) == geometry.taps(at),
{
    geometry.lemma_extents();
    let local = geometry.in_per_group() as nat;
    let k = geometry.kernel_h as int;
    lemma_scan(geometry, at, local, 0, 0);
    assert((local * k + 0) * k + 0 == reduction(geometry)) by (nonlinear_arith)
        requires
            reduction(geometry) == local * k * k,
    ;
    assert(geometry.channel_taps(at, local) + geometry.plane_taps(at, local as int, 0)
        + geometry.row_taps(at, local as int, 0, 0) =~= geometry.taps(at));
}

/// Products added in two runs are added in one.
pub proof fn lemma_dotted_joins<T: Scalar>(
    start: T,
    head: Seq<(T, T)>,
    middle: T,
    tail: Seq<(T, T)>,
    end: T,
)
    requires
        dotted(start, head, middle),
        dotted(middle, tail, end),
    ensures
        dotted(start, head + tail, end),
    decreases tail.len(),
{
    if tail.len() == 0 {
        assert(head + tail =~= head);
    } else {
        let (before, part) = choose|before: T, part: T|
            {
                &&& dotted(middle, tail.drop_last(), before)
                &&& product(tail.last().0, tail.last().1, part)
                &&& #[trigger] sum(before, part, end)
            };
        lemma_dotted_joins(start, head, middle, tail.drop_last(), before);
        let all = head + tail.drop_last();
        lemma_dotted_push(start, all, before, tail.last().0, tail.last().1, part, end);
        assert(all.push((tail.last().0, tail.last().1)) =~= head + tail);
    }
}

/// The rows of an output plane.
pub fn out_height(geometry: Convolution) -> (r: usize)
    requires
        geometry.wf(),
    ensures
        r == geometry.out_h(),
{
    proof {
        geometry.lemma_extents();
    }
    (geometry.height + 2 * geometry.padding - geometry.kernel_h) / geometry.stride + 1
}

/// The columns of an output plane.
pub fn out_width(geometry: Convolution) -> (r: usize)
    requires
        geometry.wf(),
    ensures
        r == geometry.out_w(),
{
    proof {
        geometry.lemma_extents();
    }
    (geometry.width + 2 * geometry.padding - geometry.kernel_w) / geometry.stride + 1
}

/// The weights of an output channel stand one after the other.
proof fn lemma_weight_index(geometry: Convolution, at: Place, r: int)
    requires
        geometry.wf(),
        square(geometry),
        0 <= r < reduction(geometry),
    ensures
        ({
            let (local, ky, kx) = unreduced(geometry, r);
            &&& 0 <= local < geometry.in_per_group()
            &&& 0 <= ky < geometry.kernel_h
            &&& 0 <= kx < geometry.kernel_h
            &&& geometry.weight_index(at, local, ky, kx) == at.channel * reduction(geometry) + r
        }),
{
    geometry.lemma_extents();
    let k = geometry.kernel_h as int;
    let i = geometry.in_per_group();
    let (local, ky, kx) = unreduced(geometry, r);
    assert(i * k * k == (i * k) * k) by (nonlinear_arith);
    assert(0 <= i * k) by (nonlinear_arith)
        requires
            0 <= i,
            0 <= k,
    ;
    lemma_unflat(r, i * k, k);
    lemma_unflat(r / k, i, k);
    assert(((at.channel * i + local) * k + ky) * k + kx == at.channel * (i * k * k) + r)
        by (nonlinear_arith)
        requires
            r == (local * k + ky) * k + kx,
    ;
}

/// The weights of all output channels take as many elements as the weight has.
proof fn lemma_weight_len(geometry: Convolution)
    requires
        geometry.wf(),
        square(geometry),
    ensures
        geometry.out_channels * reduction(geometry) == geometry.weight_len(),
        0 <= reduction(geometry),
        geometry.out_channels > 0 ==> reduction(geometry) <= usize::MAX,
{
    geometry.lemma_extents();
    let k = geometry.kernel_h as int;
    let i = geometry.in_per_group();
    let o = geometry.out_channels as int;
    assert(o * (i * k * k) == o * i * k * k && 0 <= i * k * k) by (nonlinear_arith)
        requires
            0 <= i,
            0 <= k,
    ;
    let n = reduction(geometry);
    assert(o > 0 ==> n <= o * n) by (nonlinear_arith)
        requires
            0 <= n,
    ;
}

/// The weight that a thread of a convolution fetches for a tile; zero beyond the
/// weights of the output channel.
fn conv2d_tile<T: Scalar>(
    thread: usize,
    tile_start: usize,
    geometry: Convolution,
    out_channel: usize,
    weight: &[T],
) -> (r: T)
    requires
        geometry.wf(),
        square(geometry),
        weight@.len() == geometry.weight_len(),
        out_channel < geometry.out_channels,
        tile_start < reduction(geometry),
    ensures
        if tile_start + thread < reduction(geometry) {
            r == weight@[out_channel * reduction(geometry) + tile_start + thread]
        } else {
            zero(r)
        },
{
    proof {
        lemma_weight_len(geometry);
        geometry.lemma_extents();
        lemma_flat(
            out_channel as int,
            geometry.out_channels as int,
            tile_start as int,
            reduction(geometry),
        );
        let k = geometry.kernel_h as int;
        let i = geometry.in_per_group();
        assert(i * k <= i * k * k) by (nonlinear_arith)
            requires
                0 <= i,
                1 <= k,
        ;
    }
    let in_per_group: usize = geometry.in_channels / geometry.groups;
    let count: usize = in_per_group * geometry.kernel_h * geometry.kernel_h;
    if thread < count - tile_start {
        proof {
            lemma_flat(
                out_channel as int,
                geometry.out_channels as int,
                tile_start + thread,
                reduction(geometry),
            );
        }
        weight[out_channel * count + (tile_start + thread)]
    } else {
        T::of_count(0)
    }
}

/// What a thread of a convolution has after a tile, from what it had before.
fn conv2d_accumulate<T: Scalar>(
    before: T,
    tile: &Vec<T>,
    tile_start: usize,
    tile_len: usize,
    geometry: Convolution,
    batch_index: usize,
    out_channel: usize,
    out_y: usize,
    out_x: usize,
    input: &[T],
    Ghost(weight): Ghost<Seq<T>>,
) -> (r: T)
    requires
        geometry.wf(),
        square(geometry),
        input@.len() == geometry.input_len(),
        batch_index < geometry.batch,
        out_channel < geometry.out_channels,
        out_y < geometry.out_h(),
        out_x < geometry.out_w(),
        tile_len <= tile@.len(),
        tile_start + tile_len <= reduction(geometry),
        forall|j: int|
            0 <= j < tile_len ==> #[trigger] tile@[j] == weight[out_channel * reduction(geometry)
                + tile_start + j],
    ensures
        ({
            let at = Place {
                sample: batch_index as int,
                channel: out_channel as int,
                y: out_y as int,
                x: out_x as int,
            };
            dotted(
                before,
                gathered(
                    input@,
                    weight,
                    scan(geometry, at, tile_start as int, tile_len as nat),
                ),
                r,
            )
        }),
{
    let ghost at = Place {
        sample: batch_index as int,
        channel: out_channel as int,
        y: out_y as int,
        x: out_x as int,
    };
    let k: usize = geometry.kernel_h;
    proof {
        geometry.lemma_extents();
        lemma_weight_len(geometry);
    }
    let in_per_group: usize = geometry.in_channels / geometry.groups;
    let out_per_group: usize = geometry.out_channels / geometry.groups;
    let mut total = before;
    let mut index: usize = 0;
    assert(gathered(input@, weight, scan(geometry, at, tile_start as int, 0)) =~= Seq::<
        (T, T),
    >::empty());
    while index < tile_len
        invariant
            index <= tile_len,
            geometry.wf(),
            square(geometry),
            k == geometry.kernel_h,
            in_per_group == geometry.in_per_group(),
            out_per_group == geometry.out_per_group(),
            reduction(geometry) <= usize::MAX,
            input@.len() == geometry.input_len(),
            batch_index < geometry.batch,
            out_channel < geometry.out_channels,
            out_y < geometry.out_h(),
            out_x < geometry.out_w(),
            at == (Place {
                sample: batch_index as int,
                channel: out_channel as int,
                y: out_y as int,
                x: out_x as int,
            }),
            tile_len <= tile@.len(),
            tile_start + tile_len <= reduction(geometry),
            forall|j: int|
                0 <= j < tile_len ==> #[trigger] tile@[j] == weight[out_channel * reduction(
                    geometry,
                ) + tile_start + j],
            dotted(
                before,
                gathered(input@, weight, scan(geometry, at, tile_start as int, index as nat)),
                total,
            ),
        decreases tile_len - index,
    {
        let reduction_index: usize = tile_start + index;
        let kernel_x: usize = reduction_index % k;
        let kernel_y: usize = reduction_index / k % k;
        let local: usize = reduction_index / k / k;
        proof {
            lemma_weight_index(geometry, at, reduction_index as int);
            geometry.lemma_tap(at, local as int, kernel_y as int, kernel_x as int);
        }
        let ghost taps = scan(geometry, at, tile_start as int, index as nat);
        let padded_y: usize = out_y * geometry.stride + kernel_y;
        let padded_x: usize = out_x * geometry.stride + kernel_x;
        if padded_y >= geometry.padding && padded_y - geometry.padding < geometry.height
            && padded_x >= geometry.padding && padded_x - geometry.padding < geometry.width {
            proof {
                lemma_position(
                    geometry.input_place(at, local as int, kernel_y as int, kernel_x as int),
                    geometry.batch as int,
                    geometry.in_channels as int,
                    geometry.height as int,
                    geometry.width as int,
                );
            }
            let in_channel: usize = out_channel / out_per_group * in_per_group + local;
            let y: usize = padded_y - geometry.padding;
            let x: usize = padded_x - geometry.padding;
            let element = input[((batch_index * geometry.in_channels + in_channel)
                * geometry.height + y) * geometry.width + x];
            let part = element.times(tile[index]);
            let next = total.plus(part);
            proof {
                let tap = (
                    geometry.input_index(at, local as int, kernel_y as int, kernel_x as int),
                    geometry.weight_index(at, local as int, kernel_y as int, kernel_x as int),
                );
                let pairs = gathered(input@, weight, taps);
                lemma_dotted_push(before, pairs, total, element, tile@[index as int], part, next);
                assert(gathered(input@, weight, taps.push(tap)) =~= pairs.push(
                    (element, tile@[index as int]),
                ));
            }
            total = next;
        }
        index = index + 1;
    }
    total
}

/// What a thread of a convolution writes: the position of its output element and the
/// element, or nothing where its place lies beyond the plane.
pub fn conv2d<T: Scalar>(
    block: usize,
    thread: usize,
    geometry: Convolution,
    input: &[T],
    weight: &[T],
    bias: &[T],
) -> (r: Option<(usize, T)>)
    requires
        geometry.wf(),
        square(geometry),
        input@.len() == geometry.input_len(),
        weight@.len() == geometry.weight_len(),
        bias@.len() == geometry.out_channels,
        thread < TILE,
        block < geometry.batch * geometry.out_channels * tiles(
            (geometry.out_h() * geometry.out_w()) as nat,
            TILE as nat,
        ),
    ensures
        ({
            let spatial = geometry.out_h() * geometry.out_w();
            let at = spot(
                block as int,
                thread as int,
                tiles(spatial as nat, TILE as nat) as int,
                TILE as int,
            );
            match r {
                Some((index, value)) => {
                    &&& at.element < spatial
                    &&& index == offset(at, spatial)
                    &&& index < geometry.output_len()
                    &&& dotted(
                        bias@[geometry.output_place(index as int).channel],
                        gathered(
                            input@,
                            weight@,
                            geometry.taps(geometry.output_place(index as int)),
                        ),
                        value,
                    )
                },
                None => at.element >= spatial,
            }
        }),
{
    let height: usize = out_height(geometry);
    let width: usize = out_width(geometry);
    proof {
        geometry.lemma_extents();
        lemma_block(geometry, block as int);
    }
    let spatial: usize = height * width;
    let rest: usize = if spatial % TILE == 0 {
        0
    } else {
        1
    };
    let spatial_tiles: usize = spatial / TILE + rest;
    let plane: usize = block / spatial_tiles;
    let base: usize = block % spatial_tiles * TILE;
    if thread >= spatial - base {
        return None;
    }
    let element: usize = base + thread;
    let out_channel: usize = plane % geometry.out_channels;
    let batch_index: usize = plane / geometry.out_channels;
    let out_y: usize = element / width;
    let out_x: usize = element % width;
    let ghost at = Place {
        sample: batch_index as int,
        channel: out_channel as int,
        y: out_y as int,
        x: out_x as int,
    };
    proof {
        lemma_unflat(element as int, height as int, width as int);
        lemma_unflat(plane as int, geometry.batch as int, geometry.out_channels as int);
        lemma_position(
            at,
            geometry.batch as int,
            geometry.out_channels as int,
            height as int,
            width as int,
        );
        assert(position(at, geometry.out_channels as int, height as int, width as int) == plane
            * spatial + element) by (nonlinear_arith)
            requires
                position(at, geometry.out_channels as int, height as int, width as int) == ((
                at.sample * geometry.out_channels + at.channel) * height + at.y) * width + at.x,
                at.sample * geometry.out_channels + at.channel == plane,
                at.y * width + at.x == element,
                spatial == height * width,
        ;
        scan_reads_every_tap(geometry, at);
        lemma_weight_len(geometry);
        let k = geometry.kernel_h as int;
        let i = geometry.in_per_group();
        assert(i * k <= i * k * k) by (nonlinear_arith)
            requires
                0 <= i,
                1 <= k,
        ;
    }
    let in_per_group: usize = geometry.in_channels / geometry.groups;
    let count: usize = in_per_group * geometry.kernel_h * geometry.kernel_h;
    let first = bias[out_channel];
    let mut total = first;
    let mut tile_start: usize = 0;
    assert(gathered(input@, weight@, scan(geometry, at, 0, 0)) =~= Seq::<(T, T)>::empty());
    while tile_start < count
        invariant
            tile_start <= count,
            count == reduction(geometry),
            geometry.wf(),
            square(geometry),
            input@.len() == geometry.input_len(),
            weight@.len() == geometry.weight_len(),
            out_channel < geometry.out_channels,
            batch_index < geometry.batch,
            out_y < geometry.out_h(),
            out_x < geometry.out_w(),
            at == (Place {
                sample: batch_index as int,
                channel: out_channel as int,
                y: out_y as int,
                x: out_x as int,
            }),
            dotted(
                first,
                gathered(input@, weight@, scan(geometry, at, 0, tile_start as nat)),
                total,
            ),
        decreases count - tile_start,
    {
        let mut tile: Vec<T> = Vec::with_capacity(TILE);
        let mut slot: usize = 0;
        while slot < TILE
            invariant
                slot <= TILE,
                tile@.len() == slot,
                tile_start < count,
                count == reduction(geometry),
                geometry.wf(),
                square(geometry),
                weight@.len() == geometry.weight_len(),
                out_channel < geometry.out_channels,
                forall|j: int|
                    0 <= j < slot && tile_start + j < count ==> #[trigger] tile@[j]
                        == weight@[out_channel * reduction(geometry) + tile_start + j],
            decreases TILE - slot,
        {
            tile.push(conv2d_tile(slot, tile_start, geometry, out_channel, weight));
            slot = slot + 1;
        }
        let tile_len: usize = if count - tile_start < TILE {
            count - tile_start
        } else {
            TILE
        };
        let next = conv2d_accumulate(
            total,
            &tile,
            tile_start,
            tile_len,
            geometry,
            batch_index,
            out_channel,
            out_y,
            out_x,
            input,
            Ghost(weight@),
        );
        proof {
            let head = scan(geometry, at, 0, tile_start as nat);
            let tail = scan(geometry, at, tile_start as int, tile_len as nat);
            lemma_scan_joins(geometry, at, 0, tile_start as nat, tile_len as nat);
            lemma_dotted_joins(
                first,
                gathered(input@, weight@, head),
                total,
                gathered(input@, weight@, tail),
                next,
            );
            assert(gathered(input@, weight@, head) + gathered(input@, weight@, tail)
                =~= gathered(input@, weight@, head + tail));
        }
        total = next;
        tile_start = tile_start + tile_len;
    }
    let index: usize = plane * spatial + element;
    assert(geometry.output_place(index as int) == at);
    Some((index, total))
}

/// A block of a convolution works on a plane that exists, from inside the plane on.
proof fn lemma_block(geometry: Convolution, block: int)
    requires
        geometry.wf(),
        0 <= block < geometry.batch * geometry.out_channels * tiles(
            (geometry.out_h() * geometry.out_w()) as nat,
            TILE as nat,
        ),
    ensures
        ({
            let spatial = geometry.out_h() * geometry.out_w();
            let count = tiles(spatial as nat, TILE as nat) as int;
            &&& 1 <= spatial <= usize::MAX
            &&& count > 0
            &&& 0 <= block / count < geometry.batch * geometry.out_channels
            &&& 0 <= block % count
            &&& 0 <= (block % count) * TILE < spatial
            &&& geometry.output_len() == geometry.batch * geometry.out_channels * spatial
            &&& geometry.batch > 0
            &&& geometry.out_channels > 0
        }),
{
    geometry.lemma_extents();
    let (b, c, h, w) = (
        geometry.batch as int,
        geometry.out_channels as int,
        geometry.out_h(),
        geometry.out_w(),
    );
    let spatial = h * w;
    assert(1 <= spatial) by (nonlinear_arith)
        requires
            1 <= h,
            1 <= w,
            spatial == h * w,
    ;
    let count = tiles(spatial as nat, TILE as nat) as int;
    lemma_tiles(spatial as nat, TILE as nat);
    lemma_unflat(block, b * c, count);
    assert(b > 0 && c > 0) by (nonlinear_arith)
        requires
            b * c > 0,
            b >= 0,
            c >= 0,
    ;
    assert(b * c * h * w == b * c * (h * w)) by (nonlinear_arith);
    assert(spatial <= b * c * spatial) by (nonlinear_arith)
        requires
            b * c >= 1,
            spatial >= 0,
    ;
    let tile = block % count;
    assert(tile * 256 <= (count - 1) * 256);
}

/// The number of weights that read an input element.
pub open spec fn back_reduction(geometry: Convolution) -> int {
    geometry.out_per_group() * geometry.kernel_h * geometry.kernel_h
}

/// The weights that read an input element can be counted.
proof fn lemma_back_reduction(geometry: Convolution)
    requires
        geometry.wf(),
        square(geometry),
        geometry.in_channels > 0,
    ensures
        0 <= geometry.out_per_group() * geometry.kernel_h <= usize::MAX,
        0 <= back_reduction(geometry) <= usize::MAX,
{
    geometry.lemma_extents();
    let k = geometry.kernel_h as int;
    let i = geometry.in_per_group();
    let o = geometry.out_per_group();
    let g = geometry.groups as int;
    let c = geometry.out_channels as int;
    assert(i >= 1) by (nonlinear_arith)
        requires
            i * g == geometry.in_channels,
            geometry.in_channels > 0,
            g > 0,
    ;
    assert(0 <= o * k && o * k <= o * k * k && o * k * k <= c * i * k * k) by (nonlinear_arith)
        requires
            0 <= o <= c,
            1 <= i,
            1 <= k,
    ;
}

/// The output place at which a kernel element reads an input place.
pub open spec fn reader(geometry: Convolution, at: Place, local_out: int, ky: int, kx: int) -> Place {
    Place {
        sample: at.sample,
        channel: at.channel / geometry.in_per_group() * geometry.out_per_group() + local_out,
        y: (at.y + geometry.padding - ky) / geometry.stride as int,
        x: (at.x + geometry.padding - kx) / geometry.stride as int,
    }
}

/// A kernel element reads an input place at some output place.
pub open spec fn read_by(geometry: Convolution, at: Place, ky: int, kx: int) -> bool {
    let y = at.y + geometry.padding - ky;
    let x = at.x + geometry.padding - kx;
    &&& 0 <= y
    &&& 0 <= x
    &&& y % geometry.stride as int == 0
    &&& x % geometry.stride as int == 0
    &&& y / geometry.stride as int <= geometry.out_h() - 1
    &&& x / geometry.stride as int <= geometry.out_w() - 1
}

/// The position of an output place.
pub open spec fn output_index(geometry: Convolution, at: Place) -> int {
    position(at, geometry.out_channels as int, geometry.out_h(), geometry.out_w())
}

/// The (gradient, weight) positions of `n` weights from the `from`-th on that make up
/// the gradient of an input place, without those that do not read it.
pub open spec fn back_scan(geometry: Convolution, at: Place, from: int, n: nat) -> Seq<(int, int)>
    decreases n,
{
    if n == 0 {
        Seq::empty()
    } else {
        let before = back_scan(geometry, at, from, (n - 1) as nat);
        let (local_out, ky, kx) = unreduced(geometry, from + n - 1);
        let out = reader(geometry, at, local_out, ky, kx);
        if read_by(geometry, at, ky, kx) {
            before.push(
                (
                    output_index(geometry, out),
                    geometry.weight_index(out, at.channel % geometry.in_per_group(), ky, kx),
                ),
            )
        } else {
            before
        }
    }
}

/// Two scans one after the other are one scan.
proof fn lemma_back_scan_joins(geometry: Convolution, at: Place, from: int, n: nat, m: nat)
    ensures
        back_scan(geometry, at, from, n + m) == back_scan(geometry, at, from, n) + back_scan(
            geometry,
            at,
            from + n,
            m,
        ),
    decreases m,
{
    let head = back_scan(geometry, at, from, n);
    if m == 0 {
        assert(head + back_scan(geometry, at, from + n, 0) =~= head);
    } else {
        lemma_back_scan_joins(geometry, at, from, n, (m - 1) as nat);
        let tail = back_scan(geometry, at, from + n, (m - 1) as nat);
        assert(from + (n + m) - 1 == from + n + m - 1);
        let (local_out, ky, kx) = unreduced(geometry, from + n + m - 1);
        let out = reader(geometry, at, local_out, ky, kx);
        if read_by(geometry, at, ky, kx) {
            let tap = (
                output_index(geometry, out),
                geometry.weight_index(out, at.channel % geometry.in_per_group(), ky, kx),
            );
            assert((head + tail).push(tap) =~= head + tail.push(tap));
        }
    }
}

/// The reader of an input place is an output place, and reads just that place.
proof fn lemma_reader(geometry: Convolution, at: Place, r: int)
    requires
        geometry.wf(),
        square(geometry),
        within(
            at,
            geometry.batch as int,
            geometry.in_channels as int,
            geometry.height as int,
            geometry.width as int,
        ),
        0 <= r < back_reduction(geometry),
    ensures
        ({
            let (local_out, ky, kx) = unreduced(geometry, r);
            let local = at.channel % geometry.in_per_group();
            let out = reader(geometry, at, local_out, ky, kx);
            &&& 0 <= local_out < geometry.out_per_group()
            &&& 0 <= ky < geometry.kernel_h
            &&& 0 <= kx < geometry.kernel_h
            &&& geometry.in_per_group() > 0
            &&& 0 <= local < geometry.in_per_group()
            &&& 0 <= at.channel / geometry.in_per_group() < geometry.groups
            &&& 0 <= at.channel / geometry.in_per_group() * geometry.out_per_group()
            &&& 0 <= out.channel < geometry.out_channels
            &&& 0 <= geometry.weight_index(out, local, ky, kx) < geometry.weight_len()
            &&& 0 <= out.channel * geometry.in_per_group()
            &&& out.channel * geometry.in_per_group() + local <= usize::MAX
            &&& 0 <= (out.channel * geometry.in_per_group() + local) * geometry.kernel_h
            &&& (out.channel * geometry.in_per_group() + local) * geometry.kernel_h + ky
                <= usize::MAX
            &&& 0 <= ((out.channel * geometry.in_per_group() + local) * geometry.kernel_h + ky)
                * geometry.kernel_h
            &&& read_by(geometry, at, ky, kx) ==> {
                &&& within(
                    out,
                    geometry.batch as int,
                    geometry.out_channels as int,
                    geometry.out_h(),
                    geometry.out_w(),
                )
                &&& 0 <= output_index(geometry, out) < geometry.output_len()
                &&& geometry.covers(out, ky, kx)
                &&& geometry.input_place(out, local, ky, kx) == at
            }
        }),
{
    geometry.lemma_extents();
    let k = geometry.kernel_h as int;
    let i = geometry.in_per_group();
    let o = geometry.out_per_group();
    let g = geometry.groups as int;
    let s = geometry.stride as int;
    let (local_out, ky, kx) = unreduced(geometry, r);
    assert(o * k * k == (o * k) * k) by (nonlinear_arith);
    assert(0 <= o * k) by (nonlinear_arith)
        requires
            0 <= o,
            0 <= k,
    ;
    lemma_unflat(r, o * k, k);
    lemma_unflat(r / k, o, k);
    assert(g * i == i * g && g * o == o * g) by (nonlinear_arith);
    lemma_unflat(at.channel, g, i);
    let group = at.channel / i;
    let local = at.channel % i;
    lemma_flat(group, g, local_out, o);
    lemma_flat_inverse(group, local_out, o);
    let out = reader(geometry, at, local_out, ky, kx);
    assert(out.channel / o == group);
    let seat = Place { sample: out.channel, channel: local, y: ky, x: kx };
    lemma_position(seat, geometry.out_channels as int, i, k, k);
    if read_by(geometry, at, ky, kx) {
        let y = at.y + geometry.padding - ky;
        let x = at.x + geometry.padding - kx;
        vstd::arithmetic::div_mod::lemma_fundamental_div_mod(y, s);
        vstd::arithmetic::div_mod::lemma_fundamental_div_mod(x, s);
        assert(y / s * s == s * (y / s) && x / s * s == s * (x / s)) by (nonlinear_arith);
        assert(0 <= y / s && 0 <= x / s) by (nonlinear_arith)
            requires
                0 <= y,
                0 <= x,
                0 < s,
        ;
        assert(within(
            out,
            geometry.batch as int,
            geometry.out_channels as int,
            geometry.out_h(),
            geometry.out_w(),
        ));
        lemma_position(
            out,
            geometry.batch as int,
            geometry.out_channels as int,
            geometry.out_h(),
            geometry.out_w(),
        );
        assert(geometry.input_place(out, local, ky, kx) == at);
    }
}

/// The weight that a thread of the input gradient fetches for a tile; zero beyond the
/// weights that read its input channel.
fn conv2d_input_backward_tile<T: Scalar>(
    thread: usize,
    tile_start: usize,
    geometry: Convolution,
    in_channel: usize,
    weight: &[T],
) -> (r: T)
    requires
        geometry.wf(),
        square(geometry),
        geometry.batch > 0,
        geometry.height > 0,
        geometry.width > 0,
        weight@.len() == geometry.weight_len(),
        in_channel < geometry.in_channels,
        tile_start < back_reduction(geometry),
    ensures
        ({
            let at = Place { sample: 0, channel: in_channel as int, y: 0, x: 0 };
            let (local_out, ky, kx) = unreduced(geometry, tile_start + thread);
            if tile_start + thread < back_reduction(geometry) {
                r == weight@[geometry.weight_index(
                    reader(geometry, at, local_out, ky, kx),
                    in_channel as int % geometry.in_per_group(),
                    ky,
                    kx,
                )]
            } else {
                zero(r)
            }
        }),
{
    let k: usize = geometry.kernel_h;
    let in_per_group: usize = geometry.in_channels / geometry.groups;
    let out_per_group: usize = geometry.out_channels / geometry.groups;
    proof {
        lemma_back_reduction(geometry);
    }
    let count: usize = out_per_group * k * k;
    if thread < count - tile_start {
        let index: usize = tile_start + thread;
        proof {
            let at = Place { sample: 0, channel: in_channel as int, y: 0, x: 0 };
            lemma_reader(geometry, at, index as int);
        }
        let kernel_x: usize = index % k;
        let kernel_y: usize = index / k % k;
        let local_out: usize = index / k / k;
        let out_channel: usize = in_channel / in_per_group * out_per_group + local_out;
        let local_channel: usize = in_channel % in_per_group;
        weight[((out_channel * in_per_group + local_channel) * k + kernel_y) * k + kernel_x]
    } else {
        T::of_count(0)
    }
}

/// What a thread of the input gradient has after a tile, from what it had before.
fn conv2d_input_backward_accumulate<T: Scalar>(
    before: T,
    tile: &Vec<T>,
    tile_start: usize,
    tile_len: usize,
    geometry: Convolution,
    batch_index: usize,
    in_channel: usize,
    in_y: usize,
    in_x: usize,
    gradient: &[T],
    Ghost(weight): Ghost<Seq<T>>,
) -> (r: T)
    requires
        geometry.wf(),
        square(geometry),
        gradient@.len() == geometry.output_len(),
        batch_index < geometry.batch,
        in_channel < geometry.in_channels,
        in_y < geometry.height,
        in_x < geometry.width,
        tile_len <= tile@.len(),
        tile_start + tile_len <= back_reduction(geometry),
        forall|j: int|
            0 <= j < tile_len ==> ({
                let at = Place { sample: 0, channel: in_channel as int, y: 0, x: 0 };
                let (local_out, ky, kx) = unreduced(geometry, tile_start + j);
                #[trigger] tile@[j] == weight[geometry.weight_index(
                    reader(geometry, at, local_out, ky, kx),
                    in_channel as int % geometry.in_per_group(),
                    ky,
                    kx,
                )]
            }),
    ensures
        ({
            let at = Place {
                sample: batch_index as int,
                channel: in_channel as int,
                y: in_y as int,
                x: in_x as int,
            };
            dotted(
                before,
                gathered(
                    gradient@,
                    weight,
                    back_scan(geometry, at, tile_start as int, tile_len as nat),
                ),
                r,
            )
        }),
{
    let ghost at = Place {
        sample: batch_index as int,
        channel: in_channel as int,
        y: in_y as int,
        x: in_x as int,
    };
    let k: usize = geometry.kernel_h;
    let in_per_group: usize = geometry.in_channels / geometry.groups;
    let out_per_group: usize = geometry.out_channels / geometry.groups;
    let height: usize = out_height(geometry);
    let width: usize = out_width(geometry);
    proof {
        lemma_back_reduction(geometry);
    }
    let mut total = before;
    let mut index: usize = 0;
    assert(gathered(gradient@, weight, back_scan(geometry, at, tile_start as int, 0)) =~= Seq::<
        (T, T),
    >::empty());
    while index < tile_len
        invariant
            index <= tile_len,
            geometry.wf(),
            square(geometry),
            k == geometry.kernel_h,
            in_per_group == geometry.in_per_group(),
            out_per_group == geometry.out_per_group(),
            height == geometry.out_h(),
            width == geometry.out_w(),
            gradient@.len() == geometry.output_len(),
            batch_index < geometry.batch,
            in_channel < geometry.in_channels,
            in_y < geometry.height,
            in_x < geometry.width,
            at == (Place {
                sample: batch_index as int,
                channel: in_channel as int,
                y: in_y as int,
                x: in_x as int,
            }),
            tile_len <= tile@.len(),
            tile_start + tile_len <= back_reduction(geometry) <= usize::MAX,
            forall|j: int|
                0 <= j < tile_len ==> ({
                    let at = Place { sample: 0, channel: in_channel as int, y: 0, x: 0 };
                    let (local_out, ky, kx) = unreduced(geometry, tile_start + j);
                    #[trigger] tile@[j] == weight[geometry.weight_index(
                        reader(geometry, at, local_out, ky, kx),
                        in_channel as int % geometry.in_per_group(),
                        ky,
                        kx,
                    )]
                }),
            dotted(
                before,
                gathered(
                    gradient@,
                    weight,
                    back_scan(geometry, at, tile_start as int, index as nat),
                ),
                total,
            ),
        decreases tile_len - index,
    {
        let reduction_index: usize = tile_start + index;
        let kernel_x: usize = reduction_index % k;
        let kernel_y: usize = reduction_index / k % k;
        let local_out: usize = reduction_index / k / k;
        proof {
            lemma_reader(geometry, at, reduction_index as int);
        }
        let ghost taps = back_scan(geometry, at, tile_start as int, index as nat);
        let padded_y: usize = in_y + geometry.padding;
        let padded_x: usize = in_x + geometry.padding;
        if padded_y >= kernel_y && padded_x >= kernel_x {
            let y: usize = padded_y - kernel_y;
            let x: usize = padded_x - kernel_x;
            if y % geometry.stride == 0 && x % geometry.stride == 0 {
                let out_y: usize = y / geometry.stride;
                let out_x: usize = x / geometry.stride;
                if out_y < height && out_x < width {
                    assert(read_by(geometry, at, kernel_y as int, kernel_x as int));
                    let ghost out = reader(
                        geometry,
                        at,
                        local_out as int,
                        kernel_y as int,
                        kernel_x as int,
                    );
                    proof {
                        lemma_position(
                            out,
                            geometry.batch as int,
                            geometry.out_channels as int,
                            geometry.out_h(),
                            geometry.out_w(),
                        );
                    }
                    let out_channel: usize = in_channel / in_per_group * out_per_group
                        + local_out;
                    let slope = gradient[((batch_index * geometry.out_channels + out_channel)
                        * height + out_y) * width + out_x];
                    let part = slope.times(tile[index]);
                    let next = total.plus(part);
                    proof {
                        let tap = (
                            output_index(geometry, out),
                            geometry.weight_index(
                                out,
                                at.channel % geometry.in_per_group(),
                                kernel_y as int,
                                kernel_x as int,
                            ),
                        );
                        let pairs = gathered(gradient@, weight, taps);
                        lemma_dotted_push(
                            before,
                            pairs,
                            total,
                            slope,
                            tile@[index as int],
                            part,
                            next,
                        );
                        assert(gathered(gradient@, weight, taps.push(tap)) =~= pairs.push(
                            (slope, tile@[index as int]),
                        ));
                    }
                    total = next;
                }
            }
        }
        index = index + 1;
    }
    total
}

/// The input place of a position.
pub open spec fn input_place(geometry: Convolution, raw: int) -> Place {
    place(raw, geometry.in_channels as int, geometry.height as int, geometry.width as int)
}

/// What a thread of the input gradient writes: the position of its input element and
/// the gradient of that element, or nothing where its place lies beyond the plane.
pub fn conv2d_input_backward<T: Scalar>(
    block: usize,
    thread: usize,
    geometry: Convolution,
    gradient: &[T],
    weight: &[T],
) -> (r: Option<(usize, T)>)
    requires
        geometry.wf(),
        square(geometry),
        gradient@.len() == geometry.output_len(),
        weight@.len() == geometry.weight_len(),
        thread < TILE,
        block < geometry.batch * geometry.in_channels * tiles(
            (geometry.height * geometry.width) as nat,
            TILE as nat,
        ),
    ensures
        ({
            let spatial = geometry.height * geometry.width;
            let at = spot(
                block as int,
                thread as int,
                tiles(spatial as nat, TILE as nat) as int,
                TILE as int,
            );
            match r {
                Some((index, value)) => {
                    &&& at.element < spatial
                    &&& index == offset(at, spatial)
                    &&& index < geometry.input_len()
                    &&& exists|start: T| #[trigger]
                        zero(start) && dotted(
                            start,
                            gathered(
                                gradient@,
                                weight@,
                                back_scan(
                                    geometry,
                                    input_place(geometry, index as int),
                                    0,
                                    back_reduction(geometry) as nat,
                                ),
                            ),
                            value,
                        )
                },
                None => at.element >= spatial,
            }
        }),
{
    proof {
        geometry.lemma_extents();
        lemma_input_block(geometry, block as int);
    }
    let width: usize = geometry.width;
    let spatial: usize = geometry.height * width;
    let rest: usize = if spatial % TILE == 0 {
        0
    } else {
        1
    };
    let spatial_tiles: usize = spatial / TILE + rest;
    let plane: usize = block / spatial_tiles;
    let base: usize = block % spatial_tiles * TILE;
    if thread >= spatial - base {
        return None;
    }
    let element: usize = base + thread;
    let in_channel: usize = plane % geometry.in_channels;
    let batch_index: usize = plane / geometry.in_channels;
    let in_y: usize = element / width;
    let in_x: usize = element % width;
    let ghost at = Place {
        sample: batch_index as int,
        channel: in_channel as int,
        y: in_y as int,
        x: in_x as int,
    };
    proof {
        lemma_unflat(element as int, geometry.height as int, width as int);
        lemma_unflat(plane as int, geometry.batch as int, geometry.in_channels as int);
        lemma_position(
            at,
            geometry.batch as int,
            geometry.in_channels as int,
            geometry.height as int,
            width as int,
        );
        assert(position(at, geometry.in_channels as int, geometry.height as int, width as int)
            == plane * spatial + element) by (nonlinear_arith)
            requires
                position(at, geometry.in_channels as int, geometry.height as int, width as int) == (
                (at.sample * geometry.in_channels + at.channel) * geometry.height + at.y) * width
                    + at.x,
                at.sample * geometry.in_channels + at.channel == plane,
                at.y * width + at.x == element,
                spatial == geometry.height * width,
        ;
        lemma_back_reduction(geometry);
    }
    let out_per_group: usize = geometry.out_channels / geometry.groups;
    let count: usize = out_per_group * geometry.kernel_h * geometry.kernel_h;
    let mut total = T::of_count(0);
    let ghost first = total;
    let mut tile_start: usize = 0;
    assert(gathered(gradient@, weight@, back_scan(geometry, at, 0, 0)) =~= Seq::<
        (T, T),
    >::empty());
    while tile_start < count
        invariant
            tile_start <= count,
            count == back_reduction(geometry),
            geometry.wf(),
            square(geometry),
            gradient@.len() == geometry.output_len(),
            weight@.len() == geometry.weight_len(),
            in_channel < geometry.in_channels,
            batch_index < geometry.batch,
            in_y < geometry.height,
            in_x < geometry.width,
            at == (Place {
                sample: batch_index as int,
                channel: in_channel as int,
                y: in_y as int,
                x: in_x as int,
            }),
            dotted(
                first,
                gathered(gradient@, weight@, back_scan(geometry, at, 0, tile_start as nat)),
                total,
            ),
        decreases count - tile_start,
    {
        let mut tile: Vec<T> = Vec::with_capacity(TILE);
        let mut slot: usize = 0;
        while slot < TILE
            invariant
                slot <= TILE,
                tile@.len() == slot,
                tile_start < count,
                count == back_reduction(geometry),
                geometry.wf(),
                square(geometry),
                geometry.batch > 0,
                geometry.height > 0,
                geometry.width > 0,
                weight@.len() == geometry.weight_len(),
                in_channel < geometry.in_channels,
                forall|j: int|
                    0 <= j < slot && tile_start + j < count ==> ({
                        let at = Place { sample: 0, channel: in_channel as int, y: 0, x: 0 };
                        let (local_out, ky, kx) = unreduced(geometry, tile_start + j);
                        #[trigger] tile@[j] == weight@[geometry.weight_index(
                            reader(geometry, at, local_out, ky, kx),
                            in_channel as int % geometry.in_per_group(),
                            ky,
                            kx,
                        )]
                    }),
            decreases TILE - slot,
        {
            tile.push(conv2d_input_backward_tile(slot, tile_start, geometry, in_channel, weight));
            slot = slot + 1;
        }
        let tile_len: usize = if count - tile_start < TILE {
            count - tile_start
        } else {
            TILE
        };
        let next = conv2d_input_backward_accumulate(
            total,
            &tile,
            tile_start,
            tile_len,
            geometry,
            batch_index,
            in_channel,
            in_y,
            in_x,
            gradient,
            Ghost(weight@),
        );
        proof {
            let head = back_scan(geometry, at, 0, tile_start as nat);
            let tail = back_scan(geometry, at, tile_start as int, tile_len as nat);
            lemma_back_scan_joins(geometry, at, 0, tile_start as nat, tile_len as nat);
            lemma_dotted_joins(
                first,
                gathered(gradient@, weight@, head),
                total,
                gathered(gradient@, weight@, tail),
                next,
            );
            assert(gathered(gradient@, weight@, head) + gathered(gradient@, weight@, tail)
                =~= gathered(gradient@, weight@, head + tail));
        }
        total = next;
        tile_start = tile_start + tile_len;
    }
    let index: usize = plane * spatial + element;
    assert(input_place(geometry, index as int) == at);
    assert(zero(first));
    Some((index, total))
}

/// A block of the input gradient works on a plane that exists, from inside the plane on.
proof fn lemma_input_block(geometry: Convolution, block: int)
    requires
        geometry.wf(),
        0 <= block < geometry.batch * geometry.in_channels * tiles(
            (geometry.height * geometry.width) as nat,
            TILE as nat,
        ),
    ensures
        ({
            let spatial = geometry.height * geometry.width;
            let count = tiles(spatial as nat, TILE as nat) as int;
            &&& 1 <= spatial <= usize::MAX
            &&& count > 0
            &&& 0 <= block / count < geometry.batch * geometry.in_channels
            &&& 0 <= block % count
            &&& 0 <= (block % count) * TILE < spatial
            &&& geometry.input_len() == geometry.batch * geometry.in_channels * spatial
            &&& geometry.batch > 0
            &&& geometry.in_channels > 0
            &&& geometry.height > 0
            &&& geometry.width > 0
        }),
{
    let (b, c, h, w) = (
        geometry.batch as int,
        geometry.in_channels as int,
        geometry.height as int,
        geometry.width as int,
    );
    let spatial = h * w;
    assert(0 <= spatial) by (nonlinear_arith)
        requires
            0 <= h,
            0 <= w,
            spatial == h * w,
    ;
    assert(0 <= b * c) by (nonlinear_arith)
        requires
            0 <= b,
            0 <= c,
    ;
    let count = tiles(spatial as nat, TILE as nat) as int;
    lemma_tiles(spatial as nat, TILE as nat);
    lemma_unflat(block, b * c, count);
    assert(b > 0 && c > 0) by (nonlinear_arith)
        requires
            b * c > 0,
            b >= 0,
            c >= 0,
    ;
    assert(1 <= spatial);
    assert(h > 0 && w > 0) by (nonlinear_arith)
        requires
            h * w >= 1,
            h >= 0,
            w >= 0,
    ;
    assert(b * c * h * w == b * c * (h * w)) by (nonlinear_arith);
    assert(spatial <= b * c * spatial) by (nonlinear_arith)
        requires
            b * c >= 1,
            spatial >= 0,
    ;
    let tile = block % count;
    assert(tile * 256 <= (count - 1) * 256);
}

/// Every position of a scan comes from one of its weights.
proof fn lemma_scan_member(geometry: Convolution, at: Place, from: int, n: nat, j: int)
    requires
        0 <= j < scan(geometry, at, from, n).len(),
    ensures
        exists|r: int|
            from <= r < from + n && scan(geometry, at, from, n)[j] == #[trigger] tap_of(
                geometry,
                at,
                r,
            ) && covered(geometry, at, r),
    decreases n,
{
    if n > 0 {
        let before = scan(geometry, at, from, (n - 1) as nat);
        if j < before.len() {
            lemma_scan_member(geometry, at, from, (n - 1) as nat, j);
        } else {
            assert(scan(geometry, at, from, n)[j] == tap_of(geometry, at, from + n - 1));
        }
    }
}

/// Every weight that reads inside the input is in a scan over it.
proof fn lemma_scan_found(geometry: Convolution, at: Place, from: int, n: nat, r: int)
    requires
        from <= r < from + n,
        covered(geometry, at, r),
    ensures
        scan(geometry, at, from, n).contains(tap_of(geometry, at, r)),
    decreases n,
{
    let all = scan(geometry, at, from, n);
    let before = scan(geometry, at, from, (n - 1) as nat);
    let wanted = tap_of(geometry, at, r);
    if r == from + n - 1 {
        assert(all.last() == wanted);
    } else {
        lemma_scan_found(geometry, at, from, (n - 1) as nat, r);
        let i = choose|i: int| 0 <= i < before.len() && before[i] == wanted;
        assert(all[i] == wanted);
    }
}

/// The (input, weight) positions of the `r`-th weight of an output element.
pub open spec fn tap_of(geometry: Convolution, at: Place, r: int) -> (int, int) {
    let (local, ky, kx) = unreduced(geometry, r);
    (geometry.input_index(at, local, ky, kx), geometry.weight_index(at, local, ky, kx))
}

/// The `r`-th weight of an output element reads inside the input.
pub open spec fn covered(geometry: Convolution, at: Place, r: int) -> bool {
    let (local, ky, kx) = unreduced(geometry, r);
    geometry.covers(at, ky, kx)
}

/// The (gradient, weight) positions of the `r`-th weight that may read an input place.
pub open spec fn back_tap_of(geometry: Convolution, at: Place, r: int) -> (int, int) {
    let (local_out, ky, kx) = unreduced(geometry, r);
    let out = reader(geometry, at, local_out, ky, kx);
    (
        output_index(geometry, out),
        geometry.weight_index(out, at.channel % geometry.in_per_group(), ky, kx),
    )
}

/// The `r`-th weight that may read an input place reads it.
pub open spec fn back_covered(geometry: Convolution, at: Place, r: int) -> bool {
    let (local_out, ky, kx) = unreduced(geometry, r);
    read_by(geometry, at, ky, kx)
}

proof fn lemma_back_scan_member(geometry: Convolution, at: Place, from: int, n: nat, j: int)
    requires
        0 <= j < back_scan(geometry, at, from, n).len(),
    ensures
        exists|r: int|
            from <= r < from + n && back_scan(geometry, at, from, n)[j] == #[trigger] back_tap_of(
                geometry,
                at,
                r,
            ) && back_covered(geometry, at, r),
    decreases n,
{
    if n > 0 {
        let before = back_scan(geometry, at, from, (n - 1) as nat);
        if j < before.len() {
            lemma_back_scan_member(geometry, at, from, (n - 1) as nat, j);
        } else {
            assert(back_scan(geometry, at, from, n)[j] == back_tap_of(
                geometry,
                at,
                from + n - 1,
            ));
        }
    }
}

proof fn lemma_back_scan_found(geometry: Convolution, at: Place, from: int, n: nat, r: int)
    requires
        from <= r < from + n,
        back_covered(geometry, at, r),
    ensures
        back_scan(geometry, at, from, n).contains(back_tap_of(geometry, at, r)),
    decreases n,
{
    let all = back_scan(geometry, at, from, n);
    let before = back_scan(geometry, at, from, (n - 1) as nat);
    let wanted = back_tap_of(geometry, at, r);
    if r == from + n - 1 {
        assert(all.last() == wanted);
    } else {
        lemma_back_scan_found(geometry, at, from, (n - 1) as nat, r);
        let i = choose|i: int| 0 <= i < before.len() && before[i] == wanted;
        assert(all[i] == wanted);
    }
}

/// The gradient of an input element is gathered from exactly the output elements that
/// read it, by the weights that read it: a (gradient, weight) pair is among its pairs
/// just when that output element reads the input element by that weight.
pub proof fn input_gradient_mirrors_the_convolution(
    geometry: Convolution,
    raw: int,
    cell: int,
    weight: int,
)
    requires
        geometry.wf(),
        square(geometry),
        0 <= raw < geometry.input_len(),
        0 <= cell < geometry.output_len(),
    ensures
        back_scan(
            geometry,
            input_place(geometry, raw),
            0,
            back_reduction(geometry) as nat,
        ).contains((cell, weight)) == geometry.taps(geometry.output_place(cell)).contains(
            (raw, weight),
        ),
{
    geometry.lemma_extents();
    let (b, ci, h, w) = (
        geometry.batch as int,
        geometry.in_channels as int,
        geometry.height as int,
        geometry.width as int,
    );
    let (co, oh, ow) = (geometry.out_channels as int, geometry.out_h(), geometry.out_w());
    let at = input_place(geometry, raw);
    let out = geometry.output_place(cell);
    lemma_place(raw, b, ci, h, w);
    lemma_place(cell, b, co, oh, ow);
    scan_reads_every_tap(geometry, out);
    lemma_back_reduction(geometry);
    let k = geometry.kernel_h as int;
    let i = geometry.in_per_group();
    let o = geometry.out_per_group();
    let g = geometry.groups as int;
    let s = geometry.stride as int;
    let taps = geometry.taps(out);
    let backs = back_scan(geometry, at, 0, back_reduction(geometry) as nat);
    if backs.contains((cell, weight)) {
        let j = choose|j: int| 0 <= j < backs.len() && backs[j] == (cell, weight);
        lemma_back_scan_member(geometry, at, 0, back_reduction(geometry) as nat, j);
        let r = choose|r: int|
            0 <= r < 0 + back_reduction(geometry) as nat && backs[j] == #[trigger] back_tap_of(
                geometry,
                at,
                r,
            ) && back_covered(geometry, at, r);
        lemma_reader(geometry, at, r);
        let (local_out, ky, kx) = unreduced(geometry, r);
        let local = at.channel % i;
        let found = reader(geometry, at, local_out, ky, kx);
        lemma_position(found, b, co, oh, ow);
        assert(found == out);
        let n = (local * k + ky) * k + kx;
        lemma_unreduced(geometry, local, ky, kx);
        assert(0 <= n < reduction(geometry)) by {
            lemma_flat(local, i, ky, k);
            lemma_flat(local * k + ky, i * k, kx, k);
        }
        assert(tap_of(geometry, out, n) == (raw, weight));
        lemma_scan_found(geometry, out, 0, reduction(geometry) as nat, n);
    }
    if taps.contains((raw, weight)) {
        let j = choose|j: int| 0 <= j < taps.len() && taps[j] == (raw, weight);
        lemma_scan_member(geometry, out, 0, reduction(geometry) as nat, j);
        let r = choose|r: int|
            0 <= r < 0 + reduction(geometry) as nat && taps[j] == #[trigger] tap_of(
                geometry,
                out,
                r,
            ) && covered(geometry, out, r);
        lemma_weight_index(geometry, out, r);
        let (local, ky, kx) = unreduced(geometry, r);
        geometry.lemma_tap(out, local, ky, kx);
        let read = geometry.input_place(out, local, ky, kx);
        lemma_position(read, b, ci, h, w);
        assert(read == at);
        assert(g * o == o * g) by (nonlinear_arith);
        lemma_unflat(out.channel, g, o);
        let group = out.channel / o;
        let local_out = out.channel % o;
        lemma_flat_inverse(group, local, i);
        assert(at.channel / i == group && at.channel % i == local);
        lemma_flat_inverse(out.y, 0, s);
        lemma_flat_inverse(out.x, 0, s);
        assert(at.y + geometry.padding - ky == out.y * s + 0);
        assert(at.x + geometry.padding - kx == out.x * s + 0);
        assert(read_by(geometry, at, ky, kx));
        assert(reader(geometry, at, local_out, ky, kx) == out);
        let n = (local_out * k + ky) * k + kx;
        lemma_unreduced(geometry, local_out, ky, kx);
        assert(0 <= n < back_reduction(geometry)) by {
            lemma_flat(local_out, o, ky, k);
            lemma_flat(local_out * k + ky, o * k, kx, k);
        }
        assert(back_tap_of(geometry, at, n) == (cell, weight));
        lemma_back_scan_found(geometry, at, 0, back_reduction(geometry) as nat, n);
    }
}

/// The number of output elements of a channel.
pub open spec fn channel_len(geometry: Convolution) -> int {
    geometry.batch * (geometry.out_h() * geometry.out_w())
}

/// The place of the `n`-th output element of a channel.
pub open spec fn channel_place(geometry: Convolution, channel: int, n: int) -> Place {
    let spatial = geometry.out_h() * geometry.out_w();
    Place {
        sample: n / spatial,
        channel,
        y: n % spatial / geometry.out_w(),
        x: n % spatial % geometry.out_w(),
    }
}

/// The (input, gradient) positions of `n` output elements of a channel from the
/// `from`-th on that make up the gradient of a weight, without those at which the
/// weight falls on padding.
pub open spec fn weight_scan(
    geometry: Convolution,
    channel: int,
    weight: int,
    from: int,
    n: nat,
) -> Seq<(int, int)>
    decreases n,
{
    if n == 0 {
        Seq::empty()
    } else {
        let before = weight_scan(geometry, channel, weight, from, (n - 1) as nat);
        let out = channel_place(geometry, channel, from + n - 1);
        if covered(geometry, out, weight) {
            before.push((tap_of(geometry, out, weight).0, output_index(geometry, out)))
        } else {
            before
        }
    }
}

/// Two scans one after the other are one scan.
proof fn lemma_weight_scan_joins(
    geometry: Convolution,
    channel: int,
    weight: int,
    from: int,
    n: nat,
    m: nat,
)
    ensures
        weight_scan(geometry, channel, weight, from, n + m) == weight_scan(
            geometry,
            channel,
            weight,
            from,
            n,
        ) + weight_scan(geometry, channel, weight, from + n, m),
    decreases m,
{
    let head = weight_scan(geometry, channel, weight, from, n);
    if m == 0 {
        assert(head + weight_scan(geometry, channel, weight, from + n, 0) =~= head);
    } else {
        lemma_weight_scan_joins(geometry, channel, weight, from, n, (m - 1) as nat);
        let tail = weight_scan(geometry, channel, weight, from + n, (m - 1) as nat);
        assert(from + (n + m) - 1 == from + n + m - 1);
        let out = channel_place(geometry, channel, from + n + m - 1);
        if covered(geometry, out, weight) {
            let tap = (tap_of(geometry, out, weight).0, output_index(geometry, out));
            assert((head + tail).push(tap) =~= head + tail.push(tap));
        }
    }
}

/// The output elements of a channel are in range.
proof fn lemma_channel_place(geometry: Convolution, channel: int, n: int)
    requires
        geometry.wf(),
        0 <= channel < geometry.out_channels,
        0 <= n < channel_len(geometry),
    ensures
        ({
            let spatial = geometry.out_h() * geometry.out_w();
            let out = channel_place(geometry, channel, n);
            &&& 1 <= spatial <= usize::MAX
            &&& 0 <= n / spatial < geometry.batch
            &&& 0 <= n % spatial < spatial
            &&& within(
                out,
                geometry.batch as int,
                geometry.out_channels as int,
                geometry.out_h(),
                geometry.out_w(),
            )
            &&& 0 <= output_index(geometry, out) < geometry.output_len()
            &&& 0 <= out.sample * geometry.out_channels
            &&& out.sample * geometry.out_channels + channel <= usize::MAX
            &&& 0 <= (out.sample * geometry.out_channels + channel) * spatial
            &&& output_index(geometry, out) == (out.sample * geometry.out_channels + channel)
                * spatial + n % spatial
        }),
{
    geometry.lemma_extents();
    let (h, w) = (geometry.out_h(), geometry.out_w());
    let spatial = h * w;
    let b = geometry.batch as int;
    let c = geometry.out_channels as int;
    assert(1 <= spatial) by (nonlinear_arith)
        requires
            1 <= h,
            1 <= w,
            spatial == h * w,
    ;
    lemma_unflat(n, b, spatial);
    lemma_unflat(n % spatial, h, w);
    let out = channel_place(geometry, channel, n);
    lemma_position(out, b, c, h, w);
    assert(b * c * h * w == b * c * (h * w)) by (nonlinear_arith);
    assert(spatial <= b * c * spatial) by (nonlinear_arith)
        requires
            b >= 1,
            c >= 1,
            spatial >= 0,
    ;
    assert(((out.sample * c + channel) * h + out.y) * w + out.x == (out.sample * c + channel)
        * (h * w) + n % spatial) by (nonlinear_arith)
        requires
            out.y * w + out.x == n % spatial,
    ;
    lemma_flat(out.sample * c + channel, b * c, n % spatial, spatial);
}

/// The gradient that a thread of the weight gradient fetches for a tile; zero beyond
/// the output elements of the channel.
fn conv2d_weight_backward_tile<T: Scalar>(
    thread: usize,
    tile_start: usize,
    geometry: Convolution,
    out_channel: usize,
    gradient: &[T],
) -> (r: T)
    requires
        geometry.wf(),
        gradient@.len() == geometry.output_len(),
        out_channel < geometry.out_channels,
        tile_start < channel_len(geometry),
    ensures
        if tile_start + thread < channel_len(geometry) {
            r == gradient@[output_index(
                geometry,
                channel_place(geometry, out_channel as int, tile_start + thread),
            )]
        } else {
            zero(r)
        },
{
    proof {
        lemma_channel_place(geometry, out_channel as int, tile_start as int);
        lemma_channel_len(geometry);
    }
    let spatial: usize = out_height(geometry) * out_width(geometry);
    let count: usize = geometry.batch * spatial;
    if thread < count - tile_start {
        let index: usize = tile_start + thread;
        proof {
            lemma_channel_place(geometry, out_channel as int, index as int);
        }
        gradient[(index / spatial * geometry.out_channels + out_channel) * spatial + index
            % spatial]
    } else {
        T::of_count(0)
    }
}

/// The output elements of a channel can be counted.
proof fn lemma_channel_len(geometry: Convolution)
    requires
        geometry.wf(),
        geometry.out_channels > 0,
    ensures
        0 <= channel_len(geometry) <= usize::MAX,
{
    geometry.lemma_extents();
    let (b, c, h, w) = (
        geometry.batch as int,
        geometry.out_channels as int,
        geometry.out_h(),
        geometry.out_w(),
    );
    assert(0 <= b * (h * w) && b * (h * w) <= b * c * h * w) by (nonlinear_arith)
        requires
            0 <= b,
            1 <= c,
            1 <= h,
            1 <= w,
    ;
}

/// What a thread of the weight gradient has after a tile, from what it had before.
fn conv2d_weight_backward_accumulate<T: Scalar>(
    before: T,
    tile: &Vec<T>,
    tile_start: usize,
    tile_len: usize,
    geometry: Convolution,
    out_channel: usize,
    weight_position: usize,
    input: &[T],
    Ghost(gradient): Ghost<Seq<T>>,
) -> (r: T)
    requires
        geometry.wf(),
        square(geometry),
        input@.len() == geometry.input_len(),
        out_channel < geometry.out_channels,
        weight_position < reduction(geometry),
        tile_len <= tile@.len(),
        tile_start + tile_len <= channel_len(geometry),
        forall|j: int|
            0 <= j < tile_len ==> #[trigger] tile@[j] == gradient[output_index(
                geometry,
                channel_place(geometry, out_channel as int, tile_start + j),
            )],
    ensures
        dotted(
            before,
            gathered(
                input@,
                gradient,
                weight_scan(
                    geometry,
                    out_channel as int,
                    weight_position as int,
                    tile_start as int,
                    tile_len as nat,
                ),
            ),
            r,
        ),
{
    let k: usize = geometry.kernel_h;
    let kernel_x: usize = weight_position % k;
    let kernel_y: usize = weight_position / k % k;
    let local: usize = weight_position / k / k;
    proof {
        geometry.lemma_extents();
        lemma_channel_len(geometry);
        let c = geometry.out_channels as int;
        let any = Place { sample: 0, channel: out_channel as int, y: 0, x: 0 };
        lemma_weight_index(geometry, any, weight_position as int);
    }
    let width: usize = out_width(geometry);
    let height: usize = out_height(geometry);
    let in_per_group: usize = geometry.in_channels / geometry.groups;
    let out_per_group: usize = geometry.out_channels / geometry.groups;
    let mut total = before;
    let mut index: usize = 0;
    assert(gathered(
        input@,
        gradient,
        weight_scan(
            geometry,
            out_channel as int,
            weight_position as int,
            tile_start as int,
            0,
        ),
    ) =~= Seq::<(T, T)>::empty());
    while index < tile_len
        invariant
            index <= tile_len,
            geometry.wf(),
            square(geometry),
            k == geometry.kernel_h,
            width == geometry.out_w(),
            height == geometry.out_h(),
            in_per_group == geometry.in_per_group(),
            out_per_group == geometry.out_per_group(),
            (local as int, kernel_y as int, kernel_x as int) == unreduced(
                geometry,
                weight_position as int,
            ),
            local < in_per_group,
            kernel_y < k,
            kernel_x < k,
            input@.len() == geometry.input_len(),
            out_channel < geometry.out_channels,
            weight_position < reduction(geometry),
            tile_len <= tile@.len(),
            tile_start + tile_len <= channel_len(geometry) <= usize::MAX,
            forall|j: int|
                0 <= j < tile_len ==> #[trigger] tile@[j] == gradient[output_index(
                    geometry,
                    channel_place(geometry, out_channel as int, tile_start + j),
                )],
            dotted(
                before,
                gathered(
                    input@,
                    gradient,
                    weight_scan(
                        geometry,
                        out_channel as int,
                        weight_position as int,
                        tile_start as int,
                        index as nat,
                    ),
                ),
                total,
            ),
        decreases tile_len - index,
    {
        let reduction_index: usize = tile_start + index;
        let ghost at = channel_place(geometry, out_channel as int, reduction_index as int);
        proof {
            lemma_channel_place(geometry, out_channel as int, reduction_index as int);
            geometry.lemma_tap(at, local as int, kernel_y as int, kernel_x as int);
        }
        let spatial: usize = height * width;
        let batch_index: usize = reduction_index / spatial;
        let element: usize = reduction_index % spatial;
        let out_y: usize = element / width;
        let out_x: usize = element % width;
        let ghost taps = weight_scan(
            geometry,
            out_channel as int,
            weight_position as int,
            tile_start as int,
            index as nat,
        );
        let padded_y: usize = out_y * geometry.stride + kernel_y;
        let padded_x: usize = out_x * geometry.stride + kernel_x;
        if padded_y >= geometry.padding && padded_y - geometry.padding < geometry.height
            && padded_x >= geometry.padding && padded_x - geometry.padding < geometry.width {
            proof {
                lemma_position(
                    geometry.input_place(at, local as int, kernel_y as int, kernel_x as int),
                    geometry.batch as int,
                    geometry.in_channels as int,
                    geometry.height as int,
                    geometry.width as int,
                );
            }
            let in_channel: usize = out_channel / out_per_group * in_per_group + local;
            let y: usize = padded_y - geometry.padding;
            let x: usize = padded_x - geometry.padding;
            let element = input[((batch_index * geometry.in_channels + in_channel)
                * geometry.height + y) * geometry.width + x];
            let part = element.times(tile[index]);
            let next = total.plus(part);
            proof {
                assert(covered(geometry, at, weight_position as int));
                let tap = (
                    tap_of(geometry, at, weight_position as int).0,
                    output_index(geometry, at),
                );
                let pairs = gathered(input@, gradient, taps);
                lemma_dotted_push(before, pairs, total, element, tile@[index as int], part, next);
                assert(gathered(input@, gradient, taps.push(tap)) =~= pairs.push(
                    (element, tile@[index as int]),
                ));
            }
            total = next;
        }
        index = index + 1;
    }
    total
}

/// What a thread of the weight gradient writes: the position of its weight and the
/// gradient of that weight, or nothing where its place lies beyond the weights of the
/// output channel.
pub fn conv2d_weight_backward<T: Scalar>(
    block: usize,
    thread: usize,
    geometry: Convolution,
    gradient: &[T],
    input: &[T],
) -> (r: Option<(usize, T)>)
    requires
        geometry.wf(),
        square(geometry),
        gradient@.len() == geometry.output_len(),
        input@.len() == geometry.input_len(),
        thread < GRADIENT_TILE,
        block < geometry.out_channels * tiles(
            reduction(geometry) as nat,
            GRADIENT_TILE as nat,
        ),
    ensures
        ({
            let count = reduction(geometry);
            let at = spot(
                block as int,
                thread as int,
                tiles(count as nat, GRADIENT_TILE as nat) as int,
                GRADIENT_TILE as int,
            );
            match r {
                Some((index, value)) => {
                    &&& at.element < count
                    &&& index == offset(at, count)
                    &&& index < geometry.weight_len()
                    &&& exists|start: T| #[trigger]
                        zero(start) && dotted(
                            start,
                            gathered(
                                input@,
                                gradient@,
                                weight_scan(
                                    geometry,
                                    at.plane,
                                    at.element,
                                    0,
                                    channel_len(geometry) as nat,
                                ),
                            ),
                            value,
                        )
                },
                None => at.element >= count,
            }
        }),
{
    proof {
        geometry.lemma_extents();
        lemma_weight_len(geometry);
        lemma_tiles(reduction(geometry) as nat, GRADIENT_TILE as nat);
        lemma_unflat(
            block as int,
            geometry.out_channels as int,
            tiles(reduction(geometry) as nat, GRADIENT_TILE as nat) as int,
        );
        lemma_channel_len(geometry);
        let k = geometry.kernel_h as int;
        let i = geometry.in_per_group();
        assert(i * k <= i * k * k) by (nonlinear_arith)
            requires
                0 <= i,
                1 <= k,
        ;
    }
    let in_per_group: usize = geometry.in_channels / geometry.groups;
    let weights: usize = in_per_group * geometry.kernel_h * geometry.kernel_h;
    let rest: usize = if weights % GRADIENT_TILE == 0 {
        0
    } else {
        1
    };
    let weight_tiles: usize = weights / GRADIENT_TILE + rest;
    let out_channel: usize = block / weight_tiles;
    proof {
        let tile = block as int % weight_tiles as int;
        assert(tile * 32 <= (weight_tiles - 1) * 32);
    }
    let base: usize = block % weight_tiles * GRADIENT_TILE;
    if thread >= weights - base {
        return None;
    }
    let weight_position: usize = base + thread;
    proof {
        lemma_flat(
            out_channel as int,
            geometry.out_channels as int,
            weight_position as int,
            weights as int,
        );
    }
    let count: usize = channel_count(geometry);
    let mut total = T::of_count(0);
    let ghost first = total;
    let mut tile_start: usize = 0;
    assert(gathered(
        input@,
        gradient@,
        weight_scan(geometry, out_channel as int, weight_position as int, 0, 0),
    ) =~= Seq::<(T, T)>::empty());
    while tile_start < count
        invariant
            tile_start <= count,
            count == channel_len(geometry),
            geometry.wf(),
            square(geometry),
            gradient@.len() == geometry.output_len(),
            input@.len() == geometry.input_len(),
            out_channel < geometry.out_channels,
            weight_position < reduction(geometry),
            dotted(
                first,
                gathered(
                    input@,
                    gradient@,
                    weight_scan(
                        geometry,
                        out_channel as int,
                        weight_position as int,
                        0,
                        tile_start as nat,
                    ),
                ),
                total,
            ),
        decreases count - tile_start,
    {
        let mut tile: Vec<T> = Vec::with_capacity(GRADIENT_TILE);
        let mut slot: usize = 0;
        while slot < GRADIENT_TILE
            invariant
                slot <= GRADIENT_TILE,
                tile@.len() == slot,
                tile_start < count,
                count == channel_len(geometry),
                geometry.wf(),
                gradient@.len() == geometry.output_len(),
                out_channel < geometry.out_channels,
                forall|j: int|
                    0 <= j < slot && tile_start + j < count ==> #[trigger] tile@[j]
                        == gradient@[output_index(
                        geometry,
                        channel_place(geometry, out_channel as int, tile_start + j),
                    )],
            decreases GRADIENT_TILE - slot,
        {
            tile.push(
                conv2d_weight_backward_tile(slot, tile_start, geometry, out_channel, gradient),
            );
            slot = slot + 1;
        }
        let tile_len: usize = if count - tile_start < GRADIENT_TILE {
            count - tile_start
        } else {
            GRADIENT_TILE
        };
        let next = conv2d_weight_backward_accumulate(
            total,
            &tile,
            tile_start,
            tile_len,
            geometry,
            out_channel,
            weight_position,
            input,
            Ghost(gradient@),
        );
        proof {
            let (c, p) = (out_channel as int, weight_position as int);
            let head = weight_scan(geometry, c, p, 0, tile_start as nat);
            let tail = weight_scan(geometry, c, p, tile_start as int, tile_len as nat);
            lemma_weight_scan_joins(geometry, c, p, 0, tile_start as nat, tile_len as nat);
            lemma_dotted_joins(
                first,
                gathered(input@, gradient@, head),
                total,
                gathered(input@, gradient@, tail),
                next,
            );
            assert(gathered(input@, gradient@, head) + gathered(input@, gradient@, tail)
                =~= gathered(input@, gradient@, head + tail));
        }
        total = next;
        tile_start = tile_start + tile_len;
    }
    let index: usize = out_channel * weights + weight_position;
    assert(zero(first));
    Some((index, total))
}

/// The number of output elements of a channel.
fn channel_count(geometry: Convolution) -> (r: usize)
    requires
        geometry.wf(),
        geometry.out_channels > 0,
    ensures
        r == channel_len(geometry),
{
    proof {
        geometry.lemma_extents();
        lemma_channel_len(geometry);
        let (b, h, w) = (geometry.batch as int, geometry.out_h(), geometry.out_w());
        assert(b >= 1 ==> h * w <= b * (h * w)) by (nonlinear_arith)
            requires
                h >= 1,
                w >= 1,
        ;
        assert(b == 0 ==> b * (h * w) == 0) by (nonlinear_arith);
    }
    if geometry.batch == 0 {
        return 0;
    }
    geometry.batch * (out_height(geometry) * out_width(geometry))
}

proof fn lemma_weight_scan_member(
    geometry: Convolution,
    channel: int,
    weight: int,
    from: int,
    n: nat,
    j: int,
)
    requires
        0 <= j < weight_scan(geometry, channel, weight, from, n).len(),
    ensures
        exists|m: int|
            {
                let out = #[trigger] channel_place(geometry, channel, m);
                &&& from <= m < from + n
                &&& covered(geometry, out, weight)
                &&& weight_scan(geometry, channel, weight, from, n)[j] == (
                    tap_of(geometry, out, weight).0,
                    output_index(geometry, out),
                )
            },
    decreases n,
{
    if n > 0 {
        let before = weight_scan(geometry, channel, weight, from, (n - 1) as nat);
        if j < before.len() {
            lemma_weight_scan_member(geometry, channel, weight, from, (n - 1) as nat, j);
            let m = choose|m: int|
                {
                    let out = #[trigger] channel_place(geometry, channel, m);
                    &&& from <= m < from + (n - 1)
                    &&& covered(geometry, out, weight)
                    &&& before[j] == (
                        tap_of(geometry, out, weight).0,
                        output_index(geometry, out),
                    )
                };
            assert(weight_scan(geometry, channel, weight, from, n)[j] == before[j]);
            let out = channel_place(geometry, channel, m);
            assert(from <= m < from + n);
        } else {
            let out = channel_place(geometry, channel, from + n - 1);
            assert(covered(geometry, out, weight));
        }
    }
}

proof fn lemma_weight_scan_found(
    geometry: Convolution,
    channel: int,
    weight: int,
    from: int,
    n: nat,
    m: int,
)
    requires
        from <= m < from + n,
        covered(geometry, channel_place(geometry, channel, m), weight),
    ensures
        weight_scan(geometry, channel, weight, from, n).contains(
            (
                tap_of(geometry, channel_place(geometry, channel, m), weight).0,
                output_index(geometry, channel_place(geometry, channel, m)),
            ),
        ),
    decreases n,
{
    let all = weight_scan(geometry, channel, weight, from, n);
    let before = weight_scan(geometry, channel, weight, from, (n - 1) as nat);
    let out = channel_place(geometry, channel, m);
    let wanted = (tap_of(geometry, out, weight).0, output_index(geometry, out));
    if m == from + n - 1 {
        assert(all.last() == wanted);
    } else {
        lemma_weight_scan_found(geometry, channel, weight, from, (n - 1) as nat, m);
        let i = choose|i: int| 0 <= i < before.len() && before[i] == wanted;
        assert(all[i] == wanted);
    }
}

/// The gradient of a weight is gathered from exactly the output elements that read by
/// it, with the input elements that they read: an (input, gradient) pair is among its
/// pairs just when that output element reads that input element by the weight.
pub proof fn weight_gradient_mirrors_the_convolution(
    geometry: Convolution,
    channel: int,
    weight: int,
    raw: int,
    cell: int,
)
    requires
        geometry.wf(),
        square(geometry),
        0 <= channel < geometry.out_channels,
        0 <= weight < reduction(geometry),
        0 <= cell < geometry.output_len(),
    ensures
        weight_scan(geometry, channel, weight, 0, channel_len(geometry) as nat).contains(
            (raw, cell),
        ) == geometry.taps(geometry.output_place(cell)).contains(
            (raw, channel * reduction(geometry) + weight),
        ),
{
    geometry.lemma_extents();
    lemma_channel_len(geometry);
    let b = geometry.batch as int;
    let (co, oh, ow) = (geometry.out_channels as int, geometry.out_h(), geometry.out_w());
    let spatial = oh * ow;
    let count = channel_len(geometry) as nat;
    let out = geometry.output_place(cell);
    lemma_place(cell, b, co, oh, ow);
    scan_reads_every_tap(geometry, out);
    let total = reduction(geometry);
    let all = weight_scan(geometry, channel, weight, 0, count);
    let taps = geometry.taps(out);
    if all.contains((raw, cell)) {
        let j = choose|j: int| 0 <= j < all.len() && all[j] == (raw, cell);
        lemma_weight_scan_member(geometry, channel, weight, 0, count, j);
        let m = choose|m: int|
            {
                let place = #[trigger] channel_place(geometry, channel, m);
                &&& 0 <= m < 0 + count
                &&& covered(geometry, place, weight)
                &&& all[j] == (tap_of(geometry, place, weight).0, output_index(geometry, place))
            };
        lemma_channel_place(geometry, channel, m);
        let found = channel_place(geometry, channel, m);
        lemma_position(found, b, co, oh, ow);
        assert(found == out);
        lemma_weight_index(geometry, out, weight);
        assert(tap_of(geometry, out, weight) == (raw, channel * total + weight));
        lemma_scan_found(geometry, out, 0, total as nat, weight);
    }
    if taps.contains((raw, channel * total + weight)) {
        let j = choose|j: int| 0 <= j < taps.len() && taps[j] == (raw, channel * total + weight);
        lemma_scan_member(geometry, out, 0, total as nat, j);
        let r = choose|r: int|
            0 <= r < 0 + total as nat && taps[j] == #[trigger] tap_of(geometry, out, r) && covered(
                geometry,
                out,
                r,
            );
        lemma_weight_index(geometry, out, r);
        lemma_flat_inverse(out.channel, r, total);
        lemma_flat_inverse(channel, weight, total);
        assert(out.channel == channel && r == weight);
        let within_plane = out.y * ow + out.x;
        lemma_flat(out.y, oh, out.x, ow);
        lemma_flat_inverse(out.y, out.x, ow);
        let m = out.sample * spatial + within_plane;
        lemma_flat(out.sample, b, within_plane, spatial);
        lemma_flat_inverse(out.sample, within_plane, spatial);
        assert(channel_place(geometry, channel, m) == out);
        lemma_weight_scan_found(geometry, channel, weight, 0, count, m);
    }
}

/// The gradients of the output elements of a channel.
pub open spec fn channel_terms<T>(geometry: Convolution, channel: int, gradient: Seq<T>) -> Seq<T> {
    Seq::new(
        channel_len(geometry) as nat,
        |n: int| gradient[output_index(geometry, channel_place(geometry, channel, n))],
    )
}

/// One element of the bias gradient: the sum of the gradients of its channel.
pub fn conv2d_bias_backward<T: Scalar>(channel: usize, geometry: Convolution, gradient: &[T]) -> (r:
    T)
    requires
        geometry.wf(),
        gradient@.len() == geometry.output_len(),
        channel < geometry.out_channels,
    ensures
        exists|start: T| #[trigger]
            zero(start) && added(start, channel_terms(geometry, channel as int, gradient@), r),
{
    let count: usize = channel_count(geometry);
    let ghost terms = channel_terms(geometry, channel as int, gradient@);
    let mut total = T::of_count(0);
    let ghost start = total;
    let mut n: usize = 0;
    proof {
        geometry.lemma_extents();
        lemma_channel_len(geometry);
    }
    assert(terms.take(0) =~= Seq::<T>::empty());
    while n < count
        invariant
            n <= count,
            count == channel_len(geometry),
            geometry.wf(),
            gradient@.len() == geometry.output_len(),
            channel < geometry.out_channels,
            terms == channel_terms(geometry, channel as int, gradient@),
            added(start, terms.take(n as int), total),
        decreases count - n,
    {
        let slope = conv2d_weight_backward_tile(0, n, geometry, channel, gradient);
        assert(slope == terms[n as int]);
        let next = total.plus(slope);
        proof {
            lemma_added_push(start, terms.take(n as int), total, slope, next);
            assert(terms.take(n + 1) =~= terms.take(n as int).push(slope));
        }
        total = next;
        n = n + 1;
    }
    assert(terms.take(n as int) =~= terms);
    assert(zero(start));
    total
}

} // verus!
