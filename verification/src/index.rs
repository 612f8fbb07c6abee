//! Row-major positions.

use vstd::arithmetic::div_mod::lemma_fundamental_div_mod;
use vstd::prelude::*;

verus! {

/// A row and a column in range give a position in range.
pub proof fn lemma_flat(row: int, rows: int, column: int, columns: int)
    requires
        0 <= row < rows,
        0 <= column < columns,
    ensures
        0 <= row * columns + column < rows * columns,
        0 <= row * columns <= row * columns + column,
        row <= row * columns,
        rows <= rows * columns,
        columns <= rows * columns,
{
    assert(0 <= row * columns + column < rows * columns && 0 <= row * columns && row <= row
        * columns && rows <= rows * columns && columns <= rows * columns) by (nonlinear_arith)
        requires
            0 <= row < rows,
            0 <= column < columns,
    ;
}

/// A position in range has a row and a column in range, which give it back.
pub proof fn lemma_unflat(position: int, rows: int, columns: int)
    requires
        0 <= position < rows * columns,
        0 <= rows,
        0 <= columns,
    ensures
        columns > 0,
        rows > 0,
        0 <= position / columns < rows,
        0 <= position % columns < columns,
        (position / columns) * columns + position % columns == position,
{
    assert(columns > 0 && rows > 0) by (nonlinear_arith)
        requires
            0 <= position < rows * columns,
            0 <= rows,
            0 <= columns,
    ;
    lemma_fundamental_div_mod(position, columns);
    let q = position / columns;
    let m = position % columns;
    assert(position == columns * q + m && 0 <= m < columns);
    assert(q < rows && 0 <= q) by (nonlinear_arith)
        requires
            position == columns * q + m,
            0 <= m < columns,
            0 <= position < rows * columns,
    ;
    assert(q * columns == columns * q) by (nonlinear_arith);
}

/// The row and the column of a position are those that it was made of.
pub proof fn lemma_flat_inverse(row: int, column: int, columns: int)
    requires
        0 <= row,
        0 <= column < columns,
    ensures
        (row * columns + column) / columns == row,
        (row * columns + column) % columns == column,
{
    vstd::arithmetic::div_mod::lemma_fundamental_div_mod_converse(
        row * columns + column,
        columns,
        row,
        column,
    );
}

/// A quotient is at most what was divided.
pub proof fn lemma_div_bound(a: int, d: int)
    requires
        0 <= a,
        d > 0,
    ensures
        0 <= a / d <= a,
{
    assert(0 <= a / d <= a) by (nonlinear_arith)
        requires
            0 <= a,
            d > 0,
    ;
}

/// A position of a strided window stays inside the padded extent.
pub proof fn lemma_window(step: int, extent: int, kernel: int, stride: int)
    requires
        0 < kernel <= extent,
        stride > 0,
        0 <= step < (extent - kernel) / stride + 1,
    ensures
        0 <= step * stride <= extent - kernel,
        step <= step * stride,
{
    let room = extent - kernel;
    lemma_fundamental_div_mod(room, stride);
    let q = room / stride;
    let m = room % stride;
    assert(0 <= step * stride <= room && step <= step * stride) by (nonlinear_arith)
        requires
            room == stride * q + m,
            0 <= m < stride,
            0 <= step < q + 1,
    ;
}

/// A place in a batch of feature planes.
pub struct Place {
    pub sample: int,
    pub channel: int,
    pub y: int,
    pub x: int,
}

/// The place of a row-major position among planes of `height` rows of `width`.
pub open spec fn place(position: int, channels: int, height: int, width: int) -> Place {
    Place {
        sample: position / width / height / channels,
        channel: position / width / height % channels,
        y: position / width % height,
        x: position % width,
    }
}

/// The row-major position of a place.
pub open spec fn position(at: Place, channels: int, height: int, width: int) -> int {
    ((at.sample * channels + at.channel) * height + at.y) * width + at.x
}

/// The place lies in a batch of planes.
pub open spec fn within(at: Place, batch: int, channels: int, height: int, width: int) -> bool {
    &&& 0 <= at.sample < batch
    &&& 0 <= at.channel < channels
    &&& 0 <= at.y < height
    &&& 0 <= at.x < width
}

/// A position in range has a place in range, which gives it back.
pub proof fn lemma_place(at: int, batch: int, channels: int, height: int, width: int)
    requires
        0 <= at < batch * channels * height * width,
        0 <= batch,
        0 <= channels,
        0 <= height,
        0 <= width,
    ensures
        within(place(at, channels, height, width), batch, channels, height, width),
        position(place(at, channels, height, width), channels, height, width) == at,
{
    assert(0 <= batch * channels) by (nonlinear_arith)
        requires
            0 <= batch,
            0 <= channels,
    ;
    assert(0 <= batch * channels * height) by (nonlinear_arith)
        requires
            0 <= batch * channels,
            0 <= height,
    ;
    lemma_unflat(at, batch * channels * height, width);
    lemma_unflat(at / width, batch * channels, height);
    lemma_unflat(at / width / height, batch, channels);
}

/// A place in range has a position in range, and is the place of that position.
pub proof fn lemma_position(at: Place, batch: int, channels: int, height: int, width: int)
    requires
        within(at, batch, channels, height, width),
    ensures
        0 <= position(at, channels, height, width) < batch * channels * height * width,
        place(position(at, channels, height, width), channels, height, width) == at,
        0 <= at.sample * channels,
        0 <= (at.sample * channels + at.channel) * height,
        0 <= ((at.sample * channels + at.channel) * height + at.y) * width,
        at.sample * channels + at.channel < batch * channels,
        (at.sample * channels + at.channel) * height + at.y < batch * channels * height,
        batch * channels <= batch * channels * height * width,
        batch * channels * height <= batch * channels * height * width,
{
    let a = at.sample * channels + at.channel;
    let b = a * height + at.y;
    lemma_flat(at.sample, batch, at.channel, channels);
    lemma_flat(a, batch * channels, at.y, height);
    lemma_flat(b, batch * channels * height, at.x, width);
    lemma_flat_inverse(at.sample, at.channel, channels);
    lemma_flat_inverse(a, at.y, height);
    lemma_flat_inverse(b, at.x, width);
}

} // verus!
