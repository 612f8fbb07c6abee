//! What each thread of the kernels of a language model computes, element by element.

use crate::forward::dot_product;
use crate::index::{lemma_flat, lemma_unflat};
use crate::scalar::{
    cosined, counted, decoded, difference, dotted, encoded, equals, exponentiated, lemma_dotted_push, less,
    negated, one, powered, product, quotient, ratio, ratio_of, rooted, sined, sum, zero, Scalar,
};
use vstd::prelude::*;

verus! {

/// `r` is the element whose bits are the given sixteen, with sixteen zeros below.
pub open spec fn brain<T: Scalar>(upper: u16, r: T) -> bool {
    decoded((upper as nat * 0x1_0000) as u32, r)
}

/// The element whose bits are the given sixteen, with sixteen zeros below.
pub fn of_brain<T: Scalar>(upper: u16) -> (r: T)
    ensures
        brain(upper, r),
{
    assert((upper as u32) << 16 == (upper as u32) * 0x1_0000) by (bit_vector);
    T::of_bits((upper as u32) << 16)
}

/// The upper sixteen bits of a single-precision number, rounded to the nearest, and to
/// the even one of two that are as near.
pub open spec fn shortened(bits: u32) -> u16 {
    let bias = 0x7fff + bits as int / 0x1_0000 % 2;
    (((bits + bias) % 0x1_0000_0000) / 0x1_0000) as u16
}

/// Rounds the bits of a single-precision number to their upper half.
pub fn shorten(bits: u32) -> (r: u16)
    ensures
        r == shortened(bits),
{
    assert(bits >> 16 == bits / 0x1_0000) by (bit_vector);
    assert((bits >> 16) & 1 == (bits >> 16) % 2) by (bit_vector);
    let bias: u32 = 0x7fff + ((bits >> 16) & 1);
    let moved: u32 = bits.wrapping_add(bias);
    assert(moved >> 16 == moved / 0x1_0000) by (bit_vector);
    assert(moved == (bits + bias) % 0x1_0000_0000);
    (moved >> 16) as u16
}

/// The upper half is the nearest that there is, and the even one of two that are as
/// near, for all numbers that are not too close to the largest bit pattern.
pub proof fn shortening_is_nearest(bits: u32)
    requires
        bits < 0xffff_8000,
    ensures
        -0x8000 <= shortened(bits) * 0x1_0000 - bits <= 0x8000,
        shortened(bits) * 0x1_0000 - bits == 0x8000 || shortened(bits) * 0x1_0000 - bits == -0x8000
            ==> shortened(bits) % 2 == 0,
{
    let upper = bits as int / 0x1_0000;
    let lower = bits as int % 0x1_0000;
    assert(bits == upper * 0x1_0000 + lower);
    assert(upper <= 0xffff);
    let bias = 0x7fff + upper % 2;
    assert(bits + bias < 0x1_0000_0000);
    let moved = bits + bias;
    assert(shortened(bits) == moved / 0x1_0000);
    if lower + bias >= 0x1_0000 {
        assert(moved / 0x1_0000 == upper + 1);
    } else {
        assert(moved / 0x1_0000 == upper);
    }
}

/// Nothing is lost of a number whose lower half is zero.
pub proof fn shortening_keeps_upper_halves(upper: u16)
    ensures
        shortened((upper as nat * 0x1_0000) as u32) == upper,
{
    let bits = (upper as nat * 0x1_0000) as u32;
    assert(bits == upper * 0x1_0000);
    assert(bits as int / 0x1_0000 == upper);
    let bias = 0x7fff + upper as int % 2;
    assert((bits + bias) / 0x1_0000 == upper);
}

/// The elements of a row, each paired with itself.
pub open spec fn squares<T>(row: Seq<T>) -> Seq<(T, T)> {
    Seq::new(row.len(), |i: int| (row[i], row[i]))
}

/// `r` is the inverse root of the mean of squares, moved by `epsilon`.
pub open spec fn rms_scaled<T: Scalar>(row: Seq<T>, hidden: usize, epsilon: T, r: T) -> bool {
    exists|total: T, n: T, mean: T, moved: T, root: T, unit: T|
        {
            &&& dot_product(squares(row), total)
            &&& counted(hidden, n)
            &&& #[trigger] quotient(total, n, mean)
            &&& #[trigger] sum(mean, epsilon, moved)
            &&& #[trigger] rooted(moved, root)
            &&& one(unit)
            &&& #[trigger] quotient(unit, root, r)
        }
}

/// The scale of a row: the inverse root of the mean of its squares.
pub fn rms_scale<T: Scalar>(row: usize, hidden: usize, epsilon: T, input: &[T]) -> (r: T)
    requires
        (row + 1) * hidden <= input@.len() <= usize::MAX,
    ensures
        rms_scaled(
            input@.subrange(row * hidden, (row + 1) * hidden),
            hidden,
            epsilon,
            r,
        ),
{
    proof {
        assert(0 <= row * hidden && row * hidden + hidden == (row + 1) * hidden) by (nonlinear_arith);
    }
    let start: usize = row * hidden;
    let ghost values = input@.subrange(row * hidden, (row + 1) * hidden);
    let ghost pairs = squares(values);
    let first = T::of_count(0);
    let mut total = first;
    let mut offset: usize = 0;
    assert(pairs.take(0) =~= Seq::<(T, T)>::empty());
    while offset < hidden
        invariant
            offset <= hidden,
            start == row * hidden,
            start + hidden <= input@.len() <= usize::MAX,
            start + hidden == (row + 1) * hidden,
            values == input@.subrange(row * hidden, (row + 1) * hidden),
            pairs == squares(values),
            dotted(first, pairs.take(offset as int), total),
        decreases hidden - offset,
    {
        let x = input[start + offset];
        let square = x.times(x);
        let next = total.plus(square);
        proof {
            assert(values[offset as int] == x);
            lemma_dotted_push(first, pairs.take(offset as int), total, x, x, square, next);
            assert(pairs.take(offset + 1) =~= pairs.take(offset as int).push((x, x)));
        }
        total = next;
        offset = offset + 1;
    }
    assert(pairs.take(hidden as int) =~= pairs);
    let n = T::of_count(hidden);
    let mean = total.over(n);
    let moved = mean.plus(epsilon);
    let root = moved.root();
    let unit = T::of_count(1);
    let r = unit.over(root);
    assert(zero(first) && counted(hidden, n) && one(unit));
    assert(dot_product(pairs, total));
    assert(quotient(total, n, mean) && sum(mean, epsilon, moved) && rooted(moved, root)
        && quotient(unit, root, r));
    r
}

/// `r` is an element scaled, and scaled again by a weight.
pub open spec fn weighted_by<T: Scalar>(value: T, scale: T, weight: u16, r: T) -> bool {
    exists|scaled: T, factor: T|
        {
            &&& product(value, scale, scaled)
            &&& brain(weight, factor)
            &&& #[trigger] product(scaled, factor, r)
        }
}

/// One element of a row normalized by the root of its mean square.
pub fn rms_norm<T: Scalar>(
    row: usize,
    column: usize,
    hidden: usize,
    scale: T,
    input: &[T],
    weight: &[u16],
) -> (r: T)
    requires
        column < hidden,
        hidden <= weight@.len(),
        (row + 1) * hidden <= input@.len() <= usize::MAX,
    ensures
        weighted_by(input@[row * hidden + column], scale, weight@[column as int], r),
{
    proof {
        assert(0 <= row * hidden && row * hidden + hidden == (row + 1) * hidden) by (nonlinear_arith);
    }
    let factor = of_brain(weight[column]);
    let scaled = input[row * hidden + column].times(scale);
    let r = scaled.times(factor);
    assert(product(scaled, factor, r));
    r
}

/// The same, rounded to sixteen bits.
pub fn rms_norm_bf16<T: Scalar>(
    row: usize,
    column: usize,
    hidden: usize,
    scale: T,
    input: &[T],
    weight: &[u16],
) -> (r: u16)
    requires
        column < hidden,
        hidden <= weight@.len(),
        (row + 1) * hidden <= input@.len() <= usize::MAX,
    ensures
        exists|value: T, bits: u32|
            {
                &&& weighted_by(input@[row * hidden + column], scale, weight@[column as int], value)
                &&& #[trigger] encoded(value, bits)
                &&& r == shortened(bits)
            },
{
    let value = rms_norm(row, column, hidden, scale, input, weight);
    let bits: u32 = value.bits();
    assert(encoded(value, bits));
    shorten(bits)
}

/// One element of a row normalized without weights.
pub fn rms_norm_unit<T: Scalar>(
    row: usize,
    column: usize,
    hidden: usize,
    scale: T,
    input: &[T],
) -> (r: T)
    requires
        column < hidden,
        (row + 1) * hidden <= input@.len() <= usize::MAX,
    ensures
        product(input@[row * hidden + column], scale, r),
{
    proof {
        assert(0 <= row * hidden && row * hidden + hidden == (row + 1) * hidden) by (nonlinear_arith);
    }
    input[row * hidden + column].times(scale)
}

/// `r` is an element times one that has sixteen bits.
pub open spec fn times_brain<T: Scalar>(value: T, factor: u16, r: T) -> bool {
    exists|other: T| brain(factor, other) && #[trigger] product(value, other, r)
}

/// One element times a scalar.
pub fn mul_bf16_scalar<T: Scalar>(raw: usize, input: &[T], scalar: &[u16]) -> (r: T)
    requires
        raw < input@.len(),
        scalar@.len() > 0,
    ensures
        times_brain(input@[raw as int], scalar@[0], r),
{
    let other = of_brain(scalar[0]);
    let r = input[raw].times(other);
    assert(brain(scalar@[0], other) && product(input@[raw as int], other, r));
    r
}

/// `r` is an element of sixteen bits, scaled.
pub open spec fn brain_scaled<T: Scalar>(value: u16, scale: T, r: T) -> bool {
    exists|wide: T| brain(value, wide) && #[trigger] product(wide, scale, r)
}

/// One element of sixteen bits, from an offset on, scaled.
pub fn bf16_to_f32_scaled<T: Scalar>(raw: usize, offset: usize, scale: T, input: &[u16]) -> (r: T)
    requires
        offset + raw < input@.len() <= usize::MAX,
    ensures
        brain_scaled(input@[offset + raw], scale, r),
{
    let wide: T = of_brain(input[offset + raw]);
    let r = wide.times(scale);
    assert(brain(input@[offset + raw], wide) && product(wide, scale, r));
    r
}

/// One element of the row that the decoder's state names, scaled.
pub fn bf16_row_scaled_state<T: Scalar>(
    raw: usize,
    width: usize,
    scale: T,
    state: &[usize],
    input: &[u16],
) -> (r: T)
    requires
        state@.len() == 2,
        state@[0] * width + raw < input@.len() <= usize::MAX,
    ensures
        brain_scaled(input@[state@[0] * width + raw], scale, r),
{
    proof {
        assert(0 <= state@[0] * width) by (nonlinear_arith);
    }
    bf16_to_f32_scaled(raw, state[0] * width, scale, input)
}

/// One element of the rows of a table that tokens name, scaled.
pub fn embedding_rows_bf16<T: Scalar>(
    raw: usize,
    hidden: usize,
    scale: T,
    tokens: &[u32],
    table: &[u16],
) -> (r: T)
    requires
        raw < tokens@.len() * hidden,
        (tokens@[raw as int / hidden as int] + 1) * hidden <= table@.len() <= usize::MAX,
    ensures
        brain_scaled(
            table@[tokens@[raw as int / hidden as int] * hidden + raw as int % hidden as int],
            scale,
            r,
        ),
{
    proof {
        lemma_unflat(raw as int, tokens@.len() as int, hidden as int);
    }
    let token: u32 = tokens[raw / hidden];
    proof {
        assert(0 <= token * hidden && token * hidden + hidden == (token + 1) * hidden)
            by (nonlinear_arith);
    }
    let start: usize = token as usize * hidden;
    bf16_to_f32_scaled(raw % hidden, start, scale, table)
}

/// One element rounded to sixteen bits.
pub fn f32_to_bf16<T: Scalar>(raw: usize, input: &[T]) -> (r: u16)
    requires
        raw < input@.len(),
    ensures
        exists|bits: u32| #[trigger] encoded(input@[raw as int], bits) && r == shortened(bits),
{
    let bits: u32 = input[raw].bits();
    assert(encoded(input@[raw as int], bits));
    shorten(bits)
}

/// Where a copied element comes to stand, and the element.
pub fn copy_bf16(raw: usize, offset: usize, input: &[u16]) -> (r: Option<(usize, u16)>)
    requires
        offset + input@.len() <= usize::MAX,
    ensures
        r == (if raw < input@.len() {
            Some(((offset + raw) as usize, input@[raw as int]))
        } else {
            None
        }),
{
    if raw < input.len() {
        Some((offset + raw, input[raw]))
    } else {
        None
    }
}

/// One element scaled.
pub fn scale_f32<T: Scalar>(raw: usize, scale: T, input: &[T]) -> (r: T)
    requires
        raw < input@.len(),
    ensures
        product(input@[raw as int], scale, r),
{
    input[raw].times(scale)
}

/// One element, from an offset on.
pub fn slice_f32<T: Scalar>(raw: usize, offset: usize, input: &[T]) -> (r: T)
    requires
        offset + raw < input@.len() <= usize::MAX,
    ensures
        r == input@[offset + raw],
{
    input[offset + raw]
}

/// One element of a range of the columns of a matrix.
pub fn slice_rows_f32<T: Scalar>(
    raw: usize,
    rows: usize,
    input_width: usize,
    output_width: usize,
    column_offset: usize,
    input: &[T],
) -> (r: T)
    requires
        raw < rows * output_width,
        column_offset + output_width <= input_width,
        input@.len() == rows * input_width,
        input@.len() <= usize::MAX,
    ensures
        r == input@[raw as int / output_width as int * input_width + column_offset + raw as int
            % output_width as int],
{
    proof {
        lemma_unflat(raw as int, rows as int, output_width as int);
    }
    let row: usize = raw / output_width;
    let column: usize = raw % output_width;
    proof {
        lemma_flat(row as int, rows as int, column_offset + column, input_width as int);
    }
    input[row * input_width + column_offset + column]
}

/// `r` answers whether `a` is at least `b`.
pub open spec fn at_least<T: Scalar>(a: T, b: T, r: bool) -> bool {
    exists|above: bool, level: bool|
        {
            &&& #[trigger] less(b, a, above)
            &&& if above {
                r
            } else {
                #[trigger] equals(a, b, level) && r == level
            }
        }
}

/// Whether `a` is at least `b`.
pub fn is_at_least<T: Scalar>(a: T, b: T) -> (r: bool)
    ensures
        at_least(a, b, r),
{
    let above = b.below(a);
    let level = a.same(b);
    assert(less(b, a, above) && equals(a, b, level));
    above || level
}

/// `r` is the hyperbolic tangent of `inner`, by exponentials that do not grow.
pub open spec fn bounded_tangent<T: Scalar>(inner: T, r: T) -> bool {
    exists|nothing: T, positive: bool|
        {
            &&& zero(nothing)
            &&& #[trigger] at_least(inner, nothing, positive)
            &&& if positive {
                falling_tangent(inner, r)
            } else {
                rising_tangent(inner, r)
            }
        }
}

/// The hyperbolic tangent, by the exponential of twice the negative.
pub open spec fn falling_tangent<T: Scalar>(inner: T, r: T) -> bool {
    exists|two: T, unit: T, minus: T, twice: T, e: T, above: T, below: T|
        {
            &&& #[trigger] negated(two, minus)
            &&& counted(2, two)
            &&& one(unit)
            &&& #[trigger] product(minus, inner, twice)
            &&& #[trigger] exponentiated(twice, e)
            &&& #[trigger] difference(unit, e, above)
            &&& #[trigger] sum(unit, e, below)
            &&& quotient(above, below, r)
        }
}

/// The hyperbolic tangent, by the exponential of twice the number.
pub open spec fn rising_tangent<T: Scalar>(inner: T, r: T) -> bool {
    exists|two: T, unit: T, twice: T, e: T, above: T, below: T|
        {
            &&& counted(2, two)
            &&& one(unit)
            &&& #[trigger] product(two, inner, twice)
            &&& #[trigger] exponentiated(twice, e)
            &&& #[trigger] difference(e, unit, above)
            &&& #[trigger] sum(e, unit, below)
            &&& quotient(above, below, r)
        }
}

/// The hyperbolic tangent, by exponentials that do not grow.
fn tangent<T: Scalar>(inner: T) -> (r: T)
    ensures
        bounded_tangent(inner, r),
{
    let nothing = T::of_count(0);
    let positive = is_at_least(inner, nothing);
    assert(zero(nothing) && at_least(inner, nothing, positive));
    let two = T::of_count(2);
    let unit = T::of_count(1);
    assert(counted(2, two) && one(unit));
    if positive {
        let minus = two.opposite();
        let twice = minus.times(inner);
        let e = twice.exponential();
        let above = unit.minus(e);
        let below = unit.plus(e);
        let r = above.over(below);
        assert(negated(two, minus) && product(minus, inner, twice) && exponentiated(twice, e)
            && difference(unit, e, above) && sum(unit, e, below) && quotient(above, below, r));
        assert(falling_tangent(inner, r));
        r
    } else {
        let twice = two.times(inner);
        let e = twice.exponential();
        let above = e.minus(unit);
        let below = e.plus(unit);
        let r = above.over(below);
        assert(product(two, inner, twice) && exponentiated(twice, e) && difference(e, unit, above)
            && sum(e, unit, below) && quotient(above, below, r));
        assert(rising_tangent(inner, r));
        r
    }
}

/// The bits of the root of two over pi.
pub const ROOT_TWO_OVER_PI: u32 = 0x3f4c_422a;

/// The bits of the cubic coefficient.
pub const CUBIC: u32 = 0x3d37_2713;

/// `r` is `x` moved by its cube.
pub open spec fn cubed<T: Scalar>(x: T, r: T) -> bool {
    exists|c: T, once: T, twice: T, thrice: T|
        {
            &&& decoded(CUBIC, c)
            &&& #[trigger] product(c, x, once)
            &&& #[trigger] product(once, x, twice)
            &&& #[trigger] product(twice, x, thrice)
            &&& sum(x, thrice, r)
        }
}

/// `r` is the Gaussian error linear unit of `x`, by its tangent form.
pub open spec fn gelu<T: Scalar>(x: T, r: T) -> bool {
    exists|moved: T, c: T, inner: T, bend: T, unit: T, gate: T, half: T, part: T|
        {
            &&& cubed(x, moved)
            &&& decoded(ROOT_TWO_OVER_PI, c)
            &&& #[trigger] product(c, moved, inner)
            &&& #[trigger] bounded_tangent(inner, bend)
            &&& one(unit)
            &&& #[trigger] sum(unit, bend, gate)
            &&& ratio(1, 2, half)
            &&& #[trigger] product(half, x, part)
            &&& product(part, gate, r)
        }
}

/// One element through the Gaussian error linear unit.
pub fn gelu_f32<T: Scalar>(raw: usize, input: &[T]) -> (r: T)
    requires
        raw < input@.len(),
    ensures
        gelu(input@[raw as int], r),
{
    let x = input[raw];
    let c = T::of_bits(CUBIC);
    let once = c.times(x);
    let twice = once.times(x);
    let thrice = twice.times(x);
    let moved = x.plus(thrice);
    assert(decoded(CUBIC, c) && product(c, x, once) && product(once, x, twice) && product(
        twice,
        x,
        thrice,
    ) && sum(x, thrice, moved));
    let c = T::of_bits(ROOT_TWO_OVER_PI);
    let inner = c.times(moved);
    let bend = tangent(inner);
    let unit = T::of_count(1);
    let gate = unit.plus(bend);
    let half: T = ratio_of(1, 2);
    let part = half.times(x);
    let r = part.times(gate);
    assert(cubed(x, moved) && decoded(ROOT_TWO_OVER_PI, c) && product(c, moved, inner)
        && bounded_tangent(inner, bend) && one(unit) && sum(unit, bend, gate) && product(
        half,
        x,
        part,
    ) && product(part, gate, r));
    r
}

/// One element through the Gaussian error linear unit, times another.
pub fn gelu_mul_f32<T: Scalar>(raw: usize, gate: &[T], up: &[T]) -> (r: T)
    requires
        raw < gate@.len(),
        raw < up@.len(),
    ensures
        exists|bent: T| gelu(gate@[raw as int], bent) && #[trigger] product(bent, up@[raw as int], r),
{
    let bent = gelu_f32(raw, gate);
    let r = bent.times(up[raw]);
    assert(gelu(gate@[raw as int], bent) && product(bent, up@[raw as int], r));
    r
}

/// Where a thread writes an element of a row into a ring of rows.
pub open spec fn ring_place(position: int, capacity: int, width: int, raw: int) -> int {
    position % capacity * width + raw
}

/// Where a thread writes into a cache, and what.
pub fn cache_write_f32<T: Scalar>(raw: usize, offset: usize, input: &[T]) -> (r: Option<(usize, T)>)
    requires
        offset + input@.len() <= usize::MAX,
    ensures
        r == (if raw < input@.len() {
            Some(((offset + raw) as usize, input@[raw as int]))
        } else {
            None
        }),
{
    if raw < input.len() {
        Some((offset + raw, input[raw]))
    } else {
        None
    }
}

/// Where a thread writes into a ring cache at the position of the decoder's state, and
/// what.
pub fn cache_write_f32_state<T: Scalar>(
    raw: usize,
    width: usize,
    capacity: usize,
    state: &[usize],
    input: &[T],
) -> (r: Option<(usize, T)>)
    requires
        state@.len() == 2,
        capacity > 0,
        capacity * width <= usize::MAX,
        input@.len() == width,
    ensures
        match r {
            Some((at, value)) => {
                &&& raw < width
                &&& at == ring_place(state@[1] as int, capacity as int, width as int, raw as int)
                &&& at < capacity * width
                &&& value == input@[raw as int]
            },
            None => raw >= width,
        },
{
    if raw < width {
        let slot: usize = state[1] % capacity;
        proof {
            lemma_flat(slot as int, capacity as int, raw as int, width as int);
        }
        Some((slot * width + raw, input[raw]))
    } else {
        None
    }
}

/// Sets the token and the position of the decoder's state.
pub fn decode_state_set(raw: usize, token: usize, position: usize, state: &mut [usize; 2])
    ensures
        final(state)@ == (if raw == 0 {
            seq![token, position]
        } else {
            old(state)@
        }),
{
    if raw == 0 {
        *state = [token, position];
        assert(state@ =~= seq![token, position]);
    }
}

/// Sets the token and the position of the decoder's state, and marks the token where that
/// is asked.
pub fn decode_state_update(
    raw: usize,
    token: usize,
    position: usize,
    mark: bool,
    state: &mut [usize; 2],
    seen: &mut Vec<u8>,
)
    requires
        token < old(seen)@.len(),
    ensures
        final(state)@ == (if raw == 0 {
            seq![token, position]
        } else {
            old(state)@
        }),
        final(seen)@ == (if raw == 0 && mark {
            old(seen)@.update(token as int, 1u8)
        } else {
            old(seen)@
        }),
{
    decode_state_set(raw, token, position, state);
    if raw == 0 && mark {
        seen.set(token, 1);
    }
}

/// Marks a token as seen, where it is one.
pub fn mark_seen(raw: usize, token: usize, seen: &mut Vec<u8>)
    ensures
        final(seen)@ == (if raw == 0 && token < old(seen)@.len() {
            old(seen)@.update(token as int, 1u8)
        } else {
            old(seen)@
        }),
{
    if raw == 0 && token < seen.len() {
        seen.set(token, 1);
    }
}

/// The sizes of a rotation: of the heads, and of the part of each that is rotated.
#[derive(Clone, Copy, Debug, PartialEq, Eq, Structural)]
pub struct Rotation {
    pub heads: usize,
    pub head_dim: usize,
    pub rotary_dim: usize,
}

/// The angle by which a pair of dimensions is turned at a position.
pub open spec fn turned<T: Scalar>(
    rotation: Rotation,
    theta: T,
    factor: T,
    position: usize,
    frequency: int,
    r: T,
) -> bool {
    exists|top: T, minus: T, size: T, exponent: T, base: T, rate: T, at: T|
        {
            &&& counted((2 * frequency) as usize, top)
            &&& #[trigger] negated(top, minus)
            &&& counted(rotation.head_dim, size)
            &&& #[trigger] quotient(minus, size, exponent)
            &&& #[trigger] powered(theta, exponent, base)
            &&& #[trigger] quotient(base, factor, rate)
            &&& counted(position, at)
            &&& #[trigger] product(at, rate, r)
        }
}

/// `r` is an element turned towards its partner by an angle.
pub open spec fn turned_by<T: Scalar>(value: T, partner: T, angle: T, r: T) -> bool {
    exists|cosine: T, kept: T, sine: T, added: T|
        {
            &&& #[trigger] cosined(angle, cosine)
            &&& #[trigger] product(value, cosine, kept)
            &&& #[trigger] sined(angle, sine)
            &&& #[trigger] product(partner, sine, added)
            &&& sum(kept, added, r)
        }
}

/// `r` is one element of heads rotated by their positions, the first of which is `first`.
pub open spec fn rotated<T: Scalar>(
    rotation: Rotation,
    theta: T,
    factor: T,
    first: usize,
    input: Seq<T>,
    raw: int,
    r: T,
) -> bool {
    let size = rotation.head_dim as int;
    let dimension = raw % size;
    let half = size / 2;
    let frequency = dimension % half;
    if frequency >= rotation.rotary_dim as int / 2 {
        r == input[raw]
    } else {
        let position = (first + raw / (rotation.heads * size)) as usize;
        exists|angle: T, partner: T|
            {
                &&& #[trigger] turned(rotation, theta, factor, position, frequency, angle)
                &&& if dimension < half {
                    negated(input[raw + half], partner)
                } else {
                    partner == input[raw - half]
                }
                &&& #[trigger] turned_by(input[raw], partner, angle, r)
            }
    }
}

/// One element of heads rotated by their positions.
pub fn rope<T: Scalar>(
    raw: usize,
    rotation: Rotation,
    first: usize,
    theta: T,
    factor: T,
    input: &[T],
) -> (r: T)
    requires
        raw < input@.len() <= usize::MAX,
        rotation.heads > 0,
        rotation.head_dim >= 2,
        rotation.head_dim % 2 == 0,
        rotation.heads * rotation.head_dim <= usize::MAX,
        input@.len() % (rotation.head_dim as nat) == 0,
        first + raw as int / (rotation.heads * rotation.head_dim) <= usize::MAX,
    ensures
        rotated(rotation, theta, factor, first, input@, raw as int, r),
{
    let size: usize = rotation.head_dim;
    let dimension: usize = raw % size;
    let half: usize = size / 2;
    let frequency: usize = dimension % half;
    proof {
        assert(0 < rotation.heads * rotation.head_dim) by (nonlinear_arith)
            requires
                rotation.heads > 0,
                rotation.head_dim > 0,
        ;
        vstd::arithmetic::div_mod::lemma_mod_decreases(raw as nat, size as nat);
    }
    if frequency >= rotation.rotary_dim / 2 {
        return input[raw];
    }
    let token: usize = raw / (rotation.heads * size);
    let top = T::of_count(2 * frequency);
    let minus = top.opposite();
    let width = T::of_count(size);
    let exponent = minus.over(width);
    let base = theta.raised_to(exponent);
    let rate = base.over(factor);
    let at = T::of_count(first + token);
    let angle = at.times(rate);
    assert(negated(top, minus) && quotient(minus, width, exponent) && powered(theta, exponent, base)
        && quotient(base, factor, rate) && product(at, rate, angle));
    assert(turned(
        rotation,
        theta,
        factor,
        (first + token) as usize,
        frequency as int,
        angle,
    ));
    let partner = if dimension < half {
        proof {
            lemma_pair_inside(raw as int, size as int, input@.len() as int);
        }
        input[raw + half].opposite()
    } else {
        input[raw - half]
    };
    let cosine = angle.cosine();
    let kept = input[raw].times(cosine);
    let sine = angle.sine();
    let added = partner.times(sine);
    let r = kept.plus(added);
    assert(cosined(angle, cosine) && product(input@[raw as int], cosine, kept) && sined(angle, sine)
        && product(partner, sine, added) && sum(kept, added, r));
    assert(turned_by(input@[raw as int], partner, angle, r));
    r
}

/// The head of an element is whole.
proof fn lemma_pair_inside(raw: int, size: int, len: int)
    requires
        0 <= raw < len,
        size > 0,
        len % size == 0,
        raw % size < size / 2,
    ensures
        raw + size / 2 < len,
{
    let q = raw / size;
    let n = len / size;
    vstd::arithmetic::div_mod::lemma_fundamental_div_mod(raw, size);
    vstd::arithmetic::div_mod::lemma_fundamental_div_mod(len, size);
    assert(q < n) by (nonlinear_arith)
        requires
            size * q + raw % size < size * n,
            0 <= raw % size,
            size > 0,
    ;
    assert(size * q + size <= size * n) by (nonlinear_arith)
        requires
            q < n,
            size > 0,
    ;
}

/// One element of heads rotated by their positions, the first of which is that of the
/// decoder's state.
pub fn rope_state<T: Scalar>(
    raw: usize,
    rotation: Rotation,
    theta: T,
    factor: T,
    state: &[usize],
    input: &[T],
) -> (r: T)
    requires
        state@.len() == 2,
        raw < input@.len() <= usize::MAX,
        rotation.heads > 0,
        rotation.head_dim >= 2,
        rotation.head_dim % 2 == 0,
        rotation.heads * rotation.head_dim <= usize::MAX,
        input@.len() % (rotation.head_dim as nat) == 0,
        state@[1] + raw as int / (rotation.heads * rotation.head_dim) <= usize::MAX,
    ensures
        rotated(rotation, theta, factor, state@[1], input@, raw as int, r),
{
    rope(raw, rotation, state[1], theta, factor, input)
}

} // verus!
