//! What is fed to the models.

use crate::data::mnist::{answered, normalized, pictured, PIXELS};
use crate::exact::Reading;
use crate::models::gemma4::{looked_up, magnified};
use crate::scalar::{counted, difference, product, quotient, ratio, rooted, Scalar};
use vstd::prelude::*;

verus! {

/// An element of a picture, times the deviation of the data set and moved by its mean, is the
/// brightness of its example's pixel, between zero and one.
pub proof fn pictures_are_standardized<T: Scalar>(
    reading: Reading<T>,
    images: Seq<u8>,
    examples: Seq<usize>,
    data: Seq<T>,
    example: int,
    pixel: int,
)
    requires
        reading.exact(),
        pictured(images, examples, data),
        0 <= example < examples.len(),
        0 <= pixel < PIXELS,
    ensures
        (reading.of(data[example * PIXELS + pixel]) * 3081 as real + 1307 as real) * 255 as real
            == images[examples[example] * PIXELS + pixel] as real * 10000 as real,
{
    let i = example * PIXELS + pixel;
    crate::index::lemma_flat(example, examples.len() as int, pixel, PIXELS as int);
    crate::index::lemma_flat_inverse(example, pixel, PIXELS as int);
    let value = images[examples[example] * PIXELS + pixel];
    assert(normalized(value, data[i]));
    let (bright, mean, deviation, centred) = choose|
        bright: T,
        mean: T,
        deviation: T,
        centred: T,
    |
        {
            &&& ratio(value as usize, 255, bright)
            &&& ratio(1307, 10000, mean)
            &&& ratio(3081, 10000, deviation)
            &&& #[trigger] difference(bright, mean, centred)
            &&& #[trigger] quotient(centred, deviation, data[i])
        };
    reading.lemma_ratio(value as usize, 255, bright);
    reading.lemma_ratio(1307, 10000, mean);
    reading.lemma_ratio(3081, 10000, deviation);
    let (b, m, d, c, x) = (
        reading.of(bright),
        reading.of(mean),
        reading.of(deviation),
        reading.of(centred),
        reading.of(data[i]),
    );
    assert(b * 255 as real == value as real);
    assert(m * 10000 as real == 1307 as real);
    assert(d * 10000 as real == 3081 as real);
    assert(d != 0 as real);
    assert(x * d == b - m);
    assert(x * 3081 as real == c * 10000 as real) by (nonlinear_arith)
        requires
            x * d == c,
            d * 10000 as real == 3081 as real,
    ;
}

/// The labels of a batch are those of its examples.
pub proof fn labels_follow_examples<T: Scalar>(
    reading: Reading<T>,
    labels: Seq<u8>,
    examples: Seq<usize>,
    data: Seq<T>,
    i: int,
)
    requires
        reading.exact(),
        answered(labels, examples, data),
        0 <= i < examples.len(),
    ensures
        reading.of(data[i]) == labels[examples[i] as int] as real,
{
    assert(counted(labels[examples[i] as int] as usize, data[i]));
}

/// Tokens are embedded by their rows of a table, times the root of its width.
pub proof fn lookups_are_scaled_rows<T: Scalar>(
    reading: Reading<T>,
    table: Seq<T>,
    ids: Seq<u32>,
    width: usize,
    data: Seq<T>,
    i: int,
    h: int,
) -> (root: real)
    requires
        reading.exact(),
        looked_up(table, ids, width, data),
        0 <= i < ids.len(),
        0 <= h < width,
    ensures
        root >= 0 as real,
        root * root == width as real,
        reading.of(data[i * width + h]) == reading.of(table[ids[i] * width + h]) * root,
{
    let (element, r) = (table[ids[i] * width + h], data[i * width + h]);
    assert(magnified(element, width, r));
    let (count, scale) = choose|count: T, scale: T|
        {
            &&& counted(width, count)
            &&& #[trigger] rooted(count, scale)
            &&& #[trigger] product(element, scale, r)
        };
    reading.of(scale)
}

} // verus!
