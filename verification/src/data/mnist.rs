//! The MNIST digits, from their uncompressed IDX files.

use crate::error::{Error, Failure, Result};
use crate::graph::{Device, Graph, Op};
use crate::random::{draw, drawn};
use crate::scalar::{counted, difference, quotient, ratio, ratio_of, Scalar};
use crate::shape::{lemma_no_overflow, lemma_numel_1, lemma_numel_4};
use crate::tensor::{lemma_extends, Tensor};
use crate::text::{decimal, owned, push_decimal};
use vstd::prelude::*;
use vstd::seq_lib::*;

verus! {

/// The rows of an image.
pub const ROWS: usize = 28;

/// The columns of an image.
pub const COLUMNS: usize = 28;

/// The number that image files start with.
pub const IMAGE_MAGIC: u32 = 2051;

/// The number that label files start with.
pub const LABEL_MAGIC: u32 = 2049;

/// The bytes of an image.
pub const PIXELS: usize = 784;

/// The big-endian number at an offset.
pub open spec fn number_at(bytes: Seq<u8>, offset: int) -> nat {
    (bytes[offset] * 0x1000000 + bytes[offset + 1] * 0x10000 + bytes[offset + 2] * 0x100
        + bytes[offset + 3]) as nat
}

/// A number as four bytes, the highest first.
pub open spec fn number_bytes(n: nat) -> Seq<u8> {
    seq![
        (n / 0x1000000 % 0x100) as u8,
        (n / 0x10000 % 0x100) as u8,
        (n / 0x100 % 0x100) as u8,
        (n % 0x100) as u8,
    ]
}

/// A number that fits into four bytes is read back from them.
proof fn lemma_number(bytes: Seq<u8>, offset: int, n: nat)
    requires
        0 <= offset,
        offset + 4 <= bytes.len(),
        bytes.subrange(offset, offset + 4) == number_bytes(n),
        n < 0x1_0000_0000,
    ensures
        number_at(bytes, offset) == n,
{
    let four = bytes.subrange(offset, offset + 4);
    assert(four[0] == bytes[offset]);
    assert(four[1] == bytes[offset + 1]);
    assert(four[2] == bytes[offset + 2]);
    assert(four[3] == bytes[offset + 3]);
}

/// The big-endian number at an offset.
pub fn be_u32(bytes: &Vec<u8>, offset: usize) -> (r: Result<u32>)
    ensures
        match r {
            Ok(n) => offset + 4 <= bytes@.len() && n == number_at(bytes@, offset as int),
            Err(error) => offset + 4 > bytes@.len() && error@ == Failure::Execution(
                "truncated MNIST IDX header"@,
            ),
        },
{
    if bytes.len() < 4 || bytes.len() - 4 < offset {
        return Err(Error::execution("truncated MNIST IDX header"));
    }
    Ok(
        bytes[offset] as u32 * 0x1000000 + bytes[offset + 1] as u32 * 0x10000 + bytes[offset
            + 2] as u32 * 0x100 + bytes[offset + 3] as u32,
    )
}

/// The outcome of reading an image file: its pixels and the number of its images.
pub open spec fn images_of(bytes: Seq<u8>) -> std::result::Result<(Seq<u8>, nat), Failure> {
    let count = number_at(bytes, 4);
    let rows = number_at(bytes, 8);
    let columns = number_at(bytes, 12);
    if bytes.len() < 16 || number_at(bytes, 0) != IMAGE_MAGIC {
        Err(Failure::Execution("invalid MNIST image IDX header"@))
    } else if rows != ROWS || columns != COLUMNS {
        Err(
            Failure::Execution(
                "expected 28x28 MNIST images, got "@ + decimal(rows) + "x"@ + decimal(columns),
            ),
        )
    } else if count * PIXELS > usize::MAX {
        Err(Failure::Execution("MNIST image payload overflow"@))
    } else if bytes.len() != 16 + count * PIXELS {
        Err(Failure::Execution("invalid MNIST image payload length"@))
    } else {
        Ok((bytes.skip(16), count))
    }
}

/// The outcome of reading a label file.
pub open spec fn labels_of(bytes: Seq<u8>) -> std::result::Result<Seq<u8>, Failure> {
    if bytes.len() < 8 || number_at(bytes, 0) != LABEL_MAGIC {
        Err(Failure::Execution("invalid MNIST label IDX header"@))
    } else if bytes.len() != 8 + number_at(bytes, 4) || !digits(bytes.skip(8)) {
        Err(Failure::Execution("invalid MNIST label payload"@))
    } else {
        Ok(bytes.skip(8))
    }
}

/// Every label is a digit.
pub open spec fn digits(labels: Seq<u8>) -> bool {
    forall|i: int| 0 <= i < labels.len() ==> #[trigger] labels[i] <= 9
}

/// The image file of some pixels.
pub open spec fn image_file(pixels: Seq<u8>, count: nat) -> Seq<u8> {
    number_bytes(IMAGE_MAGIC as nat) + number_bytes(count) + number_bytes(ROWS as nat)
        + number_bytes(COLUMNS as nat) + pixels
}

/// The label file of some labels.
pub open spec fn label_file(labels: Seq<u8>) -> Seq<u8> {
    number_bytes(LABEL_MAGIC as nat) + number_bytes(labels.len()) + labels
}

/// Reading an image file gives back the pixels that it was made of.
pub proof fn image_file_reads_back(pixels: Seq<u8>, count: nat)
    requires
        pixels.len() == count * PIXELS,
        count < 0x1_0000_0000,
        pixels.len() <= usize::MAX,
    ensures
        images_of(image_file(pixels, count)) == std::result::Result::<
            (Seq<u8>, nat),
            Failure,
        >::Ok((pixels, count)),
{
    let file = image_file(pixels, count);
    assert(file.subrange(0, 4) =~= number_bytes(IMAGE_MAGIC as nat));
    assert(file.subrange(4, 8) =~= number_bytes(count));
    assert(file.subrange(8, 12) =~= number_bytes(ROWS as nat));
    assert(file.subrange(12, 16) =~= number_bytes(COLUMNS as nat));
    lemma_number(file, 0, IMAGE_MAGIC as nat);
    lemma_number(file, 4, count);
    lemma_number(file, 8, ROWS as nat);
    lemma_number(file, 12, COLUMNS as nat);
    assert(file.skip(16) =~= pixels);
}

/// Reading a label file gives back the labels that it was made of.
pub proof fn label_file_reads_back(labels: Seq<u8>)
    requires
        digits(labels),
        labels.len() < 0x1_0000_0000,
    ensures
        labels_of(label_file(labels)) == std::result::Result::<Seq<u8>, Failure>::Ok(labels),
{
    let file = label_file(labels);
    assert(file.subrange(0, 4) =~= number_bytes(LABEL_MAGIC as nat));
    assert(file.subrange(4, 8) =~= number_bytes(labels.len()));
    lemma_number(file, 0, LABEL_MAGIC as nat);
    lemma_number(file, 4, labels.len());
    assert(file.skip(8) =~= labels);
}

/// The bytes from an offset on.
fn tail(bytes: &Vec<u8>, offset: usize) -> (r: Vec<u8>)
    requires
        offset <= bytes.len(),
    ensures
        r@ == bytes@.skip(offset as int),
{
    let mut r: Vec<u8> = Vec::with_capacity(bytes.len() - offset);
    let mut i: usize = offset;
    while i < bytes.len()
        invariant
            offset <= i <= bytes.len(),
            r@ == bytes@.subrange(offset as int, i as int),
        decreases bytes.len() - i,
    {
        r.push(bytes[i]);
        assert(bytes@.subrange(offset as int, i + 1) =~= bytes@.subrange(
            offset as int,
            i as int,
        ).push(bytes@[i as int]));
        i = i + 1;
    }
    assert(bytes@.subrange(offset as int, i as int) =~= bytes@.skip(offset as int));
    r
}

/// Reads an image file.
pub fn parse_images(bytes: &Vec<u8>) -> (r: Result<(Vec<u8>, usize)>)
    ensures
        match r {
            Ok((pixels, count)) => images_of(bytes@) == std::result::Result::<
                (Seq<u8>, nat),
                Failure,
            >::Ok((pixels@, count as nat)),
            Err(error) => images_of(bytes@) == std::result::Result::<
                (Seq<u8>, nat),
                Failure,
            >::Err(error@),
        },
{
    if bytes.len() < 16 {
        return Err(Error::execution("invalid MNIST image IDX header"));
    }
    let magic: u32 = be_u32(bytes, 0)?;
    if magic != IMAGE_MAGIC {
        return Err(Error::execution("invalid MNIST image IDX header"));
    }
    let count: usize = be_u32(bytes, 4)? as usize;
    let rows: usize = be_u32(bytes, 8)? as usize;
    let columns: usize = be_u32(bytes, 12)? as usize;
    if rows != ROWS || columns != COLUMNS {
        let mut message = owned("expected 28x28 MNIST images, got ");
        push_decimal(&mut message, rows);
        message.append("x");
        push_decimal(&mut message, columns);
        return Err(Error::Execution(message));
    }
    let payload: usize = match count.checked_mul(PIXELS) {
        Some(payload) => payload,
        None => {
            return Err(Error::execution("MNIST image payload overflow"));
        },
    };
    if bytes.len() - 16 != payload {
        return Err(Error::execution("invalid MNIST image payload length"));
    }
    Ok((tail(bytes, 16), count))
}

/// Reads a label file.
pub fn parse_labels(bytes: &Vec<u8>) -> (r: Result<Vec<u8>>)
    ensures
        match r {
            Ok(labels) => labels_of(bytes@) == std::result::Result::<Seq<u8>, Failure>::Ok(
                labels@,
            ),
            Err(error) => labels_of(bytes@) == std::result::Result::<Seq<u8>, Failure>::Err(
                error@,
            ),
        },
{
    if bytes.len() < 8 {
        return Err(Error::execution("invalid MNIST label IDX header"));
    }
    let magic: u32 = be_u32(bytes, 0)?;
    if magic != LABEL_MAGIC {
        return Err(Error::execution("invalid MNIST label IDX header"));
    }
    let count: usize = be_u32(bytes, 4)? as usize;
    if bytes.len() - 8 != count {
        return Err(Error::execution("invalid MNIST label payload"));
    }
    let mut i: usize = 8;
    while i < bytes.len()
        invariant
            8 <= i <= bytes.len(),
            bytes@.len() >= 8,
            number_at(bytes@, 0) == LABEL_MAGIC,
            bytes@.len() == 8 + number_at(bytes@, 4),
            forall|j: int| 8 <= j < i ==> #[trigger] bytes@[j] <= 9,
        decreases bytes.len() - i,
    {
        if bytes[i] > 9 {
            assert(bytes@.skip(8)[i - 8] > 9);
            return Err(Error::execution("invalid MNIST label payload"));
        }
        i = i + 1;
    }
    Ok(tail(bytes, 8))
}

/// The order that shuffling gives: from the last place down, each value is swapped with
/// one at a drawn place up to its own.
pub open spec fn shuffled(values: Seq<usize>, state: u64, index: int) -> Seq<usize>
    decreases index,
{
    if index < 1 {
        values
    } else {
        let next = drawn(state);
        let with = next as int % (index + 1);
        shuffled(
            values.update(index, values[with]).update(with, values[index]),
            next,
            index - 1,
        )
    }
}

/// The state that every shuffle starts from.
pub const SHUFFLE_SEED: u64 = 0xD1B5_4A32_D192_ED03;

/// Shuffles values in the same way every time.
pub fn deterministic_shuffle(values: &mut Vec<usize>)
    ensures
        final(values)@ == shuffled(old(values)@, SHUFFLE_SEED, old(values)@.len() - 1),
        final(values)@.len() == old(values)@.len(),
{
    let ghost all = values@;
    let mut state: u64 = SHUFFLE_SEED;
    let mut index: usize = values.len();
    while index > 1
        invariant
            index <= values.len(),
            values@.len() == all.len(),
            all == old(values)@,
            shuffled(values@, state, index - 1) == shuffled(all, SHUFFLE_SEED, all.len() - 1),
        decreases index,
    {
        index = index - 1;
        state = draw(state);
        let with: usize = (state % (index as u64 + 1)) as usize;
        assert(with == state as int % (index + 1));
        let a: usize = values[index];
        let b: usize = values[with];
        values.set(index, b);
        values.set(with, a);
    }
}

proof fn lemma_update_multiset(values: Seq<usize>, i: int, value: usize)
    requires
        0 <= i < values.len(),
    ensures
        values.update(i, value).to_multiset() == values.to_multiset().remove(values[i]).insert(
            value,
        ),
{
    assert(values.update(i, value) =~= values.remove(i).insert(i, value));
    to_multiset_remove(values, i);
    to_multiset_insert(values.remove(i), i, value);
}

/// Shuffling reorders values: none is lost, and none is added.
pub proof fn shuffle_permutes(values: Seq<usize>, state: u64, index: int)
    requires
        index < values.len(),
    ensures
        shuffled(values, state, index).to_multiset() == values.to_multiset(),
        shuffled(values, state, index).len() == values.len(),
    decreases index,
{
    broadcast use vstd::multiset::group_multiset_axioms;

    if index >= 1 {
        let next = drawn(state);
        let with = next as int % (index + 1);
        let (a, b) = (values[index], values[with]);
        let once = values.update(index, b);
        let twice = once.update(with, a);
        lemma_update_multiset(values, index, b);
        lemma_update_multiset(once, with, a);
        to_multiset_contains(values, a);
        to_multiset_contains(values, b);
        assert(values.contains(a) && values.contains(b));
        assert(twice.to_multiset() =~= values.to_multiset());
        shuffle_permutes(twice, next, index - 1);
    }
}

/// The indices below `n` in order.
pub open spec fn ascending(n: nat) -> Seq<usize> {
    Seq::new(n, |i: int| i as usize)
}

/// The order in which the examples of an epoch are visited.
pub open spec fn visiting(n: nat, shuffle: bool) -> Seq<usize> {
    if shuffle {
        shuffled(ascending(n), SHUFFLE_SEED, n - 1)
    } else {
        ascending(n)
    }
}

/// An epoch visits every example exactly once, shuffled or not.
pub proof fn epoch_visits_every_example_once(n: nat, shuffle: bool, example: usize)
    requires
        n <= usize::MAX,
        example < n,
    ensures
        visiting(n, shuffle).len() == n,
        visiting(n, shuffle).to_multiset().count(example) == 1,
{
    let all = ascending(n);
    assert(all.no_duplicates());
    assert(all[example as int] == example);
    all.lemma_multiset_has_no_duplicates();
    to_multiset_contains(all, example);
    shuffle_permutes(all, SHUFFLE_SEED, n - 1);
}

/// An epoch visits nothing but the examples.
pub proof fn epoch_visits_only_examples(n: nat, shuffle: bool, at: int)
    requires
        n <= usize::MAX,
        0 <= at < n,
    ensures
        visiting(n, shuffle)[at] < n,
{
    let all = ascending(n);
    let order = visiting(n, shuffle);
    shuffle_permutes(all, SHUFFLE_SEED, n - 1);
    assert(order.contains(order[at]));
    to_multiset_contains(order, order[at]);
    to_multiset_contains(all, order[at]);
    assert(all.contains(order[at]));
}

/// The batches of an epoch from a position on.
pub open spec fn batched(order: Seq<usize>, position: int, size: int) -> Seq<Seq<usize>>
    decreases order.len() - position,
{
    if 0 <= position < order.len() && size > 0 {
        let end = batch_end(position, size, order.len() as int);
        seq![order.subrange(position, end)] + batched(order, end, size)
    } else {
        seq![]
    }
}

/// Where the batch that starts at a position ends.
pub open spec fn batch_end(position: int, size: int, len: int) -> int {
    if position + size < len {
        position + size
    } else {
        len
    }
}

/// The batches of an epoch are the order cut into pieces: joined, they are the order
/// again, and every one of them but the last has the batch size.
pub proof fn batches_cover_the_order(order: Seq<usize>, position: int, size: int)
    requires
        0 <= position <= order.len(),
        size > 0,
    ensures
        batched(order, position, size).flatten() == order.skip(position),
        forall|i: int|
            0 <= i < batched(order, position, size).len() - 1 ==> (#[trigger] batched(
                order,
                position,
                size,
            )[i]).len() == size,
    decreases order.len() - position,
{
    let all = batched(order, position, size);
    if position < order.len() {
        let end = batch_end(position, size, order.len() as int);
        let rest = batched(order, end, size);
        batches_cover_the_order(order, end, size);
        assert(all.drop_first() =~= rest);
        assert(all.first() == order.subrange(position, end));
        assert(all.flatten() == all.first() + rest.flatten());
        assert(all.flatten() =~= order.skip(position));
        assert forall|i: int| 0 <= i < all.len() - 1 implies (#[trigger] all[i]).len() == size by {
            if i > 0 {
                assert(all[i] == rest[i - 1]);
            } else {
                assert(rest.len() > 0);
            }
        }
    } else {
        assert(all =~= seq![]);
        assert(all.flatten() =~= order.skip(position));
    }
}

/// The four files of the data set, read.
pub struct Contents {
    pub train_images: Seq<u8>,
    pub train_labels: Seq<u8>,
    pub test_images: Seq<u8>,
    pub test_labels: Seq<u8>,
}

/// What reading a file gave.
pub open spec fn read_of(read: Result<Vec<u8>>) -> std::result::Result<Seq<u8>, Failure> {
    match read {
        Ok(bytes) => Ok(bytes@),
        Err(error) => Err(error@),
    }
}

/// The outcome of reading an image file that may not have been read.
pub open spec fn images_in(read: std::result::Result<Seq<u8>, Failure>) -> std::result::Result<
    (Seq<u8>, nat),
    Failure,
> {
    match read {
        Ok(bytes) => images_of(bytes),
        Err(failure) => Err(failure),
    }
}

/// The outcome of reading a label file that may not have been read.
pub open spec fn labels_in(read: std::result::Result<Seq<u8>, Failure>) -> std::result::Result<
    Seq<u8>,
    Failure,
> {
    match read {
        Ok(bytes) => labels_of(bytes),
        Err(failure) => Err(failure),
    }
}

/// The outcome of loading the data set: the failure of the first file that has one, or
/// of counts that differ.
pub open spec fn contents_of(
    train_images: std::result::Result<Seq<u8>, Failure>,
    train_labels: std::result::Result<Seq<u8>, Failure>,
    test_images: std::result::Result<Seq<u8>, Failure>,
    test_labels: std::result::Result<Seq<u8>, Failure>,
) -> std::result::Result<Contents, Failure> {
    match (
        images_in(train_images),
        labels_in(train_labels),
        images_in(test_images),
        labels_in(test_labels),
    ) {
        (Err(failure), _, _, _) => Err(failure),
        (_, Err(failure), _, _) => Err(failure),
        (_, _, Err(failure), _) => Err(failure),
        (_, _, _, Err(failure)) => Err(failure),
        (Ok(train), Ok(train_labels), Ok(test), Ok(test_labels)) => {
            if train.1 != train_labels.len() || test.1 != test_labels.len() {
                Err(Failure::Execution("MNIST image and label counts do not match"@))
            } else {
                Ok(
                    Contents {
                        train_images: train.0,
                        train_labels,
                        test_images: test.0,
                        test_labels,
                    },
                )
            }
        },
    }
}

/// The data set.
#[derive(Clone, Debug)]
pub struct Mnist {
    pub train_images: Vec<u8>,
    pub train_labels: Vec<u8>,
    pub test_images: Vec<u8>,
    pub test_labels: Vec<u8>,
}

impl View for Mnist {
    type V = Contents;

    open spec fn view(&self) -> Contents {
        Contents {
            train_images: self.train_images@,
            train_labels: self.train_labels@,
            test_images: self.test_images@,
            test_labels: self.test_labels@,
        }
    }
}

impl Mnist {
    /// There is an image for every label.
    pub open spec fn wf(self) -> bool {
        &&& self.train_images@.len() == self.train_labels@.len() * PIXELS
        &&& self.test_images@.len() == self.test_labels@.len() * PIXELS
    }

    /// Loads the data set from what its four files hold: `train-images-idx3-ubyte`,
    /// `train-labels-idx1-ubyte`, `t10k-images-idx3-ubyte` and `t10k-labels-idx1-ubyte`.
    pub fn load(
        train_images: Result<Vec<u8>>,
        train_labels: Result<Vec<u8>>,
        test_images: Result<Vec<u8>>,
        test_labels: Result<Vec<u8>>,
    ) -> (r: Result<Mnist>)
        ensures
            r matches Ok(mnist) ==> mnist.wf(),
            contents_of(
                read_of(train_images),
                read_of(train_labels),
                read_of(test_images),
                read_of(test_labels),
            ) == (match r {
                Ok(mnist) => std::result::Result::<Contents, Failure>::Ok(mnist@),
                Err(error) => std::result::Result::<Contents, Failure>::Err(error@),
            }),
    {
        let (train, train_count) = parse_images(&train_images?)?;
        let labels = parse_labels(&train_labels?)?;
        let (test, test_count) = parse_images(&test_images?)?;
        let answers = parse_labels(&test_labels?)?;
        if train_count != labels.len() || test_count != answers.len() {
            return Err(Error::execution("MNIST image and label counts do not match"));
        }
        Ok(
            Mnist {
                train_images: train,
                train_labels: labels,
                test_images: test,
                test_labels: answers,
            },
        )
    }

    /// Normalized training batches.
    pub fn train_batches(&self, batch_size: usize, shuffle: bool) -> (r: Result<MnistBatches<'_>>)
        requires
            self.wf(),
        ensures
            starts(self.train_images@, self.train_labels@, batch_size, shuffle, r),
    {
        MnistBatches::new(&self.train_images, &self.train_labels, batch_size, shuffle)
    }

    /// Normalized test batches in the order of the data set.
    pub fn test_batches(&self, batch_size: usize) -> (r: Result<MnistBatches<'_>>)
        requires
            self.wf(),
        ensures
            starts(self.test_images@, self.test_labels@, batch_size, false, r),
    {
        MnistBatches::new(&self.test_images, &self.test_labels, batch_size, false)
    }

    /// The number of training examples.
    #[must_use]
    pub fn train_len(&self) -> (r: usize)
        ensures
            r == self@.train_labels.len(),
    {
        self.train_labels.len()
    }

    /// The number of test examples.
    #[must_use]
    pub fn test_len(&self) -> (r: usize)
        ensures
            r == self@.test_labels.len(),
    {
        self.test_labels.len()
    }
}

/// The outcome of starting to go through examples.
pub open spec fn starts(
    images: Seq<u8>,
    labels: Seq<u8>,
    batch_size: usize,
    shuffle: bool,
    r: Result<MnistBatches<'_>>,
) -> bool {
    match r {
        Ok(batches) => {
            &&& batch_size > 0
            &&& batches.wf()
            &&& batches.images@ == images
            &&& batches.labels@ == labels
            &&& batches.indices@ == visiting(labels.len(), shuffle)
            &&& batches.position == 0
            &&& batches.batch_size == batch_size
        },
        Err(error) => batch_size == 0 && error@ == Failure::InvalidShape(
            "batch_size must be non-zero"@,
        ),
    }
}

/// A way through the examples of a data set.
pub struct MnistBatches<'a> {
    pub images: &'a Vec<u8>,
    pub labels: &'a Vec<u8>,
    pub indices: Vec<usize>,
    pub position: usize,
    pub batch_size: usize,
}

/// `r` is a pixel, normalized by the mean and the deviation of the data set.
pub open spec fn normalized<T: Scalar>(pixel: u8, r: T) -> bool {
    exists|bright: T, mean: T, deviation: T, centred: T|
        {
            &&& ratio(pixel as usize, 255, bright)
            &&& ratio(1307, 10000, mean)
            &&& ratio(3081, 10000, deviation)
            &&& #[trigger] difference(bright, mean, centred)
            &&& #[trigger] quotient(centred, deviation, r)
        }
}

/// The pixels of the examples are normalized, one example after the other.
pub open spec fn pictured<T: Scalar>(images: Seq<u8>, examples: Seq<usize>, data: Seq<T>) -> bool {
    &&& data.len() == examples.len() * PIXELS
    &&& forall|i: int|
        0 <= i < data.len() ==> normalized(
            images[examples[i / PIXELS as int] * PIXELS + i % PIXELS as int],
            #[trigger] data[i],
        )
}

/// The labels of the examples as elements.
pub open spec fn answered<T: Scalar>(labels: Seq<u8>, examples: Seq<usize>, data: Seq<T>) -> bool {
    &&& data.len() == examples.len()
    &&& forall|i: int|
        0 <= i < data.len() ==> counted(labels[examples[i] as int] as usize, #[trigger] data[i])
}

impl<'a> MnistBatches<'a> {
    /// Every example has an image, and the position is at the start of a batch or at
    /// the end.
    pub open spec fn wf(self) -> bool {
        &&& self.labels@.len() * PIXELS <= self.images@.len()
        &&& self.indices@.len() == self.labels@.len()
        &&& forall|i: int|
            0 <= i < self.indices@.len() ==> #[trigger] self.indices@[i] < self.labels@.len()
        &&& self.batch_size > 0
        &&& self.position <= self.indices@.len()
        &&& 0 < self.position < self.indices@.len() ==> self.batch_size <= self.position
    }

    /// Starts going through examples, shuffled or in order.
    pub fn new(images: &'a Vec<u8>, labels: &'a Vec<u8>, batch_size: usize, shuffle: bool) -> (r:
        Result<MnistBatches<'a>>)
        requires
            labels@.len() * PIXELS <= images@.len(),
        ensures
            starts(images@, labels@, batch_size, shuffle, r),
    {
        if batch_size == 0 {
            return Err(Error::shape("batch_size must be non-zero"));
        }
        let mut indices: Vec<usize> = Vec::with_capacity(labels.len());
        let mut i: usize = 0;
        while i < labels.len()
            invariant
                i <= labels.len(),
                indices@ == ascending(i as nat),
            decreases labels.len() - i,
        {
            indices.push(i);
            i = i + 1;
            assert(indices@ =~= ascending(i as nat));
        }
        if shuffle {
            deterministic_shuffle(&mut indices);
        }
        proof {
            let n = labels@.len();
            assert(indices@ == visiting(n, shuffle));
            shuffle_permutes(ascending(n), SHUFFLE_SEED, n - 1);
            assert forall|k: int| 0 <= k < indices@.len() implies #[trigger] indices@[k] < n by {
                epoch_visits_only_examples(n, shuffle, k);
            }
        }
        Ok(MnistBatches { images, labels, indices, position: 0, batch_size })
    }

    /// Appends the normalized pixels of one example.
    fn push_image<T: Scalar>(&self, data: &mut Vec<T>, index: usize)
        requires
            self.wf(),
            index < self.labels@.len(),
        ensures
            final(data)@.len() == old(data)@.len() + PIXELS,
            final(data)@.take(old(data)@.len() as int) == old(data)@,
            forall|k: int|
                0 <= k < PIXELS ==> normalized(
                    self.images@[index * PIXELS + k],
                    #[trigger] final(data)@[old(data)@.len() + k],
                ),
    {
        let ghost start = data@;
        let room: usize = self.images.len();
        let mut k: usize = 0;
        while k < PIXELS
            invariant
                k <= PIXELS,
                room == self.images@.len(),
                self.wf(),
                index < self.labels@.len(),
                data@.len() == start.len() + k,
                data@.take(start.len() as int) == start,
                forall|j: int|
                    0 <= j < k ==> normalized(
                        self.images@[index * PIXELS + j],
                        #[trigger] data@[start.len() + j],
                    ),
            decreases PIXELS - k,
        {
            assert(index * 784 + 784 <= self.labels@.len() * 784);
            let pixel: u8 = self.images[index * PIXELS + k];
            let bright: T = ratio_of(pixel as usize, 255);
            let mean: T = ratio_of(1307, 10000);
            let deviation: T = ratio_of(3081, 10000);
            let centred = bright.minus(mean);
            let value = centred.over(deviation);
            assert(normalized(pixel, value)) by {
                assert(difference(bright, mean, centred));
                assert(quotient(centred, deviation, value));
            }
            data.push(value);
            assert(data@.take(start.len() as int) =~= start);
            k = k + 1;
        }
    }

    /// The next batch: the normalized images, in the shape `[n, 1, 28, 28]`, and the labels.
    pub fn next<T: Scalar>(&mut self, graph: &mut Graph<T>) -> (r: Option<Result<(Tensor, Tensor)>>)
        requires
            old(self).wf(),
            old(graph).wf(),
        ensures
            final(self).wf(),
            final(self).images == old(self).images,
            final(self).labels == old(self).labels,
            final(self).indices == old(self).indices,
            final(self).batch_size == old(self).batch_size,
            final(graph).wf(),
            ({
                let order = old(self).indices@;
                let end = batch_end(
                    old(self).position as int,
                    old(self).batch_size as int,
                    order.len() as int,
                );
                let examples = order.subrange(old(self).position as int, end);
                match r {
                    None => {
                        &&& old(self).position == order.len()
                        &&& *final(self) == *old(self)
                        &&& *final(graph) == *old(graph)
                    },
                    Some(Ok((images, labels))) => {
                        &&& old(self).position < order.len()
                        &&& final(self).position == end
                        &&& final(graph).extends(*old(graph))
                        &&& final(graph).nodes@.len() == old(graph).nodes@.len() + 2
                        &&& final(graph).norms@ == old(graph).norms@
                        &&& final(graph).next_parameter == old(graph).next_parameter
                        &&& images.id == old(graph).nodes@.len()
                        &&& labels.id == images.id + 1
                        &&& final(graph).has(images) && final(graph).has(labels)
                        &&& images.device == Device::Cpu && labels.device == Device::Cpu
                        &&& images.shape@ == seq![examples.len() as usize, 1, ROWS, COLUMNS]
                        &&& labels.shape@ == seq![examples.len() as usize]
                        &&& final(graph).nodes@[images.id as int].op matches Op::Data(data)
                            && pictured(old(self).images@, examples, data@)
                        &&& final(graph).nodes@[labels.id as int].op matches Op::Data(data)
                            && answered(old(self).labels@, examples, data@)
                    },
                    Some(Err(_)) => false,
                }
            }),
    {
        if self.position >= self.indices.len() {
            return None;
        }
        let ghost before = *graph;
        let position: usize = self.position;
        let len: usize = self.indices.len();
        let end: usize = if len - position <= self.batch_size {
            len
        } else {
            position + self.batch_size
        };
        self.position = end;
        let n: usize = end - position;
        let ghost examples = self.indices@.subrange(position as int, end as int);
        let mut images: Vec<T> = Vec::new();
        let mut labels: Vec<T> = Vec::with_capacity(n);
        let mut i: usize = 0;
        while i < n
            invariant
                i <= n,
                n == end - position,
                end <= self.indices@.len(),
                self.wf(),
                examples == self.indices@.subrange(position as int, end as int),
                examples.len() == n,
                pictured(self.images@, examples.take(i as int), images@),
                answered(self.labels@, examples.take(i as int), labels@),
            decreases n - i,
        {
            let index: usize = self.indices[position + i];
            let ghost some = examples.take(i as int);
            let ghost more = examples.take(i + 1);
            let ghost pixels = images@;
            self.push_image(&mut images, index);
            labels.push(T::of_count(self.labels[index] as usize));
            proof {
                assert(more.len() == i + 1);
                assert(more[i as int] == index);
                assert(forall|k: int| 0 <= k < i ==> some[k] == more[k]);
                assert forall|k: int| 0 <= k < images@.len() implies normalized(
                    self.images@[more[k / PIXELS as int] * PIXELS + k % PIXELS as int],
                    #[trigger] images@[k],
                ) by {
                    if k < pixels.len() {
                        assert(images@[k] == images@.take(pixels.len() as int)[k]);
                        assert(images@[k] == pixels[k]);
                        assert(k / PIXELS as int == k / 784);
                        assert(k / 784 < i);
                    } else {
                        let j = k - pixels.len();
                        assert(k / 784 == i && k % 784 == j);
                        assert(images@[pixels.len() + j] == images@[k]);
                    }
                }
                assert forall|k: int| 0 <= k < labels@.len() implies counted(
                    self.labels@[more[k] as int] as usize,
                    #[trigger] labels@[k],
                ) by {}
            }
            i = i + 1;
        }
        assert(examples.take(i as int) =~= examples);
        let ghost pixels = images;
        let ghost answers = labels;
        let room: usize = self.images.len();
        let image_shape: Vec<usize> = vec![n, 1, ROWS, COLUMNS];
        let label_shape: Vec<usize> = vec![n];
        proof {
            assert(image_shape@ =~= seq![n, 1, ROWS, COLUMNS]);
            assert(label_shape@ =~= seq![n]);
            lemma_numel_4(image_shape@);
            lemma_numel_1(label_shape@);
            assert(image_shape@[1] == 1 && image_shape@[2] == 28 && image_shape@[3] == 28);
            assert(n * 1 * 28 * 28 == n * 784);
            assert(n * 784 <= self.labels@.len() * 784 <= room);
            lemma_no_overflow(image_shape@);
            lemma_no_overflow(label_shape@);
        }
        let pictures = match Tensor::from_vec(graph, images, image_shape) {
            Ok(tensor) => tensor,
            Err(error) => {
                return Some(Err(error));
            },
        };
        let ghost middle = *graph;
        let targets = match Tensor::from_vec(graph, labels, label_shape) {
            Ok(tensor) => tensor,
            Err(error) => {
                return Some(Err(error));
            },
        };
        proof {
            lemma_extends(before, middle, *graph);
            assert(graph.nodes@[pictures.id as int] == middle.nodes@[pictures.id as int]);
            assert(middle.nodes@.last().op == Op::Data(pixels));
            assert(graph.nodes@.last().op == Op::Data(answers));
        }
        Some(Ok((pictures, targets)))
    }
}

} // verus!
