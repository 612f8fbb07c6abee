//! Element counts of shapes.

use crate::error::{Error, Failure, Result};
use crate::text::{decimal, owned, push_decimal, push_shape, shape_text};
use vstd::prelude::*;

verus! {

/// The number of elements that a shape has.
pub open spec fn numel(shape: Seq<usize>) -> nat
    decreases shape.len(),
{
    if shape.len() == 0 {
        1
    } else {
        numel(shape.drop_last()) * (shape.last() as nat)
    }
}

/// Multiplying the dimensions from left to right exceeds the range of counts.
pub open spec fn overflows(shape: Seq<usize>) -> bool {
    exists|k: int| 0 <= k <= shape.len() && #[trigger] numel(shape.take(k)) > usize::MAX
}

/// What counting the elements of a shape gives.
pub open spec fn counted_numel(shape: Seq<usize>) -> std::result::Result<nat, Failure> {
    if shape.len() == 0 {
        Err(Failure::InvalidShape("scalar shapes are not implemented"@))
    } else if overflows(shape) {
        Err(Failure::InvalidShape("element count overflow"@))
    } else {
        Ok(numel(shape))
    }
}

/// The message for data whose length is not the element count of its shape.
pub open spec fn count_mismatch(shape: Seq<usize>, expected: nat, found: nat) -> Seq<char> {
    "shape "@ + shape_text(shape) + " contains "@ + decimal(expected)
        + " elements, but data contains "@ + decimal(found)
}

/// What holding data of a given length against a shape gives.
pub open spec fn validated_numel(data_len: nat, shape: Seq<usize>) -> std::result::Result<
    (),
    Failure,
> {
    match counted_numel(shape) {
        Err(failure) => Err(failure),
        Ok(expected) => if data_len == expected {
            Ok(())
        } else {
            Err(Failure::InvalidShape(count_mismatch(shape, expected, data_len)))
        },
    }
}

/// The outcome `r` is the outcome `expected`, values and failures taken by what they
/// stand for.
pub open spec fn outcome<A, B>(
    r: std::result::Result<A, Error>,
    view: spec_fn(A) -> B,
    expected: std::result::Result<B, Failure>,
) -> bool {
    match r {
        Ok(value) => expected == std::result::Result::<B, Failure>::Ok(view(value)),
        Err(error) => expected == std::result::Result::<B, Failure>::Err(error@),
    }
}

pub proof fn lemma_numel_take(shape: Seq<usize>, k: int)
    requires
        0 <= k < shape.len(),
    ensures
        numel(shape.take(k + 1)) == numel(shape.take(k)) * (shape[k] as nat),
{
    assert(shape.take(k + 1).drop_last() =~= shape.take(k));
}

/// The number of elements of a shape, or why there is none: an empty shape, or a
/// count that leaves the range of counts on the way.
pub fn checked_numel(shape: &Vec<usize>) -> (r: Result<usize>)
    ensures
        outcome(r, |n: usize| n as nat, counted_numel(shape@)),
{
    if shape.len() == 0 {
        return Err(Error::shape("scalar shapes are not implemented"));
    }
    let mut total: usize = 1;
    let mut i: usize = 0;
    assert(shape@.take(0) =~= Seq::<usize>::empty());
    while i < shape.len()
        invariant
            i <= shape.len(),
            total == numel(shape@.take(i as int)),
            forall|k: int|
                0 <= k <= i ==> #[trigger] numel(shape@.take(k)) <= usize::MAX,
        decreases shape.len() - i,
    {
        proof {
            lemma_numel_take(shape@, i as int);
        }
        match total.checked_mul(shape[i]) {
            Some(next) => {
                total = next;
            },
            None => {
                assert(numel(shape@.take(i + 1)) > usize::MAX);
                return Err(Error::shape("element count overflow"));
            },
        }
        i = i + 1;
    }
    assert(shape@.take(i as int) =~= shape@);
    Ok(total)
}

/// Whether data of a given length fills a shape.
pub fn validate_numel(data_len: usize, shape: &Vec<usize>) -> (r: Result<()>)
    ensures
        outcome(r, |u: ()| (), validated_numel(data_len as nat, shape@)),
{
    let expected: usize = checked_numel(shape)?;
    if data_len != expected {
        let mut message = owned("shape ");
        push_shape(&mut message, shape);
        message.append(" contains ");
        push_decimal(&mut message, expected);
        message.append(" elements, but data contains ");
        push_decimal(&mut message, data_len);
        return Err(Error::InvalidShape(message));
    }
    Ok(())
}

pub proof fn lemma_numel_1(shape: Seq<usize>)
    requires
        shape.len() == 1,
    ensures
        numel(shape) == shape[0],
{
    reveal_with_fuel(numel, 2);
    assert(shape.drop_last().len() == 0);
    assert(1 * shape[0] == shape[0]) by (nonlinear_arith);
}

pub proof fn lemma_numel_2(shape: Seq<usize>)
    requires
        shape.len() == 2,
    ensures
        numel(shape) == shape[0] * shape[1],
{
    lemma_numel_1(shape.drop_last());
}

pub proof fn lemma_numel_4(shape: Seq<usize>)
    requires
        shape.len() == 4,
    ensures
        numel(shape) == shape[0] * shape[1] * shape[2] * shape[3],
{
    let three = shape.drop_last();
    lemma_numel_2(three.drop_last());
    assert(numel(three) == shape[0] * shape[1] * shape[2]);
}

proof fn lemma_numel_positive_prefix(shape: Seq<usize>, k: int)
    requires
        0 <= k <= shape.len(),
        forall|i: int| 0 <= i < shape.len() ==> #[trigger] shape[i] > 0,
    ensures
        1 <= numel(shape.take(k)) <= numel(shape),
    decreases shape.len() - k,
{
    if k == shape.len() {
        assert(shape.take(k) =~= shape);
        lemma_numel_positive(shape);
    } else {
        lemma_numel_positive_prefix(shape, k + 1);
        lemma_numel_take(shape, k);
        let a = numel(shape.take(k)) as int;
        let d = shape[k] as int;
        assert(a * d >= 1 && d > 0 ==> 1 <= a <= a * d) by (nonlinear_arith);
    }
}

proof fn lemma_numel_positive(shape: Seq<usize>)
    requires
        forall|i: int| 0 <= i < shape.len() ==> #[trigger] shape[i] > 0,
    ensures
        1 <= numel(shape),
    decreases shape.len(),
{
    if shape.len() > 0 {
        let rest = shape.drop_last();
        assert forall|i: int| 0 <= i < rest.len() implies #[trigger] rest[i] > 0 by {
            assert(rest[i] == shape[i]);
        }
        lemma_numel_positive(rest);
        let a = numel(rest) as int;
        let d = shape[shape.len() - 1] as int;
        assert(a >= 1 && d >= 1 ==> a * d >= 1) by (nonlinear_arith);
    }
}

proof fn lemma_numel_zero(shape: Seq<usize>, k: int)
    requires
        0 <= k < shape.len(),
        shape[k] == 0,
    ensures
        numel(shape) == 0,
    decreases shape.len(),
{
    let rest = numel(shape.drop_last()) as int;
    let d = shape.last() as int;
    if k == shape.len() - 1 {
        assert(rest * 0 == 0) by (nonlinear_arith);
    } else {
        assert(shape.drop_last()[k] == 0);
        lemma_numel_zero(shape.drop_last(), k);
        assert(0 * d == 0) by (nonlinear_arith);
    }
}

/// The number of elements of a shape that has a count.
pub fn count(shape: &Vec<usize>) -> (r: usize)
    requires
        numel(shape@) <= usize::MAX,
    ensures
        r == numel(shape@),
{
    let mut i: usize = 0;
    while i < shape.len()
        invariant
            i <= shape.len(),
            forall|j: int| 0 <= j < i ==> #[trigger] shape@[j] > 0,
        decreases shape.len() - i,
    {
        if shape[i] == 0 {
            proof {
                lemma_numel_zero(shape@, i as int);
            }
            return 0;
        }
        i = i + 1;
    }
    let mut total: usize = 1;
    let mut i: usize = 0;
    assert(shape@.take(0) =~= Seq::<usize>::empty());
    while i < shape.len()
        invariant
            i <= shape.len(),
            numel(shape@) <= usize::MAX,
            forall|j: int| 0 <= j < shape.len() ==> #[trigger] shape@[j] > 0,
            total == numel(shape@.take(i as int)),
        decreases shape.len() - i,
    {
        proof {
            lemma_numel_take(shape@, i as int);
            lemma_numel_positive_prefix(shape@, i + 1);
        }
        total = total * shape[i];
        i = i + 1;
    }
    assert(shape@.take(i as int) =~= shape@);
    total
}

/// Whether a shape has a count.
pub fn has_count(shape: &Vec<usize>) -> (r: bool)
    ensures
        r == (numel(shape@) <= usize::MAX),
{
    let mut i: usize = 0;
    while i < shape.len()
        invariant
            i <= shape.len(),
            forall|j: int| 0 <= j < i ==> #[trigger] shape@[j] > 0,
        decreases shape.len() - i,
    {
        if shape[i] == 0 {
            proof {
                lemma_numel_zero(shape@, i as int);
            }
            return true;
        }
        i = i + 1;
    }
    let mut total: usize = 1;
    let mut i: usize = 0;
    assert(shape@.take(0) =~= Seq::<usize>::empty());
    while i < shape.len()
        invariant
            i <= shape.len(),
            forall|j: int| 0 <= j < shape.len() ==> #[trigger] shape@[j] > 0,
            total == numel(shape@.take(i as int)),
        decreases shape.len() - i,
    {
        proof {
            lemma_numel_take(shape@, i as int);
            if numel(shape@) <= usize::MAX {
                lemma_numel_positive_prefix(shape@, i + 1);
            }
        }
        match total.checked_mul(shape[i]) {
            Some(next) => {
                total = next;
            },
            None => {
                return false;
            },
        }
        i = i + 1;
    }
    assert(shape@.take(i as int) =~= shape@);
    true
}

/// A shape that does not overflow has a count.
pub proof fn lemma_counted(shape: Seq<usize>)
    requires
        !overflows(shape),
    ensures
        numel(shape) <= usize::MAX,
{
    assert(shape.take(shape.len() as int) =~= shape);
}

/// A shape without a zero whose element count is in range does not overflow.
pub proof fn lemma_no_overflow(shape: Seq<usize>)
    requires
        forall|i: int| 0 <= i < shape.len() ==> #[trigger] shape[i] > 0,
        numel(shape) <= usize::MAX,
    ensures
        !overflows(shape),
{
    assert forall|k: int| 0 <= k <= shape.len() implies #[trigger] numel(shape.take(k))
        <= usize::MAX by {
        lemma_numel_positive_prefix(shape, k);
    }
}

/// Whether two shapes are the same.
pub fn same_shape(a: &Vec<usize>, b: &Vec<usize>) -> (r: bool)
    ensures
        r == (a@ == b@),
{
    if a.len() != b.len() {
        return false;
    }
    let mut i: usize = 0;
    while i < a.len()
        invariant
            a.len() == b.len(),
            i <= a.len(),
            forall|j: int| 0 <= j < i ==> a@[j] == b@[j],
        decreases a.len() - i,
    {
        if a[i] != b[i] {
            return false;
        }
        i = i + 1;
    }
    assert(a@ =~= b@);
    true
}

} // verus!
