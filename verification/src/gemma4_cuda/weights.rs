//! The weights of a Gemma model on a device.

use crate::error::{Error, Failure, Result};
use crate::gemma4_cuda::tape::MOST_ROWS;
use crate::models::gemma4::aliases;
use crate::text::owned;
use vstd::prelude::*;

verus! {

/// A weight: its shape, the length of its buffer, and the tensors of the checkpoint that
/// stand in the buffer, one behind the other.
pub struct Weight {
    pub shape: Vec<usize>,
    pub len: usize,
    pub parts: Vec<String>,
}

/// What a layer needs when tokens are decoded.  Weights are named by their number.
#[derive(Clone, Copy)]
pub struct LayerPlan<T> {
    /// The layer whose cache is attended to.
    pub source: usize,
    /// Attention to a window only.
    pub sliding: bool,
    pub head_dim: usize,
    /// The dimensions of a head that are rotated.
    pub rotary_dim: usize,
    pub rope_theta: T,
    pub rope_factor: T,
    pub input_norm: usize,
    pub query_projection: usize,
    /// The query projection gives keys and values too.
    pub fused_qkv: bool,
    pub query_norm: usize,
    pub key_norm: Option<usize>,
    pub output_projection: usize,
    pub post_attention_norm: usize,
    pub pre_feedforward_norm: usize,
    pub gate_projection: usize,
    pub up_projection: usize,
    pub down_projection: usize,
    pub post_feedforward_norm: usize,
    pub ple_gate: Option<usize>,
    pub ple_projection: Option<usize>,
    pub ple_norm: Option<usize>,
    pub layer_scalar: usize,
}

/// The weights of a model, by number and by name, and what each layer needs.
pub struct Gemma4CudaState<T> {
    pub weights: Vec<Weight>,
    pub names: Vec<String>,
    pub decode_plan: Vec<LayerPlan<T>>,
}

/// As many rows as a prompt has, of this width, can be counted.
pub open spec fn small(width: usize) -> bool {
    width * MOST_ROWS <= usize::MAX
}

/// The number of a name.
pub open spec fn number_of(names: Seq<String>, name: Seq<char>) -> Option<usize>
    decreases names.len(),
{
    if names.len() == 0 {
        None
    } else if names.last()@ == name {
        Some((names.len() - 1) as usize)
    } else {
        number_of(names.drop_last(), name)
    }
}

/// The number of a name.
pub fn find_number(names: &Vec<String>, name: &String) -> (r: Option<usize>)
    ensures
        r == number_of(names@, name@),
        r matches Some(i) ==> i < names@.len() && names@[i as int]@ == name@,
{
    let mut found: Option<usize> = None;
    let mut i: usize = 0;
    while i < names.len()
        invariant
            i <= names.len(),
            found == number_of(names@.take(i as int), name@),
            found matches Some(j) ==> j < i && names@[j as int]@ == name@,
        decreases names.len() - i,
    {
        assert(names@.take(i + 1).drop_last() =~= names@.take(i as int));
        if names[i] == *name {
            found = Some(i);
        }
        i = i + 1;
    }
    assert(names@.take(names@.len() as int) =~= names@);
    found
}

/// The failure for a weight that is not there.
pub open spec fn weight_missing(suffix: Seq<char>) -> Failure {
    Failure::Execution("CUDA weight `"@ + suffix + "` is missing"@)
}

/// The failure for a weight number that is none.
pub open spec fn bad_number() -> Failure {
    Failure::Execution("CUDA decode-plan weight index is invalid"@)
}

impl<T> Gemma4CudaState<T> {
    /// Every weight has a name, rows of its extents can be counted, no vector is empty,
    /// and matrices are whole.
    pub open spec fn wf(self) -> bool {
        &&& self.names@.len() == self.weights@.len()
        &&& forall|i: int|
            0 <= i < self.weights@.len() ==> #[trigger] usable_shape(self.weights@[i].shape@)
        &&& forall|i: int| 0 <= i < self.weights@.len() ==> whole(#[trigger] self.weights@[i])
    }

    /// The number of a weight, by the first of its names that there is.
    pub open spec fn weight_number(self, suffix: Seq<char>) -> Option<usize> {
        let names = aliases(suffix);
        if number_of(self.names@, names[0]) is Some {
            number_of(self.names@, names[0])
        } else if number_of(self.names@, names[1]) is Some {
            number_of(self.names@, names[1])
        } else if number_of(self.names@, names[2]) is Some {
            number_of(self.names@, names[2])
        } else {
            number_of(self.names@, names[3])
        }
    }

    /// The number of a weight, by the first of its names that there is.
    pub fn weight(&self, suffix: &str) -> (r: Result<usize>)
        requires
            self.wf(),
        ensures
            match r {
                Ok(i) => self.weight_number(suffix@) == Some(i) && i < self.weights@.len(),
                Err(error) => self.weight_number(suffix@) is None && error@ == weight_missing(
                    suffix@,
                ),
            },
    {
        let mut name = owned("model.");
        name.append(suffix);
        if let Some(i) = find_number(&self.names, &name) {
            return Ok(i);
        }
        let mut name = owned("model.language_model.");
        name.append(suffix);
        if let Some(i) = find_number(&self.names, &name) {
            return Ok(i);
        }
        let mut name = owned("language_model.");
        name.append(suffix);
        if let Some(i) = find_number(&self.names, &name) {
            return Ok(i);
        }
        let name = owned(suffix);
        if let Some(i) = find_number(&self.names, &name) {
            return Ok(i);
        }
        let mut message = owned("CUDA weight `");
        message.append(suffix);
        message.append("` is missing");
        Err(Error::Execution(message))
    }

    /// The number of a weight, where it is one.
    pub fn weight_at(&self, index: usize) -> (r: Result<usize>)
        ensures
            match r {
                Ok(i) => i == index && i < self.weights@.len(),
                Err(error) => index >= self.weights@.len() && error@ == bad_number(),
            },
    {
        if index < self.weights.len() {
            Ok(index)
        } else {
            Err(Error::execution("CUDA decode-plan weight index is invalid"))
        }
    }

    /// Number of weights on the device.
    pub fn weight_count(&self) -> (r: usize)
        ensures
            r == self.weights@.len(),
    {
        self.weights.len()
    }

    /// Whether the weights can be computed with.
    pub fn usable(&self) -> (r: bool)
        ensures
            r == self.wf(),
    {
        if self.names.len() != self.weights.len() {
            return false;
        }
        let mut i: usize = 0;
        while i < self.weights.len()
            invariant
                i <= self.weights.len(),
                forall|j: int|
                    0 <= j < i ==> #[trigger] usable_shape(self.weights@[j].shape@),
                forall|j: int| 0 <= j < i ==> whole(#[trigger] self.weights@[j]),
            decreases self.weights.len() - i,
        {
            let shape = &self.weights[i].shape;
            if shape.len() == 2 && !is_product(self.weights[i].len, shape[0], shape[1]) {
                assert(!whole(self.weights@[i as int]));
                return false;
            }
            if shape.len() == 1 && shape[0] == 0 {
                assert(!usable_shape(self.weights@[i as int].shape@));
                return false;
            }
            let mut k: usize = 0;
            while k < shape.len()
                invariant
                    k <= shape.len(),
                    shape@ == self.weights@[i as int].shape@,
                    i < self.weights@.len(),
                    forall|j: int| 0 <= j < k ==> small(#[trigger] shape@[j]),
                decreases shape.len() - k,
            {
                if shape[k] > usize::MAX / MOST_ROWS {
                    proof {
                        assert(!small(shape@[k as int]));
                        assert(!usable_shape(self.weights@[i as int].shape@));
                    }
                    return false;
                }
                k = k + 1;
            }
            i = i + 1;
        }
        true
    }
}

/// The buffer of a matrix holds its elements.
pub open spec fn whole(weight: Weight) -> bool {
    weight.shape@.len() == 2 ==> weight.len == weight.shape@[0] * weight.shape@[1]
}

/// `a` is the product of `b` and `c`.
pub fn is_product(a: usize, b: usize, c: usize) -> (r: bool)
    ensures
        r == (a == b * c),
{
    proof {
        assert(b * c <= usize::MAX * usize::MAX) by (nonlinear_arith)
            requires
                b <= usize::MAX,
                c <= usize::MAX,
        ;
        assert(usize::MAX * usize::MAX <= u128::MAX) by (nonlinear_arith)
            requires
                usize::MAX <= u64::MAX,
        ;
    }
    a as u128 == b as u128 * c as u128
}

/// Rows of every extent can be counted, and a vector is not empty.
pub open spec fn usable_shape(shape: Seq<usize>) -> bool {
    &&& shape.len() == 1 ==> shape[0] > 0
    &&& forall|k: int| 0 <= k < shape.len() ==> small(#[trigger] shape[k])
}

/// The bytes of all weights.
pub open spec fn total_bytes(weights: Seq<Weight>) -> nat
    decreases weights.len(),
{
    if weights.len() == 0 {
        0
    } else {
        total_bytes(weights.drop_last()) + weights.last().len as nat * 2
    }
}

proof fn lemma_total_bytes_prefix(weights: Seq<Weight>, n: int)
    requires
        0 <= n <= weights.len(),
    ensures
        total_bytes(weights.take(n)) <= total_bytes(weights),
    decreases weights.len(),
{
    if n < weights.len() {
        lemma_total_bytes_prefix(weights.drop_last(), n);
        assert(weights.drop_last().take(n) =~= weights.take(n));
    } else {
        assert(weights.take(n) =~= weights);
    }
}

impl<T> Gemma4CudaState<T> {
    /// Total bytes of the weights on the device.
    pub fn weight_bytes(&self) -> (r: usize)
        requires
            total_bytes(self.weights@) <= usize::MAX,
        ensures
            r == total_bytes(self.weights@),
    {
        let mut total: usize = 0;
        let mut i: usize = 0;
        while i < self.weights.len()
            invariant
                i <= self.weights.len(),
                total_bytes(self.weights@) <= usize::MAX,
                total == total_bytes(self.weights@.take(i as int)),
            decreases self.weights.len() - i,
        {
            proof {
                lemma_total_bytes_prefix(self.weights@, i + 1);
                assert(self.weights@.take(i + 1).drop_last() =~= self.weights@.take(i as int));
            }
            total = total + self.weights[i].len * 2;
            i = i + 1;
        }
        assert(self.weights@.take(self.weights@.len() as int) =~= self.weights@);
        total
    }
}

} // verus!
