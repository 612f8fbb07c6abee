//! The weights of a checkpoint on their way to the device: taken by name, and fused.

use crate::error::{Error, Failure, Result};
use crate::gemma4_cuda::weights::{is_product, Weight};
use crate::safetensors::{texts, Dtype, Kind};
use crate::shape::{lemma_numel_take, numel, overflows};
use crate::text::{has_prefix, owned, starts};
use vstd::prelude::*;

verus! {

/// What a checkpoint shows of a tensor: its type, its shape, the length of its bytes, and
/// whether they are aligned for elements of sixteen bits.
pub struct TensorView {
    pub dtype: Dtype,
    pub shape: Vec<usize>,
    pub bytes: usize,
    pub aligned: bool,
}

/// A tensor of a checkpoint, by its name, or why it cannot be read.
pub struct CheckpointTensor {
    pub name: String,
    pub view: Result<TensorView>,
}

/// A weight as sequences.
pub struct Held {
    pub shape: Seq<usize>,
    pub len: usize,
    pub parts: Seq<Seq<char>>,
}

impl View for Weight {
    type V = Held;

    open spec fn view(&self) -> Held {
        Held { shape: self.shape@, len: self.len, parts: texts(self.parts@) }
    }
}

/// Weights by name.
pub struct Shelf {
    pub names: Vec<String>,
    pub weights: Vec<Weight>,
}

/// Weights by name, as sequences.
#[verifier::ext_equal]
pub struct Shelved {
    pub names: Seq<Seq<char>>,
    pub weights: Seq<Held>,
}

/// Weights as sequences.
pub open spec fn held(weights: Seq<Weight>) -> Seq<Held> {
    Seq::new(weights.len(), |i: int| weights[i]@)
}

impl View for Shelf {
    type V = Shelved;

    open spec fn view(&self) -> Shelved {
        Shelved { names: texts(self.names@), weights: held(self.weights@) }
    }
}

/// The last place of a name.
pub open spec fn place_of(names: Seq<Seq<char>>, name: Seq<char>) -> Option<usize>
    decreases names.len(),
{
    if names.len() == 0 {
        None
    } else if names.last() == name {
        Some((names.len() - 1) as usize)
    } else {
        place_of(names.drop_last(), name)
    }
}

impl Shelved {
    /// With a weight under a name, in the place of one that was there.
    pub open spec fn with(self, name: Seq<char>, weight: Held) -> Shelved {
        match place_of(self.names, name) {
            Some(i) => Shelved { weights: self.weights.update(i as int, weight), ..self },
            None => Shelved {
                names: self.names.push(name),
                weights: self.weights.push(weight),
            },
        }
    }

    /// Without the weight under a name.
    pub open spec fn without(self, name: Seq<char>) -> Shelved {
        match place_of(self.names, name) {
            Some(i) => Shelved {
                names: self.names.remove(i as int),
                weights: self.weights.remove(i as int),
            },
            None => self,
        }
    }
}

/// The last place of a name is one.
pub proof fn lemma_place(names: Seq<Seq<char>>, name: Seq<char>)
    requires
        names.len() <= usize::MAX,
    ensures
        place_of(names, name) matches Some(i) ==> i < names.len() && names[i as int] == name,
    decreases names.len(),
{
    if names.len() > 0 {
        lemma_place(names.drop_last(), name);
    }
}

/// The last place of a name.
pub fn find_place(names: &Vec<String>, name: &String) -> (r: Option<usize>)
    ensures
        r == place_of(texts(names@), name@),
        r matches Some(i) ==> i < names@.len() && names@[i as int]@ == name@,
{
    let ghost all = texts(names@);
    let mut found: Option<usize> = None;
    let mut i: usize = 0;
    while i < names.len()
        invariant
            i <= names.len(),
            all == texts(names@),
            found == place_of(all.take(i as int), name@),
            found matches Some(j) ==> j < i && names@[j as int]@ == name@,
        decreases names.len() - i,
    {
        assert(all.take(i + 1).drop_last() =~= all.take(i as int));
        if names[i] == *name {
            found = Some(i);
        }
        i = i + 1;
    }
    assert(all.take(all.len() as int) =~= all);
    found
}

impl Shelf {
    pub open spec fn wf(self) -> bool {
        self.names@.len() == self.weights@.len()
    }

    /// Nothing yet.
    pub fn new() -> (r: Shelf)
        ensures
            r.wf(),
            r@ == (Shelved { names: seq![], weights: seq![] }),
    {
        let r = Shelf { names: Vec::new(), weights: Vec::new() };
        assert(r@ =~= (Shelved { names: seq![], weights: seq![] }));
        r
    }

    /// Puts a weight under a name, in the place of one that was there.
    pub fn put(&mut self, name: String, weight: Weight)
        requires
            old(self).wf(),
        ensures
            final(self).wf(),
            final(self)@ == old(self)@.with(name@, weight@),
    {
        let ghost before = self@;
        match find_place(&self.names, &name) {
            Some(i) => {
                self.weights.set(i, weight);
            },
            None => {
                self.names.push(name);
                self.weights.push(weight);
            },
        }
        assert(self@ =~= before.with(name@, weight@));
    }

    /// Takes the weight under a name away.
    pub fn take_away(&mut self, name: &String)
        requires
            old(self).wf(),
        ensures
            final(self).wf(),
            final(self)@ == old(self)@.without(name@),
    {
        let ghost before = self@;
        if let Some(i) = find_place(&self.names, name) {
            self.names.remove(i);
            self.weights.remove(i);
        }
        assert(self@ =~= before.without(name@));
    }
}

/// Text behind a prefix, where it starts with it.
pub fn strip(text: &str, prefix: &str) -> (r: Option<String>)
    ensures
        match r {
            Some(rest) => starts(text@, prefix@) && rest@ == text@.skip(prefix@.len() as int),
            None => !starts(text@, prefix@),
        },
{
    if !has_prefix(text, prefix) {
        return None;
    }
    let n: usize = prefix.unicode_len();
    let len: usize = text.unicode_len();
    assert(text@.subrange(n as int, len as int) =~= text@.skip(n as int));
    Some(owned(text.substring_char(n, len)))
}

/// The tensors of a checkpoint that the model uses.
pub open spec fn is_used(name: Seq<char>) -> bool {
    starts(name, "model.language_model."@) || name == "model.multi_modal_projector.linear.weight"@
}

/// Whether the model uses a tensor of a checkpoint.
pub fn uses(name: &String) -> (r: bool)
    ensures
        r == is_used(name@),
{
    has_prefix(name.as_str(), "model.language_model.") || *name == owned(
        "model.multi_modal_projector.linear.weight",
    )
}

/// The name of a weight: that of the tensor, without what stands for the model.
pub open spec fn canonical(name: Seq<char>) -> Seq<char> {
    if starts(name, "model.language_model."@) {
        name.skip("model.language_model."@.len() as int)
    } else if starts(name, "language_model."@) {
        name.skip("language_model."@.len() as int)
    } else if starts(name, "model."@) {
        name.skip("model."@.len() as int)
    } else {
        name
    }
}

/// The name of a weight.
pub fn canonical_name(name: &String) -> (r: String)
    ensures
        r@ == canonical(name@),
{
    if let Some(rest) = strip(name.as_str(), "model.language_model.") {
        return rest;
    }
    if let Some(rest) = strip(name.as_str(), "language_model.") {
        return rest;
    }
    if let Some(rest) = strip(name.as_str(), "model.") {
        return rest;
    }
    owned(name.as_str())
}

/// A type as it is shown in messages.
pub open spec fn kind_text(kind: Kind) -> Seq<char> {
    match kind {
        Kind::F32 => "F32"@,
        Kind::F16 => "F16"@,
        Kind::BF16 => "BF16"@,
        Kind::Other(name) => name,
    }
}

/// The outcome of looking at a tensor.
pub open spec fn looked_at(name: Seq<char>, view: TensorView) -> std::result::Result<Held, Failure> {
    if view.dtype@ != Kind::BF16 {
        Err(
            Failure::Execution(
                "Gemma 4 CUDA weight `"@ + name + "` is "@ + kind_text(view.dtype@)
                    + ", expected BF16"@,
            ),
        )
    } else if overflows(view.shape@) {
        Err(Failure::InvalidShape("Gemma 4 weight shape overflow"@))
    } else if view.bytes != numel(view.shape@) * 2 || !view.aligned {
        Err(
            Failure::Execution("Gemma 4 weight `"@ + name + "` has an invalid BF16 payload"@),
        )
    } else {
        Ok(Held { shape: view.shape@, len: numel(view.shape@) as usize, parts: seq![name] })
    }
}

/// The elements of a shape, where they can be counted.
fn count_elements(shape: &Vec<usize>) -> (r: Option<usize>)
    ensures
        match r {
            Some(n) => !overflows(shape@) && n == numel(shape@),
            None => overflows(shape@),
        },
{
    let mut total: usize = 1;
    let mut i: usize = 0;
    assert(shape@.take(0) =~= Seq::<usize>::empty());
    while i < shape.len()
        invariant
            i <= shape.len(),
            total == numel(shape@.take(i as int)),
            forall|k: int| 0 <= k <= i ==> #[trigger] numel(shape@.take(k)) <= usize::MAX,
        decreases shape.len() - i,
    {
        proof {
            lemma_numel_take(shape@, i as int);
        }
        match total.checked_mul(shape[i]) {
            Some(next) => {
                total = next;
            },
            None => {
                assert(numel(shape@.take(i + 1)) > usize::MAX);
                return None;
            },
        }
        i = i + 1;
    }
    assert(shape@.take(i as int) =~= shape@);
    Some(total)
}

/// Looks at a tensor.
pub fn look_at(name: &String, view: &TensorView) -> (r: Result<Weight>)
    ensures
        match r {
            Ok(weight) => looked_at(name@, *view) == std::result::Result::<Held, Failure>::Ok(
                weight@,
            ),
            Err(error) => looked_at(name@, *view) == std::result::Result::<Held, Failure>::Err(
                error@,
            ),
        },
{
    let other: Option<String> = match &view.dtype {
        Dtype::BF16 => None,
        Dtype::F32 => Some(owned("F32")),
        Dtype::F16 => Some(owned("F16")),
        Dtype::Other(name) => Some(owned(name.as_str())),
    };
    if let Some(kind) = other {
        let mut message = owned("Gemma 4 CUDA weight `");
        message.append(name.as_str());
        message.append("` is ");
        message.append(kind.as_str());
        message.append(", expected BF16");
        return Err(Error::Execution(message));
    }
    let elements: usize = match count_elements(&view.shape) {
        Some(elements) => elements,
        None => {
            return Err(Error::shape("Gemma 4 weight shape overflow"));
        },
    };
    if !is_product(view.bytes, elements, 2) || !view.aligned {
        let mut message = owned("Gemma 4 weight `");
        message.append(name.as_str());
        message.append("` has an invalid BF16 payload");
        return Err(Error::Execution(message));
    }
    let mut parts: Vec<String> = Vec::new();
    parts.push(owned(name.as_str()));
    let weight = Weight { shape: crate::scalar::copied(&view.shape), len: elements, parts };
    assert(weight@.parts =~= seq![name@]);
    Ok(weight)
}

/// Tensors taken by name, one after the other, up to the first that cannot be.
pub open spec fn taken(shelf: Shelved, tensors: Seq<CheckpointTensor>) -> std::result::Result<
    Shelved,
    Failure,
>
    decreases tensors.len(),
{
    if tensors.len() == 0 {
        Ok(shelf)
    } else if !is_used(tensors[0].name@) {
        taken(shelf, tensors.drop_first())
    } else {
        match tensors[0].view {
            Err(error) => Err(error@),
            Ok(view) => match looked_at(tensors[0].name@, view) {
                Err(failure) => Err(failure),
                Ok(weight) => taken(
                    shelf.with(canonical(tensors[0].name@), weight),
                    tensors.drop_first(),
                ),
            },
        }
    }
}

/// No bytes are longer than memory allows.
pub open spec fn loadable(tensors: Seq<CheckpointTensor>) -> bool {
    forall|i: int|
        0 <= i < tensors.len() ==> ((#[trigger] tensors[i]).view matches Ok(view) ==> view.bytes
            <= usize::MAX / 2)
}

/// Three weights can be put behind one another.
pub open spec fn roomy(shelf: Shelved) -> bool {
    &&& shelf.names.len() == shelf.weights.len()
    &&& forall|i: int|
        0 <= i < shelf.weights.len() ==> (#[trigger] shelf.weights[i]).len <= usize::MAX / 4
}

/// Takes tensors by name.
pub fn take(tensors: Vec<CheckpointTensor>) -> (r: Result<Shelf>)
    requires
        loadable(tensors@),
    ensures
        match r {
            Ok(shelf) => {
                &&& shelf.wf()
                &&& roomy(shelf@)
                &&& taken(
                    Shelved { names: seq![], weights: seq![] },
                    tensors@,
                ) == std::result::Result::<Shelved, Failure>::Ok(shelf@)
            },
            Err(error) => taken(
                Shelved { names: seq![], weights: seq![] },
                tensors@,
            ) == std::result::Result::<Shelved, Failure>::Err(error@),
        },
{
    let mut shelf = Shelf::new();
    let ghost goal = taken(shelf@, tensors@);
    let mut left = tensors;
    while left.len() > 0
        invariant
            shelf.wf(),
            roomy(shelf@),
            loadable(left@),
            goal == taken(Shelved { names: seq![], weights: seq![] }, tensors@),
            goal == taken(shelf@, left@),
        decreases left.len(),
    {
        let ghost before = left@;
        let tensor = left.remove(0);
        proof {
            assert(before.drop_first() =~= left@);
            assert(before[0] == tensor);
            assert forall|i: int| 0 <= i < left@.len() implies ((#[trigger] left@[i]).view matches Ok(
                view,
            ) ==> view.bytes <= usize::MAX / 2) by {
                assert(left@[i] == before[i + 1]);
            }
        }
        if uses(&tensor.name) {
            let view = tensor.view?;
            let weight = look_at(&tensor.name, &view)?;
            let name = canonical_name(&tensor.name);
            let ghost old_shelf = shelf@;
            assert(shelf.names.len() == old_shelf.names.len());
            shelf.put(name, weight);
            proof {
                assert(weight@.len <= usize::MAX / 4);
                lemma_place(old_shelf.names, name@);
            }
        }
    }
    Ok(shelf)
}

} // verus!
