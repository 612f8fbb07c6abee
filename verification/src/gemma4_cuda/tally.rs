//! What loading keeps: the weights are counted, and none of their elements is lost.

use crate::error::Result;
use crate::gemma4_cuda::cache::physical_layers;
use crate::gemma4_cuda::load::{
    fused_name, fused_put, layer_fused, layers_fused, loaded, prepared, projection_names,
};
use crate::gemma4_cuda::prompt::layer_prefix;
use crate::gemma4_cuda::shelf::{
    canonical, held, is_used, lemma_place, loadable, looked_at, place_of, roomy, taken,
    CheckpointTensor, Held, Shelved,
};
use crate::gemma4_cuda::weights::{total_bytes, Gemma4CudaState, Weight};
use crate::models::gemma4::Gemma4TextConfig;
use crate::scalar::Scalar;
use crate::shape::{lemma_counted, numel};
use crate::text::{decimal, digit};
use vstd::prelude::*;

verus! {

/// The elements of all weights.
pub open spec fn elements(weights: Seq<Held>) -> nat
    decreases weights.len(),
{
    if weights.len() == 0 {
        0
    } else {
        elements(weights.drop_last()) + weights.last().len as nat
    }
}

proof fn lemma_elements_push(weights: Seq<Held>, weight: Held)
    ensures
        elements(weights.push(weight)) == elements(weights) + weight.len,
{
    assert(weights.push(weight).drop_last() =~= weights);
}

proof fn lemma_elements_remove(weights: Seq<Held>, i: int)
    requires
        0 <= i < weights.len(),
    ensures
        elements(weights.remove(i)) + weights[i].len == elements(weights),
    decreases weights.len(),
{
    if i == weights.len() - 1 {
        assert(weights.remove(i) =~= weights.drop_last());
    } else {
        lemma_elements_remove(weights.drop_last(), i);
        assert(weights.remove(i).drop_last() =~= weights.drop_last().remove(i));
        assert(weights.remove(i).last() == weights.last());
    }
}

/// The place of a name is its last.
proof fn lemma_place_last(names: Seq<Seq<char>>, name: Seq<char>)
    requires
        names.len() <= usize::MAX,
    ensures
        match place_of(names, name) {
            Some(i) => i < names.len() && names[i as int] == name && forall|j: int|
                i < j < names.len() ==> #[trigger] names[j] != name,
            None => !names.contains(name),
        },
    decreases names.len(),
{
    if names.len() > 0 && names.last() != name {
        let fewer = names.drop_last();
        lemma_place_last(fewer, name);
        if place_of(names, name) is None && names.contains(name) {
            let j = choose|j: int| 0 <= j < names.len() && names[j] == name;
            assert(fewer[j] == name);
        }
        if let Some(i) = place_of(names, name) {
            assert forall|j: int| i < j < names.len() implies #[trigger] names[j] != name by {
                if j < fewer.len() {
                    assert(fewer[j] == names[j]);
                }
            }
        }
    }
}

/// The last place of a name is its place.
proof fn lemma_last_place(names: Seq<Seq<char>>, name: Seq<char>, i: int)
    requires
        names.len() <= usize::MAX,
        0 <= i < names.len(),
        names[i] == name,
        forall|j: int| i < j < names.len() ==> #[trigger] names[j] != name,
    ensures
        place_of(names, name) == Some(i as usize),
{
    lemma_place_last(names, name);
    let k = place_of(names, name);
    if k is None {
        assert(names.contains(name));
    } else if k->Some_0 < i {
        assert(names[i] != name);
    } else if i < k->Some_0 {
        assert(names[k->Some_0 as int] != name);
    }
}

/// Taking one weight away leaves the others.
proof fn lemma_without(shelf: Shelved, gone: Seq<char>)
    requires
        roomy(shelf),
        shelf.names.len() <= usize::MAX,
        place_of(shelf.names, gone) is Some,
    ensures
        ({
            let left = shelf.without(gone);
            let weight = shelf.weights[place_of(shelf.names, gone)->Some_0 as int];
            &&& roomy(left)
            &&& left.names.len() + 1 == shelf.names.len()
            &&& elements(left.weights) + weight.len == elements(shelf.weights)
            &&& forall|name: Seq<char>| #[trigger]
                left.names.contains(name) ==> shelf.names.contains(name)
            &&& forall|name: Seq<char>|
                name != gone && #[trigger] place_of(shelf.names, name) is Some ==> place_of(
                    left.names,
                    name,
                ) is Some && left.weights[place_of(left.names, name)->Some_0 as int]
                    == shelf.weights[place_of(shelf.names, name)->Some_0 as int]
        }),
{
    let i = place_of(shelf.names, gone)->Some_0 as int;
    let left = shelf.without(gone);
    lemma_place_last(shelf.names, gone);
    lemma_elements_remove(shelf.weights, i);
    assert forall|j: int| 0 <= j < left.weights.len() implies (#[trigger] left.weights[j]).len
        <= usize::MAX / 4 by {
        if j < i {
            assert(left.weights[j] == shelf.weights[j]);
        } else {
            assert(left.weights[j] == shelf.weights[j + 1]);
        }
    }
    assert forall|name: Seq<char>| #[trigger] left.names.contains(name) implies shelf.names.contains(
        name,
    ) by {
        let j = choose|j: int| 0 <= j < left.names.len() && left.names[j] == name;
        if j < i {
            assert(shelf.names[j] == name);
        } else {
            assert(shelf.names[j + 1] == name);
        }
    }
    assert forall|name: Seq<char>|
        name != gone && #[trigger] place_of(shelf.names, name) is Some implies place_of(
        left.names,
        name,
    ) is Some && left.weights[place_of(left.names, name)->Some_0 as int]
        == shelf.weights[place_of(shelf.names, name)->Some_0 as int] by {
        lemma_place_last(shelf.names, name);
        let j = place_of(shelf.names, name)->Some_0 as int;
        let k = if j < i {
            j
        } else {
            j - 1
        };
        assert(j != i);
        assert(left.names[k] == name);
        assert forall|m: int| k < m < left.names.len() implies #[trigger] left.names[m] != name by {
            if m < i {
                assert(left.names[m] == shelf.names[m]);
            } else {
                assert(left.names[m] == shelf.names[m + 1]);
            }
        }
        lemma_last_place(left.names, name, k);
    }
}

/// The projections of a layer have different names.
proof fn lemma_projection_names(layer: usize)
    ensures
        projection_names(layer)[0] != projection_names(layer)[1],
        projection_names(layer)[0] != projection_names(layer)[2],
        projection_names(layer)[1] != projection_names(layer)[2],
{
    let prefix = layer_prefix(layer) + ".self_attn"@;
    reveal_strlit(".q_proj.weight");
    reveal_strlit(".k_proj.weight");
    reveal_strlit(".v_proj.weight");
    let at = prefix.len() as int + 1;
    assert(projection_names(layer)[0][at] == 'q');
    assert(projection_names(layer)[1][at] == 'k');
    assert(projection_names(layer)[2][at] == 'v');
}

/// Fusing the projections of a layer takes three weights and keeps their elements.
proof fn lemma_layer_fused(shelf: Shelved, layer: usize)
    requires
        roomy(shelf),
        shelf.names.len() <= usize::MAX,
    ensures
        layer_fused(shelf, layer) matches Ok((left, weight)) ==> {
            &&& roomy(left)
            &&& left.names.len() + 3 == shelf.names.len()
            &&& elements(left.weights) + weight.len == elements(shelf.weights)
            &&& forall|name: Seq<char>| #[trigger]
                left.names.contains(name) ==> shelf.names.contains(name)
        },
{
    if let Ok((left, weight)) = layer_fused(shelf, layer) {
        let names = projection_names(layer);
        lemma_projection_names(layer);
        let one = shelf.without(names[0]);
        let two = one.without(names[1]);
        assert(place_of(shelf.names, names[1]) is Some && place_of(shelf.names, names[2]) is Some);
        lemma_place(shelf.names, names[0]);
        lemma_place(shelf.names, names[1]);
        lemma_place(shelf.names, names[2]);
        lemma_without(shelf, names[0]);
        assert(place_of(one.names, names[1]) is Some && place_of(one.names, names[2]) is Some);
        lemma_without(one, names[1]);
        assert(place_of(two.names, names[2]) is Some);
        lemma_without(two, names[2]);
        assert forall|name: Seq<char>| #[trigger] left.names.contains(name) implies
            shelf.names.contains(name) by {
            assert(two.names.contains(name));
            assert(one.names.contains(name));
        }
    }
}

/// Fusing the projections of layers takes three weights each and keeps their elements.
proof fn lemma_layers_fused(shelf: Shelved, done: Seq<Held>, layer: usize, layers: usize)
    requires
        roomy(shelf),
        shelf.names.len() <= usize::MAX,
        layer <= layers,
    ensures
        layers_fused(shelf, done, layer, layers) matches Ok((left, all)) ==> {
            &&& left.names.len() == left.weights.len()
            &&& left.names.len() + 3 * (layers - layer) == shelf.names.len()
            &&& all.len() == done.len() + (layers - layer)
            &&& elements(left.weights) + elements(all) == elements(shelf.weights) + elements(done)
            &&& forall|name: Seq<char>| #[trigger]
                left.names.contains(name) ==> shelf.names.contains(name)
        },
    decreases layers - layer,
{
    if layer < layers {
        lemma_layer_fused(shelf, layer);
        if let Ok((left, weight)) = layer_fused(shelf, layer) {
            lemma_elements_push(done, weight);
            lemma_layers_fused(left, done.push(weight), (layer + 1) as usize, layers);
        }
    }
}

/// Different numbers have different digits.
proof fn lemma_decimal(a: nat, b: nat)
    requires
        decimal(a) == decimal(b),
    ensures
        a == b,
    decreases a,
{
    assert(forall|n: nat| n >= 10 ==> (#[trigger] decimal(n)).len() >= 2) by {
        assert forall|n: nat| n >= 10 implies (#[trigger] decimal(n)).len() >= 2 by {
            lemma_decimal_len(n / 10);
        }
    }
    if a < 10 {
        assert(b < 10);
        assert(decimal(a)[0] == digit(a) && decimal(b)[0] == digit(b));
    } else {
        assert(b >= 10) by {
            if b < 10 {
                assert(decimal(b).len() == 1);
            }
        }
        assert(decimal(a).last() == digit(a % 10) && decimal(b).last() == digit(b % 10));
        assert(decimal(a).drop_last() =~= decimal(a / 10));
        assert(decimal(b).drop_last() =~= decimal(b / 10));
        lemma_decimal(a / 10, b / 10);
    }
}

proof fn lemma_decimal_len(n: nat)
    ensures
        decimal(n).len() >= 1,
    decreases n,
{
    if n >= 10 {
        lemma_decimal_len(n / 10);
    }
}

/// Fused projections of different layers have different names.
proof fn lemma_fused_names(a: usize, b: usize)
    requires
        fused_name(a) == fused_name(b),
    ensures
        a == b,
{
    let (x, y) = (decimal(a as nat), decimal(b as nat));
    let tail = ".self_attn"@ + ".qkv_proj.weight"@;
    let head = "layers."@;
    assert(fused_name(a) =~= head + x + tail);
    assert(fused_name(b) =~= head + y + tail);
    assert(x.len() == y.len());
    assert(x =~= y) by {
        assert forall|i: int| 0 <= i < x.len() implies x[i] == y[i] by {
            assert((head + x + tail)[head.len() + i] == x[i]);
            assert((head + y + tail)[head.len() + i] == y[i]);
        }
    }
    lemma_decimal(a as nat, b as nat);
}

/// Putting fused weights on the shelf adds as many weights, and their elements.
proof fn lemma_fused_put(shelf: Shelved, done: Seq<Held>)
    requires
        shelf.names.len() == shelf.weights.len(),
        shelf.names.len() + done.len() <= usize::MAX,
        forall|i: int| 0 <= i < done.len() ==> !shelf.names.contains(#[trigger] fused_name(i as usize)),
    ensures
        ({
            let after = fused_put(shelf, done);
            &&& after.names.len() == after.weights.len()
            &&& after.names.len() == shelf.names.len() + done.len()
            &&& elements(after.weights) == elements(shelf.weights) + elements(done)
            &&& forall|name: Seq<char>| #[trigger]
                after.names.contains(name) ==> shelf.names.contains(name) || exists|i: int|
                    0 <= i < done.len() && name == #[trigger] fused_name(i as usize)
        }),
    decreases done.len(),
{
    if done.len() > 0 {
        let fewer = done.drop_last();
        lemma_fused_put(shelf, fewer);
        let before = fused_put(shelf, fewer);
        let n = (done.len() - 1) as usize;
        let name = fused_name(n);
        assert(!before.names.contains(name)) by {
            if before.names.contains(name) {
                assert(!shelf.names.contains(fused_name((done.len() - 1) as usize)));
                let i = choose|i: int|
                    0 <= i < fewer.len() && name == #[trigger] fused_name(i as usize);
                lemma_fused_names(n, i as usize);
            }
        }
        lemma_place_last(before.names, name);
        lemma_elements_push(before.weights, done.last());
        let after = fused_put(shelf, done);
        assert(after.names =~= before.names.push(name));
        assert forall|other: Seq<char>| #[trigger]
            after.names.contains(other) implies shelf.names.contains(other) || exists|i: int|
            0 <= i < done.len() && other == #[trigger] fused_name(i as usize) by {
            let j = choose|j: int| 0 <= j < after.names.len() && after.names[j] == other;
            if j == before.names.len() {
                assert(other == fused_name((done.len() - 1) as usize));
            } else {
                assert(before.names[j] == other);
                assert(before.names.contains(other));
                if !shelf.names.contains(other) {
                    let i = choose|i: int|
                        0 <= i < fewer.len() && other == #[trigger] fused_name(i as usize);
                    assert(0 <= i < done.len());
                }
            }
        }
    }
}

/// The tensors that the model uses.
pub open spec fn used(tensors: Seq<CheckpointTensor>) -> nat
    decreases tensors.len(),
{
    if tensors.len() == 0 {
        0
    } else if is_used(tensors[0].name@) {
        used(tensors.drop_first()) + 1
    } else {
        used(tensors.drop_first())
    }
}

/// The elements of the tensors that the model uses.
pub open spec fn used_elements(tensors: Seq<CheckpointTensor>) -> nat
    decreases tensors.len(),
{
    if tensors.len() == 0 {
        0
    } else if is_used(tensors[0].name@) && tensors[0].view is Ok {
        used_elements(tensors.drop_first()) + numel(tensors[0].view->Ok_0.shape@)
    } else {
        used_elements(tensors.drop_first())
    }
}

/// The names of the weights differ, and none is that of a fused projection.
pub open spec fn named_apart(tensors: Seq<CheckpointTensor>, layers: int) -> bool {
    &&& forall|i: int, j: int|
        0 <= i < j < tensors.len() && is_used((#[trigger] tensors[i]).name@) && is_used(
            (#[trigger] tensors[j]).name@,
        ) ==> canonical(tensors[i].name@) != canonical(tensors[j].name@)
    &&& forall|i: int, layer: int|
        0 <= i < tensors.len() && 0 <= layer < layers && is_used((#[trigger] tensors[i]).name@)
            ==> canonical(tensors[i].name@) != #[trigger] fused_name(layer as usize)
}

/// Taking tensors by name adds as many weights, and their elements.
proof fn lemma_taken(shelf: Shelved, tensors: Seq<CheckpointTensor>, layers: int)
    requires
        roomy(shelf),
        loadable(tensors),
        named_apart(tensors, layers),
        shelf.names.len() + tensors.len() <= usize::MAX,
        forall|i: int|
            0 <= i < tensors.len() && is_used((#[trigger] tensors[i]).name@) ==> !shelf.names.contains(
                canonical(tensors[i].name@),
            ),
        forall|layer: int|
            0 <= layer < layers ==> !shelf.names.contains(#[trigger] fused_name(layer as usize)),
    ensures
        taken(shelf, tensors) matches Ok(after) ==> {
            &&& roomy(after)
            &&& after.names.len() <= usize::MAX
            &&& after.names.len() == shelf.names.len() + used(tensors)
            &&& elements(after.weights) == elements(shelf.weights) + used_elements(tensors)
            &&& forall|layer: int|
                0 <= layer < layers ==> !after.names.contains(#[trigger] fused_name(layer as usize))
        },
    decreases tensors.len(),
{
    if tensors.len() > 0 {
        let rest = tensors.drop_first();
        assert forall|i: int| 0 <= i < rest.len() implies ((#[trigger] rest[i]).view matches Ok(view)
            ==> view.bytes <= usize::MAX / 2) by {
            assert(rest[i] == tensors[i + 1]);
        }
        assert(named_apart(rest, layers)) by {
            assert forall|i: int, j: int|
                0 <= i < j < rest.len() && is_used((#[trigger] rest[i]).name@) && is_used(
                    (#[trigger] rest[j]).name@,
                ) implies canonical(rest[i].name@) != canonical(rest[j].name@) by {
                assert(rest[i] == tensors[i + 1] && rest[j] == tensors[j + 1]);
            }
            assert forall|i: int, layer: int|
                0 <= i < rest.len() && 0 <= layer < layers && is_used(
                    (#[trigger] rest[i]).name@,
                ) implies canonical(rest[i].name@) != #[trigger] fused_name(layer as usize) by {
                assert(rest[i] == tensors[i + 1]);
            }
        }
        let next = match (is_used(tensors[0].name@), tensors[0].view) {
            (true, Ok(view)) => match looked_at(tensors[0].name@, view) {
                Ok(weight) => shelf.with(canonical(tensors[0].name@), weight),
                Err(_) => shelf,
            },
            _ => shelf,
        };
        if is_used(tensors[0].name@) && tensors[0].view is Ok {
            let view = tensors[0].view->Ok_0;
            if let Ok(weight) = looked_at(tensors[0].name@, view) {
                let name = canonical(tensors[0].name@);
                lemma_place_last(shelf.names, name);
                assert(!shelf.names.contains(name));
                lemma_counted(view.shape@);
                lemma_elements_push(shelf.weights, weight);
                assert(next.names =~= shelf.names.push(name));
                assert(roomy(next));
            }
        }
        assert forall|i: int|
            0 <= i < rest.len() && is_used((#[trigger] rest[i]).name@) && (next == shelf || is_used(
                tensors[0].name@,
            )) implies !next.names.contains(canonical(rest[i].name@)) by {
            assert(rest[i] == tensors[i + 1]);
            if next.names.contains(canonical(rest[i].name@)) {
                let j = choose|j: int|
                    0 <= j < next.names.len() && next.names[j] == canonical(rest[i].name@);
                if j < shelf.names.len() {
                    assert(shelf.names[j] == canonical(rest[i].name@));
                    assert(shelf.names.contains(canonical(tensors[i + 1].name@)));
                } else {
                    assert(canonical(tensors[0].name@) != canonical(tensors[i + 1].name@));
                }
            }
        }
        assert forall|layer: int| 0 <= layer < layers implies !next.names.contains(
            #[trigger] fused_name(layer as usize),
        ) by {
            if next.names.contains(fused_name(layer as usize)) {
                let j = choose|j: int|
                    0 <= j < next.names.len() && next.names[j] == fused_name(layer as usize);
                if j < shelf.names.len() {
                    assert(shelf.names[j] == fused_name(layer as usize));
                    assert(shelf.names.contains(fused_name(layer as usize)));
                } else {
                    assert(canonical(tensors[0].name@) != fused_name(layer as usize));
                }
            }
        }
        lemma_taken(next, rest, layers);
    }
}

/// Two bytes for each element.
proof fn lemma_total_bytes(weights: Seq<Weight>)
    ensures
        total_bytes(weights) == 2 * elements(held(weights)),
    decreases weights.len(),
{
    if weights.len() > 0 {
        lemma_total_bytes(weights.drop_last());
        assert(held(weights).drop_last() =~= held(weights.drop_last()));
        assert(held(weights).last() == weights.last()@);
    }
}

/// A loaded model holds a weight for each tensor that it uses, less two for each layer
/// whose three projections are fused, in twice as many bytes as the tensors have elements.
/// This is stated for checkpoints that name every weight once, and none as fused ones are
/// named.
pub proof fn loading_keeps_every_element<T: Scalar>(
    tensors: Seq<CheckpointTensor>,
    config: Gemma4TextConfig<T>,
    state: Gemma4CudaState<T>,
)
    requires
        tensors.len() <= usize::MAX,
        loadable(tensors),
        named_apart(tensors, physical_layers(config)),
        prepared(tensors, config, Result::<Gemma4CudaState<T>>::Ok(state)),
    ensures
        state.weights@.len() == used(tensors) - 2 * physical_layers(config),
        total_bytes(state.weights@) == 2 * used_elements(tensors),
{
    let start = Shelved { names: seq![], weights: seq![] };
    let layers = physical_layers(config) as usize;
    lemma_taken(start, tensors, physical_layers(config));
    let shelf = taken(start, tensors)->Ok_0;
    lemma_layers_fused(shelf, seq![], 0, layers);
    let (left, done) = layers_fused(shelf, seq![], 0, layers)->Ok_0;
    assert forall|i: int| 0 <= i < done.len() implies !left.names.contains(
        #[trigger] fused_name(i as usize),
    ) by {
        if left.names.contains(fused_name(i as usize)) {
            assert(shelf.names.contains(fused_name(i as usize)));
        }
    }
    lemma_fused_put(left, done);
    lemma_total_bytes(state.weights@);
    assert(loaded(tensors, config)->Ok_0.weights == held(state.weights@));
    assert(held(state.weights@).len() == state.weights@.len());
}

} // verus!
