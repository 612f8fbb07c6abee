//! Loading a Gemma model: the projections of a layer fused, and what each layer needs.

use crate::error::{Error, Failure, Result};
use crate::gemma4_cuda::cache::{
    first_shared, is_sliding, last_of_kind, layer_entry, physical_layers, tabulates,
    Gemma4CudaCacheTable,
};
use crate::gemma4_cuda::prefill::{all_rotate, all_rotary_dims};
use crate::gemma4_cuda::prompt::{
    find_rope, head_width, layer_prefix, name_of, prefix_of, rope_missing, rope_of,
};
use crate::gemma4_cuda::shelf::{
    find_place, held, lemma_place, loadable, place_of, roomy, take, taken, CheckpointTensor, Held,
    Shelf, Shelved,
};
use crate::gemma4_cuda::weights::{Gemma4CudaState, LayerPlan, Weight};
use crate::graph::Device;
use crate::models::gemma4::{Gemma4ForCausalLM, Gemma4TextConfig};
use crate::safetensors::texts;
use crate::scalar::Scalar;
use crate::text::{decimal, owned, push_decimal};
use vstd::prelude::*;

verus! {

/// The failure for a weight that a layer lacks.
pub open spec fn lacks(name: Seq<char>) -> Failure {
    Failure::Execution("missing CUDA weight `"@ + name + "`"@)
}

/// The failure for a weight that a layer lacks.
fn lacks_error(name: &String) -> (r: Error)
    ensures
        r@ == lacks(name@),
{
    let mut message = owned("missing CUDA weight `");
    message.append(name.as_str());
    message.append("`");
    Error::Execution(message)
}

/// The names of the projections of a layer to queries, keys and values.
pub open spec fn projection_names(layer: usize) -> Seq<Seq<char>> {
    let prefix = layer_prefix(layer) + ".self_attn"@;
    seq![prefix + ".q_proj.weight"@, prefix + ".k_proj.weight"@, prefix + ".v_proj.weight"@]
}

/// The name of the fused projection of a layer.
pub open spec fn fused_name(layer: usize) -> Seq<char> {
    layer_prefix(layer) + ".self_attn"@ + ".qkv_proj.weight"@
}

/// The projections can be put behind one another: they are matrices of the same width.
pub open spec fn fusible(q: Seq<usize>, k: Seq<usize>, v: Seq<usize>) -> bool {
    &&& q.len() == 2
    &&& k.len() == 2
    &&& v.len() == 2
    &&& q[1] == k[1]
    &&& q[1] == v[1]
}

/// The projections of a layer fused to one.
pub open spec fn fused(q: Held, k: Held, v: Held) -> Held {
    Held {
        shape: seq![(q.shape[0] + k.shape[0] + v.shape[0]) as usize, q.shape[1]],
        len: (q.len + k.len + v.len) as usize,
        parts: q.parts + k.parts + v.parts,
    }
}

/// The outcome of fusing the projections of a layer: what is left, and the fused weight.
pub open spec fn layer_fused(shelf: Shelved, layer: usize) -> std::result::Result<
    (Shelved, Held),
    Failure,
> {
    let names = projection_names(layer);
    match (
        place_of(shelf.names, names[0]),
        place_of(shelf.names, names[1]),
        place_of(shelf.names, names[2]),
    ) {
        (None, _, _) => Err(lacks(names[0])),
        (_, None, _) => Err(lacks(names[1])),
        (_, _, None) => Err(lacks(names[2])),
        (Some(i), Some(j), Some(l)) => {
            let (q, k, v) = (
                shelf.weights[i as int],
                shelf.weights[j as int],
                shelf.weights[l as int],
            );
            if !fusible(q.shape, k.shape, v.shape) {
                Err(
                    Failure::InvalidShape(
                        "layer "@ + decimal(layer as nat)
                            + " QKV projection shapes do not match"@,
                    ),
                )
            } else if q.len == 0 || k.len == 0 || v.len == 0 {
                Err(Failure::InvalidShape("zero-sized Gemma CUDA launch"@))
            } else {
                Ok(
                    (
                        shelf.without(names[0]).without(names[1]).without(names[2]),
                        fused(q, k, v),
                    ),
                )
            }
        },
    }
}

/// The heights of three projections can be added.
pub open spec fn heights_fit(shelf: Shelved) -> bool {
    forall|i: int|
        0 <= i < shelf.weights.len() ==> {
            let weight = #[trigger] shelf.weights[i];
            weight.shape.len() == 2 && weight.len > 0 ==> weight.shape[0] <= weight.len
        }
}

/// Joins two lists of names.
fn joined_parts(a: &Vec<String>, b: &Vec<String>, c: &Vec<String>) -> (r: Vec<String>)
    ensures
        texts(r@) == texts(a@) + texts(b@) + texts(c@),
{
    let mut r: Vec<String> = Vec::new();
    push_all(&mut r, a);
    push_all(&mut r, b);
    push_all(&mut r, c);
    assert(texts(r@) =~= texts(a@) + texts(b@) + texts(c@));
    r
}

fn push_all(to: &mut Vec<String>, from: &Vec<String>)
    ensures
        texts(final(to)@) == texts(old(to)@) + texts(from@),
{
    let ghost start = texts(to@);
    let mut i: usize = 0;
    assert(texts(to@) =~= start + texts(from@).take(0));
    while i < from.len()
        invariant
            i <= from.len(),
            texts(to@) == start + texts(from@).take(i as int),
        decreases from.len() - i,
    {
        let ghost before = texts(to@);
        to.push(owned(from[i].as_str()));
        proof {
            assert(texts(to@) =~= before.push(from@[i as int]@));
            assert(texts(from@).take(i + 1) =~= texts(from@).take(i as int).push(
                from@[i as int]@,
            ));
            assert(texts(to@) =~= start + texts(from@).take(i + 1));
        }
        i = i + 1;
    }
    assert(texts(from@).take(from@.len() as int) =~= texts(from@));
}

proof fn lemma_without(shelf: Shelved, name: Seq<char>)
    requires
        roomy(shelf),
        heights_fit(shelf),
        shelf.names.len() <= usize::MAX,
    ensures
        roomy(shelf.without(name)),
        heights_fit(shelf.without(name)),
        shelf.without(name).names.len() <= usize::MAX,
{
    lemma_place(shelf.names, name);
    let after = shelf.without(name);
    if let Some(i) = place_of(shelf.names, name) {
        assert forall|j: int| 0 <= j < after.weights.len() implies {
            &&& (#[trigger] after.weights[j]).len <= usize::MAX / 4
            &&& after.weights[j].shape.len() == 2 && after.weights[j].len > 0
                ==> after.weights[j].shape[0] <= after.weights[j].len
        } by {
            let k = if j < i {
                j
            } else {
                j + 1
            };
            assert(after.weights[j] == shelf.weights[k]);
        }
    }
}

/// Fuses the projections of a layer.
fn fuse_layer(shelf: &mut Shelf, layer: usize) -> (r: Result<Weight>)
    requires
        old(shelf).wf(),
        roomy(old(shelf)@),
        heights_fit(old(shelf)@),
    ensures
        final(shelf).wf(),
        roomy(final(shelf)@),
        heights_fit(final(shelf)@),
        match r {
            Ok(weight) => layer_fused(old(shelf)@, layer) == std::result::Result::<
                (Shelved, Held),
                Failure,
            >::Ok((final(shelf)@, weight@)),
            Err(error) => layer_fused(old(shelf)@, layer) == std::result::Result::<
                (Shelved, Held),
                Failure,
            >::Err(error@),
        },
{
    let ghost before = shelf@;
    let prefix = name_of(&prefix_of(layer), ".self_attn");
    let q_name = name_of(&prefix, ".q_proj.weight");
    let k_name = name_of(&prefix, ".k_proj.weight");
    let v_name = name_of(&prefix, ".v_proj.weight");
    let i: usize = match find_place(&shelf.names, &q_name) {
        Some(i) => i,
        None => {
            return Err(lacks_error(&q_name));
        },
    };
    let j: usize = match find_place(&shelf.names, &k_name) {
        Some(j) => j,
        None => {
            return Err(lacks_error(&k_name));
        },
    };
    let l: usize = match find_place(&shelf.names, &v_name) {
        Some(l) => l,
        None => {
            return Err(lacks_error(&v_name));
        },
    };
    let q = &shelf.weights[i];
    let k = &shelf.weights[j];
    let v = &shelf.weights[l];
    proof {
        assert(before.weights[i as int] == q@);
        assert(before.weights[j as int] == k@);
        assert(before.weights[l as int] == v@);
    }
    if q.shape.len() != 2 || k.shape.len() != 2 || v.shape.len() != 2 || q.shape[1] != k.shape[1]
        || q.shape[1] != v.shape[1] {
        let mut message = owned("layer ");
        push_decimal(&mut message, layer);
        message.append(" QKV projection shapes do not match");
        return Err(Error::InvalidShape(message));
    }
    if q.len == 0 || k.len == 0 || v.len == 0 {
        return Err(Error::shape("zero-sized Gemma CUDA launch"));
    }
    let mut shape: Vec<usize> = Vec::new();
    shape.push(q.shape[0] + k.shape[0] + v.shape[0]);
    shape.push(q.shape[1]);
    let weight = Weight {
        shape,
        len: q.len + k.len + v.len,
        parts: joined_parts(&q.parts, &k.parts, &v.parts),
    };
    proof {
        assert(weight@.shape =~= fused(q@, k@, v@).shape);
        assert(shelf.names.len() == before.names.len());
        lemma_without(before, q_name@);
        lemma_without(before.without(q_name@), k_name@);
        lemma_without(before.without(q_name@).without(k_name@), v_name@);
    }
    shelf.take_away(&q_name);
    shelf.take_away(&k_name);
    shelf.take_away(&v_name);
    Ok(weight)
}

/// The projections of the layers from one on fused; the fused weights are put on the shelf
/// when all are.
pub open spec fn layers_fused(
    shelf: Shelved,
    done: Seq<Held>,
    layer: usize,
    layers: usize,
) -> std::result::Result<(Shelved, Seq<Held>), Failure>
    decreases layers - layer,
{
    if layer >= layers {
        Ok((shelf, done))
    } else {
        match layer_fused(shelf, layer) {
            Err(failure) => Err(failure),
            Ok((left, weight)) => layers_fused(
                left,
                done.push(weight),
                (layer + 1) as usize,
                layers,
            ),
        }
    }
}

/// The fused weights put on the shelf, by the names of their layers.
pub open spec fn fused_put(shelf: Shelved, done: Seq<Held>) -> Shelved
    decreases done.len(),
{
    if done.len() == 0 {
        shelf
    } else {
        fused_put(shelf, done.drop_last()).with(
            fused_name((done.len() - 1) as usize),
            done.last(),
        )
    }
}

/// The weights of a model: taken from the checkpoint, the projections of each layer that
/// has keys and values of its own fused.
pub open spec fn loaded<T>(tensors: Seq<CheckpointTensor>, config: Gemma4TextConfig<T>) -> std::result::Result<
    Shelved,
    Failure,
> {
    match taken(Shelved { names: seq![], weights: seq![] }, tensors) {
        Err(failure) => Err(failure),
        Ok(shelf) => match layers_fused(shelf, seq![], 0, physical_layers(config) as usize) {
            Err(failure) => Err(failure),
            Ok((left, done)) => Ok(fused_put(left, done)),
        },
    }
}

/// Takes the weights of a model from the checkpoint, and fuses projections.
fn load_weights<T>(tensors: Vec<CheckpointTensor>, config: &Gemma4TextConfig<T>) -> (r: Result<Shelf>)
    requires
        loadable(tensors@),
    ensures
        match r {
            Ok(shelf) => shelf.wf() && loaded(tensors@, *config) == std::result::Result::<
                Shelved,
                Failure,
            >::Ok(shelf@),
            Err(error) => loaded(tensors@, *config) == std::result::Result::<
                Shelved,
                Failure,
            >::Err(error@),
        },
{
    let ghost all = tensors@;
    assert(tensors.len() == all.len());
    let mut shelf = take(tensors)?;
    let ghost start = shelf@;
    proof {
        lemma_heights(Shelved { names: seq![], weights: seq![] }, all);
    }
    let layers: usize = first_shared(config);
    let mut done: Vec<Weight> = Vec::new();
    let ghost goal = layers_fused(start, seq![], 0, layers);
    assert(held(done@) =~= seq![]);
    let mut layer: usize = 0;
    while layer < layers
        invariant
            layer <= layers,
            layers == physical_layers(*config),
            shelf.wf(),
            roomy(shelf@),
            heights_fit(shelf@),
            done@.len() == layer,
            goal == layers_fused(start, seq![], 0, layers),
            goal == layers_fused(shelf@, held(done@), layer, layers),
            taken(Shelved { names: seq![], weights: seq![] }, all) == std::result::Result::<
                Shelved,
                Failure,
            >::Ok(start),
            all == tensors@,
        decreases layers - layer,
    {
        let ghost before = held(done@);
        let weight = fuse_layer(&mut shelf, layer)?;
        done.push(weight);
        assert(held(done@) =~= before.push(weight@));
        layer = layer + 1;
    }
    let ghost left = shelf@;
    let ghost weights = held(done@);
    let mut rest = done;
    let mut i: usize = 0;
    assert(weights.take(0) =~= seq![]);
    while rest.len() > 0
        invariant
            shelf.wf(),
            i + rest@.len() == weights.len(),
            weights.len() == layers,
            held(rest@) == weights.skip(i as int),
            shelf@ == fused_put(left, weights.take(i as int)),
            goal == std::result::Result::<(Shelved, Seq<Held>), Failure>::Ok((left, weights)),
            goal == layers_fused(start, seq![], 0, layers),
            layers == physical_layers(*config),
            taken(Shelved { names: seq![], weights: seq![] }, all) == std::result::Result::<
                Shelved,
                Failure,
            >::Ok(start),
            all == tensors@,
        decreases rest@.len(),
    {
        let ghost before = rest@;
        let weight = rest.remove(0);
        proof {
            assert(held(before)[0] == weight@);
            assert(weights[i as int] == weights.skip(i as int)[0]);
            assert(held(rest@) =~= held(before).drop_first());
            assert(held(rest@) =~= weights.skip(i + 1));
            assert(weights.take(i + 1).drop_last() =~= weights.take(i as int));
        }
        let name = name_of(&name_of(&prefix_of(i), ".self_attn"), ".qkv_proj.weight");
        shelf.put(name, weight);
        i = i + 1;
    }
    assert(weights.take(weights.len() as int) =~= weights);
    Ok(shelf)
}

/// Matrices that were taken are at least as long as they are high.
proof fn lemma_heights(shelf: Shelved, tensors: Seq<CheckpointTensor>)
    requires
        heights_fit(shelf),
        shelf.names.len() + tensors.len() <= usize::MAX,
        shelf.names.len() == shelf.weights.len(),
    ensures
        taken(shelf, tensors) matches Ok(after) ==> heights_fit(after),
    decreases tensors.len(),
{
    if tensors.len() > 0 {
        let tensor = tensors[0];
        if !crate::gemma4_cuda::shelf::is_used(tensor.name@) {
            lemma_heights(shelf, tensors.drop_first());
        } else if let Ok(view) = tensor.view {
            if let Ok(weight) = crate::gemma4_cuda::shelf::looked_at(tensor.name@, view) {
                let name = crate::gemma4_cuda::shelf::canonical(tensor.name@);
                lemma_place(shelf.names, name);
                let next = shelf.with(name, weight);
                if weight.shape.len() == 2 && weight.len > 0 {
                    crate::shape::lemma_numel_2(weight.shape);
                    let (a, b) = (weight.shape[0] as int, weight.shape[1] as int);
                    crate::shape::lemma_counted(weight.shape);
                    assert(a <= a * b) by (nonlinear_arith)
                        requires
                            a * b > 0,
                            a >= 0,
                            b >= 0,
                    ;
                }
                assert(heights_fit(next));
                lemma_heights(next, tensors.drop_first());
            }
        }
    }
}

/// The names of the weights that a layer needs, in the order in which they are looked up.
pub open spec fn needed_names(layer: usize, own: bool, ple: bool) -> Seq<Seq<char>> {
    let p = layer_prefix(layer);
    seq![
        p + ".input_layernorm.weight"@,
        p + if own {
            ".self_attn.qkv_proj.weight"@
        } else {
            ".self_attn.q_proj.weight"@
        },
        p + ".self_attn.q_norm.weight"@,
    ] + (if own {
        seq![p + ".self_attn.k_norm.weight"@]
    } else {
        seq![]
    }) + seq![
        p + ".self_attn.o_proj.weight"@,
        p + ".post_attention_layernorm.weight"@,
        p + ".pre_feedforward_layernorm.weight"@,
        p + ".mlp.gate_proj.weight"@,
        p + ".mlp.up_proj.weight"@,
        p + ".mlp.down_proj.weight"@,
        p + ".post_feedforward_layernorm.weight"@,
    ] + (if ple {
        seq![
            p + ".per_layer_input_gate.weight"@,
            p + ".per_layer_projection.weight"@,
            p + ".post_per_layer_input_norm.weight"@,
        ]
    } else {
        seq![]
    }) + seq![p + ".layer_scalar"@]
}

/// The names of the weights that a layer needs.
fn name_list(layer: usize, own: bool, ple: bool) -> (r: Vec<String>)
    ensures
        texts(r@) == needed_names(layer, own, ple),
{
    let p = prefix_of(layer);
    let mut r: Vec<String> = Vec::new();
    r.push(name_of(&p, ".input_layernorm.weight"));
    if own {
        r.push(name_of(&p, ".self_attn.qkv_proj.weight"));
    } else {
        r.push(name_of(&p, ".self_attn.q_proj.weight"));
    }
    r.push(name_of(&p, ".self_attn.q_norm.weight"));
    if own {
        r.push(name_of(&p, ".self_attn.k_norm.weight"));
    }
    r.push(name_of(&p, ".self_attn.o_proj.weight"));
    r.push(name_of(&p, ".post_attention_layernorm.weight"));
    r.push(name_of(&p, ".pre_feedforward_layernorm.weight"));
    r.push(name_of(&p, ".mlp.gate_proj.weight"));
    r.push(name_of(&p, ".mlp.up_proj.weight"));
    r.push(name_of(&p, ".mlp.down_proj.weight"));
    r.push(name_of(&p, ".post_feedforward_layernorm.weight"));
    if ple {
        r.push(name_of(&p, ".per_layer_input_gate.weight"));
        r.push(name_of(&p, ".per_layer_projection.weight"));
        r.push(name_of(&p, ".post_per_layer_input_norm.weight"));
    }
    r.push(name_of(&p, ".layer_scalar"));
    assert(texts(r@) =~= needed_names(layer, own, ple));
    r
}

/// The places of names, up to the first that has none.
pub open spec fn places_of(names: Seq<Seq<char>>, wanted: Seq<Seq<char>>, found: Seq<usize>) -> std::result::Result<
    Seq<usize>,
    Failure,
>
    decreases wanted.len(),
{
    if wanted.len() == 0 {
        Ok(found)
    } else {
        match place_of(names, wanted[0]) {
            None => Err(lacks(wanted[0])),
            Some(i) => places_of(names, wanted.drop_first(), found.push(i)),
        }
    }
}

/// The places of names.
fn find_places(names: &Vec<String>, wanted: &Vec<String>) -> (r: Result<Vec<usize>>)
    ensures
        match r {
            Ok(found) => {
                &&& places_of(texts(names@), texts(wanted@), seq![]) == std::result::Result::<
                    Seq<usize>,
                    Failure,
                >::Ok(found@)
                &&& found@.len() == wanted@.len()
                &&& forall|i: int| 0 <= i < found@.len() ==> (#[trigger] found@[i]) < names@.len()
            },
            Err(error) => places_of(texts(names@), texts(wanted@), seq![])
                == std::result::Result::<Seq<usize>, Failure>::Err(error@),
        },
{
    let ghost all = texts(names@);
    let ghost list = texts(wanted@);
    let mut found: Vec<usize> = Vec::new();
    let mut i: usize = 0;
    assert(list.skip(0) =~= list);
    assert(found@ =~= seq![]);
    while i < wanted.len()
        invariant
            i <= wanted.len(),
            all == texts(names@),
            list == texts(wanted@),
            found@.len() == i,
            forall|j: int| 0 <= j < i ==> (#[trigger] found@[j]) < names@.len(),
            places_of(all, list, seq![]) == places_of(all, list.skip(i as int), found@),
        decreases wanted.len() - i,
    {
        proof {
            assert(list.skip(i as int)[0] == wanted@[i as int]@);
            assert(list.skip(i as int).drop_first() =~= list.skip(i + 1));
        }
        match find_place(names, &wanted[i]) {
            Some(place) => {
                found.push(place);
            },
            None => {
                return Err(lacks_error(&wanted[i]));
            },
        }
        i = i + 1;
    }
    Ok(found)
}

/// The failure for a layer that has no cache to attend to.
pub open spec fn no_source(layer: usize, sliding: bool) -> Failure {
    Failure::Execution(
        "layer "@ + decimal(layer as nat) + if sliding {
            " has no sliding KV source"@
        } else {
            " has no global KV source"@
        },
    )
}

/// The plan of a layer, from the places of its weights.
pub open spec fn plan_of<T>(
    found: Seq<usize>,
    source: usize,
    own: bool,
    ple: bool,
    sliding: bool,
    head_dim: usize,
    rotary_dim: usize,
    theta: T,
    factor: T,
) -> LayerPlan<T> {
    let k = if own {
        1int
    } else {
        0int
    };
    LayerPlan {
        source,
        sliding,
        head_dim,
        rotary_dim,
        rope_theta: theta,
        rope_factor: factor,
        input_norm: found[0],
        query_projection: found[1],
        fused_qkv: own,
        query_norm: found[2],
        key_norm: if own {
            Some(found[3])
        } else {
            None
        },
        output_projection: found[3 + k],
        post_attention_norm: found[4 + k],
        pre_feedforward_norm: found[5 + k],
        gate_projection: found[6 + k],
        up_projection: found[7 + k],
        down_projection: found[8 + k],
        post_feedforward_norm: found[9 + k],
        ple_gate: if ple {
            Some(found[10 + k])
        } else {
            None
        },
        ple_projection: if ple {
            Some(found[11 + k])
        } else {
            None
        },
        ple_norm: if ple {
            Some(found[12 + k])
        } else {
            None
        },
        layer_scalar: found.last(),
    }
}

/// The outcome of planning a layer.
pub open spec fn layer_planned<T>(
    names: Seq<Seq<char>>,
    config: Gemma4TextConfig<T>,
    kinds: Seq<String>,
    layer: usize,
    rotary_dim: usize,
) -> std::result::Result<LayerPlan<T>, Failure> {
    let kind = kinds[layer as int]@;
    let sliding = is_sliding(kind);
    let own = layer < physical_layers(config);
    let ple = config.hidden_size_per_layer_input != 0;
    match if own {
        Some(layer)
    } else {
        last_of_kind(kinds, physical_layers(config), sliding)
    } {
        None => Err(no_source(layer, sliding)),
        Some(source) => match rope_of(config, kind) {
            None => Err(rope_missing(kind)),
            Some(rope) => match places_of(names, needed_names(layer, own, ple), seq![]) {
                Err(failure) => Err(failure),
                Ok(found) => Ok(
                    plan_of(
                        found,
                        source,
                        own,
                        ple,
                        sliding,
                        head_width(config, sliding),
                        rotary_dim,
                        rope.rope_theta,
                        rope.factor,
                    ),
                ),
            },
        },
    }
}

/// Plans a layer whose source is known.
fn plan_layer<T: Scalar>(
    names: &Vec<String>,
    config: &Gemma4TextConfig<T>,
    kind: &String,
    layer: usize,
    source: usize,
    own: bool,
    rotary_dim: usize,
) -> (r: Result<LayerPlan<T>>)
    ensures
        ({
            let sliding = is_sliding(kind@);
            let ple = config.hidden_size_per_layer_input != 0;
            let plan: std::result::Result<LayerPlan<T>, Failure> = match rope_of(*config, kind@) {
                None => Err(rope_missing(kind@)),
                Some(rope) => match places_of(
                    texts(names@),
                    needed_names(layer, own, ple),
                    seq![],
                ) {
                    Err(failure) => Err(failure),
                    Ok(found) => Ok(
                        plan_of(
                            found,
                            source,
                            own,
                            ple,
                            sliding,
                            head_width(*config, sliding),
                            rotary_dim,
                            rope.rope_theta,
                            rope.factor,
                        ),
                    ),
                },
            };
            match r {
                Ok(found) => plan == std::result::Result::<LayerPlan<T>, Failure>::Ok(found),
                Err(error) => plan == std::result::Result::<LayerPlan<T>, Failure>::Err(error@),
            }
        }),
{
    let sliding: bool = *kind == owned("sliding_attention");
    let head_dim: usize = if sliding {
        config.head_dim
    } else {
        config.global_head_dim
    };
    let turning = find_rope(config, kind)?;
    let ple: bool = config.hidden_size_per_layer_input != 0;
    let wanted = name_list(layer, own, ple);
    assert(texts(wanted@).len() == wanted@.len());
    let found = find_places(names, &wanted)?;
    let k: usize = if own {
        1
    } else {
        0
    };
    Ok(
        LayerPlan {
            source,
            sliding,
            head_dim,
            rotary_dim,
            rope_theta: turning.theta,
            rope_factor: turning.factor,
            input_norm: found[0],
            query_projection: found[1],
            fused_qkv: own,
            query_norm: found[2],
            key_norm: if own {
                Some(found[3])
            } else {
                None
            },
            output_projection: found[3 + k],
            post_attention_norm: found[4 + k],
            pre_feedforward_norm: found[5 + k],
            gate_projection: found[6 + k],
            up_projection: found[7 + k],
            down_projection: found[8 + k],
            post_feedforward_norm: found[9 + k],
            ple_gate: if ple {
                Some(found[10 + k])
            } else {
                None
            },
            ple_projection: if ple {
                Some(found[11 + k])
            } else {
                None
            },
            ple_norm: if ple {
                Some(found[12 + k])
            } else {
                None
            },
            layer_scalar: found[found.len() - 1],
        },
    )
}

/// The layers from one on planned, up to the first that cannot be.
pub open spec fn layers_planned<T>(
    names: Seq<Seq<char>>,
    config: Gemma4TextConfig<T>,
    kinds: Seq<String>,
    rotaries: Seq<usize>,
    layer: int,
    done: Seq<LayerPlan<T>>,
) -> std::result::Result<Seq<LayerPlan<T>>, Failure>
    decreases kinds.len() - layer,
{
    if layer >= kinds.len() {
        Ok(done)
    } else {
        match layer_planned(names, config, kinds, layer as usize, rotaries[layer]) {
            Err(failure) => Err(failure),
            Ok(plan) => layers_planned(
                names,
                config,
                kinds,
                rotaries,
                layer + 1,
                done.push(plan),
            ),
        }
    }
}

/// Plans all layers.
fn plan_layers<T: Scalar>(
    names: &Vec<String>,
    config: &Gemma4TextConfig<T>,
    kinds: &Vec<String>,
    rotaries: &Vec<usize>,
) -> (r: Result<Vec<LayerPlan<T>>>)
    requires
        rotaries@.len() == kinds@.len(),
    ensures
        ({
            let plan = layers_planned(
                texts(names@),
                *config,
                kinds@,
                rotaries@,
                0,
                seq![],
            );
            match r {
                Ok(done) => plan == std::result::Result::<Seq<LayerPlan<T>>, Failure>::Ok(done@)
                    && done@.len() == kinds@.len(),
                Err(error) => plan == std::result::Result::<Seq<LayerPlan<T>>, Failure>::Err(
                    error@,
                ),
            }
        }),
{
    let ghost all = texts(names@);
    let physical: usize = first_shared(config);
    let window_kind = owned("sliding_attention");
    let mut last_sliding: Option<usize> = None;
    let mut last_full: Option<usize> = None;
    let mut done: Vec<LayerPlan<T>> = Vec::new();
    let ghost goal = layers_planned(all, *config, kinds@, rotaries@, 0, seq![]);
    assert(done@ =~= seq![]);
    let mut layer: usize = 0;
    while layer < kinds.len()
        invariant
            layer <= kinds.len(),
            rotaries@.len() == kinds@.len(),
            all == texts(names@),
            physical == physical_layers(*config),
            window_kind@ == "sliding_attention"@,
            done@.len() == layer,
            goal == layers_planned(all, *config, kinds@, rotaries@, 0, seq![]),
            goal == layers_planned(all, *config, kinds@, rotaries@, layer as int, done@),
            last_sliding == last_of_kind(
                kinds@,
                if layer < physical {
                    layer as int
                } else {
                    physical as int
                },
                true,
            ),
            last_full == last_of_kind(
                kinds@,
                if layer < physical {
                    layer as int
                } else {
                    physical as int
                },
                false,
            ),
        decreases kinds.len() - layer,
    {
        let kind = &kinds[layer];
        let sliding: bool = *kind == window_kind;
        let own: bool = layer < physical;
        if own {
            if sliding {
                last_sliding = Some(layer);
            } else {
                last_full = Some(layer);
            }
        }
        let source = if own {
            Some(layer)
        } else if sliding {
            last_sliding
        } else {
            last_full
        };
        let source: usize = match source {
            Some(source) => source,
            None => {
                let mut message = owned("layer ");
                push_decimal(&mut message, layer);
                message.append(
                    if sliding {
                        " has no sliding KV source"
                    } else {
                        " has no global KV source"
                    },
                );
                return Err(Error::Execution(message));
            },
        };
        let plan = plan_layer(names, config, kind, layer, source, own, rotaries[layer])?;
        done.push(plan);
        layer = layer + 1;
    }
    Ok(done)
}

/// The outcome of loading a model from the tensors of a checkpoint.
pub open spec fn prepared<T: Scalar>(
    tensors: Seq<CheckpointTensor>,
    config: Gemma4TextConfig<T>,
    r: Result<Gemma4CudaState<T>>,
) -> bool {
    match loaded(tensors, config) {
        Err(failure) => r matches Err(error) && error@ == failure,
        Ok(shelf) => match config.layer_types {
            None => r matches Err(error) && error@ == Failure::Execution(
                "Gemma 4 layer_types are missing"@,
            ),
            Some(kinds) => exists|rotaries: Seq<usize>|
                {
                    &&& #[trigger] all_rotate(config, rotaries)
                    &&& match layers_planned(
                        shelf.names,
                        config,
                        kinds@,
                        rotaries,
                        0,
                        seq![],
                    ) {
                        Err(failure) => r matches Err(error) && error@ == failure,
                        Ok(plans) => r matches Ok(state) && {
                            &&& texts(state.names@) == shelf.names
                            &&& held(state.weights@) == shelf.weights
                            &&& state.decode_plan@ == plans
                        },
                    }
                },
        },
    }
}

impl<T: Scalar> Gemma4CudaState<T> {
    /// Loads a model from the tensors of a checkpoint: those that it uses are taken, by
    /// their names, projections are fused, and every layer is planned.
    pub fn load(tensors: Vec<CheckpointTensor>, config: &Gemma4TextConfig<T>) -> (r: Result<
        Gemma4CudaState<T>,
    >)
        requires
            loadable(tensors@),
            config.layer_types matches Some(kinds) ==> kinds@.len() == config.num_hidden_layers,
        ensures
            prepared(tensors@, *config, r),
    {
        let shelf = load_weights(tensors, config)?;
        let kinds = match &config.layer_types {
            Some(kinds) => kinds,
            None => {
                return Err(Error::execution("Gemma 4 layer_types are missing"));
            },
        };
        let rotaries = all_rotary_dims(config);
        assert(all_rotate(*config, rotaries@));
        let decode_plan = plan_layers(&shelf.names, config, kinds, &rotaries)?;
        Ok(Gemma4CudaState { weights: shelf.weights, names: shelf.names, decode_plan })
    }
}

impl<T: Scalar> Gemma4ForCausalLM<T> {
    /// The device of the model and what to upload to it, from the tensors of the model's
    /// checkpoint.
    pub fn prepare_cuda(&self, tensors: Vec<CheckpointTensor>) -> (r: Result<
        (usize, Gemma4CudaState<T>),
    >)
        requires
            loadable(tensors@),
            self.config.layer_types matches Some(kinds) ==> kinds@.len()
                == self.config.num_hidden_layers,
        ensures
            match (self.device, r) {
                (Device::Cuda(device), Ok((found, state))) => {
                    &&& found == device
                    &&& prepared(tensors@, self.config, Ok(state))
                },
                (Device::Cuda(_), Err(error)) => prepared(tensors@, self.config, Err(error)),
                (Device::Cpu, _) => r matches Err(error) && error@ == Failure::Execution(
                    "prepare_cuda requires a model on Device::Cuda"@,
                ),
            },
    {
        match self.device {
            Device::Cuda(device) => match Gemma4CudaState::load(tensors, &self.config) {
                Ok(state) => Ok((device, state)),
                Err(error) => Err(error),
            },
            Device::Cpu => {
                Err(Error::execution("prepare_cuda requires a model on Device::Cuda"))
            },
        }
    }
}

/// Plans are those of their layers.
proof fn lemma_planned<T>(
    names: Seq<Seq<char>>,
    config: Gemma4TextConfig<T>,
    kinds: Seq<String>,
    rotaries: Seq<usize>,
    layer: int,
    done: Seq<LayerPlan<T>>,
    plans: Seq<LayerPlan<T>>,
)
    requires
        0 <= layer <= kinds.len(),
        done.len() == layer,
        layers_planned(names, config, kinds, rotaries, layer, done) == std::result::Result::<
            Seq<LayerPlan<T>>,
            Failure,
        >::Ok(plans),
        forall|l: int|
            0 <= l < layer ==> layer_planned(names, config, kinds, l as usize, rotaries[l])
                == std::result::Result::<LayerPlan<T>, Failure>::Ok(#[trigger] done[l]),
    ensures
        plans.len() == kinds.len(),
        forall|l: int|
            0 <= l < plans.len() ==> layer_planned(names, config, kinds, l as usize, rotaries[l])
                == std::result::Result::<LayerPlan<T>, Failure>::Ok(#[trigger] plans[l]),
    decreases kinds.len() - layer,
{
    if layer < kinds.len() {
        let plan = layer_planned(names, config, kinds, layer as usize, rotaries[layer])->Ok_0;
        lemma_planned(names, config, kinds, rotaries, layer + 1, done.push(plan), plans);
    }
}

/// The plans of a loaded model agree with the caches that are made for it: a layer is
/// planned to attend to the cache that it has, or that it shares; and it has keys and
/// values of its own exactly where it has a cache of its own.
pub proof fn plans_agree_with_caches<T>(
    names: Seq<Seq<char>>,
    config: Gemma4TextConfig<T>,
    kinds: Seq<String>,
    rotaries: Seq<usize>,
    plans: Seq<LayerPlan<T>>,
    max_sequence: usize,
    table: Gemma4CudaCacheTable,
)
    requires
        kinds.len() <= usize::MAX,
        layers_planned(names, config, kinds, rotaries, 0, seq![]) == std::result::Result::<
            Seq<LayerPlan<T>>,
            Failure,
        >::Ok(plans),
        tabulates(
            config,
            kinds,
            max_sequence,
            kinds.len() as int,
            table.layers@,
            table.sources@,
        ),
    ensures
        plans.len() == table.layers@.len(),
        forall|l: int|
            0 <= l < plans.len() ==> {
                &&& (#[trigger] plans[l]).source == table.sources@[l]
                &&& plans[l].fused_qkv == (table.layers@[l] is Some)
                &&& plans[l].fused_qkv ==> plans[l].key_norm is Some
                &&& plans[l].sliding == is_sliding(kinds[l]@)
            },
{
    lemma_planned(names, config, kinds, rotaries, 0, seq![], plans);
    assert forall|l: int| 0 <= l < plans.len() implies {
        &&& (#[trigger] plans[l]).source == table.sources@[l]
        &&& plans[l].fused_qkv == (table.layers@[l] is Some)
        &&& plans[l].fused_qkv ==> plans[l].key_norm is Some
        &&& plans[l].sliding == is_sliding(kinds[l]@)
    } by {
        assert(layer_planned(names, config, kinds, l as usize, rotaries[l]) is Ok);
        assert(layer_entry(config, kinds, max_sequence, l) is Ok);
    }
}

} // verus!
