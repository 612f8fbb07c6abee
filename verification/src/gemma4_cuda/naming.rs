//! Which weights of a checkpoint the plan of a layer names.

use crate::gemma4_cuda::load::{layer_planned, needed_names, places_of};
use crate::gemma4_cuda::prompt::layer_prefix;
use crate::gemma4_cuda::shelf::place_of;
use crate::gemma4_cuda::weights::LayerPlan;
use crate::models::gemma4::Gemma4TextConfig;
use vstd::prelude::*;

verus! {

/// Places are found one by one.
proof fn lemma_places(names: Seq<Seq<char>>, wanted: Seq<Seq<char>>, found: Seq<usize>)
    requires
        places_of(names, wanted, found) is Ok,
    ensures
        ({
            let all = places_of(names, wanted, found)->Ok_0;
            &&& all.len() == found.len() + wanted.len()
            &&& forall|i: int| 0 <= i < found.len() ==> #[trigger] all[i] == found[i]
            &&& forall|i: int|
                0 <= i < wanted.len() ==> place_of(names, #[trigger] wanted[i]) == Some(
                    all[found.len() + i],
                )
        }),
    decreases wanted.len(),
{
    if wanted.len() > 0 {
        let next = place_of(names, wanted[0])->Some_0;
        let rest = wanted.drop_first();
        lemma_places(names, rest, found.push(next));
        let all = places_of(names, wanted, found)->Ok_0;
        assert(all == places_of(names, rest, found.push(next))->Ok_0);
        assert forall|i: int| 0 <= i < wanted.len() implies place_of(names, #[trigger] wanted[i])
            == Some(all[found.len() + i]) by {
            if i == 0 {
                assert(all[found.len() as int] == found.push(next)[found.len() as int]);
            } else {
                assert(rest[i - 1] == wanted[i]);
            }
        }
        assert forall|i: int| 0 <= i < found.len() implies #[trigger] all[i] == found[i] by {
            assert(all[i] == found.push(next)[i]);
        }
    }
}

/// The weight of a checkpoint that a layer's plan names by a number.
pub open spec fn stands_for(
    names: Seq<Seq<char>>,
    layer: usize,
    suffix: Seq<char>,
    number: usize,
) -> bool {
    place_of(names, layer_prefix(layer) + suffix) == Some(number)
}

/// The plan of a layer names the weights of that layer, each by the name of its part.
pub proof fn plans_name_their_weights<T>(
    names: Seq<Seq<char>>,
    config: Gemma4TextConfig<T>,
    kinds: Seq<String>,
    layer: usize,
    rotary_dim: usize,
    plan: LayerPlan<T>,
)
    requires
        layer_planned(names, config, kinds, layer, rotary_dim) == std::result::Result::<
            LayerPlan<T>,
            crate::error::Failure,
        >::Ok(plan),
    ensures
        stands_for(names, layer, ".input_layernorm.weight"@, plan.input_norm),
        plan.fused_qkv ==> stands_for(
            names,
            layer,
            ".self_attn.qkv_proj.weight"@,
            plan.query_projection,
        ),
        !plan.fused_qkv ==> stands_for(
            names,
            layer,
            ".self_attn.q_proj.weight"@,
            plan.query_projection,
        ),
        stands_for(names, layer, ".self_attn.q_norm.weight"@, plan.query_norm),
        plan.fused_qkv ==> plan.key_norm is Some && stands_for(
            names,
            layer,
            ".self_attn.k_norm.weight"@,
            plan.key_norm->Some_0,
        ),
        stands_for(names, layer, ".self_attn.o_proj.weight"@, plan.output_projection),
        stands_for(names, layer, ".post_attention_layernorm.weight"@, plan.post_attention_norm),
        stands_for(names, layer, ".pre_feedforward_layernorm.weight"@, plan.pre_feedforward_norm),
        stands_for(names, layer, ".mlp.gate_proj.weight"@, plan.gate_projection),
        stands_for(names, layer, ".mlp.up_proj.weight"@, plan.up_projection),
        stands_for(names, layer, ".mlp.down_proj.weight"@, plan.down_projection),
        stands_for(
            names,
            layer,
            ".post_feedforward_layernorm.weight"@,
            plan.post_feedforward_norm,
        ),
        config.hidden_size_per_layer_input != 0 ==> {
            &&& plan.ple_gate matches Some(gate) && stands_for(
                names,
                layer,
                ".per_layer_input_gate.weight"@,
                gate,
            )
            &&& plan.ple_projection matches Some(projection) && stands_for(
                names,
                layer,
                ".per_layer_projection.weight"@,
                projection,
            )
            &&& plan.ple_norm matches Some(norm) && stands_for(
                names,
                layer,
                ".post_per_layer_input_norm.weight"@,
                norm,
            )
        },
        stands_for(names, layer, ".layer_scalar"@, plan.layer_scalar),
{
    let own = plan.fused_qkv;
    let ple = config.hidden_size_per_layer_input != 0;
    let wanted = needed_names(layer, own, ple);
    lemma_places(names, wanted, seq![]);
    let k = if own {
        1int
    } else {
        0int
    };
    let p = layer_prefix(layer);
    assert(wanted[0] == p + ".input_layernorm.weight"@);
    assert(wanted[1] == p + if own {
        ".self_attn.qkv_proj.weight"@
    } else {
        ".self_attn.q_proj.weight"@
    });
    assert(wanted[2] == p + ".self_attn.q_norm.weight"@);
    if own {
        assert(wanted[3] == p + ".self_attn.k_norm.weight"@);
    }
    assert(wanted[3 + k] == p + ".self_attn.o_proj.weight"@);
    assert(wanted[4 + k] == p + ".post_attention_layernorm.weight"@);
    assert(wanted[5 + k] == p + ".pre_feedforward_layernorm.weight"@);
    assert(wanted[6 + k] == p + ".mlp.gate_proj.weight"@);
    assert(wanted[7 + k] == p + ".mlp.up_proj.weight"@);
    assert(wanted[8 + k] == p + ".mlp.down_proj.weight"@);
    assert(wanted[9 + k] == p + ".post_feedforward_layernorm.weight"@);
    if ple {
        assert(wanted[10 + k] == p + ".per_layer_input_gate.weight"@);
        assert(wanted[11 + k] == p + ".per_layer_projection.weight"@);
        assert(wanted[12 + k] == p + ".post_per_layer_input_norm.weight"@);
        assert(wanted.len() == 14 + k && wanted[13 + k] == p + ".layer_scalar"@);
    } else {
        assert(wanted.len() == 11 + k && wanted[10 + k] == p + ".layer_scalar"@);
    }
}

} // verus!
