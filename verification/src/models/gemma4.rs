//! The Gemma 4 text model: its configuration and its checkpoint.

use crate::copy::copies;
use crate::error::{Error, Failure, Result};
use crate::graph::{Device, Graph, Op};
use crate::safetensors::{
    describes, first_alias, loads_any, shows, spelled, texts, unknown, Dtype, LoadedTensor,
    SafeTensorLoader, TensorMetadata,
};
use crate::scalar::{counted, one, product, ratio, ratio_of, rooted, Scalar};
use crate::shape::{lemma_no_overflow, lemma_numel_2, numel, same_shape};
use crate::tensor::{lemma_extends, Tensor};
use crate::text::{decimal, owned, push_decimal, push_shape, shape_text};
use vstd::prelude::*;

pub use crate::models::attention::grouped_query_attention;
pub use crate::models::kv_cache::KvCache;
pub use crate::models::sampling::{sample_token, GenerationConfig};
pub use crate::models::tokenizer::Gemma4Tokenizer;

verus! {

/// The number of tokens, where a configuration names none.
pub fn default_vocab_size() -> (r: usize)
    ensures
        r == 262144,
{
    262144
}

/// The width of the model, where a configuration names none.
pub fn default_hidden_size() -> (r: usize)
    ensures
        r == 2304,
{
    2304
}

/// The width of the feed-forward layers, where a configuration names none.
pub fn default_intermediate_size() -> (r: usize)
    ensures
        r == 9216,
{
    9216
}

/// The number of layers, where a configuration names none.
pub fn default_layers() -> (r: usize)
    ensures
        r == 30,
{
    30
}

/// The number of heads, where a configuration names none.
pub fn default_heads() -> (r: usize)
    ensures
        r == 8,
{
    8
}

/// The number of key heads, where a configuration names none.
pub fn default_kv_heads() -> (r: usize)
    ensures
        r == 4,
{
    4
}

/// The width of a head, where a configuration names none.
pub fn default_head_dim() -> (r: usize)
    ensures
        r == 256,
{
    256
}

/// The width of a head of global layers, where a configuration names none.
pub fn default_global_head_dim() -> (r: usize)
    ensures
        r == 512,
{
    512
}

/// The longest sequence, where a configuration names none.
pub fn default_max_positions() -> (r: usize)
    ensures
        r == 131072,
{
    131072
}

/// The window of local layers, where a configuration names none.
pub fn default_sliding_window() -> (r: usize)
    ensures
        r == 512,
{
    512
}

/// What is added to variances, where a configuration names nothing.
pub fn default_eps<T: Scalar>() -> (r: T)
    ensures
        ratio(1, 1000000, r),
{
    ratio_of(1, 1000000)
}

/// The number of tokens with an embedding per layer, where a configuration names none.
pub fn default_ple_vocab() -> (r: usize)
    ensures
        r == 262144,
{
    262144
}

/// The width of the embeddings per layer, where a configuration names none.
pub fn default_ple_dim() -> (r: usize)
    ensures
        r == 256,
{
    256
}

/// What a configuration says that names nothing, where that is yes.
pub fn default_true() -> (r: bool)
    ensures
        r,
{
    true
}

/// The base of rotary frequencies, where a configuration names none.
pub fn default_rope_theta<T: Scalar>() -> (r: T)
    ensures
        counted(10000, r),
{
    T::of_count(10000)
}

/// A factor, where a configuration names none.
pub fn default_rope_factor<T: Scalar>() -> (r: T)
    ensures
        one(r),
{
    T::of_count(1)
}

/// The rotary embedding of a type of layer.
#[derive(Clone, Debug)]
pub struct Gemma4RopeParameters<T> {
    pub rope_theta: T,
    pub rope_type: String,
    pub partial_rotary_factor: T,
    pub factor: T,
}

/// The part of a Hugging Face configuration that the model uses.
#[derive(Clone, Debug)]
pub struct Gemma4TextConfig<T> {
    pub vocab_size: usize,
    pub hidden_size: usize,
    pub intermediate_size: usize,
    pub num_hidden_layers: usize,
    pub num_attention_heads: usize,
    pub num_key_value_heads: usize,
    pub num_global_key_value_heads: Option<usize>,
    pub head_dim: usize,
    pub global_head_dim: usize,
    pub max_position_embeddings: usize,
    pub sliding_window: usize,
    pub rms_norm_eps: T,
    pub layer_types: Option<Vec<String>>,
    pub vocab_size_per_layer_input: usize,
    pub hidden_size_per_layer_input: usize,
    pub attention_k_eq_v: bool,
    pub num_kv_shared_layers: usize,
    pub enable_moe_block: bool,
    pub use_double_wide_mlp: bool,
    pub final_logit_softcapping: Option<T>,
    /// By the type of layer; no type stands twice.
    pub rope_parameters: Option<Vec<(String, Gemma4RopeParameters<T>)>>,
    pub tie_word_embeddings: bool,
}

/// The type of a layer, where the configuration names none: every sixth layer and the
/// last one attend to all positions, the others to a window.
pub open spec fn layer_type(layer: int, layers: int) -> Seq<char> {
    if (layer + 1) % 6 == 0 || layer + 1 == layers {
        "full_attention"@
    } else {
        "sliding_attention"@
    }
}

/// The types of all layers, where the configuration names none.
pub open spec fn layer_types(layers: nat) -> Seq<Seq<char>> {
    Seq::new(layers, |layer: int| layer_type(layer, layers as int))
}

/// The rotary embeddings, where the configuration names none.
pub open spec fn standard_rope<T: Scalar>(ropes: Seq<(String, Gemma4RopeParameters<T>)>) -> bool {
    &&& ropes.len() == 2
    &&& ropes[0].0@ == "sliding_attention"@
    &&& counted(10000, ropes[0].1.rope_theta)
    &&& ropes[0].1.rope_type@ == "default"@
    &&& one(ropes[0].1.partial_rotary_factor)
    &&& one(ropes[0].1.factor)
    &&& ropes[1].0@ == "full_attention"@
    &&& counted(1000000, ropes[1].1.rope_theta)
    &&& ropes[1].1.rope_type@ == "proportional"@
    &&& ratio(1, 4, ropes[1].1.partial_rotary_factor)
    &&& one(ropes[1].1.factor)
}

impl<T> Gemma4TextConfig<T> {
    /// The heads can share key heads, and there is something to compute.
    pub open spec fn attentive(self) -> bool {
        &&& self.num_attention_heads > 0
        &&& self.num_key_value_heads > 0
        &&& self.num_attention_heads % self.num_key_value_heads == 0
        &&& self.hidden_size > 0
        &&& self.num_hidden_layers > 0
    }

    /// Why the configuration cannot be used.
    pub open spec fn unusable(self) -> Option<Failure> {
        if !self.attentive() {
            Some(Failure::InvalidShape("invalid Gemma 4 attention configuration"@))
        } else if self.layer_types matches Some(types) && types@.len() != self.num_hidden_layers {
            Some(
                Failure::InvalidShape(
                    "Gemma 4 layer_types length does not match num_hidden_layers"@,
                ),
            )
        } else {
            None
        }
    }

    /// Usable, and with nothing left to fill in.
    pub open spec fn complete(self) -> bool {
        &&& self.attentive()
        &&& self.layer_types matches Some(types) && types@.len() == self.num_hidden_layers
        &&& self.rope_parameters is Some
    }
}

/// `r` is a configuration with what it leaves open filled in.
pub open spec fn filled_in<T: Scalar>(config: Gemma4TextConfig<T>, r: Gemma4TextConfig<T>) -> bool {
    &&& r.complete()
    &&& r == (Gemma4TextConfig {
        layer_types: r.layer_types,
        rope_parameters: r.rope_parameters,
        ..config
    })
    &&& match config.layer_types {
        Some(_) => r.layer_types == config.layer_types,
        None => texts(r.layer_types->Some_0@) == layer_types(config.num_hidden_layers as nat),
    }
    &&& match config.rope_parameters {
        Some(_) => r.rope_parameters == config.rope_parameters,
        None => standard_rope(r.rope_parameters->Some_0@),
    }
}

/// The types of all layers, where the configuration names none.
fn default_layer_types(layers: usize) -> (r: Vec<String>)
    ensures
        texts(r@) == layer_types(layers as nat),
{
    let mut r: Vec<String> = Vec::with_capacity(layers);
    let mut i: usize = 0;
    while i < layers
        invariant
            i <= layers,
            r@.len() == i,
            forall|j: int| 0 <= j < i ==> (#[trigger] r@[j])@ == layer_type(j, layers as int),
        decreases layers - i,
    {
        if (i + 1) % 6 == 0 || i + 1 == layers {
            r.push(owned("full_attention"));
        } else {
            r.push(owned("sliding_attention"));
        }
        i = i + 1;
    }
    assert(texts(r@) =~= layer_types(layers as nat));
    r
}

/// The rotary embeddings, where the configuration names none.
fn default_ropes<T: Scalar>() -> (r: Vec<(String, Gemma4RopeParameters<T>)>)
    ensures
        standard_rope(r@),
{
    let local = Gemma4RopeParameters {
        rope_theta: T::of_count(10000),
        rope_type: owned("default"),
        partial_rotary_factor: T::of_count(1),
        factor: T::of_count(1),
    };
    let global = Gemma4RopeParameters {
        rope_theta: T::of_count(1000000),
        rope_type: owned("proportional"),
        partial_rotary_factor: ratio_of(1, 4),
        factor: T::of_count(1),
    };
    let mut r: Vec<(String, Gemma4RopeParameters<T>)> = Vec::new();
    r.push((owned("sliding_attention"), local));
    r.push((owned("full_attention"), global));
    r
}

impl<T: Scalar> Gemma4TextConfig<T> {
    /// Checks the configuration and fills in what it leaves open.
    pub fn finish(self) -> (r: Result<Gemma4TextConfig<T>>)
        ensures
            match self.unusable() {
                Some(failure) => r matches Err(error) && error@ == failure,
                None => r matches Ok(config) && filled_in(self, config),
            },
    {
        let mut config = self;
        if config.num_attention_heads == 0 || config.num_key_value_heads == 0
            || config.num_attention_heads % config.num_key_value_heads != 0 || config.hidden_size
            == 0 || config.num_hidden_layers == 0 {
            return Err(Error::shape("invalid Gemma 4 attention configuration"));
        }
        let types = match config.layer_types {
            Some(types) => types,
            None => {
                let types = default_layer_types(config.num_hidden_layers);
                assert(texts(types@).len() == types@.len());
                types
            },
        };
        if types.len() != config.num_hidden_layers {
            return Err(
                Error::shape("Gemma 4 layer_types length does not match num_hidden_layers"),
            );
        }
        config.layer_types = Some(types);
        let ropes = match config.rope_parameters {
            Some(ropes) => ropes,
            None => default_ropes(),
        };
        config.rope_parameters = Some(ropes);
        Ok(config)
    }
}

/// The last layer attends to all positions, where the configuration names no types.
pub proof fn last_layer_is_global(layers: nat)
    requires
        layers > 0,
    ensures
        layer_types(layers).len() == layers,
        layer_types(layers).last() == "full_attention"@,
{
}

/// The checkpoint of a Gemma 4 causal language model.  Its shards stay on disk, and a
/// weight is decoded when it is asked for.
#[derive(Clone, Debug)]
pub struct Gemma4ForCausalLM<T> {
    pub config: Gemma4TextConfig<T>,
    pub weights: SafeTensorLoader,
    pub device: Device,
    pub root: String,
}

/// The names under which a checkpoint may hold a weight, in the order in which they
/// are tried.
pub open spec fn aliases(suffix: Seq<char>) -> Seq<Seq<char>> {
    seq![
        "model."@ + suffix,
        "model.language_model."@ + suffix,
        "language_model."@ + suffix,
        suffix,
    ]
}

/// The checkpoint holds a weight under one of its names.
pub open spec fn holds(shards: Map<Seq<char>, Seq<char>>, suffix: Seq<char>) -> bool {
    !unknown(shards, aliases(suffix))
}

/// The failure for a weight that the checkpoint does not hold.
pub open spec fn lacking(suffix: Seq<char>) -> Failure {
    Failure::Execution("required Gemma 4 tensor `"@ + suffix + "` is missing"@)
}

/// The weights of the norms of a layer.
pub open spec fn layer_norms(layer: nat) -> Seq<Seq<char>> {
    let prefix = "layers."@ + decimal(layer) + "."@;
    seq![
        prefix + "input_layernorm"@ + ".weight"@,
        prefix + "post_attention_layernorm"@ + ".weight"@,
        prefix + "pre_feedforward_layernorm"@ + ".weight"@,
        prefix + "post_feedforward_layernorm"@ + ".weight"@,
    ]
}

/// The weights of the norms of the first layers.
pub open spec fn all_layer_norms(layers: nat) -> Seq<Seq<char>>
    decreases layers,
{
    if layers == 0 {
        seq![]
    } else {
        all_layer_norms((layers - 1) as nat) + layer_norms((layers - 1) as nat)
    }
}

/// The weights that a checkpoint must hold, in the order in which they are looked for.
pub open spec fn required(layers: nat, tied: bool) -> Seq<Seq<char>> {
    seq!["embed_tokens.weight"@, "norm.weight"@] + all_layer_norms(layers) + if tied {
        seq![]
    } else {
        seq!["lm_head.weight"@]
    }
}

/// Every weight of a list is held.
pub open spec fn holds_all(shards: Map<Seq<char>, Seq<char>>, suffixes: Seq<Seq<char>>) -> bool {
    forall|i: int| 0 <= i < suffixes.len() ==> holds(shards, #[trigger] suffixes[i])
}

/// The weight is the first of a list that is not held.
pub open spec fn first_lacking(
    shards: Map<Seq<char>, Seq<char>>,
    suffixes: Seq<Seq<char>>,
    i: int,
) -> bool {
    &&& 0 <= i < suffixes.len()
    &&& !holds(shards, suffixes[i])
    &&& forall|j: int| 0 <= j < i ==> holds(shards, #[trigger] suffixes[j])
}

/// The outcome of looking for all weights of a list.
pub open spec fn checks(
    shards: Map<Seq<char>, Seq<char>>,
    suffixes: Seq<Seq<char>>,
    r: Result<()>,
) -> bool {
    match r {
        Ok(_) => holds_all(shards, suffixes),
        Err(error) => exists|i: int| #[trigger]
            first_lacking(shards, suffixes, i) && error@ == lacking(suffixes[i]),
    }
}

proof fn lemma_checks_prefix(
    shards: Map<Seq<char>, Seq<char>>,
    some: Seq<Seq<char>>,
    more: Seq<Seq<char>>,
    r: Result<()>,
)
    requires
        checks(shards, some, r),
        r is Err,
    ensures
        checks(shards, some + more, r),
{
    let error = r->Err_0;
    let i = choose|i: int| #[trigger]
        first_lacking(shards, some, i) && error@ == lacking(some[i]);
    let all = some + more;
    assert forall|j: int| 0 <= j < i implies holds(shards, #[trigger] all[j]) by {
        assert(all[j] == some[j]);
    }
    assert(all[i] == some[i]);
    assert(first_lacking(shards, all, i));
}

proof fn lemma_checks_after(
    shards: Map<Seq<char>, Seq<char>>,
    some: Seq<Seq<char>>,
    more: Seq<Seq<char>>,
    r: Result<()>,
)
    requires
        holds_all(shards, some),
        checks(shards, more, r),
    ensures
        checks(shards, some + more, r),
{
    let all = some + more;
    match r {
        Ok(_) => {
            assert forall|j: int| 0 <= j < all.len() implies holds(shards, #[trigger] all[j]) by {
                if j < some.len() {
                    assert(all[j] == some[j]);
                } else {
                    assert(all[j] == more[j - some.len()]);
                }
            }
        },
        Err(error) => {
            let i = choose|i: int| #[trigger]
                first_lacking(shards, more, i) && error@ == lacking(more[i]);
            let at = some.len() + i;
            assert forall|j: int| 0 <= j < at implies holds(shards, #[trigger] all[j]) by {
                if j < some.len() {
                    assert(all[j] == some[j]);
                } else {
                    assert(all[j] == more[j - some.len()]);
                }
            }
            assert(all[at] == more[i]);
            assert(first_lacking(shards, all, at));
        },
    }
}

/// Two parts of text joined.
fn joined_text(a: &str, b: &str) -> (r: String)
    ensures
        r@ == a@ + b@,
{
    let mut r = owned(a);
    r.append(b);
    r
}

impl<T: Scalar> Gemma4ForCausalLM<T> {
    /// The configuration is complete, and the checkpoint holds what it must.
    pub open spec fn wf(self) -> bool {
        &&& self.config.complete()
        &&& self.weights.wf()
        &&& holds_all(
            self.weights@.shards,
            required(self.config.num_hidden_layers as nat, self.config.tie_word_embeddings),
        )
    }

    /// The names under which a checkpoint may hold a weight.
    pub fn weight_aliases(suffix: &str) -> (r: Vec<String>)
        ensures
            texts(r@) == aliases(suffix@),
    {
        let mut r: Vec<String> = Vec::with_capacity(4);
        r.push(joined_text("model.", suffix));
        r.push(joined_text("model.language_model.", suffix));
        r.push(joined_text("language_model.", suffix));
        r.push(owned(suffix));
        assert(texts(r@) =~= aliases(suffix@));
        r
    }

    /// The name under which the checkpoint holds a weight: the first that exists.
    pub fn weight_name(&self, suffix: &str) -> (r: Result<String>)
        requires
            self.weights.wf(),
        ensures
            match r {
                Ok(name) => exists|i: int| #[trigger]
                    first_alias(self.weights@.shards, aliases(suffix@), i) && aliases(suffix@)[i] == name@,
                Err(error) => !holds(self.weights@.shards, suffix@) && error@ == lacking(suffix@),
            },
    {
        let names = Self::weight_aliases(suffix);
        let ghost all = aliases(suffix@);
        let mut i: usize = 0;
        while i < names.len()
            invariant
                i <= names.len(),
                self.weights.wf(),
                texts(names@) == all,
                all == aliases(suffix@),
                forall|j: int| 0 <= j < i ==> !self.weights@.shards.dom().contains(#[trigger] all[j]),
            decreases names.len() - i,
        {
            assert(all[i as int] == names@[i as int]@);
            if self.weights.contains(names[i].as_str()) {
                assert(first_alias(self.weights@.shards, all, i as int));
                return Ok(names[i].clone());
            }
            i = i + 1;
        }
        assert(all.len() == names@.len());
        let mut message = owned("required Gemma 4 tensor `");
        message.append(suffix);
        message.append("` is missing");
        Err(Error::Execution(message))
    }

    /// Looks for a weight.
    pub fn require_weight(&self, suffix: &str) -> (r: Result<()>)
        requires
            self.weights.wf(),
        ensures
            match r {
                Ok(_) => holds(self.weights@.shards, suffix@),
                Err(error) => !holds(self.weights@.shards, suffix@) && error@ == lacking(suffix@),
            },
            checks(self.weights@.shards, seq![suffix@], r),
    {
        let ghost all = aliases(suffix@);
        let r = match self.weight_name(suffix) {
            Ok(name) => {
                proof {
                    let i = choose|i: int| #[trigger]
                        first_alias(self.weights@.shards, all, i) && all[i] == name@;
                    assert(self.weights@.shards.dom().contains(all[i]));
                }
                Ok(())
            },
            Err(error) => Err(error),
        };
        proof {
            let alone = seq![suffix@];
            assert(alone[0] == suffix@);
            if r is Err {
                assert(first_lacking(self.weights@.shards, alone, 0));
            }
        }
        r
    }

    /// Looks for the weights of the norms of a layer.
    fn require_layer(&self, layer: usize) -> (r: Result<()>)
        requires
            self.weights.wf(),
        ensures
            checks(self.weights@.shards, layer_norms(layer as nat), r),
    {
        let mut prefix = owned("layers.");
        push_decimal(&mut prefix, layer);
        prefix.append(".");
        let norms: [&str; 4] = [
            "input_layernorm",
            "post_attention_layernorm",
            "pre_feedforward_layernorm",
            "post_feedforward_layernorm",
        ];
        let ghost all = layer_norms(layer as nat);
        let mut i: usize = 0;
        while i < 4
            invariant
                i <= 4,
                self.weights.wf(),
                prefix@ == "layers."@ + decimal(layer as nat) + "."@,
                all == layer_norms(layer as nat),
                norms@[0]@ == "input_layernorm"@,
                norms@[1]@ == "post_attention_layernorm"@,
                norms@[2]@ == "pre_feedforward_layernorm"@,
                norms@[3]@ == "post_feedforward_layernorm"@,
                forall|j: int| 0 <= j < i ==> holds(self.weights@.shards, #[trigger] all[j]),
            decreases 4 - i,
        {
            let mut suffix = joined_text(prefix.as_str(), norms[i]);
            suffix.append(".weight");
            assert(suffix@ =~= all[i as int]);
            match self.require_weight(suffix.as_str()) {
                Ok(_) => {},
                Err(error) => {
                    assert(first_lacking(self.weights@.shards, all, i as int));
                    return Err(error);
                },
            }
            i = i + 1;
        }
        Ok(())
    }

    /// Looks for every weight that the checkpoint must hold.
    pub fn validate_checkpoint(&self) -> (r: Result<()>)
        requires
            self.weights.wf(),
        ensures
            checks(
                self.weights@.shards,
                required(self.config.num_hidden_layers as nat, self.config.tie_word_embeddings),
                r,
            ),
    {
        let layers: usize = self.config.num_hidden_layers;
        let ghost shards = self.weights@.shards;
        let ghost tied = self.config.tie_word_embeddings;
        let ghost first = seq!["embed_tokens.weight"@, "norm.weight"@];
        let ghost last: Seq<Seq<char>> = if tied {
            seq![]
        } else {
            seq!["lm_head.weight"@]
        };
        let ghost whole = required(layers as nat, tied);
        match self.require_weight("embed_tokens.weight") {
            Ok(_) => {},
            Err(error) => {
                proof {
                    let r: Result<()> = Err(error);
                    let rest = seq!["norm.weight"@] + all_layer_norms(layers as nat) + last;
                    lemma_checks_prefix(shards, seq!["embed_tokens.weight"@], rest, r);
                    assert(seq!["embed_tokens.weight"@] + rest =~= whole);
                }
                return Err(error);
            },
        }
        match self.require_weight("norm.weight") {
            Ok(_) => {},
            Err(error) => {
                proof {
                    let r: Result<()> = Err(error);
                    lemma_checks_after(
                        shards,
                        seq!["embed_tokens.weight"@],
                        seq!["norm.weight"@],
                        r,
                    );
                    let rest = all_layer_norms(layers as nat) + last;
                    let some = seq!["embed_tokens.weight"@] + seq!["norm.weight"@];
                    lemma_checks_prefix(shards, some, rest, r);
                    assert(some + rest =~= whole);
                }
                return Err(error);
            },
        }
        let mut layer: usize = 0;
        proof {
            assert(first + all_layer_norms(0) =~= first);
            assert(first[0] == "embed_tokens.weight"@ && first[1] == "norm.weight"@);
            assert(holds_all(shards, first + all_layer_norms(0)));
        }
        while layer < layers
            invariant
                layer <= layers,
                self.weights.wf(),
                shards == self.weights@.shards,
                first == seq!["embed_tokens.weight"@, "norm.weight"@],
                whole == first + all_layer_norms(layers as nat) + last,
                whole == required(
                    self.config.num_hidden_layers as nat,
                    self.config.tie_word_embeddings,
                ),
                holds_all(shards, first + all_layer_norms(layer as nat)),
            decreases layers - layer,
        {
            let r = self.require_layer(layer);
            proof {
                let some = first + all_layer_norms(layer as nat);
                lemma_checks_after(shards, some, layer_norms(layer as nat), r);
                assert(some + layer_norms(layer as nat) =~= first + all_layer_norms(
                    (layer + 1) as nat,
                ));
                if r is Err {
                    lemma_norms_prefix((layer + 1) as nat, layers as nat);
                    let rest = all_layer_norms(layers as nat).skip(
                        all_layer_norms((layer + 1) as nat).len() as int,
                    );
                    lemma_checks_prefix(
                        shards,
                        first + all_layer_norms((layer + 1) as nat),
                        rest + last,
                        r,
                    );
                    assert(first + all_layer_norms((layer + 1) as nat) + (rest + last) =~= whole);
                }
            }
            match r {
                Ok(_) => {},
                Err(error) => {
                    return Err(error);
                },
            }
            layer = layer + 1;
        }
        if !self.config.tie_word_embeddings {
            let r = self.require_weight("lm_head.weight");
            proof {
                lemma_checks_after(shards, first + all_layer_norms(layers as nat), last, r);
            }
            return r;
        }
        proof {
            let r: Result<()> = Ok(());
            lemma_checks_after(shards, first + all_layer_norms(layers as nat), last, r);
        }
        Ok(())
    }

    /// Puts a checkpoint together from its configuration and its shards, as they were
    /// read, and checks that it is whole.
    pub fn from_pretrained(
        directory: String,
        config: Result<Gemma4TextConfig<T>>,
        weights: Result<SafeTensorLoader>,
        device: Device,
    ) -> (r: Result<Gemma4ForCausalLM<T>>)
        requires
            weights matches Ok(loader) ==> loader.wf(),
        ensures
            match config {
                Err(failure) => r matches Err(error) && error@ == failure@,
                Ok(given) => match given.unusable() {
                    Some(failure) => r matches Err(error) && error@ == failure,
                    None => match weights {
                        Err(failure) => r matches Err(error) && error@ == failure@,
                        Ok(loader) => match r {
                            Ok(model) => {
                                &&& model.wf()
                                &&& filled_in(given, model.config)
                                &&& model.weights == loader
                                &&& model.device == device
                                &&& model.root == directory
                                &&& checks(
                                    loader@.shards,
                                    required(
                                        given.num_hidden_layers as nat,
                                        given.tie_word_embeddings,
                                    ),
                                    Ok(()),
                                )
                            },
                            Err(error) => checks(
                                loader@.shards,
                                required(given.num_hidden_layers as nat, given.tie_word_embeddings),
                                Err(error),
                            ),
                        },
                    },
                },
            },
    {
        let config = config?;
        let config = config.finish()?;
        let weights = weights?;
        let model = Gemma4ForCausalLM { config, weights, device, root: directory };
        match model.validate_checkpoint() {
            Ok(_) => Ok(model),
            Err(error) => Err(error),
        }
    }

    /// The configuration.
    #[must_use]
    pub fn config(&self) -> (r: &Gemma4TextConfig<T>)
        ensures
            *r == self.config,
    {
        &self.config
    }

    /// The device.
    #[must_use]
    pub fn device(&self) -> (r: Device)
        ensures
            r == self.device,
    {
        self.device
    }

    /// The directory of the checkpoint.
    #[must_use]
    pub fn checkpoint_directory(&self) -> (r: &str)
        ensures
            r@ == self.root@,
    {
        self.root.as_str()
    }

    /// Loads a weight under the first of its names that exists, from the bytes of the
    /// shard that it is in.
    pub fn weight(&self, suffix: &str, file: Result<Vec<u8>>) -> (r: Result<LoadedTensor<T>>)
        requires
            self.weights.wf(),
        ensures
            loads_any(self.weights@.shards, aliases(suffix@), file, r),
    {
        let names = Self::weight_aliases(suffix);
        let mut list: Vec<&str> = Vec::with_capacity(names.len());
        let mut i: usize = 0;
        while i < names.len()
            invariant
                i <= names.len(),
                list@.len() == i,
                forall|j: int| 0 <= j < i ==> (#[trigger] list@[j])@ == names@[j]@,
            decreases names.len() - i,
        {
            list.push(names[i].as_str());
            i = i + 1;
        }
        assert(spelled(list@) =~= texts(names@));
        self.weights.load_any(&list, file)
    }

    /// Loads a weight as a tensor on the device of the model.  `available` says whether a
    /// device other than the host can be used.
    pub fn weight_tensor(
        &self,
        graph: &mut Graph<T>,
        suffix: &str,
        file: Result<Vec<u8>>,
        available: bool,
    ) -> (r: Result<Tensor>)
        requires
            self.weights.wf(),
            old(graph).wf(),
        ensures
            final(graph).wf(),
            exists|loaded: Result<LoadedTensor<T>>| #[trigger]
                loads_any(self.weights@.shards, aliases(suffix@), file, loaded) && match loaded {
                    Err(failure) => r matches Err(error) && error@ == failure@ && *final(graph)
                        == *old(graph),
                    Ok(tensor) => places(
                        *old(graph),
                        *final(graph),
                        tensor,
                        self.device,
                        available,
                        r,
                    ),
                },
    {
        let loaded = self.weight(suffix, file);
        assert(loads_any(self.weights@.shards, aliases(suffix@), file, loaded));
        match loaded {
            Ok(tensor) => tensor.into_tensor(graph, self.device, available),
            Err(error) => Err(error),
        }
    }

    /// The element type and the dimensions of a weight, from the bytes of the shard
    /// that it is in.
    pub fn weight_metadata(&self, suffix: &str, file: Result<Vec<u8>>) -> (r: Result<
        TensorMetadata,
    >)
        requires
            self.weights.wf(),
        ensures
            holds(self.weights@.shards, suffix@) ==> exists|i: int| #[trigger]
                first_alias(self.weights@.shards, aliases(suffix@), i) && describes(
                    self.weights@.shards,
                    aliases(suffix@)[i],
                    file,
                    r,
                ),
            !holds(self.weights@.shards, suffix@) ==> (r matches Err(error) && error@ == lacking(
                suffix@,
            )),
    {
        let name = match self.weight_name(suffix) {
            Ok(name) => name,
            Err(error) => {
                return Err(error);
            },
        };
        proof {
            let i = choose|i: int| #[trigger]
                first_alias(self.weights@.shards, aliases(suffix@), i) && aliases(suffix@)[i] == name@;
            assert(self.weights@.shards.dom().contains(aliases(suffix@)[i]));
        }
        self.weights.metadata(name.as_str(), file)
    }

    /// Hands the element type, the dimensions and the bytes of a weight to a visitor.
    pub fn with_weight_view<R, F: FnOnce(Dtype, &Vec<usize>, &Vec<u8>) -> Result<R>>(
        &self,
        suffix: &str,
        file: Result<Vec<u8>>,
        visitor: F,
    ) -> (r: Result<R>)
        requires
            self.weights.wf(),
            forall|dtype: Dtype, shape: &Vec<usize>, bytes: &Vec<u8>| #[trigger]
                visitor.requires((dtype, shape, bytes)),
        ensures
            !holds(self.weights@.shards, suffix@) ==> (r matches Err(error) && error@ == lacking(
                suffix@,
            )),
            holds(self.weights@.shards, suffix@) ==> exists|
                i: int,
                shown: Result<(Dtype, Vec<usize>, Vec<u8>)>,
            |
                {
                    &&& #[trigger] first_alias(self.weights@.shards, aliases(suffix@), i)
                    &&& #[trigger] shows(self.weights@.shards, aliases(suffix@)[i], file, shown)
                    &&& match shown {
                        Ok((dtype, shape, bytes)) => visitor.ensures((dtype, &shape, &bytes), r),
                        Err(failure) => r matches Err(error) && error@ == failure@,
                    }
                },
    {
        let name = match self.weight_name(suffix) {
            Ok(name) => name,
            Err(error) => {
                return Err(error);
            },
        };
        proof {
            let i = choose|i: int| #[trigger]
                first_alias(self.weights@.shards, aliases(suffix@), i) && aliases(suffix@)[i] == name@;
            assert(self.weights@.shards.dom().contains(aliases(suffix@)[i]));
        }
        let shown = self.weights.view_of(name.as_str(), file);
        assert(shows(self.weights@.shards, name@, file, shown));
        match shown {
            Ok((dtype, shape, bytes)) => visitor(dtype, &shape, &bytes),
            Err(error) => Err(error),
        }
    }
}

/// The norms of the first layers come first among the norms of more layers.
proof fn lemma_norms_prefix(some: nat, all: nat)
    requires
        some <= all,
    ensures
        all_layer_norms(some).len() <= all_layer_norms(all).len(),
        all_layer_norms(all).take(all_layer_norms(some).len() as int) == all_layer_norms(some),
    decreases all,
{
    if some < all {
        lemma_norms_prefix(some, (all - 1) as nat);
        let before = all_layer_norms((all - 1) as nat);
        let len = all_layer_norms(some).len() as int;
        assert(all_layer_norms(all).take(len) =~= before.take(len));
    } else {
        assert(all_layer_norms(all).take(all_layer_norms(some).len() as int) =~= all_layer_norms(
            some,
        ));
    }
}

/// The outcome of placing loaded data on a device.
pub open spec fn places<T>(
    before: Graph<T>,
    after: Graph<T>,
    loaded: LoadedTensor<T>,
    device: Device,
    available: bool,
    r: Result<Tensor>,
) -> bool {
    match r {
        Ok(tensor) => {
            &&& loaded.placeable(device, available) is Ok
            &&& after.extends(before)
            &&& after.next_parameter == before.next_parameter
            &&& after.norms == before.norms
            &&& after.has(tensor)
            &&& tensor.id > before.nodes@.len()
            &&& tensor.shape@ == loaded.shape@
            &&& tensor.device == device
            &&& after.nodes@[before.nodes@.len() as int].op == Op::Data(loaded.data)
            &&& copies(
                after.nodes@,
                None,
                device,
                before.nodes@.len() as int,
                tensor.id as int,
            )
        },
        Err(error) => {
            &&& loaded.placeable(device, available) == std::result::Result::<(), Failure>::Err(
                error@,
            )
            &&& after == before
        },
    }
}

/// The failure for a tensor of the wrong shape.
pub open spec fn misshapen(name: Seq<char>, found: Seq<usize>, expected: Seq<usize>) -> Failure {
    Failure::InvalidShape(
        "Gemma 4 tensor "@ + name + " has shape "@ + shape_text(found) + ", expected "@
            + shape_text(expected),
    )
}

/// Checks the shape of a loaded tensor.
pub fn expect_shape<T>(tensor: &LoadedTensor<T>, expected: &Vec<usize>, name: &str) -> (r: Result<
    (),
>)
    ensures
        match r {
            Ok(_) => tensor.shape@ == expected@,
            Err(error) => tensor.shape@ != expected@ && error@ == misshapen(
                name@,
                tensor.shape@,
                expected@,
            ),
        },
{
    if same_shape(&tensor.shape, expected) {
        return Ok(());
    }
    let mut message = owned("Gemma 4 tensor ");
    message.append(name);
    message.append(" has shape ");
    push_shape(&mut message, &tensor.shape);
    message.append(", expected ");
    push_shape(&mut message, expected);
    Err(Error::InvalidShape(message))
}

/// The token is the first that the vocabulary does not have.
pub open spec fn first_foreign(ids: Seq<u32>, vocabulary: usize, i: int) -> bool {
    &&& 0 <= i < ids.len()
    &&& ids[i] >= vocabulary
    &&& forall|j: int| 0 <= j < i ==> #[trigger] ids[j] < vocabulary
}

/// The vocabulary has every token.
pub open spec fn native(ids: Seq<u32>, vocabulary: usize) -> bool {
    forall|j: int| 0 <= j < ids.len() ==> #[trigger] ids[j] < vocabulary
}

/// `r` is an element of a table scaled by the root of its width.
pub open spec fn magnified<T: Scalar>(element: T, width: usize, r: T) -> bool {
    exists|count: T, scale: T|
        {
            &&& counted(width, count)
            &&& #[trigger] rooted(count, scale)
            &&& #[trigger] product(element, scale, r)
        }
}

/// `data` are the rows of a table for the tokens, magnified.
pub open spec fn looked_up<T: Scalar>(
    table: Seq<T>,
    ids: Seq<u32>,
    width: usize,
    data: Seq<T>,
) -> bool {
    &&& data.len() == ids.len() * width
    &&& forall|i: int, h: int|
        #![trigger data[i * width + h]]
        0 <= i < ids.len() && 0 <= h < width ==> magnified(
            table[ids[i] * width + h],
            width,
            data[i * width + h],
        )
}

/// The outcome of embedding tokens by a loaded table.
pub open spec fn embeds<T: Scalar>(
    config: Gemma4TextConfig<T>,
    device: Device,
    table: LoadedTensor<T>,
    ids: Seq<u32>,
    before: Graph<T>,
    after: Graph<T>,
    r: Result<Tensor>,
) -> bool {
    let expected = seq![config.vocab_size, config.hidden_size];
    if table.shape@ != expected {
        &&& r matches Err(error) && error@ == misshapen(
            "embed_tokens.weight"@,
            table.shape@,
            expected,
        )
        &&& after == before
    } else if !native(ids, config.vocab_size) {
        &&& r matches Err(error) && exists|i: int| #[trigger]
            first_foreign(ids, config.vocab_size, i) && error@ == Failure::Execution(
                "token id "@ + decimal(ids[i] as nat) + " exceeds vocabulary"@,
            )
        &&& after == before
    } else {
        &&& r matches Ok(tensor) && {
            &&& after.extends(before)
            &&& after.has(tensor)
            &&& tensor.shape@ == seq![1usize, ids.len() as usize, config.hidden_size]
            &&& tensor.device == device
            &&& after.nodes@[before.nodes@.len() as int].op matches Op::Data(data) && looked_up(
                table.data@,
                ids,
                config.hidden_size,
                data@,
            )
            &&& copies(
                after.nodes@,
                None,
                device,
                before.nodes@.len() as int,
                tensor.id as int,
            )
        }
    }
}

impl<T: Scalar> Gemma4ForCausalLM<T> {
    /// Embeds tokens by a loaded table, scaled by the root of the width of the model.
    pub fn embed_by(&self, graph: &mut Graph<T>, table: &LoadedTensor<T>, input_ids: &Vec<u32>) -> (r:
        Result<Tensor>)
        requires
            old(graph).wf(),
            table.data@.len() == numel(table.shape@),
            self.config.hidden_size > 0,
        ensures
            final(graph).wf(),
            embeds(
                self.config,
                self.device,
                *table,
                input_ids@,
                *old(graph),
                *final(graph),
                r,
            ),
    {
        let ghost before = *graph;
        let vocabulary: usize = self.config.vocab_size;
        let width: usize = self.config.hidden_size;
        let expected: Vec<usize> = vec![vocabulary, width];
        assert(expected@ =~= seq![vocabulary, width]);
        match expect_shape(table, &expected, "embed_tokens.weight") {
            Ok(_) => {},
            Err(error) => {
                return Err(error);
            },
        }
        proof {
            lemma_numel_2(table.shape@);
        }
        let room: usize = table.data.len();
        let mut output: Vec<T> = Vec::new();
        let count = T::of_count(width);
        let scale = count.root();
        let mut i: usize = 0;
        assert(0 * width == 0) by (nonlinear_arith);
        while i < input_ids.len()
            invariant
                i <= input_ids.len(),
                *graph == before,
                before.wf(),
                width > 0,
                counted(width, count),
                rooted(count, scale),
                vocabulary == self.config.vocab_size,
                width == self.config.hidden_size,
                table.shape@ == seq![vocabulary, width],
                room == vocabulary * width,
                table.data@.len() == room,
                forall|j: int| 0 <= j < i ==> #[trigger] input_ids@[j] < vocabulary,
                output@.len() == i * width,
                forall|k: int, h: int|
                    #![trigger output@[k * width + h]]
                    0 <= k < i && 0 <= h < width ==> magnified(
                        table.data@[input_ids@[k] * width + h],
                        width,
                        output@[k * width + h],
                    ),
            decreases input_ids.len() - i,
        {
            let token: usize = input_ids[i] as usize;
            if token >= vocabulary {
                let mut message = owned("token id ");
                push_decimal(&mut message, token);
                message.append(" exceeds vocabulary");
                proof {
                    assert(first_foreign(input_ids@, vocabulary, i as int));
                }
                return Err(Error::Execution(message));
            }
            let ghost start = output@;
            let mut h: usize = 0;
            assert(token * width + width <= vocabulary * width) by (nonlinear_arith)
                requires
                    token < vocabulary,
                    width > 0,
            ;
            while h < width
                invariant
                    h <= width,
                    counted(width, count),
                    rooted(count, scale),
                    token * width + width <= room,
                    table.data@.len() == room,
                    output@.len() == start.len() + h,
                    output@.take(start.len() as int) == start,
                    forall|g: int|
                        0 <= g < h ==> magnified(
                            table.data@[token * width + g],
                            width,
                            #[trigger] output@[start.len() + g],
                        ),
                decreases width - h,
            {
                let element = table.data[token * width + h];
                let value = element.times(scale);
                assert(product(element, scale, value));
                assert(magnified(element, width, value));
                output.push(value);
                assert(output@.take(start.len() as int) =~= start);
                h = h + 1;
            }
            proof {
                assert forall|k: int, g: int|
                    #![trigger output@[k * width + g]]
                    0 <= k < i + 1 && 0 <= g < width implies magnified(
                    table.data@[input_ids@[k] * width + g],
                    width,
                    output@[k * width + g],
                ) by {
                    if k < i {
                        assert(0 <= k * width + g < i * width) by (nonlinear_arith)
                            requires
                                0 <= k < i,
                                0 <= g < width,
                        ;
                        assert(output@[k * width + g] == output@.take(start.len() as int)[k * width
                            + g]);
                        assert(magnified(
                            table.data@[input_ids@[k] * width + g],
                            width,
                            start[k * width + g],
                        ));
                    } else {
                        assert(output@[start.len() + g] == output@[k * width + g]);
                    }
                }
                assert(i * width + width == (i + 1) * width) by (nonlinear_arith);
            }
            i = i + 1;
        }
        let n: usize = input_ids.len();
        let shape: Vec<usize> = vec![1, n, width];
        let total: usize = output.len();
        proof {
            assert(shape@ =~= seq![1usize, n, width]);
            lemma_embedded_shape(shape@, n, width);
        }
        let ghost data = output;
        let host = match Tensor::from_vec(graph, output, shape) {
            Ok(tensor) => tensor,
            Err(error) => {
                return Err(error);
            },
        };
        let ghost middle = *graph;
        let tensor = host.to(graph, self.device);
        proof {
            lemma_extends(before, middle, *graph);
            assert(middle.nodes@.last().op == Op::Data(data));
            assert(graph.nodes@[host.id as int] == middle.nodes@[host.id as int]);
        }
        Ok(tensor)
    }

    /// Embeds tokens by the embedding table of the checkpoint, read from the shard that
    /// it is in.
    pub fn embed(&self, graph: &mut Graph<T>, input_ids: &Vec<u32>, file: Result<Vec<u8>>) -> (r:
        Result<Tensor>)
        requires
            self.wf(),
            old(graph).wf(),
        ensures
            final(graph).wf(),
            exists|loaded: Result<LoadedTensor<T>>| #[trigger]
                loads_any(self.weights@.shards, aliases("embed_tokens.weight"@), file, loaded)
                    && match loaded {
                    Err(failure) => r matches Err(error) && error@ == failure@ && *final(graph)
                        == *old(graph),
                    Ok(table) => embeds(
                        self.config,
                        self.device,
                        table,
                        input_ids@,
                        *old(graph),
                        *final(graph),
                        r,
                    ),
                },
    {
        let loaded = self.weight("embed_tokens.weight", file);
        assert(loads_any(self.weights@.shards, aliases("embed_tokens.weight"@), file, loaded));
        match loaded {
            Ok(table) => self.embed_by(graph, &table, input_ids),
            Err(error) => Err(error),
        }
    }
}

/// The embeddings of `n` tokens can be counted, where their elements can.
proof fn lemma_embedded_shape(shape: Seq<usize>, n: usize, width: usize)
    requires
        shape == seq![1usize, n, width],
        n * width <= usize::MAX,
        width > 0,
    ensures
        numel(shape) == n * width,
        !crate::shape::overflows(shape),
{
    let two = shape.drop_last();
    lemma_numel_2(two);
    assert(numel(two) == 1 * n);
    assert(numel(shape) == numel(two) * width);
    assert(numel(shape) == n * width);
    if n > 0 {
        lemma_no_overflow(shape);
    } else {
        assert forall|k: int| 0 <= k <= shape.len() implies #[trigger] numel(shape.take(k))
            <= usize::MAX by {
            reveal_with_fuel(numel, 4);
            if k == 0 {
                assert(shape.take(0).len() == 0);
            } else if k == 1 {
                crate::shape::lemma_numel_1(shape.take(1));
            } else if k == 2 {
                lemma_numel_2(shape.take(2));
            } else {
                assert(shape.take(3) =~= shape);
            }
        }
    }
}

} // verus!
