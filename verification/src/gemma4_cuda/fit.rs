//! Whether a model, its configuration and its caches can be used together.

use crate::cuda::attention_kernels::kept_positions;
use crate::gemma4_cuda::cache::{Gemma4CudaCacheTable, Gemma4CudaKvCache};
use crate::gemma4_cuda::decode::has_room;
use crate::gemma4_cuda::layers::{plan_fits, widths_fit};
use crate::gemma4_cuda::ple::ple_countable;
use crate::gemma4_cuda::prompt::{prompt_fits, rows_fit};
use crate::gemma4_cuda::tape::MOST_ROWS;
use crate::gemma4_cuda::weights::{Gemma4CudaState, LayerPlan};
use crate::models::gemma4::Gemma4TextConfig;
use vstd::prelude::*;

verus! {

/// The product of two counts fits in twice the bits.
proof fn lemma_wide(a: usize, b: usize)
    ensures
        0 <= a * b <= 0xFFFF_FFFF_FFFF_FFFE_0000_0000_0000_0001,
{
    assert(0 <= a * b <= 0xFFFF_FFFF_FFFF_FFFE_0000_0000_0000_0001) by (nonlinear_arith)
        requires
            0 <= a <= 0xFFFF_FFFF_FFFF_FFFF,
            0 <= b <= 0xFFFF_FFFF_FFFF_FFFF,
    ;
}

/// Whether the widths of queries, keys and values can be counted together.
pub fn widths_countable(heads: usize, kv_heads: usize, head_dim: usize) -> (r: bool)
    ensures
        r == widths_fit(heads, kv_heads, head_dim),
{
    proof {
        lemma_wide(heads, head_dim);
        lemma_wide(kv_heads, head_dim);
    }
    let most: u128 = usize::MAX as u128;
    let query: u128 = heads as u128 * head_dim as u128;
    let key: u128 = kv_heads as u128 * head_dim as u128;
    query <= most && key <= most && query + key + key <= most
}

impl Gemma4CudaKvCache {
    /// Whether the cache is sound.
    pub fn sound(&self) -> (r: bool)
        ensures
            r == self.wf(),
    {
        if self.capacity == 0 || self.kv_heads == 0 || self.head_dim == 0 {
            return false;
        }
        let rows: usize = match self.capacity.checked_mul(self.kv_heads) {
            Some(rows) => rows,
            None => {
                proof {
                    let rows = self.capacity * self.kv_heads;
                    let dim = self.head_dim as int;
                    assert(rows * dim >= rows) by (nonlinear_arith)
                        requires
                            dim >= 1,
                            rows >= 0,
                    ;
                }
                return false;
            },
        };
        proof {
            let (capacity, heads, dim) = (
                self.capacity as int,
                self.kv_heads as int,
                self.head_dim as int,
            );
            assert(0 < capacity * heads && 0 < capacity * heads * dim) by (nonlinear_arith)
                requires
                    capacity >= 1,
                    heads >= 1,
                    dim >= 1,
            ;
        }
        if rows.checked_mul(self.head_dim).is_none() {
            return false;
        }
        let (len, start) = kept_positions(self.total_seen, self.capacity);
        len == self.len && start == self.start
    }
}

impl Gemma4CudaCacheTable {
    /// Whether every layer attends to a layer that has a cache, and the caches are sound.
    pub fn sound(&self) -> (r: bool)
        ensures
            r == self.wf(),
    {
        if self.sources.len() != self.layers.len() {
            return false;
        }
        let mut i: usize = 0;
        while i < self.layers.len()
            invariant
                i <= self.layers.len(),
                self.sources.len() == self.layers.len(),
                forall|j: int| 0 <= j < i ==> #[trigger] self.entry_wf(j),
                forall|j: int|
                    0 <= j < i ==> ((#[trigger] self.layers@[j]) matches Some(cache) ==> cache.wf()),
            decreases self.layers.len() - i,
        {
            let source: usize = self.sources[i];
            let own = self.layers[i].is_some();
            let entered = source < self.layers.len() && self.layers[source].is_some() && own == (
            source == i);
            assert(entered == self.entry_wf(i as int));
            if !entered {
                return false;
            }
            if let Some(cache) = &self.layers[i] {
                if !cache.sound() {
                    assert(self.layers@[i as int] == Some(*cache));
                    return false;
                }
            }
            i = i + 1;
        }
        true
    }

    /// Whether one token more can be counted.
    pub fn roomy(&self) -> (r: bool)
        ensures
            r == has_room(*self),
    {
        if self.position == usize::MAX {
            return false;
        }
        let mut i: usize = 0;
        while i < self.layers.len()
            invariant
                i <= self.layers.len(),
                forall|j: int|
                    0 <= j < i ==> ((#[trigger] self.layers@[j]) matches Some(cache)
                        ==> cache.total_seen < usize::MAX),
            decreases self.layers.len() - i,
        {
            if let Some(cache) = &self.layers[i] {
                if cache.total_seen == usize::MAX {
                    assert(self.layers@[i as int] == Some(*cache));
                    return false;
                }
            }
            i = i + 1;
        }
        true
    }
}

/// Whether as many rows of the embeddings of all layers as a prompt has can be counted.
pub fn ple_fits<T>(config: &Gemma4TextConfig<T>) -> (r: bool)
    ensures
        r == ple_countable(*config),
{
    proof {
        lemma_wide(config.num_hidden_layers, config.hidden_size_per_layer_input);
        assert(usize::MAX / MOST_ROWS * MOST_ROWS <= usize::MAX) by (nonlinear_arith)
            requires
                MOST_ROWS == 4096,
        ;
    }
    let width: u128 = config.num_hidden_layers as u128 * config.hidden_size_per_layer_input as u128;
    width <= (usize::MAX / MOST_ROWS) as u128
}

fn plan_agrees<T>(
    plan: &LayerPlan<T>,
    layer: usize,
    heads: usize,
    table: &Gemma4CudaCacheTable,
) -> (r: bool)
    requires
        table.wf(),
        layer < table.layers@.len(),
    ensures
        r == plan_fits(*plan, layer as int, heads, *table),
{
    assert(table.entry_wf(layer as int));
    if plan.source != table.sources[layer] || plan.fused_qkv != (plan.source == layer) || (
    plan.fused_qkv && plan.key_norm.is_none()) {
        return false;
    }
    match &table.layers[plan.source] {
        Some(cache) => widths_countable(heads, cache.kv_heads, plan.head_dim),
        None => false,
    }
}

/// Whether as many rows of queries, keys and values as a prompt has can be counted.
fn rows_countable(heads: usize, kv_heads: usize, head_dim: usize) -> (r: bool)
    ensures
        r == rows_fit(heads, kv_heads, head_dim),
{
    proof {
        lemma_wide(heads, head_dim);
        lemma_wide(kv_heads, head_dim);
    }
    let most: u128 = (usize::MAX / MOST_ROWS) as u128;
    let query: u128 = heads as u128 * head_dim as u128;
    let key: u128 = kv_heads as u128 * head_dim as u128;
    query <= most && key <= most && query + key + key <= most
}

/// Whether a configuration and caches agree about the layers, and the rows of a prompt
/// can be counted.
pub fn prompt_suits<T>(config: &Gemma4TextConfig<T>, table: &Gemma4CudaCacheTable) -> (r: bool)
    ensures
        r == prompt_fits(*config, *table),
{
    let typed = match &config.layer_types {
        Some(kinds) => kinds.len() == config.num_hidden_layers,
        None => true,
    };
    if !table.sound() || table.layers.len() != config.num_hidden_layers || !typed
        || config.hidden_size > usize::MAX / MOST_ROWS {
        return false;
    }
    let mut i: usize = 0;
    while i < table.layers.len()
        invariant
            i <= table.layers.len(),
            forall|j: int|
                0 <= j < i ==> ((#[trigger] table.layers@[j]) matches Some(cache) ==> {
                    &&& rows_fit(config.num_attention_heads, cache.kv_heads, config.head_dim)
                    &&& rows_fit(config.num_attention_heads, cache.kv_heads, config.global_head_dim)
                }),
        decreases table.layers.len() - i,
    {
        if let Some(cache) = &table.layers[i] {
            if !rows_countable(config.num_attention_heads, cache.kv_heads, config.head_dim)
                || !rows_countable(
                config.num_attention_heads,
                cache.kv_heads,
                config.global_head_dim,
            ) {
                assert(table.layers@[i as int] == Some(*cache));
                return false;
            }
        }
        i = i + 1;
    }
    true
}

impl<T> Gemma4CudaState<T> {
    /// Whether the plans of all layers agree with the caches.
    pub fn suits(&self, heads: usize, table: &Gemma4CudaCacheTable) -> (r: bool)
        ensures
            r == self.fits_table(heads, *table),
    {
        if !table.sound() || table.layers.len() != self.decode_plan.len() {
            return false;
        }
        let mut i: usize = 0;
        while i < self.decode_plan.len()
            invariant
                i <= self.decode_plan.len(),
                table.wf(),
                table.layers@.len() == self.decode_plan@.len(),
                forall|layer: int|
                    0 <= layer < i ==> plan_fits(
                        #[trigger] self.decode_plan@[layer],
                        layer,
                        heads,
                        *table,
                    ),
            decreases self.decode_plan.len() - i,
        {
            if !plan_agrees(&self.decode_plan[i], i, heads, table) {
                assert(!plan_fits(self.decode_plan@[i as int], i as int, heads, *table));
                return false;
            }
            i = i + 1;
        }
        true
    }
}

} // verus!
