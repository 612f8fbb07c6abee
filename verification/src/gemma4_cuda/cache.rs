//! The key and value caches of a Gemma model: rings of rows, one for each layer that has
//! keys and values of its own.

use crate::cuda::attention_kernels::{kept, kept_positions};
use crate::error::{Error, Failure, Result};
use crate::models::gemma4::Gemma4TextConfig;
use crate::text::{decimal, owned, push_decimal};
use vstd::prelude::*;

verus! {

/// A ring of rows for keys and one for values: how many heads of which size a row has,
/// how many rows there are, where the first that is kept stands, how many are kept, and
/// how many were ever written.
#[derive(Clone, Copy, Debug, PartialEq, Eq, Structural)]
pub struct Gemma4CudaKvCache {
    pub kv_heads: usize,
    pub head_dim: usize,
    pub capacity: usize,
    pub start: usize,
    pub len: usize,
    pub total_seen: usize,
}

impl Gemma4CudaKvCache {
    /// The elements of a row.
    pub open spec fn width(self) -> int {
        self.kv_heads * self.head_dim
    }

    /// The elements of a ring.
    pub open spec fn elements(self) -> int {
        self.capacity * self.kv_heads * self.head_dim
    }

    /// There are rows, they can be counted, and what is kept are the last of those seen.
    pub open spec fn wf(self) -> bool {
        &&& 0 < self.elements() <= usize::MAX
        &&& self.capacity > 0
        &&& self.kv_heads > 0
        &&& self.head_dim > 0
        &&& kept(self.total_seen as int, self.capacity as int) == (
            self.len as int,
            self.start as int,
        )
    }

    /// The number of rows that are kept.
    pub fn len(&self) -> (r: usize)
        ensures
            r == self.len,
    {
        self.len
    }

    /// Whether no row is kept.
    pub fn is_empty(&self) -> (r: bool)
        ensures
            r == (self.len == 0),
    {
        self.len == 0
    }

    /// The cache after one row more.
    pub open spec fn advanced(self) -> Gemma4CudaKvCache {
        let (len, start) = kept(self.total_seen + 1, self.capacity as int);
        Gemma4CudaKvCache {
            len: len as usize,
            start: start as usize,
            total_seen: (self.total_seen + 1) as usize,
            ..self
        }
    }

    /// Counts one row more.
    pub fn advance(&mut self)
        requires
            old(self).wf(),
            old(self).total_seen < usize::MAX,
        ensures
            *final(self) == old(self).advanced(),
            final(self).wf(),
    {
        let total: usize = self.total_seen + 1;
        let (len, start) = kept_positions(total, self.capacity);
        self.total_seen = total;
        self.len = len;
        self.start = start;
    }
}

/// A row fits in a ring.
pub proof fn lemma_width(cache: Gemma4CudaKvCache)
    requires
        cache.wf(),
    ensures
        0 < cache.width() <= cache.elements() <= usize::MAX,
        cache.elements() == cache.capacity * cache.width(),
{
    let (c, k, d) = (cache.capacity as int, cache.kv_heads as int, cache.head_dim as int);
    assert(c * k * d == c * (k * d) && 0 < k * d <= c * (k * d)) by (nonlinear_arith)
        requires
            c >= 1,
            k >= 1,
            d >= 1,
    ;
}

/// The outcome of making a cache.
pub open spec fn fresh_cache(kv_heads: usize, head_dim: usize, capacity: usize) -> std::result::Result<
    Gemma4CudaKvCache,
    Failure,
> {
    if capacity * kv_heads > usize::MAX || capacity * kv_heads * head_dim > usize::MAX {
        Err(Failure::InvalidShape("KV cache size overflow"@))
    } else if capacity * kv_heads * head_dim == 0 {
        Err(Failure::InvalidShape("zero-sized KV cache"@))
    } else {
        Ok(
            Gemma4CudaKvCache {
                kv_heads,
                head_dim,
                capacity,
                start: 0,
                len: 0,
                total_seen: 0,
            },
        )
    }
}

/// Makes a cache that keeps nothing yet.
pub fn new_kv_cache(kv_heads: usize, head_dim: usize, capacity: usize) -> (r: Result<
    Gemma4CudaKvCache,
>)
    ensures
        match r {
            Ok(cache) => {
                &&& fresh_cache(kv_heads, head_dim, capacity) == std::result::Result::<
                    Gemma4CudaKvCache,
                    Failure,
                >::Ok(cache)
                &&& cache.wf()
            },
            Err(error) => fresh_cache(kv_heads, head_dim, capacity) == std::result::Result::<
                Gemma4CudaKvCache,
                Failure,
            >::Err(error@),
        },
{
    let elements: usize = match capacity.checked_mul(kv_heads) {
        Some(rows) => match rows.checked_mul(head_dim) {
            Some(elements) => elements,
            None => {
                return Err(Error::shape("KV cache size overflow"));
            },
        },
        None => {
            return Err(Error::shape("KV cache size overflow"));
        },
    };
    if elements == 0 {
        return Err(Error::shape("zero-sized KV cache"));
    }
    proof {
        assert(capacity > 0 && kv_heads > 0 && head_dim > 0) by (nonlinear_arith)
            requires
                capacity * kv_heads * head_dim != 0,
                capacity >= 0,
                kv_heads >= 0,
                head_dim >= 0,
        ;
    }
    Ok(Gemma4CudaKvCache { kv_heads, head_dim, capacity, start: 0, len: 0, total_seen: 0 })
}

/// A decoding step that was captured once and can be run again: how many tokens it picks,
/// and the bits of its repetition penalty.
#[derive(Clone, Copy, Debug, PartialEq, Eq, Structural)]
pub struct DecodeGraph {
    pub top_k: usize,
    pub penalty_bits: u32,
}

/// The caches of all layers.  A layer without a cache of its own attends to that of the
/// layer that `sources` names.
pub struct Gemma4CudaCacheTable {
    pub layers: Vec<Option<Gemma4CudaKvCache>>,
    pub sources: Vec<usize>,
    /// The number of tokens that were seen.
    pub position: usize,
    pub decode_graph: Option<DecodeGraph>,
    pub decode_graph_attempted: bool,
}

/// The layer attends to a window only.
pub open spec fn is_sliding(kind: Seq<char>) -> bool {
    kind == "sliding_attention"@
}

/// The last of the first `n` layers that attends like that.
pub open spec fn last_of_kind(kinds: Seq<String>, n: int, sliding: bool) -> Option<usize>
    decreases n,
{
    if n <= 0 {
        None
    } else if is_sliding(kinds[n - 1]@) == sliding {
        Some((n - 1) as usize)
    } else {
        last_of_kind(kinds, n - 1, sliding)
    }
}

/// The number of layers that have a cache of their own.
pub open spec fn physical_layers<T>(config: Gemma4TextConfig<T>) -> int {
    if config.num_hidden_layers >= config.num_kv_shared_layers {
        config.num_hidden_layers - config.num_kv_shared_layers
    } else {
        0
    }
}

/// The number of layers that have a cache of their own.
pub fn first_shared<T>(config: &Gemma4TextConfig<T>) -> (r: usize)
    ensures
        r == physical_layers(*config),
{
    if config.num_hidden_layers >= config.num_kv_shared_layers {
        config.num_hidden_layers - config.num_kv_shared_layers
    } else {
        0
    }
}

/// The cache that a layer has of its own.
pub open spec fn own_cache<T>(
    config: Gemma4TextConfig<T>,
    sliding: bool,
    max_sequence: usize,
) -> std::result::Result<Gemma4CudaKvCache, Failure> {
    fresh_cache(
        if !sliding && config.attention_k_eq_v {
            match config.num_global_key_value_heads {
                Some(heads) => heads,
                None => config.num_key_value_heads,
            }
        } else {
            config.num_key_value_heads
        },
        if sliding {
            config.head_dim
        } else {
            config.global_head_dim
        },
        if sliding && config.sliding_window < max_sequence {
            config.sliding_window
        } else {
            max_sequence
        },
    )
}

/// The cache of a layer, where it has one of its own, and the layer whose cache it
/// attends to.
pub open spec fn layer_entry<T>(
    config: Gemma4TextConfig<T>,
    kinds: Seq<String>,
    max_sequence: usize,
    layer: int,
) -> std::result::Result<(Option<Gemma4CudaKvCache>, usize), Failure> {
    let sliding = is_sliding(kinds[layer]@);
    if layer < physical_layers(config) {
        match own_cache(config, sliding, max_sequence) {
            Ok(cache) => Ok((Some(cache), layer as usize)),
            Err(failure) => Err(failure),
        }
    } else {
        match last_of_kind(kinds, physical_layers(config), sliding) {
            Some(source) => Ok((None, source)),
            None => Err(
                Failure::Execution(
                    "shared layer "@ + decimal(layer as nat) + " has no preceding "@ + kinds[layer]@
                        + " KV source"@,
                ),
            ),
        }
    }
}

/// The table has the entries of all layers.
pub open spec fn tabulates<T>(
    config: Gemma4TextConfig<T>,
    kinds: Seq<String>,
    max_sequence: usize,
    n: int,
    layers: Seq<Option<Gemma4CudaKvCache>>,
    sources: Seq<usize>,
) -> bool {
    &&& layers.len() == n
    &&& sources.len() == n
    &&& forall|i: int|
        0 <= i < n ==> #[trigger] layer_entry(config, kinds, max_sequence, i)
            == std::result::Result::<(Option<Gemma4CudaKvCache>, usize), Failure>::Ok(
            (layers[i], sources[i]),
        )
}

/// The layer is the first that no cache can be made, or found, for.
pub open spec fn first_unmade<T>(
    config: Gemma4TextConfig<T>,
    kinds: Seq<String>,
    max_sequence: usize,
    i: int,
    failure: Failure,
) -> bool {
    &&& 0 <= i < kinds.len()
    &&& layer_entry(config, kinds, max_sequence, i) == std::result::Result::<
        (Option<Gemma4CudaKvCache>, usize),
        Failure,
    >::Err(failure)
    &&& forall|j: int|
        0 <= j < i ==> #[trigger] layer_entry(config, kinds, max_sequence, j) is Ok
}

/// Makes the caches of all layers.
pub fn new_cache_table<T>(config: &Gemma4TextConfig<T>, max_sequence: usize) -> (r: Result<
    Gemma4CudaCacheTable,
>)
    ensures
        match r {
            Ok(table) => {
                &&& max_sequence > 0
                &&& config.layer_types matches Some(kinds) && tabulates(
                    *config,
                    kinds@,
                    max_sequence,
                    kinds@.len() as int,
                    table.layers@,
                    table.sources@,
                )
                &&& table.position == 0
                &&& table.decode_graph is None
                &&& !table.decode_graph_attempted
                &&& table.wf()
            },
            Err(error) => if max_sequence == 0 {
                error@ == Failure::InvalidShape("zero max_sequence"@)
            } else {
                match config.layer_types {
                    None => error@ == Failure::Execution("Gemma 4 layer_types are missing"@),
                    Some(kinds) => exists|i: int| #[trigger]
                        first_unmade(*config, kinds@, max_sequence, i, error@),
                }
            },
        },
{
    if max_sequence == 0 {
        return Err(Error::shape("zero max_sequence"));
    }
    let kinds = match &config.layer_types {
        Some(kinds) => kinds,
        None => {
            return Err(Error::execution("Gemma 4 layer_types are missing"));
        },
    };
    let shared: usize = first_shared(config);
    let mut layers: Vec<Option<Gemma4CudaKvCache>> = Vec::new();
    let mut sources: Vec<usize> = Vec::new();
    let mut last_sliding: Option<usize> = None;
    let mut last_full: Option<usize> = None;
    let window_kind = owned("sliding_attention");
    let mut layer: usize = 0;
    while layer < kinds.len()
        invariant
            layer <= kinds.len(),
            window_kind@ == "sliding_attention"@,
            shared == physical_layers(*config),
            max_sequence > 0,
            config.layer_types == Some(*kinds),
            tabulates(*config, kinds@, max_sequence, layer as int, layers@, sources@),
            last_sliding == last_of_kind(
                kinds@,
                if layer < shared {
                    layer as int
                } else {
                    shared as int
                },
                true,
            ),
            last_full == last_of_kind(
                kinds@,
                if layer < shared {
                    layer as int
                } else {
                    shared as int
                },
                false,
            ),
            forall|i: int|
                0 <= i < layer ==> ((#[trigger] layers@[i]) matches Some(cache) ==> cache.wf()
                    && cache.total_seen == 0),
        decreases kinds.len() - layer,
    {
        let sliding: bool = kinds[layer] == window_kind;
        if layer < shared {
            let head_dim: usize = if sliding {
                config.head_dim
            } else {
                config.global_head_dim
            };
            let capacity: usize = if sliding && config.sliding_window < max_sequence {
                config.sliding_window
            } else {
                max_sequence
            };
            let kv_heads: usize = if !sliding && config.attention_k_eq_v {
                match config.num_global_key_value_heads {
                    Some(heads) => heads,
                    None => config.num_key_value_heads,
                }
            } else {
                config.num_key_value_heads
            };
            let cache = match new_kv_cache(kv_heads, head_dim, capacity) {
                Ok(cache) => cache,
                Err(error) => {
                    assert(first_unmade(
                        *config,
                        config.layer_types->Some_0@,
                        max_sequence,
                        layer as int,
                        error@,
                    ));
                    return Err(error);
                },
            };
            layers.push(Some(cache));
            sources.push(layer);
            if sliding {
                last_sliding = Some(layer);
            } else {
                last_full = Some(layer);
            }
        } else {
            let source = if sliding {
                last_sliding
            } else {
                last_full
            };
            match source {
                Some(source) => {
                    layers.push(None);
                    sources.push(source);
                },
                None => {
                    let mut message = owned("shared layer ");
                    push_decimal(&mut message, layer);
                    message.append(" has no preceding ");
                    message.append(kinds[layer].as_str());
                    message.append(" KV source");
                    let error = Error::Execution(message);
                    assert(first_unmade(
                        *config,
                        config.layer_types->Some_0@,
                        max_sequence,
                        layer as int,
                        error@,
                    ));
                    return Err(error);
                },
            }
        }
        proof {
            assert(layer_entry(*config, kinds@, max_sequence, layer as int) is Ok);
        }
        layer = layer + 1;
    }
    let table = Gemma4CudaCacheTable {
        layers,
        sources,
        position: 0,
        decode_graph: None,
        decode_graph_attempted: false,
    };
    proof {
        assert forall|i: int| 0 <= i < table.layers@.len() implies table.entry_wf(i) by {
            lemma_entry(*config, kinds@, max_sequence, i, table.layers@, table.sources@);
        }
    }
    Ok(table)
}

/// A layer of its kind is found among the first.
proof fn lemma_last_of_kind(kinds: Seq<String>, n: int, sliding: bool)
    requires
        0 <= n <= kinds.len(),
        n <= usize::MAX,
    ensures
        match last_of_kind(kinds, n, sliding) {
            Some(i) => {
                &&& i < n
                &&& is_sliding(kinds[i as int]@) == sliding
                &&& forall|j: int| i < j < n ==> is_sliding((#[trigger] kinds[j])@) != sliding
            },
            None => forall|j: int| 0 <= j < n ==> is_sliding((#[trigger] kinds[j])@) != sliding,
        },
    decreases n,
{
    if n > 0 && is_sliding(kinds[n - 1]@) != sliding {
        lemma_last_of_kind(kinds, n - 1, sliding);
    }
}

proof fn lemma_entry<T>(
    config: Gemma4TextConfig<T>,
    kinds: Seq<String>,
    max_sequence: usize,
    i: int,
    layers: Seq<Option<Gemma4CudaKvCache>>,
    sources: Seq<usize>,
)
    requires
        tabulates(config, kinds, max_sequence, kinds.len() as int, layers, sources),
        0 <= i < kinds.len() <= usize::MAX,
    ensures
        sources[i] < kinds.len(),
        layers[sources[i] as int] is Some,
        layers[i] is Some <==> sources[i] == i,
{
    assert(layer_entry(config, kinds, max_sequence, i) is Ok);
    let n = physical_layers(config);
    if i >= n {
        lemma_last_of_kind(kinds, n, is_sliding(kinds[i]@));
        let source = sources[i] as int;
        assert(layer_entry(config, kinds, max_sequence, source) is Ok);
    }
}

/// Layers without a cache of their own attend to the last layer before them that has one
/// and attends like them.
pub proof fn shared_layers_attend_to_the_last_of_their_kind<T>(
    config: Gemma4TextConfig<T>,
    kinds: Seq<String>,
    max_sequence: usize,
    table: Gemma4CudaCacheTable,
    layer: int,
)
    requires
        tabulates(
            config,
            kinds,
            max_sequence,
            kinds.len() as int,
            table.layers@,
            table.sources@,
        ),
        0 <= layer < kinds.len() <= usize::MAX,
        table.layers@[layer] is None,
    ensures
        ({
            let source = table.sources@[layer] as int;
            &&& source < layer
            &&& table.layers@[source] is Some
            &&& is_sliding(kinds[source]@) == is_sliding(kinds[layer]@)
            &&& forall|j: int|
                source < j < layer && table.layers@[j] is Some ==> is_sliding(
                    (#[trigger] kinds[j])@,
                ) != is_sliding(kinds[layer]@)
        }),
{
    assert(layer_entry(config, kinds, max_sequence, layer) is Ok);
    let n = physical_layers(config);
    assert(layer >= n);
    lemma_last_of_kind(kinds, n, is_sliding(kinds[layer]@));
    let source = table.sources@[layer] as int;
    assert(layer_entry(config, kinds, max_sequence, source) is Ok);
    assert forall|j: int| source < j < layer && table.layers@[j] is Some implies is_sliding(
        (#[trigger] kinds[j])@,
    ) != is_sliding(kinds[layer]@) by {
        assert(layer_entry(config, kinds, max_sequence, j) is Ok);
    }
}

/// The number of caches.
pub open spec fn present(layers: Seq<Option<Gemma4CudaKvCache>>) -> nat
    decreases layers.len(),
{
    if layers.len() == 0 {
        0
    } else {
        present(layers.drop_last()) + if layers.last() is Some {
            1nat
        } else {
            0nat
        }
    }
}

impl Gemma4CudaCacheTable {
    /// A layer attends to a layer that has a cache.
    pub open spec fn entry_wf(self, layer: int) -> bool {
        let source = self.sources@[layer] as int;
        &&& source < self.layers@.len()
        &&& self.layers@[source] is Some
        &&& self.layers@[layer] is Some <==> source == layer
    }

    /// Every layer attends to a layer that has a cache, and the caches are sound.
    pub open spec fn wf(self) -> bool {
        &&& self.sources@.len() == self.layers@.len()
        &&& forall|i: int| 0 <= i < self.layers@.len() ==> #[trigger] self.entry_wf(i)
        &&& forall|i: int|
            0 <= i < self.layers@.len() ==> ((#[trigger] self.layers@[i]) matches Some(cache)
                ==> cache.wf())
    }

    /// The number of layers.
    pub fn layer_count(&self) -> (r: usize)
        ensures
            r == self.layers@.len(),
    {
        self.layers.len()
    }

    /// The number of layers that have a cache of their own.
    pub fn physical_cache_count(&self) -> (r: usize)
        ensures
            r == present(self.layers@),
            r <= self.layers@.len(),
    {
        let mut found: usize = 0;
        let mut i: usize = 0;
        while i < self.layers.len()
            invariant
                i <= self.layers.len(),
                found <= i,
                found == present(self.layers@.take(i as int)),
            decreases self.layers.len() - i,
        {
            assert(self.layers@.take(i + 1).drop_last() =~= self.layers@.take(i as int));
            if self.layers[i].is_some() {
                found = found + 1;
            }
            i = i + 1;
        }
        assert(self.layers@.take(self.layers@.len() as int) =~= self.layers@);
        found
    }

    /// The number of layers that attend to the cache of another.
    pub fn shared_layer_count(&self) -> (r: usize)
        ensures
            r == self.layers@.len() - present(self.layers@),
    {
        let own: usize = self.physical_cache_count();
        self.layers.len() - own
    }

    /// The layer whose cache a layer attends to.
    pub fn source_layer(&self, layer: usize) -> (r: Option<usize>)
        ensures
            r == (if layer < self.sources@.len() {
                Some(self.sources@[layer as int])
            } else {
                None
            }),
    {
        if layer < self.sources.len() {
            Some(self.sources[layer])
        } else {
            None
        }
    }
}

/// All caches after one row more.
pub open spec fn advanced_all(layers: Seq<Option<Gemma4CudaKvCache>>) -> Seq<
    Option<Gemma4CudaKvCache>,
> {
    layers.map_values(
        |layer: Option<Gemma4CudaKvCache>|
            match layer {
                Some(cache) => Some(cache.advanced()),
                None => None,
            },
    )
}

/// One row more can be counted.
pub open spec fn countable(layers: Seq<Option<Gemma4CudaKvCache>>) -> bool {
    forall|i: int|
        0 <= i < layers.len() ==> ((#[trigger] layers[i]) matches Some(cache) ==> cache.total_seen
            < usize::MAX)
}

impl Gemma4CudaCacheTable {
    /// Counts one token more, in all caches.
    pub fn advance(&mut self)
        requires
            old(self).wf(),
            old(self).position < usize::MAX,
            countable(old(self).layers@),
        ensures
            final(self).wf(),
            final(self).layers@ == advanced_all(old(self).layers@),
            final(self).sources == old(self).sources,
            final(self).position == old(self).position + 1,
            final(self).decode_graph == old(self).decode_graph,
            final(self).decode_graph_attempted == old(self).decode_graph_attempted,
    {
        let ghost start = *self;
        self.position = self.position + 1;
        let mut i: usize = 0;
        while i < self.layers.len()
            invariant
                i <= self.layers@.len(),
                start == *old(self),
                start.wf(),
                countable(start.layers@),
                self.layers@.len() == start.layers@.len(),
                self.sources == start.sources,
                self.position == start.position + 1,
                self.decode_graph == start.decode_graph,
                self.decode_graph_attempted == start.decode_graph_attempted,
                forall|j: int|
                    0 <= j < i ==> #[trigger] self.layers@[j] == advanced_all(start.layers@)[j],
                forall|j: int|
                    0 <= j < i ==> ((#[trigger] self.layers@[j]) matches Some(cache)
                        ==> cache.wf()),
                forall|j: int|
                    i <= j < self.layers@.len() ==> #[trigger] self.layers@[j] == start.layers@[j],
            decreases self.layers@.len() - i,
        {
            assert(self.layers@[i as int] == start.layers@[i as int]);
            match self.layers[i] {
                Some(cache) => {
                    let mut next = cache;
                    next.advance();
                    self.layers.set(i, Some(next));
                },
                None => {},
            }
            i = i + 1;
        }
        assert(self.layers@ =~= advanced_all(start.layers@));
        assert forall|j: int| 0 <= j < self.layers@.len() implies #[trigger] self.entry_wf(j) by {
            assert(start.entry_wf(j));
        }
    }
}

} // verus!
