//! Attention of a Gemma model, and what it writes to and reads from caches.

use crate::cuda::attention_kernels::{Heads, Ring};
use crate::cuda::launch::{model_grid, model_launch_config, Grid};
use crate::error::{Error, Failure, Result};
use crate::gemma4_cuda::cache::{lemma_width, Gemma4CudaKvCache};
use crate::gemma4_cuda::tape::{
    extends, heeds, keeps, obeys, Launch, Recorder, Side, Tape, MOST_ROWS,
};
use crate::gemma4_cuda::weights::{is_product, Gemma4CudaState};
use vstd::prelude::*;

verus! {

/// A block for each head.
pub open spec fn head_blocks(heads: usize) -> Grid {
    Grid::Blocks { blocks: (heads as nat % 0x1_0000_0000) as u32, threads: 256 }
}

/// A block for each head.
fn block_per_head(heads: usize) -> (r: Grid)
    ensures
        r == head_blocks(heads),
{
    Grid::Blocks { blocks: (heads as u64 % 0x1_0000_0000) as u32, threads: 256 }
}

/// `a` is the product of three counts.
fn is_product_of_three(a: usize, b: usize, c: usize, d: usize) -> (r: bool)
    ensures
        r == (a == b * c * d),
{
    proof {
        assert(b * c * d == b * (c * d)) by (nonlinear_arith);
    }
    match c.checked_mul(d) {
        Some(row) => is_product(a, b, row),
        None => {
            proof {
                assert(c * d > usize::MAX);
                assert(b == 0 ==> b * (c * d) == 0) by (nonlinear_arith);
                assert(b > 0 ==> b * (c * d) > usize::MAX) by (nonlinear_arith)
                    requires
                        c * d > usize::MAX,
                ;
            }
            b == 0 && a == 0
        },
    }
}

/// The row that the next position is written to.
pub open spec fn next_row(cache: Gemma4CudaKvCache) -> int {
    if cache.len < cache.capacity {
        (cache.start + cache.len) % (cache.capacity as int)
    } else {
        cache.start as int
    }
}

/// A position is written to the row of its number, counted round the ring.
pub proof fn rows_are_written_in_turn(cache: Gemma4CudaKvCache)
    requires
        cache.wf(),
    ensures
        next_row(cache) == cache.total_seen as int % cache.capacity as int,
{
    if cache.total_seen == cache.capacity {
        assert(cache.total_seen as int % cache.capacity as int == 0) by (nonlinear_arith)
            requires
                cache.total_seen == cache.capacity,
                cache.capacity > 0,
        ;
    }
}

impl<T: Copy> Gemma4CudaState<T> {
    /// The key and the value of a position written to a cache.
    pub open spec fn appended(
        self,
        t: Tape<T>,
        layer: usize,
        cache: Gemma4CudaKvCache,
        key: usize,
        value: usize,
    ) -> Tape<T> {
        let width = cache.width();
        if t.stopped() {
            t
        } else if t.lens[key as int] != width || t.lens[value as int] != width {
            t.stop(Failure::InvalidShape("KV cache append shape mismatch"@)).0
        } else {
            let offset = (next_row(cache) * width) as usize;
            t.launched(
                Launch::CacheWrite { layer, side: Side::Key, offset, input: key },
                model_grid(width as nat),
            ).launched(
                Launch::CacheWrite { layer, side: Side::Value, offset, input: value },
                model_grid(width as nat),
            )
        }
    }

    pub(crate) fn append_kv(
        &self,
        tape: &mut Recorder<T>,
        layer: usize,
        cache: &mut Gemma4CudaKvCache,
        key: usize,
        value: usize,
    ) -> (r: Result<()>)
        requires
            key < old(tape)@.lens.len(),
            value < old(tape)@.lens.len(),
            old(cache).wf(),
            old(cache).total_seen < usize::MAX,
        ensures
            heeds(
                final(tape)@,
                r,
                self.appended(old(tape)@, layer, *old(cache), key, value),
            ),
            extends(old(tape)@, final(tape)@),
            final(cache).wf(),
            *final(cache) == (if r is Ok {
                old(cache).advanced()
            } else {
                *old(cache)
            }),
    {
        proof {
            lemma_width(*cache);
        }
        let width: usize = cache.kv_heads * cache.head_dim;
        if tape.len_of(key) != width || tape.len_of(value) != width {
            return Err(Error::shape("KV cache append shape mismatch"));
        }
        let row: usize = if cache.len < cache.capacity {
            proof {
                assert(cache.start == 0);
            }
            (cache.start + cache.len) % cache.capacity
        } else {
            cache.start
        };
        proof {
            assert(row < cache.capacity);
            assert(0 <= row * width <= cache.capacity * width) by (nonlinear_arith)
                requires
                    row < cache.capacity,
            ;
        }
        let offset: usize = row * width;
        tape.launch(
            Launch::CacheWrite { layer, side: Side::Key, offset, input: key },
            model_launch_config(width),
        )?;
        tape.launch(
            Launch::CacheWrite { layer, side: Side::Value, offset, input: value },
            model_launch_config(width),
        )?;
        cache.advance();
        Ok(())
    }

    /// The key and the value of the position of the decoder's state written to a cache.
    pub open spec fn appended_state(
        self,
        t: Tape<T>,
        layer: usize,
        cache: Gemma4CudaKvCache,
        key: usize,
        value: usize,
    ) -> Tape<T> {
        let width = cache.width();
        let capacity = cache.capacity;
        if t.stopped() {
            t
        } else if t.lens[key as int] != width || t.lens[value as int] != width {
            t.stop(Failure::InvalidShape("state KV cache append shape mismatch"@)).0
        } else {
            t.launched(
                Launch::CacheWriteState {
                    layer,
                    side: Side::Key,
                    width: width as usize,
                    capacity,
                    input: key,
                },
                model_grid(width as nat),
            ).launched(
                Launch::CacheWriteState {
                    layer,
                    side: Side::Value,
                    width: width as usize,
                    capacity,
                    input: value,
                },
                model_grid(width as nat),
            )
        }
    }

    pub(crate) fn append_kv_state(
        &self,
        tape: &mut Recorder<T>,
        layer: usize,
        cache: &Gemma4CudaKvCache,
        key: usize,
        value: usize,
    ) -> (r: Result<()>)
        requires
            key < old(tape)@.lens.len(),
            value < old(tape)@.lens.len(),
            cache.wf(),
        ensures
            heeds(
                final(tape)@,
                r,
                self.appended_state(old(tape)@, layer, *cache, key, value),
            ),
            extends(old(tape)@, final(tape)@),
    {
        proof {
            lemma_width(*cache);
        }
        let width: usize = cache.kv_heads * cache.head_dim;
        let capacity: usize = cache.capacity;
        if tape.len_of(key) != width || tape.len_of(value) != width {
            return Err(Error::shape("state KV cache append shape mismatch"));
        }
        tape.launch(
            Launch::CacheWriteState { layer, side: Side::Key, width, capacity, input: key },
            model_launch_config(width),
        )?;
        tape.launch(
            Launch::CacheWriteState { layer, side: Side::Value, width, capacity, input: value },
            model_launch_config(width),
        )?;
        Ok(())
    }

    /// The shapes of queries, keys and values agree.
    pub open spec fn attention_agrees(
        query: usize,
        key: int,
        value: int,
        heads: Heads,
        ring: Ring,
    ) -> bool {
        &&& query == heads.heads * heads.head_dim
        &&& key == ring.capacity * heads.kv_heads * heads.head_dim
        &&& value == key
        &&& heads.heads % heads.kv_heads == 0
        &&& ring.capacity != 0
        &&& ring.start < ring.capacity
    }

    /// Attention by blocks, where the positions fit in one, or by elements.
    pub open spec fn attention_grid(heads: usize, sequence: usize, query: usize) -> std::result::Result<
        Grid,
        Failure,
    > {
        if sequence <= MOST_ROWS {
            Ok(head_blocks(heads))
        } else {
            model_grid(query as nat)
        }
    }

    /// Attention of one query per head to keys and values in buffers.
    pub open spec fn attended(
        self,
        t: Tape<T>,
        query: usize,
        key: usize,
        value: usize,
        heads: Heads,
        ring: Ring,
        sequence: usize,
        window: usize,
    ) -> (Tape<T>, usize) {
        let len = t.lens[query as int];
        if t.stopped() {
            (t, 0)
        } else if !Self::attention_agrees(
            len,
            t.lens[key as int] as int,
            t.lens[value as int] as int,
            heads,
            ring,
        ) {
            t.stop(Failure::InvalidShape("GQA shape mismatch"@))
        } else {
            t.filled(
                len,
                Launch::Attend {
                    query,
                    key,
                    value,
                    heads,
                    ring,
                    sequence,
                    window,
                    block: sequence <= MOST_ROWS,
                    out: t.next(),
                },
                Self::attention_grid(heads.heads, sequence, len),
            )
        }
    }

    fn agrees(query: usize, key: usize, value: usize, heads: Heads, ring: Ring) -> (r: bool)
        requires
            heads.kv_heads > 0,
        ensures
            r == Self::attention_agrees(query, key as int, value as int, heads, ring),
    {
        is_product(query, heads.heads, heads.head_dim) && is_product_of_three(
            key,
            ring.capacity,
            heads.kv_heads,
            heads.head_dim,
        ) && value == key && heads.heads % heads.kv_heads == 0 && ring.capacity != 0 && ring.start
            < ring.capacity
    }

    fn attention_launch(heads: usize, sequence: usize, query: usize) -> (r: Result<Grid>)
        ensures
            crate::gemma4_cuda::tape::grid_view(r) == Self::attention_grid(heads, sequence, query),
    {
        if sequence <= MOST_ROWS {
            Ok(block_per_head(heads))
        } else {
            model_launch_config(query)
        }
    }

    pub(crate) fn gqa(
        &self,
        tape: &mut Recorder<T>,
        query: usize,
        key: usize,
        value: usize,
        heads: Heads,
        ring: Ring,
        sequence: usize,
        window: usize,
    ) -> (r: Result<usize>)
        requires
            query < old(tape)@.lens.len(),
            key < old(tape)@.lens.len(),
            value < old(tape)@.lens.len(),
            heads.kv_heads > 0,
        ensures
            obeys(
                final(tape)@,
                r,
                self.attended(old(tape)@, query, key, value, heads, ring, sequence, window),
            ),
            keeps(old(tape)@, final(tape)@, r),
    {
        let len: usize = tape.len_of(query);
        if !Self::agrees(len, tape.len_of(key), tape.len_of(value), heads, ring) {
            return Err(Error::shape("GQA shape mismatch"));
        }
        let out: usize = tape.output(len);
        tape.launch(
            Launch::Attend {
                query,
                key,
                value,
                heads,
                ring,
                sequence,
                window,
                block: sequence <= MOST_ROWS,
                out,
            },
            Self::attention_launch(heads.heads, sequence, len),
        )?;
        Ok(out)
    }

    /// Attention of one query per head to what a cache keeps.
    pub open spec fn attended_cache(
        self,
        t: Tape<T>,
        query: usize,
        layer: usize,
        cache: Gemma4CudaKvCache,
        heads: usize,
        window: usize,
    ) -> (Tape<T>, usize) {
        let len = t.lens[query as int];
        let h = Heads { heads, kv_heads: cache.kv_heads, head_dim: cache.head_dim };
        let ring = Ring { start: cache.start, capacity: cache.capacity };
        if t.stopped() {
            (t, 0)
        } else if !Self::attention_agrees(len, cache.elements(), cache.elements(), h, ring) {
            t.stop(Failure::InvalidShape("GQA shape mismatch"@))
        } else {
            t.filled(
                len,
                Launch::AttendCache {
                    query,
                    layer,
                    heads: h,
                    ring,
                    sequence: cache.len,
                    window,
                    block: cache.len <= MOST_ROWS,
                    out: t.next(),
                },
                Self::attention_grid(heads, cache.len, len),
            )
        }
    }

    pub(crate) fn gqa_cache(
        &self,
        tape: &mut Recorder<T>,
        query: usize,
        layer: usize,
        cache: &Gemma4CudaKvCache,
        heads: usize,
        window: usize,
    ) -> (r: Result<usize>)
        requires
            query < old(tape)@.lens.len(),
            cache.wf(),
        ensures
            obeys(
                final(tape)@,
                r,
                self.attended_cache(old(tape)@, query, layer, *cache, heads, window),
            ),
            keeps(old(tape)@, final(tape)@, r),
    {
        proof {
            lemma_width(*cache);
            assert(0 <= cache.capacity * cache.kv_heads <= cache.elements()) by (nonlinear_arith)
                requires
                    cache.elements() == cache.capacity * cache.kv_heads * cache.head_dim,
                    cache.head_dim >= 1,
            ;
        }
        let h = Heads { heads, kv_heads: cache.kv_heads, head_dim: cache.head_dim };
        let ring = Ring { start: cache.start, capacity: cache.capacity };
        let elements: usize = cache.capacity * cache.kv_heads * cache.head_dim;
        let len: usize = tape.len_of(query);
        if !Self::agrees(len, elements, elements, h, ring) {
            return Err(Error::shape("GQA shape mismatch"));
        }
        let out: usize = tape.output(len);
        tape.launch(
            Launch::AttendCache {
                query,
                layer,
                heads: h,
                ring,
                sequence: cache.len,
                window,
                block: cache.len <= MOST_ROWS,
                out,
            },
            Self::attention_launch(heads, cache.len, len),
        )?;
        Ok(out)
    }

    /// Attention at the position of the decoder's state.
    pub open spec fn attended_state(
        self,
        t: Tape<T>,
        query: usize,
        layer: usize,
        cache: Gemma4CudaKvCache,
        heads: usize,
        head_dim: usize,
        window: usize,
    ) -> (Tape<T>, usize) {
        let len = t.lens[query as int];
        let h = Heads { heads, kv_heads: cache.kv_heads, head_dim };
        let ring = Ring { start: 0, capacity: cache.capacity };
        let block = cache.capacity <= MOST_ROWS;
        if t.stopped() {
            (t, 0)
        } else if !Self::attention_agrees(len, cache.elements(), cache.elements(), h, ring) {
            t.stop(Failure::InvalidShape("state GQA shape mismatch"@))
        } else {
            t.filled(
                len,
                Launch::AttendState {
                    query,
                    layer,
                    heads: h,
                    window,
                    capacity: cache.capacity,
                    block,
                    out: t.next(),
                },
                if block {
                    Ok(head_blocks(heads))
                } else {
                    model_grid(len as nat)
                },
            )
        }
    }

    pub(crate) fn gqa_state(
        &self,
        tape: &mut Recorder<T>,
        query: usize,
        layer: usize,
        cache: &Gemma4CudaKvCache,
        heads: usize,
        head_dim: usize,
        window: usize,
    ) -> (r: Result<usize>)
        requires
            query < old(tape)@.lens.len(),
            cache.wf(),
        ensures
            obeys(
                final(tape)@,
                r,
                self.attended_state(old(tape)@, query, layer, *cache, heads, head_dim, window),
            ),
            keeps(old(tape)@, final(tape)@, r),
    {
        proof {
            lemma_width(*cache);
            assert(0 <= cache.capacity * cache.kv_heads <= cache.elements()) by (nonlinear_arith)
                requires
                    cache.elements() == cache.capacity * cache.kv_heads * cache.head_dim,
                    cache.head_dim >= 1,
            ;
        }
        let h = Heads { heads, kv_heads: cache.kv_heads, head_dim };
        let capacity: usize = cache.capacity;
        let elements: usize = cache.capacity * cache.kv_heads * cache.head_dim;
        let len: usize = tape.len_of(query);
        if !Self::agrees(len, elements, elements, h, Ring { start: 0, capacity }) {
            return Err(Error::shape("state GQA shape mismatch"));
        }
        let out: usize = tape.output(len);
        let block: bool = capacity <= MOST_ROWS;
        let grid = if block {
            Ok(block_per_head(heads))
        } else {
            model_launch_config(len)
        };
        tape.launch(
            Launch::AttendState { query, layer, heads: h, window, capacity, block, out },
            grid,
        )?;
        Ok(out)
    }

    /// Causal attention of a whole prompt.
    pub open spec fn attended_prompt(
        self,
        t: Tape<T>,
        query: usize,
        layer: usize,
        cache: Gemma4CudaKvCache,
        rows: usize,
        heads: usize,
        head_dim: usize,
        window: usize,
    ) -> (Tape<T>, usize) {
        let len = t.lens[query as int];
        let h = Heads { heads, kv_heads: cache.kv_heads, head_dim };
        if t.stopped() {
            (t, 0)
        } else if rows == 0 || rows > MOST_ROWS || len != rows * heads * head_dim
            || cache.elements() < rows * cache.kv_heads * head_dim || heads % cache.kv_heads != 0 {
            t.stop(Failure::InvalidShape("prefill GQA shape mismatch"@))
        } else if rows * heads > u32::MAX {
            t.stop(Failure::InvalidShape("prefill GQA grid overflow"@))
        } else {
            t.filled(
                len,
                Launch::AttendPrompt { query, layer, rows, heads: h, window, out: t.next() },
                Ok(Grid::Blocks { blocks: (rows * heads) as u32, threads: 256 }),
            )
        }
    }

    pub(crate) fn gqa_prefill(
        &self,
        tape: &mut Recorder<T>,
        query: usize,
        layer: usize,
        cache: &Gemma4CudaKvCache,
        rows: usize,
        heads: usize,
        head_dim: usize,
        window: usize,
    ) -> (r: Result<usize>)
        requires
            query < old(tape)@.lens.len(),
            cache.wf(),
        ensures
            obeys(
                final(tape)@,
                r,
                self.attended_prompt(
                    old(tape)@,
                    query,
                    layer,
                    *cache,
                    rows,
                    heads,
                    head_dim,
                    window,
                ),
            ),
            keeps(old(tape)@, final(tape)@, r),
    {
        proof {
            lemma_width(*cache);
            assert(0 <= cache.capacity * cache.kv_heads <= cache.elements()) by (nonlinear_arith)
                requires
                    cache.elements() == cache.capacity * cache.kv_heads * cache.head_dim,
                    cache.head_dim >= 1,
            ;
        }
        let h = Heads { heads, kv_heads: cache.kv_heads, head_dim };
        let elements: usize = cache.capacity * cache.kv_heads * cache.head_dim;
        let len: usize = tape.len_of(query);
        if rows == 0 || rows > MOST_ROWS || !is_product_of_three(len, rows, heads, head_dim)
            || product_exceeds(elements, rows, cache.kv_heads, head_dim) || heads % cache.kv_heads
            != 0 {
            return Err(Error::shape("prefill GQA shape mismatch"));
        }
        let blocks: usize = match rows.checked_mul(heads) {
            Some(blocks) => blocks,
            None => {
                return Err(Error::shape("prefill GQA grid overflow"));
            },
        };
        if blocks as u64 > 0xffff_ffff {
            return Err(Error::shape("prefill GQA grid overflow"));
        }
        let out: usize = tape.output(len);
        tape.launch(
            Launch::AttendPrompt { query, layer, rows, heads: h, window, out },
            Ok(Grid::Blocks { blocks: blocks as u32, threads: 256 }),
        )?;
        Ok(out)
    }
}

/// Whether the product of three counts is larger than `a`.
fn product_exceeds(a: usize, b: usize, c: usize, d: usize) -> (r: bool)
    ensures
        r == (a < b * c * d),
{
    proof {
        assert(b * c * d == b * (c * d)) by (nonlinear_arith);
        assert(b == 0 ==> b * (c * d) == 0) by (nonlinear_arith);
    }
    if b == 0 {
        return false;
    }
    match c.checked_mul(d) {
        Some(row) => match b.checked_mul(row) {
            Some(all) => a < all,
            None => true,
        },
        None => {
            proof {
                assert(b * (c * d) > usize::MAX) by (nonlinear_arith)
                    requires
                        c * d > usize::MAX,
                        b >= 1,
                ;
            }
            true
        },
    }
}

} // verus!
