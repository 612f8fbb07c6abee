//! What the launches of a Gemma model do to what a device holds.
//!
//! Products with weights are computed by cuBLAS; of those only the size is stated.

use crate::cuda::attention_kernels::{attended_once, attended_twice, kept, Heads, Ring};
use crate::cuda::command::{added_up, multiplied_out};
use crate::cuda::model_kernels::{
    brain_scaled, gelu, rms_scaled, ring_place, rotated, shortened, times_brain, weighted_by,
    Rotation,
};
use crate::cuda::sampling_kernels::{
    block_end, looked_at, merged, named, scan_states, scanned, Pick, BLOCK_TOKENS,
};
use crate::cuda::top_tokens::{laid_out, tops, two_stages_pick_the_best, Tokens};
use crate::gemma4_cuda::cache::Gemma4CudaCacheTable;
use crate::gemma4_cuda::pick::{picked, picks};
use crate::gemma4_cuda::tape::{factor_is, Factor, Launch, Order, Side, Tape};
use crate::gemma4_cuda::weights::Gemma4CudaState;
use crate::models::gemma4::Gemma4TextConfig;
use crate::scalar::{counted, encoded, product, Scalar};
use vstd::prelude::*;

verus! {

/// What a device holds.
#[verifier::ext_equal]
pub struct Board<T> {
    /// The buffers of elements.
    pub wide: Seq<Seq<T>>,
    /// The buffers of sixteen-bit numbers.
    pub short: Seq<Seq<u16>>,
    /// The weights of the model.
    pub weights: Seq<Seq<u16>>,
    /// The tokens of the prompt.
    pub prompt: Seq<u32>,
    /// The token and the position of the decoder's state.
    pub token: usize,
    pub position: usize,
    /// Which tokens were seen.
    pub seen: Seq<u8>,
    /// The key and value caches of the layers.
    pub keys: Seq<Seq<T>>,
    pub values: Seq<Seq<T>>,
}

impl<T> Board<T> {
    /// A part of the cache of a layer.
    pub open spec fn cache(self, layer: usize, side: Side) -> Seq<T> {
        match side {
            Side::Key => self.keys[layer as int],
            Side::Value => self.values[layer as int],
        }
    }

    /// With a part of the cache of a layer replaced.
    pub open spec fn with_cache(self, layer: usize, side: Side, cache: Seq<T>) -> Board<T> {
        match side {
            Side::Key => Board { keys: self.keys.update(layer as int, cache), ..self },
            Side::Value => Board { values: self.values.update(layer as int, cache), ..self },
        }
    }

    /// With a token marked as seen, where it is one.
    pub open spec fn marked(self, token: usize) -> Board<T> {
        if token < self.seen.len() {
            Board { seen: self.seen.update(token as int, 1u8), ..self }
        } else {
            self
        }
    }

    /// With a buffer of elements filled.
    pub open spec fn filled(self, out: usize, elements: Seq<T>) -> Board<T> {
        Board { wide: self.wide.update(out as int, elements), ..self }
    }

    /// With a buffer of sixteen-bit numbers filled.
    pub open spec fn shortly_filled(self, out: usize, numbers: Seq<u16>) -> Board<T> {
        Board { short: self.short.update(out as int, numbers), ..self }
    }
}

/// A cache with elements written from an offset on.
pub open spec fn overwritten<T>(cache: Seq<T>, offset: int, input: Seq<T>) -> Seq<T> {
    Seq::new(
        cache.len(),
        |i: int|
            if offset <= i < offset + input.len() {
                input[i - offset]
            } else {
                cache[i]
            },
    )
}

/// Element by element, sixteen-bit numbers scaled by a factor.
pub open spec fn widened<T: Scalar>(numbers: Seq<u16>, factor: Factor, r: Seq<T>) -> bool {
    exists|scale: T| #[trigger]
        factor_is(factor, scale) && r.len() == numbers.len() && forall|i: int|
            0 <= i < r.len() ==> brain_scaled(numbers[i], scale, #[trigger] r[i])
}

/// `r` is an element rounded to sixteen bits.
pub open spec fn rounded<T: Scalar>(value: T, r: u16) -> bool {
    exists|bits: u32| #[trigger] encoded(value, bits) && r == shortened(bits)
}

/// `scale` is that of the row in which an element stands.
pub open spec fn row_scaled<T: Scalar>(
    input: Seq<T>,
    hidden: usize,
    epsilon: T,
    i: int,
    scale: T,
) -> bool {
    let row = i / hidden as int;
    rms_scaled(input.subrange(row * hidden, (row + 1) * hidden), hidden, epsilon, scale)
}

/// Rows normalized by the root of their mean square, and weighted.
pub open spec fn rms_normed<T: Scalar>(
    input: Seq<T>,
    weight: Seq<u16>,
    hidden: usize,
    epsilon: T,
    r: Seq<T>,
) -> bool {
    &&& r.len() == input.len()
    &&& forall|i: int|
        0 <= i < r.len() ==> exists|scale: T| #[trigger]
            row_scaled(input, hidden, epsilon, i, scale) && weighted_by(
                input[i],
                scale,
                weight[i % hidden as int],
                #[trigger] r[i],
            )
}

/// Rows normalized by the root of their mean square.
pub open spec fn unit_normed<T: Scalar>(
    input: Seq<T>,
    hidden: usize,
    epsilon: T,
    r: Seq<T>,
) -> bool {
    &&& r.len() == input.len()
    &&& forall|i: int|
        0 <= i < r.len() ==> exists|scale: T| #[trigger]
            row_scaled(input, hidden, epsilon, i, scale) && product(
                input[i],
                scale,
                #[trigger] r[i],
            )
}

/// Heads rotated by their positions, the first of which is `first`.
pub open spec fn roped<T: Scalar>(
    input: Seq<T>,
    rotation: Rotation,
    first: usize,
    theta: T,
    factor: T,
    r: Seq<T>,
) -> bool {
    &&& r.len() == input.len()
    &&& forall|i: int|
        0 <= i < r.len() ==> rotated(rotation, theta, factor, first, input, i, #[trigger] r[i])
}

/// One query per head attends to the keys and values of a ring.
pub open spec fn attended<T: Scalar>(
    heads: Heads,
    ring: Ring,
    sequence: int,
    window: usize,
    block: bool,
    query: Seq<T>,
    keys: Seq<T>,
    values: Seq<T>,
    r: Seq<T>,
) -> bool {
    let size = heads.head_dim as int;
    &&& r.len() == heads.heads * heads.head_dim
    &&& forall|i: int|
        0 <= i < r.len() ==> if block {
            attended_once(
                heads,
                ring,
                sequence,
                window as int,
                query,
                i / size * size,
                i / size,
                keys,
                values,
                i % size,
                #[trigger] r[i],
            )
        } else {
            attended_twice(
                heads,
                ring,
                sequence,
                window as int,
                query,
                i / size * size,
                i / size,
                keys,
                values,
                i % size,
                #[trigger] r[i],
            )
        }
}

/// Every row of a prompt attends to the rows up to its own.
pub open spec fn attended_causally<T: Scalar>(
    heads: Heads,
    rows: usize,
    window: usize,
    query: Seq<T>,
    keys: Seq<T>,
    values: Seq<T>,
    r: Seq<T>,
) -> bool {
    let size = heads.head_dim as int;
    &&& r.len() == rows * heads.heads * heads.head_dim
    &&& forall|i: int|
        0 <= i < r.len() ==> attended_once(
            heads,
            (Ring { start: 0, capacity: rows }),
            i / size / heads.heads as int + 1,
            window as int,
            query,
            i / size * size,
            i / size % heads.heads as int,
            keys,
            values,
            i % size,
            #[trigger] r[i],
        )
}

/// What a launch that fills one buffer of elements puts there.
pub open spec fn fills<T: Scalar>(board: Board<T>, launch: Launch<T>, r: Seq<T>) -> bool {
    match launch {
        Launch::WeightRange { weight, offset, factor, .. } => widened(
            board.weights[weight as int].subrange(offset as int, offset + r.len()),
            factor,
            r,
        ),
        Launch::WeightRowState { weight, width, factor, .. } => widened(
            board.weights[weight as int].subrange(
                board.token * width,
                board.token * width + r.len(),
            ),
            factor,
            r,
        ),
        Launch::WeightRows { weight, width, factor, .. } => widened(
            Seq::new(
                board.prompt.len() * width as nat,
                |i: int|
                    board.weights[weight as int][board.prompt[i / width as int] * width + i
                        % width as int],
            ),
            factor,
            r,
        ),
        Launch::RmsNorm { input, weight, hidden, epsilon, .. } => rms_normed(
            board.wide[input as int],
            board.weights[weight as int],
            hidden,
            epsilon,
            r,
        ),
        Launch::RmsNormUnit { input, hidden, epsilon, .. } => unit_normed(
            board.wide[input as int],
            hidden,
            epsilon,
            r,
        ),
        Launch::Rope { input, rotation, position, theta, factor, .. } => roped(
            board.wide[input as int],
            rotation,
            position,
            theta,
            factor,
            r,
        ),
        Launch::RopeState { input, rotation, theta, factor, .. } => roped(
            board.wide[input as int],
            rotation,
            board.position,
            theta,
            factor,
            r,
        ),
        Launch::Attend { query, key, value, heads, ring, sequence, window, block, .. } => attended(
            heads,
            ring,
            sequence as int,
            window,
            block,
            board.wide[query as int],
            board.wide[key as int],
            board.wide[value as int],
            r,
        ),
        Launch::AttendCache { query, layer, heads, ring, sequence, window, block, .. } => attended(
            heads,
            ring,
            sequence as int,
            window,
            block,
            board.wide[query as int],
            board.keys[layer as int],
            board.values[layer as int],
            r,
        ),
        Launch::AttendState { query, layer, heads, window, capacity, block, .. } => {
            let (sequence, start) = kept(board.position + 1, capacity as int);
            attended(
                heads,
                (Ring { start: start as usize, capacity }),
                sequence,
                window,
                block,
                board.wide[query as int],
                board.keys[layer as int],
                board.values[layer as int],
                r,
            )
        },
        Launch::AttendPrompt { query, layer, rows, heads, window, .. } => attended_causally(
            heads,
            rows,
            window,
            board.wide[query as int],
            board.keys[layer as int],
            board.values[layer as int],
            r,
        ),
        Launch::Linear { rows, outputs, .. } => r.len() == rows * outputs,
        Launch::Slice { input, offset, .. } => r == board.wide[input as int].subrange(
            offset as int,
            offset + r.len(),
        ),
        Launch::SliceRows { input, input_width, offset, output_width, .. } => forall|i: int|
            0 <= i < r.len() ==> #[trigger] r[i] == board.wide[input as int][i / output_width as int
                * input_width + offset + i % output_width as int],
        Launch::Gelu { input, .. } => {
            &&& r.len() == board.wide[input as int].len()
            &&& forall|i: int|
                0 <= i < r.len() ==> gelu(board.wide[input as int][i], #[trigger] r[i])
        },
        Launch::GeluMul { gate, up, .. } => exists|bent: Seq<T>|
            {
                &&& bent.len() == board.wide[gate as int].len()
                &&& forall|i: int|
                    0 <= i < bent.len() ==> gelu(
                        board.wide[gate as int][i],
                        #[trigger] bent[i],
                    )
                &&& #[trigger] multiplied_out(bent, board.wide[up as int], r)
            },
        Launch::Add { left, right, .. } => added_up(
            board.wide[left as int],
            board.wide[right as int],
            r,
        ),
        Launch::Mul { left, right, .. } => multiplied_out(
            board.wide[left as int],
            board.wide[right as int],
            r,
        ),
        Launch::Scale { input, factor, .. } => exists|scale: T| #[trigger]
            factor_is(factor, scale) && r.len() == board.wide[input as int].len() && forall|
                i: int,
            |
                0 <= i < r.len() ==> product(board.wide[input as int][i], scale, #[trigger] r[i]),
        Launch::ScaleByWeight { input, weight, .. } => {
            &&& r.len() == board.wide[input as int].len()
            &&& forall|i: int|
                0 <= i < r.len() ==> times_brain(
                    board.wide[input as int][i],
                    board.weights[weight as int][0],
                    #[trigger] r[i],
                )
        },
        _ => false,
    }
}

/// The buffer that a launch fills with elements, where it fills one.
pub open spec fn filled_by<T>(launch: Launch<T>) -> Option<usize> {
    match launch {
        Launch::WeightRange { out, .. } => Some(out),
        Launch::WeightRowState { out, .. } => Some(out),
        Launch::WeightRows { out, .. } => Some(out),
        Launch::RmsNorm { out, .. } => Some(out),
        Launch::RmsNormUnit { out, .. } => Some(out),
        Launch::Rope { out, .. } => Some(out),
        Launch::RopeState { out, .. } => Some(out),
        Launch::Attend { out, .. } => Some(out),
        Launch::AttendCache { out, .. } => Some(out),
        Launch::AttendState { out, .. } => Some(out),
        Launch::AttendPrompt { out, .. } => Some(out),
        Launch::Linear { out, .. } => Some(out),
        Launch::Slice { out, .. } => Some(out),
        Launch::SliceRows { out, .. } => Some(out),
        Launch::Gelu { out, .. } => Some(out),
        Launch::GeluMul { out, .. } => Some(out),
        Launch::Add { out, .. } => Some(out),
        Launch::Mul { out, .. } => Some(out),
        Launch::Scale { out, .. } => Some(out),
        Launch::ScaleByWeight { out, .. } => Some(out),
        _ => None,
    }
}

/// `lists` are the best tokens of each block of the logits.
pub open spec fn block_picks<T: Scalar>(
    logits: Seq<T>,
    seen: Seq<u8>,
    penalty: T,
    k: nat,
    lists: Seq<Seq<Pick<T>>>,
) -> bool {
    &&& lists.len() == (logits.len() + BLOCK_TOKENS - 1) / BLOCK_TOKENS as int
    &&& forall|b: int|
        0 <= b < lists.len() ==> scanned(
            logits,
            seen,
            penalty,
            k,
            b * BLOCK_TOKENS,
            block_end(b, logits.len() as int),
            #[trigger] lists[b],
        ) && lists[b].len() == k
}

/// The buffers hold the scores of picks, and their tokens as counts.
pub open spec fn noted<T: Scalar>(row: Seq<Pick<T>>, scores: Seq<T>, ids: Seq<T>) -> bool {
    &&& scores.len() == row.len()
    &&& ids.len() == row.len()
    &&& forall|i: int| 0 <= i < row.len() ==> #[trigger] scores[i] == row[i].score
    &&& forall|i: int|
        0 <= i < row.len() ==> counted(row[i].id as usize, #[trigger] ids[i])
}

/// A launch leads from `before` to `after`.
pub open spec fn acts<T: Scalar>(
    lens: Seq<usize>,
    before: Board<T>,
    launch: Launch<T>,
    after: Board<T>,
) -> bool {
    match launch {
        Launch::SetState { token, position } => after == (Board { token, position, ..before }),
        Launch::UpdateState { token, position, mark } => {
            let state = Board { token, position, ..before };
            after == if mark {
                state.marked(token)
            } else {
                state
            }
        },
        Launch::ClearSeen { tokens } => after == (Board {
            seen: Seq::new(tokens as nat, |i: int| 0u8),
            ..before
        }),
        Launch::MarkSeen { token } => after == before.marked(token),
        Launch::CacheWrite { layer, side, offset, input } => after == before.with_cache(
            layer,
            side,
            overwritten(before.cache(layer, side), offset as int, before.wide[input as int]),
        ),
        Launch::CacheWriteState { layer, side, width, capacity, input } => after
            == before.with_cache(
            layer,
            side,
            overwritten(
                before.cache(layer, side),
                ring_place(before.position as int, capacity as int, width as int, 0),
                before.wide[input as int],
            ),
        ),
        Launch::Shorten { input, out } => {
            let numbers = after.short[out as int];
            &&& after == before.shortly_filled(out, numbers)
            &&& numbers.len() == lens[out as int]
            &&& forall|i: int|
                0 <= i < numbers.len() ==> rounded(
                    before.wide[input as int][i],
                    #[trigger] numbers[i],
                )
        },
        Launch::RmsNormShort { input, weight, hidden, epsilon, out } => {
            let numbers = after.short[out as int];
            &&& after == before.shortly_filled(out, numbers)
            &&& numbers.len() == lens[out as int]
            &&& exists|values: Seq<T>|
                {
                    &&& #[trigger] rms_normed(
                        before.wide[input as int],
                        before.weights[weight as int],
                        hidden,
                        epsilon,
                        values,
                    )
                    &&& forall|i: int|
                        0 <= i < numbers.len() ==> rounded(values[i], #[trigger] numbers[i])
                }
        },
        Launch::PickBlocks { logits, picks, penalty, scores, ids } => exists|
            lists: Seq<Seq<Pick<T>>>,
        |
            {
                &&& #[trigger] block_picks(
                    before.wide[logits as int],
                    before.seen,
                    penalty,
                    picks as nat,
                    lists,
                )
                &&& noted(
                    crate::cuda::top_tokens::row(lists, picks as nat),
                    after.wide[scores as int],
                    after.wide[ids as int],
                )
                &&& after == before.filled(scores, after.wide[scores as int]).filled(
                    ids,
                    after.wide[ids as int],
                )
            },
        Launch::PickBest { picks, block_scores, block_ids, scores, ids } => exists|
            best: Seq<Pick<T>>,
        |
            {
                &&& #[trigger] merged(
                    before.wide[block_scores as int],
                    before.wide[block_ids as int],
                    picks as nat,
                    best,
                )
                &&& noted(best, after.wide[scores as int], after.wide[ids as int])
                &&& after == before.filled(scores, after.wide[scores as int]).filled(
                    ids,
                    after.wide[ids as int],
                )
            },
        _ => {
            &&& filled_by(launch) matches Some(out) && {
                let elements = after.wide[out as int];
                &&& after == before.filled(out, elements)
                &&& elements.len() == lens[out as int]
                &&& fills(before, launch, elements)
            }
        },
    }
}

/// Launches in order lead from `before` to `after`.
pub open spec fn performs<T: Scalar>(
    lens: Seq<usize>,
    before: Board<T>,
    log: Seq<Order<T>>,
    after: Board<T>,
) -> bool
    decreases log.len(),
{
    if log.len() == 0 {
        after == before
    } else {
        exists|middle: Board<T>|
            {
                &&& performs(lens, before, log.drop_last(), middle)
                &&& #[trigger] acts(lens, middle, log.last().launch, after)
            }
    }
}

/// The numbers of tokens are read back as they were written.
pub open spec fn numbers_survive<T: Scalar>(tokens: nat) -> bool {
    forall|id: usize, element: T, r: u32|
        id < tokens && #[trigger] counted(id, element) && #[trigger] named(element, r) ==> r == id
}

/// The buffers hold the best of all tokens: as many as are asked for or as there are, from
/// the best down, none twice, each with what it is worth.  This is said of scores that are
/// numbers above the lowest and whose comparisons agree with a key, where the numbers of
/// tokens are read back as they were written.
pub open spec fn holds_the_best<T: Scalar>(
    before: Board<T>,
    logits: usize,
    k: usize,
    penalty: T,
    after: Board<T>,
    scores: usize,
    ids: usize,
) -> bool {
    forall|tokens: Tokens<T>, order: crate::cuda::top_tokens::Order<T>|
        {
            &&& tokens.logits == before.wide[logits as int]
            &&& tokens.seen == before.seen
            &&& tokens.penalty == penalty
            &&& order.holds()
            &&& #[trigger] tokens.valued(order)
            &&& numbers_survive::<T>(tokens.logits.len())
        } ==> exists|best: Seq<Pick<T>>|
            {
                &&& #[trigger] noted(best, after.wide[scores as int], after.wide[ids as int])
                &&& best.len() == k
                &&& tops(
                    order,
                    tokens.picks(0, tokens.logits.len() as int),
                    best,
                    if k <= tokens.logits.len() {
                        k as int
                    } else {
                        tokens.logits.len() as int
                    },
                )
            }
}

/// Every pick of a block is a token.
proof fn lemma_picks_are_tokens<T: Scalar>(
    logits: Seq<T>,
    seen: Seq<u8>,
    penalty: T,
    k: nat,
    start: int,
    end: int,
    states: Seq<Seq<Pick<T>>>,
    i: int,
)
    requires
        0 <= start <= end <= logits.len() <= u32::MAX,
        logits.len() > 0,
        scan_states(logits, seen, penalty, k, start, end, states),
        0 <= i <= end - start,
    ensures
        states[i].len() == k,
        forall|j: int| 0 <= j < k ==> (#[trigger] states[i][j]).id < logits.len(),
    decreases i,
{
    if i > 0 {
        lemma_picks_are_tokens(logits, seen, penalty, k, start, end, states, i - 1);
        let before = states[i - 1];
        assert(looked_at(
            logits[start + (i - 1)],
            seen[start + (i - 1)],
            penalty,
            (start + (i - 1)) as u32,
            before,
            states[i - 1 + 1],
        ));
    }
}

/// Two launches pick the best of all tokens.
pub proof fn two_launches_pick_the_best<T: Scalar>(
    lens: Seq<usize>,
    before: Board<T>,
    between: Board<T>,
    after: Board<T>,
    logits: usize,
    k: usize,
    penalty: T,
    blocks: (usize, usize),
    scores: usize,
    ids: usize,
)
    requires
        k > 0,
        acts(
            lens,
            before,
            Launch::PickBlocks { logits, picks: k, penalty, scores: blocks.0, ids: blocks.1 },
            between,
        ),
        acts(
            lens,
            between,
            Launch::PickBest {
                picks: k,
                block_scores: blocks.0,
                block_ids: blocks.1,
                scores,
                ids,
            },
            after,
        ),
    ensures
        holds_the_best(before, logits, k, penalty, after, scores, ids),
{
    let all = before.wide[logits as int];
    let lists = choose|lists: Seq<Seq<Pick<T>>>|
        {
            &&& #[trigger] block_picks(all, before.seen, penalty, k as nat, lists)
            &&& noted(
                crate::cuda::top_tokens::row(lists, k as nat),
                between.wide[blocks.0 as int],
                between.wide[blocks.1 as int],
            )
            &&& between == before.filled(blocks.0, between.wide[blocks.0 as int]).filled(
                blocks.1,
                between.wide[blocks.1 as int],
            )
        };
    let best = choose|best: Seq<Pick<T>>|
        {
            &&& #[trigger] merged(
                between.wide[blocks.0 as int],
                between.wide[blocks.1 as int],
                k as nat,
                best,
            )
            &&& noted(best, after.wide[scores as int], after.wide[ids as int])
            &&& after == between.filled(scores, after.wide[scores as int]).filled(
                ids,
                after.wide[ids as int],
            )
        };
    assert forall|tokens: Tokens<T>, order: crate::cuda::top_tokens::Order<T>|
        {
            &&& tokens.logits == all
            &&& tokens.seen == before.seen
            &&& tokens.penalty == penalty
            &&& order.holds()
            &&& #[trigger] tokens.valued(order)
            &&& numbers_survive::<T>(tokens.logits.len())
        } implies exists|best: Seq<Pick<T>>|
        {
            &&& #[trigger] noted(best, after.wide[scores as int], after.wide[ids as int])
            &&& best.len() == k
            &&& tops(
                order,
                tokens.picks(0, tokens.logits.len() as int),
                best,
                if k <= tokens.logits.len() {
                    k as int
                } else {
                    tokens.logits.len() as int
                },
            )
        } by {
        lemma_laid_out(
            all,
            before.seen,
            penalty,
            k as nat,
            lists,
            between.wide[blocks.0 as int],
            between.wide[blocks.1 as int],
        );
        assert(tokens.first_stage(k as nat, lists)) by {
            assert forall|b: int| 0 <= b < lists.len() implies scanned(
                tokens.logits,
                tokens.seen,
                tokens.penalty,
                k as nat,
                tokens.start(b),
                tokens.end(b),
                #[trigger] lists[b],
            ) && lists[b].len() == k by {}
        }
        let n = two_stages_pick_the_best(
            tokens,
            order,
            k as nat,
            lists,
            between.wide[blocks.0 as int],
            between.wide[blocks.1 as int],
            best,
        );
        assert(noted(best, after.wide[scores as int], after.wide[ids as int]));
    }
}

/// The picks of the blocks are read back as they were noted.
proof fn lemma_laid_out<T: Scalar>(
    logits: Seq<T>,
    seen: Seq<u8>,
    penalty: T,
    k: nat,
    lists: Seq<Seq<Pick<T>>>,
    scores: Seq<T>,
    ids: Seq<T>,
)
    requires
        k > 0,
        logits.len() <= u32::MAX,
        block_picks(logits, seen, penalty, k, lists),
        noted(crate::cuda::top_tokens::row(lists, k), scores, ids),
        numbers_survive::<T>(logits.len()),
    ensures
        laid_out(lists, k, scores, ids),
{
    let row = crate::cuda::top_tokens::row(lists, k);
    assert forall|i: int| 0 <= i < row.len() implies (#[trigger] row[i]).id < logits.len() by {
        let w = k as int;
        crate::index::lemma_unflat(i, lists.len() as int, w);
        let b = i / w;
        let start = b * BLOCK_TOKENS;
        let end = block_end(b, logits.len() as int);
        assert(scanned(logits, seen, penalty, k, start, end, lists[b]));
        let states = choose|states: Seq<Seq<Pick<T>>>|
            #[trigger] scan_states(logits, seen, penalty, k, start, end, states) && states[end
                - start] == lists[b];
        assert(start < logits.len());
        lemma_picks_are_tokens(logits, seen, penalty, k, start, end, states, end - start);
        assert(row[i] == lists[b][i % w]);
    }
    assert forall|i: int| 0 <= i < scores.len() implies #[trigger] scores[i] == lists[i
        / k as int][i % k as int].score by {
        assert(scores[i] == row[i].score);
    }
    assert forall|i: int, r: u32| 0 <= i < ids.len() && #[trigger] named(ids[i], r) implies r
        == lists[i / k as int][i % k as int].id by {
        assert(row[i].id < logits.len());
        assert(counted(row[i].id as usize, ids[i]));
    }
}

/// The last launch of a recording.
proof fn lemma_last<T: Scalar>(
    lens: Seq<usize>,
    before: Board<T>,
    log: Seq<Order<T>>,
    last: Order<T>,
    after: Board<T>,
) -> (middle: Board<T>)
    requires
        performs(lens, before, log.push(last), after),
    ensures
        performs(lens, before, log, middle),
        acts(lens, middle, last.launch, after),
{
    let all = log.push(last);
    assert(all.drop_last() =~= log);
    assert(all.last() == last);
    choose|middle: Board<T>|
        {
            &&& performs(lens, before, all.drop_last(), middle)
            &&& #[trigger] acts(lens, middle, all.last().launch, after)
        }
}

/// A decoding step for the best tokens leaves the best of all tokens in its buffers, by the
/// scores that its launches before have left.
pub proof fn decoding_picks_the_best<T: Scalar>(
    state: Gemma4CudaState<T>,
    t: Tape<T>,
    token: u32,
    config: Gemma4TextConfig<T>,
    table: Gemma4CudaCacheTable,
    count: usize,
    penalty: T,
    lens: Seq<usize>,
    before: Board<T>,
    after: Board<T>,
) -> (scored: Board<T>)
    requires
        count > 0,
        !picked(state, t, token, config, table, count, penalty).0.stopped(),
        performs(
            lens,
            before,
            picked(state, t, token, config, table, count, penalty).0.log,
            after,
        ),
    ensures
        ({
            let (plan, found) = picked(state, t, token, config, table, count, penalty);
            let (steps, logits) = state.scored(t, token, config, table);
            &&& performs(lens, before, steps.log, scored)
            &&& holds_the_best(scored, logits, count, penalty, after, found.scores, found.ids)
        }),
{
    let (plan, found) = picked(state, t, token, config, table, count, penalty);
    let (steps, logits) = state.scored(t, token, config, table);
    let (first, blocks) = picks(steps, logits, config.vocab_size, count, penalty);
    let one = Launch::PickBlocks {
        logits,
        picks: count,
        penalty,
        scores: blocks.0,
        ids: blocks.1,
    };
    let two = Launch::<T>::PickBest {
        picks: count,
        block_scores: blocks.0,
        block_ids: blocks.1,
        scores: found.scores,
        ids: found.ids,
    };
    assert(first.log == steps.log.push(first.log.last()) && first.log.last().launch == one);
    assert(plan.log == first.log.push(plan.log.last()) && plan.log.last().launch == two);
    let between = lemma_last(lens, before, first.log, plan.log.last(), after);
    let scored = lemma_last(lens, before, steps.log, first.log.last(), between);
    two_launches_pick_the_best(
        lens,
        scored,
        between,
        after,
        logits,
        count,
        penalty,
        blocks,
        found.scores,
        found.ids,
    );
    scored
}

/// The buffers that a launch fills with elements.
pub open spec fn outputs<T>(launch: Launch<T>) -> Seq<usize> {
    match launch {
        Launch::PickBlocks { scores, ids, .. } => seq![scores, ids],
        Launch::PickBest { scores, ids, .. } => seq![scores, ids],
        _ => match filled_by(launch) {
            Some(out) => seq![out],
            None => seq![],
        },
    }
}

/// A launch leaves the buffer: it fills others, and there are those.
pub open spec fn spares<T>(launch: Launch<T>, buffers: nat, buffer: usize) -> bool {
    forall|k: int|
        0 <= k < outputs(launch).len() ==> (#[trigger] outputs(launch)[k]) < buffers
            && outputs(launch)[k] != buffer
}

/// A launch leaves the weights, the prompt, and every buffer but those that it fills.
proof fn lemma_spared<T: Scalar>(
    lens: Seq<usize>,
    before: Board<T>,
    launch: Launch<T>,
    after: Board<T>,
    buffer: usize,
)
    requires
        acts(lens, before, launch, after),
        buffer < before.wide.len(),
        spares(launch, before.wide.len(), buffer),
    ensures
        after.wide.len() == before.wide.len(),
        after.wide[buffer as int] == before.wide[buffer as int],
        after.weights == before.weights,
        after.prompt == before.prompt,
{
    let outs = outputs(launch);
    match launch {
        Launch::PickBlocks { scores, ids, .. } => {
            assert(outs[0] == scores && outs[1] == ids);
        },
        Launch::PickBest { scores, ids, .. } => {
            assert(outs[0] == scores && outs[1] == ids);
        },
        _ => {
            if let Some(out) = filled_by(launch) {
                assert(outs[0] == out);
            }
        },
    }
}

/// Launches leave the weights, the prompt, and every buffer but those that they fill.
pub proof fn launches_leave_other_buffers<T: Scalar>(
    lens: Seq<usize>,
    before: Board<T>,
    log: Seq<Order<T>>,
    after: Board<T>,
    buffer: usize,
)
    requires
        performs(lens, before, log, after),
        buffer < before.wide.len(),
        forall|k: int|
            0 <= k < log.len() ==> spares(
                (#[trigger] log[k]).launch,
                before.wide.len(),
                buffer,
            ),
    ensures
        after.wide.len() == before.wide.len(),
        after.wide[buffer as int] == before.wide[buffer as int],
        after.weights == before.weights,
        after.prompt == before.prompt,
    decreases log.len(),
{
    if log.len() > 0 {
        let rest = log.drop_last();
        let middle = choose|middle: Board<T>|
            {
                &&& performs(lens, before, rest, middle)
                &&& #[trigger] acts(lens, middle, log.last().launch, after)
            };
        assert forall|k: int| 0 <= k < rest.len() implies spares(
            (#[trigger] rest[k]).launch,
            before.wide.len(),
            buffer,
        ) by {
            assert(rest[k] == log[k]);
        }
        launches_leave_other_buffers(lens, before, rest, middle, buffer);
        assert(log.last() == log[log.len() - 1]);
        lemma_spared(lens, middle, log.last().launch, after, buffer);
    }
}

} // verus!
