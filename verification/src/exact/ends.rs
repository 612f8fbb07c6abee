//! What a device holds at the ends of a language model: the embeddings of tokens, and the
//! scores of tokens.

use crate::cuda::model_kernels::{brain, brain_scaled};
use crate::exact::feed_forward::{
    lemma_linear, lemma_peel, norms_divide_by_the_mean_square, performs_exactly, records,
    rms_rows, rounds, row_product,
};
use crate::exact::language::short_number;
use crate::exact::per_layer::{lemma_recorded_lens, prefix};
use crate::exact::scales::factors_are_roots;
use crate::exact::Reading;
use crate::gemma4_cuda::effects::{fills, rms_normed, widened, Board};
use crate::gemma4_cuda::tape::{factor_is, Factor, Launch, Order, Tape};
use crate::gemma4_cuda::weights::{number_of, Gemma4CudaState};
use crate::models::gemma4::{aliases, Gemma4TextConfig};
use crate::scalar::{product, Scalar};
use vstd::prelude::*;

verus! {

/// A number that is found bears the name, and where none is found nothing bears it.
proof fn lemma_number_of(names: Seq<String>, name: Seq<char>)
    requires
        names.len() <= usize::MAX,
    ensures
        match number_of(names, name) {
            Some(i) => i < names.len() && names[i as int]@ == name,
            None => forall|i: int| 0 <= i < names.len() ==> (#[trigger] names[i])@ != name,
        },
    decreases names.len(),
{
    if names.len() > 0 && names.last()@ != name {
        let rest = names.drop_last();
        lemma_number_of(rest, name);
        if number_of(names, name) is None {
            assert forall|i: int| 0 <= i < names.len() implies (#[trigger] names[i])@ != name by {
                if i < rest.len() {
                    assert(rest[i]@ != name);
                }
            }
        }
    }
}

/// A weight that is found by a name is there, and bears one of the name's aliases; where none
/// is found no weight bears one.
pub proof fn found_weights_bear_their_names<T>(state: Gemma4CudaState<T>, suffix: Seq<char>)
    requires
        state.wf(),
    ensures
        match state.weight_number(suffix) {
            Some(i) => i < state.weights@.len() && exists|k: int|
                0 <= k < 4 && state.names@[i as int]@ == #[trigger] aliases(suffix)[k],
            None => forall|i: int, k: int|
                0 <= i < state.names@.len() && 0 <= k < 4 ==> (#[trigger] state.names@[i])@
                    != #[trigger] aliases(suffix)[k],
        },
{
    let names = aliases(suffix);
    assert(state.names.len() == state.names@.len());
    lemma_number_of(state.names@, names[0]);
    lemma_number_of(state.names@, names[1]);
    lemma_number_of(state.names@, names[2]);
    lemma_number_of(state.names@, names[3]);
}

/// Numbers scaled by the root of a count.
pub proof fn lemma_widened<T: Scalar>(
    reading: Reading<T>,
    numbers: Seq<u16>,
    n: usize,
    r: Seq<T>,
) -> (root: real)
    requires
        reading.exact(),
        widened(numbers, Factor::Root(n), r),
    ensures
        root >= 0 as real,
        root * root == n as real,
        r.len() == numbers.len(),
        forall|i: int|
            0 <= i < r.len() ==> reading.of(#[trigger] r[i]) == short_number(reading, numbers[i])
                * root,
{
    let scale = choose|scale: T| #[trigger]
        factor_is(Factor::Root(n), scale) && r.len() == numbers.len() && forall|i: int|
            0 <= i < r.len() ==> brain_scaled(numbers[i], scale, #[trigger] r[i]);
    factors_are_roots(reading, Factor::Root(n), scale);
    let root = reading.of(scale);
    assert forall|i: int| 0 <= i < r.len() implies reading.of(#[trigger] r[i]) == short_number(
        reading,
        numbers[i],
    ) * root by {
        assert(brain_scaled(numbers[i], scale, r[i]));
        let wide = choose|wide: T| brain(numbers[i], wide) && #[trigger] product(wide, scale, r[i]);
        assert(reading.of(wide) == short_number(reading, numbers[i]));
    }
    root
}

/// One launch that fills a buffer was performed.
proof fn lemma_only_launch<T: Scalar>(
    reading: Reading<T>,
    t: Tape<T>,
    launch: Launch<T>,
    u: Tape<T>,
    out: usize,
    start: Board<T>,
    after: Board<T>,
)
    requires
        records(t, launch, u, out),
        performs_exactly(reading, u.lens, start, u.log.skip(t.log.len() as int), after),
    ensures
        crate::gemma4_cuda::effects::acts(u.lens, start, launch, after),
{
    let b = lemma_peel(reading, u.lens, start, t, launch, u, out, t.log.len(), after);
    assert(t.log.skip(t.log.len() as int) =~= Seq::<Order<T>>::empty());
    assert(b == start);
}

/// The embedding of the decoder's token is the row of the token in the table of embeddings,
/// times the root of the width.
pub proof fn embeddings_are_scaled_rows<T: Scalar>(
    reading: Reading<T>,
    state: Gemma4CudaState<T>,
    t: Tape<T>,
    hidden: usize,
    start: Board<T>,
    after: Board<T>,
) -> (root: real)
    requires
        reading.exact(),
        t.lens.len() < usize::MAX,
        !state.embedded_state(t, hidden).0.stopped(),
        start.wide.len() > t.lens.len(),
        performs_exactly(
            reading,
            state.embedded_state(t, hidden).0.lens,
            start,
            state.embedded_state(t, hidden).0.log.skip(t.log.len() as int),
            after,
        ),
    ensures
        root >= 0 as real,
        root * root == hidden as real,
        match state.weight_number("embed_tokens.weight"@) {
            None => false,
            Some(weight) => {
                let row = after.wide[state.embedded_state(t, hidden).1 as int];
                &&& row.len() == hidden
                &&& start.token * hidden + hidden <= start.weights[weight as int].len()
                    ==> forall|i: int|
                    0 <= i < hidden ==> reading.of(#[trigger] row[i]) == short_number(
                        reading,
                        start.weights[weight as int][start.token * hidden + i],
                    ) * root
            },
        },
{
    let weight = state.weight_number("embed_tokens.weight"@)->Some_0;
    let (u, out) = state.embedded_state(t, hidden);
    let launch = Launch::WeightRowState {
        weight,
        width: hidden,
        factor: Factor::Root(hidden),
        out,
    };
    assert(u.lens == t.lens.push(hidden));
    assert(u.log == t.log.push(u.log.last()));
    assert(u.lens.drop_last() =~= t.lens);
    assert(u.log.drop_last() =~= t.log);
    lemma_only_launch(reading, t, launch, u, out, start, after);
    let row = after.wide[out as int];
    assert(fills(start, launch, row));
    let numbers = start.weights[weight as int].subrange(
        start.token * hidden,
        start.token * hidden + row.len(),
    );
    let root = lemma_widened(reading, numbers, hidden, row);
    if start.token * hidden + hidden <= start.weights[weight as int].len() {
        assert(0 <= start.token * hidden) by (nonlinear_arith)
            requires
                start.token >= 0,
                hidden >= 0,
        ;
        assert forall|i: int| 0 <= i < hidden implies reading.of(#[trigger] row[i]) == short_number(
            reading,
            start.weights[weight as int][start.token * hidden + i],
        ) * root by {
            assert(numbers[i] == start.weights[weight as int][start.token * hidden + i]);
        }
    }
    root
}

/// The embeddings of a prompt are the rows of its tokens in the table of embeddings, each
/// times the root of the width.
pub proof fn prompt_embeddings_are_scaled_rows<T: Scalar>(
    reading: Reading<T>,
    state: Gemma4CudaState<T>,
    t: Tape<T>,
    tokens: Seq<u32>,
    hidden: usize,
    start: Board<T>,
    after: Board<T>,
) -> (root: real)
    requires
        reading.exact(),
        t.lens.len() < usize::MAX,
        !state.embedded_rows(t, tokens, hidden).0.stopped(),
        start.wide.len() > t.lens.len(),
        hidden > 0,
        performs_exactly(
            reading,
            state.embedded_rows(t, tokens, hidden).0.lens,
            start,
            state.embedded_rows(t, tokens, hidden).0.log.skip(t.log.len() as int),
            after,
        ),
    ensures
        root >= 0 as real,
        root * root == hidden as real,
        match state.weight_number("embed_tokens.weight"@) {
            None => false,
            Some(weight) => {
                let rows = after.wide[state.embedded_rows(t, tokens, hidden).1 as int];
                &&& rows.len() == start.prompt.len() * hidden
                &&& forall|r: int, i: int|
                    0 <= r < start.prompt.len() && 0 <= i < hidden ==> reading.of(
                        #[trigger] rows[r * hidden + i],
                    ) == short_number(
                        reading,
                        start.weights[weight as int][start.prompt[r] * hidden + i],
                    ) * root
            },
        },
{
    let weight = state.weight_number("embed_tokens.weight"@)->Some_0;
    let (u, out) = state.embedded_rows(t, tokens, hidden);
    let launch = Launch::WeightRows { weight, width: hidden, factor: Factor::Root(hidden), out };
    assert(u.lens == t.lens.push((tokens.len() * hidden) as usize));
    assert(u.log == t.log.push(u.log.last()));
    assert(u.lens.drop_last() =~= t.lens);
    assert(u.log.drop_last() =~= t.log);
    lemma_only_launch(reading, t, launch, u, out, start, after);
    let rows = after.wide[out as int];
    assert(fills(start, launch, rows));
    let numbers = Seq::new(
        start.prompt.len() * hidden as nat,
        |i: int|
            start.weights[weight as int][start.prompt[i / hidden as int] * hidden + i
                % hidden as int],
    );
    let root = lemma_widened(reading, numbers, hidden, rows);
    assert forall|r: int, i: int|
        0 <= r < start.prompt.len() && 0 <= i < hidden implies reading.of(
        #[trigger] rows[r * hidden + i],
    ) == short_number(reading, start.weights[weight as int][start.prompt[r] * hidden + i])
        * root by {
        crate::index::lemma_flat(r, start.prompt.len() as int, i, hidden as int);
        crate::index::lemma_flat_inverse(r, i, hidden as int);
    }
    root
}

/// The score of a token is the sum of the products of the last hidden state, normalized and
/// rounded, and the token's row in the table of embeddings.
pub proof fn scores_are_products_with_embeddings<T: Scalar>(
    reading: Reading<T>,
    state: Gemma4CudaState<T>,
    t: Tape<T>,
    hidden: usize,
    config: Gemma4TextConfig<T>,
    start: Board<T>,
    after: Board<T>,
) -> (r: (Seq<T>, Seq<u16>))
    requires
        reading.exact(),
        reading.of(config.rms_norm_eps) > 0 as real,
        state.wf(),
        hidden < t.lens.len(),
        t.lens.len() + 3 <= usize::MAX,
        !state.headed(t, hidden, config).0.stopped(),
        start.wide.len() >= state.headed(t, hidden, config).0.lens.len(),
        start.short.len() >= state.headed(t, hidden, config).0.lens.len(),
        start.wide[hidden as int].len() == t.lens[hidden as int],
        performs_exactly(
            reading,
            state.headed(t, hidden, config).0.lens,
            start,
            state.headed(t, hidden, config).0.log.skip(t.log.len() as int),
            after,
        ),
    ensures
        match (
            state.weight_number("norm.weight"@),
            state.weight_number("embed_tokens.weight"@),
        ) {
            (Some(norm), Some(table)) => {
                let scores = after.wide[state.headed(t, hidden, config).1 as int];
                &&& rms_rows(
                    reading,
                    start.wide[hidden as int],
                    start.weights[norm as int],
                    state.weights@[norm as int].shape@[0] as int,
                    reading.of(config.rms_norm_eps),
                    r.0,
                )
                &&& rounds(r.0, r.1)
                &&& scores.len() == config.vocab_size
                &&& forall|token: int|
                    0 <= token < scores.len() ==> reading.of(#[trigger] scores[token])
                        == row_product(
                        reading,
                        r.1,
                        start.weights[table as int],
                        config.hidden_size as int,
                        0,
                        token,
                    )
            },
            _ => false,
        },
{
    let norm = state.weight_number("norm.weight"@)->Some_0;
    let table = state.weight_number("embed_tokens.weight"@)->Some_0;
    let epsilon = config.rms_norm_eps;
    found_weights_bear_their_names(state, "norm.weight"@);
    found_weights_bear_their_names(state, "embed_tokens.weight"@);
    assert(!t.stopped());
    let (u1, normed) = state.normed(t, hidden, "norm.weight"@, epsilon, false);
    assert(!u1.stopped());
    let width = state.weights@[norm as int].shape@[0];
    let (u2, short) = state.shortened(u1, normed);
    assert(!u2.stopped());
    let (u3, out) = state.multiplied(u2, short, table, 1, config.vocab_size, config.hidden_size);
    assert(state.headed(t, hidden, config) == (u3, out));
    let first = Launch::RmsNorm { input: hidden, weight: norm, hidden: width, epsilon, out: normed };
    let second = Launch::Shorten { input: normed, out: short };
    let third = Launch::Linear {
        input: short,
        weight: table,
        rows: 1,
        outputs: config.vocab_size,
        inputs: config.hidden_size,
        out,
    };
    assert(records(t, first, u1, normed)) by {
        assert(u1.lens == t.lens.push(t.lens[hidden as int]));
        assert(u1.log == t.log.push(u1.log.last()));
        assert(u1.lens.drop_last() =~= t.lens);
        assert(u1.log.drop_last() =~= t.log);
    }
    state.lemma_short_recorded(u1, normed);
    assert(records(u2, third, u3, out)) by {
        assert(u3.lens == u2.lens.push((1 * config.vocab_size) as usize));
        assert(u3.log == u2.log.push(u3.log.last()));
        assert(u3.lens.drop_last() =~= u2.lens);
        assert(u3.log.drop_last() =~= u2.log);
    }
    let n = t.log.len();
    let lens = u3.lens;
    assert(prefix(u3.lens, lens));
    lemma_recorded_lens(u2, third, u3, out, lens);
    lemma_recorded_lens(u1, second, u2, short, lens);
    lemma_recorded_lens(t, first, u1, normed, lens);
    let b2 = lemma_peel(reading, lens, start, u2, third, u3, out, n, after);
    let b1 = lemma_peel(reading, lens, start, u1, second, u2, short, n, b2);
    let b0 = lemma_peel(reading, lens, start, t, first, u1, normed, n, b1);
    assert(t.log.skip(n as int) =~= Seq::<Order<T>>::empty());
    assert(b0 == start);
    let x = start.wide[hidden as int];
    let values = b1.wide[normed as int];
    assert(crate::gemma4_cuda::weights::usable_shape(state.weights@[norm as int].shape@));
    assert(rms_normed(x, start.weights[norm as int], width, epsilon, values));
    norms_divide_by_the_mean_square(
        reading,
        x,
        start.weights[norm as int],
        width,
        epsilon,
        values,
    );
    let numbers = b2.short[short as int];
    assert(rounds(values, numbers));
    lemma_linear(
        reading,
        lens,
        b2,
        short,
        table,
        1,
        config.vocab_size,
        config.hidden_size,
        out,
        after,
    );
    let scores = after.wide[out as int];
    assert forall|token: int| 0 <= token < scores.len() implies reading.of(#[trigger] scores[token])
        == row_product(
        reading,
        numbers,
        start.weights[table as int],
        config.hidden_size as int,
        0,
        token,
    ) by {
        assert(scores[0 * config.vocab_size as int + token] == scores[token]);
    }
    (values, numbers)
}

} // verus!
