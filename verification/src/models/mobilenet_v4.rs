//! The small convolution-only `MobileNetV4` classifier.

use crate::error::{Error, Failure, Result};
use crate::graph::{doubled, Device, Graph, Node, Op};
use crate::nn::{
    all_new, bottleneck_failure, configurable, countable_weight, lemma_all_new, Conv2d,
    ConvNormAct, FusedInvertedBottleneck, Layer, Module, Slot, Trainable,
    UniversalInvertedBottleneck,
};
use crate::scalar::{copied, Scalar};
use crate::shape::{lemma_numel_2, lemma_numel_4, numel};
use crate::tensor::{average_pool, lemma_extends, reshaped, Form, Tensor};
use crate::text::{owned, push_shape, shape_text};
use vstd::prelude::*;

verus! {

/// One row of the architecture.
#[derive(Debug)]
pub enum Block {
    Conv(ConvNormAct),
    Fused(FusedInvertedBottleneck),
    Uib(UniversalInvertedBottleneck),
    GlobalAverage,
}

/// What a row of the architecture is made for.
pub enum Row {
    Conv { input: usize, output: usize, kernel: usize, stride: usize, activation: bool },
    Fused { input: usize, output: usize, expanded: usize, kernel: usize, stride: usize },
    Uib {
        input: usize,
        output: usize,
        expanded: usize,
        start: Option<usize>,
        middle: Option<usize>,
        stride: usize,
    },
    GlobalAverage,
}

impl Layer for Block {
    open spec fn admits(&self, input: Form) -> bool {
        true
    }

    open spec fn output(&self, input: Form) -> std::result::Result<Form, Failure> {
        match self {
            Block::Conv(layer) => layer.output(input),
            Block::Fused(layer) => layer.output(input),
            Block::Uib(layer) => layer.output(input),
            Block::GlobalAverage => if input.shape.len() != 4 {
                Err(Failure::InvalidShape("global_avg_pool2d expects NCHW input"@))
            } else {
                let plane = [input.shape[2], input.shape[3]];
                match average_pool(input, plane, plane) {
                    Ok(shape) => Ok(Form { shape, device: input.device }),
                    Err(failure) => Err(failure),
                }
            },
        }
    }
}

impl<T> Module<T> for Block {
    open spec fn lives_in(&self, graph: Graph<T>) -> bool {
        match self {
            Block::Conv(layer) => layer.lives_in(graph),
            Block::Fused(layer) => layer.lives_in(graph),
            Block::Uib(layer) => layer.lives_in(graph),
            Block::GlobalAverage => true,
        }
    }

    open spec fn builds(&self, nodes: Seq<Node<T>>, input: int, output: int) -> bool {
        match self {
            Block::Conv(layer) => layer.builds(nodes, input, output),
            Block::Fused(layer) => layer.builds(nodes, input, output),
            Block::Uib(layer) => layer.builds(nodes, input, output),
            Block::GlobalAverage => {
                let plane = [nodes[input].shape@[2], nodes[input].shape@[3]];
                &&& 0 <= input < nodes.len()
                &&& 0 <= output < nodes.len()
                &&& nodes[output].op == (Op::<T>::AvgPool2d {
                    input: input as usize,
                    kernel: plane,
                    stride: plane,
                })
            },
        }
    }

    proof fn lemma_lives(&self, before: Graph<T>, after: Graph<T>) {
        match self {
            Block::Conv(layer) => layer.lemma_lives(before, after),
            Block::Fused(layer) => layer.lemma_lives(before, after),
            Block::Uib(layer) => layer.lemma_lives(before, after),
            Block::GlobalAverage => {},
        }
    }

    proof fn lemma_builds(&self, before: Graph<T>, after: Graph<T>, input: int, output: int) {
        match self {
            Block::Conv(layer) => layer.lemma_builds(before, after, input, output),
            Block::Fused(layer) => layer.lemma_builds(before, after, input, output),
            Block::Uib(layer) => layer.lemma_builds(before, after, input, output),
            Block::GlobalAverage => {
                assert(after.nodes@[input] == before.nodes@[input]);
                assert(after.nodes@[output] == before.nodes@[output]);
            },
        }
    }

    fn forward(&self, graph: &mut Graph<T>, input: &Tensor) -> (r: Result<Tensor>) {
        match self {
            Block::Conv(layer) => layer.forward(graph, input),
            Block::Fused(layer) => layer.forward(graph, input),
            Block::Uib(layer) => layer.forward(graph, input),
            Block::GlobalAverage => {
                let ghost start = *graph;
                let r = input.global_avg_pool2d(graph);
                proof {
                    if r is Ok {
                        assert(graph.nodes@[input.id as int] == start.nodes@[input.id as int]);
                    }
                }
                r
            },
        }
    }
}

impl Block {
    /// The block was made for a row.
    pub open spec fn fresh<T: Scalar>(self, graph: Graph<T>, row: Row, device: Device) -> bool {
        match (self, row) {
            (Block::Conv(layer), Row::Conv { input, output, kernel, stride, activation }) => {
                &&& layer.activation == activation
                &&& layer.conv.fresh(graph, input, output, kernel, stride, 1, device)
            },
            (Block::Fused(layer), Row::Fused { input, output, expanded, kernel, stride }) => {
                layer.fresh(graph, input, output, expanded, kernel, stride, device)
            },
            (Block::Uib(layer), Row::Uib { input, output, expanded, start, middle, stride }) => {
                layer.fresh(graph, input, output, expanded, start, middle, stride, device)
            },
            (Block::GlobalAverage, Row::GlobalAverage) => true,
            _ => false,
        }
    }

    pub proof fn lemma_fresh<T: Scalar>(
        self,
        before: Graph<T>,
        after: Graph<T>,
        row: Row,
        device: Device,
    )
        requires
            self.fresh(before, row, device),
            after.extends(before),
        ensures
            self.fresh(after, row, device),
    {
        match (self, row) {
            (Block::Conv(layer), Row::Conv { input, output, kernel, stride, .. }) => {
                layer.conv.lemma_fresh(before, after, input, output, kernel, stride, 1, device);
            },
            (Block::Fused(layer), Row::Fused { input, output, expanded, kernel, stride }) => {
                layer.lemma_fresh(
                    before,
                    after,
                    input,
                    output,
                    expanded,
                    kernel,
                    stride,
                    device,
                );
            },
            (Block::Uib(layer), Row::Uib { input, output, expanded, start, middle, stride }) => {
                layer.lemma_fresh(
                    before,
                    after,
                    input,
                    output,
                    expanded,
                    start,
                    middle,
                    stride,
                    device,
                );
            },
            _ => {},
        }
    }
}

/// The bottleneck rows of the architecture.
pub open spec fn bottleneck_rows() -> Seq<Row> {
    seq![
        bottleneck(64, 96, 192, Some(5), Some(5), 2),
        bottleneck(96, 96, 192, None, Some(3), 1),
        bottleneck(96, 96, 192, None, Some(3), 1),
        bottleneck(96, 96, 192, None, Some(3), 1),
        bottleneck(96, 96, 192, None, Some(3), 1),
        bottleneck(96, 96, 384, Some(3), None, 1),
        bottleneck(96, 128, 576, Some(3), Some(3), 2),
        bottleneck(128, 128, 512, Some(5), Some(5), 1),
        bottleneck(128, 128, 512, None, Some(5), 1),
        bottleneck(128, 128, 384, None, Some(5), 1),
        bottleneck(128, 128, 512, None, Some(3), 1),
        bottleneck(128, 128, 512, None, Some(3), 1),
    ]
}

/// A bottleneck row.
pub open spec fn bottleneck(
    input: usize,
    output: usize,
    expanded: usize,
    start: Option<usize>,
    middle: Option<usize>,
    stride: usize,
) -> Row {
    Row::Uib { input, output, expanded, start, middle, stride }
}

/// The rows of the architecture for a number of classes.
pub open spec fn rows(num_classes: usize) -> Seq<Row> {
    seq![
        Row::Conv { input: 3, output: 32, kernel: 3, stride: 2, activation: true },
        Row::Fused { input: 32, output: 32, expanded: 32, kernel: 3, stride: 2 },
        Row::Fused { input: 32, output: 64, expanded: 96, kernel: 3, stride: 2 },
    ] + bottleneck_rows() + seq![
        Row::Conv { input: 128, output: 960, kernel: 1, stride: 1, activation: true },
        Row::GlobalAverage,
        Row::Conv { input: 960, output: 1280, kernel: 1, stride: 1, activation: true },
        Row::Conv { input: 1280, output: num_classes, kernel: 1, stride: 1, activation: false },
    ]
}

/// The parameters of a block.
pub open spec fn block_parameters(block: Block) -> Seq<Slot> {
    match block {
        Block::Conv(layer) => layer.parameters(),
        Block::Fused(layer) => layer.parameters(),
        Block::Uib(layer) => layer.parameters(),
        Block::GlobalAverage => Seq::empty(),
    }
}

/// The parameters of all blocks, in order.
pub open spec fn all_parameters(blocks: Seq<Block>) -> Seq<Slot>
    decreases blocks.len(),
{
    if blocks.len() == 0 {
        Seq::empty()
    } else {
        all_parameters(blocks.drop_last()) + block_parameters(blocks.last())
    }
}

/// The parameters of a block that was made last are new.
proof fn lemma_block_new<T>(
    start: Graph<T>,
    before: Graph<T>,
    after: Graph<T>,
    blocks: Seq<Block>,
    block: Block,
)
    requires
        all_new(start, before, all_parameters(blocks)),
        all_new(before, after, block_parameters(block)),
        start.nodes@.len() <= before.nodes@.len() <= after.nodes@.len(),
    ensures
        all_new(start, after, all_parameters(blocks.push(block))),
{
    let more = blocks.push(block);
    assert(more.drop_last() =~= blocks);
    assert(more.last() == block);
    lemma_all_new(start, before, after, all_parameters(blocks), block_parameters(block));
}

/// The blocks were made for the first rows of the architecture.
pub open spec fn fresh_blocks<T: Scalar>(
    blocks: Seq<Block>,
    graph: Graph<T>,
    num_classes: usize,
    device: Device,
) -> bool {
    &&& blocks.len() <= 19
    &&& forall|i: int|
        0 <= i < blocks.len() ==> (#[trigger] blocks[i]).fresh(
            graph,
            rows(num_classes)[i],
            device,
        )
}

/// The small convolution-only classifier.
#[derive(Debug)]
pub struct MobileNetV4ConvSmall {
    pub blocks: Vec<Block>,
    pub num_classes: usize,
    pub device: Device,
}

proof fn lemma_fresh_blocks<T: Scalar>(
    blocks: Seq<Block>,
    before: Graph<T>,
    after: Graph<T>,
    num_classes: usize,
    device: Device,
)
    requires
        fresh_blocks(blocks, before, num_classes, device),
        after.extends(before),
    ensures
        fresh_blocks(blocks, after, num_classes, device),
{
    assert forall|i: int| 0 <= i < blocks.len() implies (#[trigger] blocks[i]).fresh(
        after,
        rows(num_classes)[i],
        device,
    ) by {
        blocks[i].lemma_fresh(before, after, rows(num_classes)[i], device);
    }
}

/// Adds a convolution block.
fn push_conv<T: Scalar>(
    blocks: &mut Vec<Block>,
    graph: &mut Graph<T>,
    input: usize,
    output: usize,
    kernel: usize,
    stride: usize,
    activation: bool,
    device: Device,
    num_classes: usize,
) -> (r: Result<()>)
    requires
        old(graph).wf(),
        old(blocks).len() < 19,
        fresh_blocks(old(blocks)@, *old(graph), num_classes, device),
        rows(num_classes)[old(blocks).len() as int] == (Row::Conv {
            input,
            output,
            kernel,
            stride,
            activation,
        }),
        kernel > 0,
        countable_weight(input, output, kernel, 1),
        old(graph).next_parameter + 2 <= u64::MAX,
    ensures
        final(graph).wf(),
        final(graph).extends(*old(graph)),
        final(graph).next_parameter <= old(graph).next_parameter + 2,
        r is Ok,
        fresh_blocks(final(blocks)@, *final(graph), num_classes, device),
        final(blocks)@ == old(blocks)@.push(final(blocks)@.last()),
        all_new(*old(graph), *final(graph), block_parameters(final(blocks)@.last())),
{
    let ghost before = *graph;
    let layer = ConvNormAct::new(graph, input, output, kernel, stride, 1, activation, device)?;
    proof {
        lemma_fresh_blocks(blocks@, before, *graph, num_classes, device);
    }
    blocks.push(Block::Conv(layer));
    Ok(())
}

/// Adds a fused bottleneck block.
fn push_fused<T: Scalar>(
    blocks: &mut Vec<Block>,
    graph: &mut Graph<T>,
    input: usize,
    output: usize,
    expanded: usize,
    kernel: usize,
    stride: usize,
    device: Device,
    num_classes: usize,
) -> (r: Result<()>)
    requires
        old(graph).wf(),
        old(blocks).len() < 19,
        fresh_blocks(old(blocks)@, *old(graph), num_classes, device),
        rows(num_classes)[old(blocks).len() as int] == (Row::Fused {
            input,
            output,
            expanded,
            kernel,
            stride,
        }),
        kernel > 0,
        countable_weight(input, expanded, kernel, 1),
        countable_weight(expanded, output, 1, 1),
        old(graph).next_parameter + 4 <= u64::MAX,
    ensures
        final(graph).wf(),
        final(graph).extends(*old(graph)),
        final(graph).next_parameter <= old(graph).next_parameter + 4,
        r is Ok,
        fresh_blocks(final(blocks)@, *final(graph), num_classes, device),
        final(blocks)@ == old(blocks)@.push(final(blocks)@.last()),
        all_new(*old(graph), *final(graph), block_parameters(final(blocks)@.last())),
{
    let ghost before = *graph;
    let layer = FusedInvertedBottleneck::new(
        graph,
        input,
        output,
        expanded,
        kernel,
        stride,
        device,
    )?;
    proof {
        lemma_fresh_blocks(blocks@, before, *graph, num_classes, device);
    }
    blocks.push(Block::Fused(layer));
    Ok(())
}

/// Adds a bottleneck block.
fn push_uib<T: Scalar>(
    blocks: &mut Vec<Block>,
    graph: &mut Graph<T>,
    input: usize,
    output: usize,
    expanded: usize,
    start: Option<usize>,
    middle: Option<usize>,
    stride: usize,
    device: Device,
    num_classes: usize,
) -> (r: Result<()>)
    requires
        old(graph).wf(),
        old(blocks).len() < 19,
        fresh_blocks(old(blocks)@, *old(graph), num_classes, device),
        rows(num_classes)[old(blocks).len() as int] == bottleneck(
            input,
            output,
            expanded,
            start,
            middle,
            stride,
        ),
        0 < input <= 1000,
        0 < output <= 1000,
        0 < expanded <= 1000,
        start matches Some(k) ==> 0 < k <= 5,
        middle matches Some(k) ==> 0 < k <= 5,
        stride > 1 ==> middle is Some,
        old(graph).next_parameter + 8 <= u64::MAX,
    ensures
        final(graph).wf(),
        final(graph).extends(*old(graph)),
        final(graph).next_parameter <= old(graph).next_parameter + 8,
        r is Ok,
        fresh_blocks(final(blocks)@, *final(graph), num_classes, device),
        final(blocks)@ == old(blocks)@.push(final(blocks)@.last()),
        all_new(*old(graph), *final(graph), block_parameters(final(blocks)@.last())),
{
    let ghost before = *graph;
    proof {
        lemma_small_weight(input, expanded);
        lemma_small_weight(expanded, output);
        if start is Some {
            lemma_small_depthwise(input, start->Some_0);
        }
        if middle is Some {
            lemma_small_depthwise(expanded, middle->Some_0);
        }
    }
    let layer = UniversalInvertedBottleneck::new(
        graph,
        input,
        output,
        expanded,
        start,
        middle,
        stride,
        device,
    )?;
    proof {
        lemma_fresh_blocks(blocks@, before, *graph, num_classes, device);
    }
    blocks.push(Block::Uib(layer));
    Ok(())
}

proof fn lemma_small_conv(input: usize, output: usize, kernel: usize)
    requires
        input <= 1280,
        output <= 1280,
        kernel <= 5,
    ensures
        countable_weight(input, output, kernel, 1),
{
    let (i, o, k) = (input as int, output as int, kernel as int);
    assert(input / 1usize == input);
    assert(k * k <= 25 && i * (k * k) <= 1280 * 25 && o * i * k * k <= 1280 * 1280 * 25)
        by (nonlinear_arith)
        requires
            0 <= i <= 1280,
            0 <= o <= 1280,
            0 <= k <= 5,
    ;
}

proof fn lemma_small_weight(input: usize, output: usize)
    requires
        input <= 1000,
        output <= 1000,
    ensures
        countable_weight(input, output, 1, 1),
{
    assert(output * (input / 1usize) * 1 * 1 <= 1000 * 1000) by (nonlinear_arith)
        requires
            input <= 1000,
            output <= 1000,
    ;
}

proof fn lemma_small_depthwise(channels: usize, kernel: usize)
    requires
        0 < channels <= 1000,
        0 < kernel <= 5,
    ensures
        countable_weight(channels, channels, kernel, channels),
{
    assert(channels / channels == 1) by (nonlinear_arith)
        requires
            channels > 0,
    ;
    assert(kernel * kernel <= 25) by (nonlinear_arith)
        requires
            0 < kernel <= 5,
    ;
    assert(channels * 1 * kernel * kernel <= 25000) by (nonlinear_arith)
        requires
            channels <= 1000,
            0 < kernel <= 5,
    ;
}

impl MobileNetV4ConvSmall {
    /// The side of the square images that the classifier takes.
    pub const INPUT_RESOLUTION: usize = 224;

    /// The classifier was made for its number of classes and its device.
    pub open spec fn fresh<T: Scalar>(self, graph: Graph<T>) -> bool {
        &&& self.num_classes > 0
        &&& self.blocks@.len() == 19
        &&& fresh_blocks(self.blocks@, graph, self.num_classes, self.device)
    }

    /// The classifier with initial weights.
    #[verifier::rlimit(60)]
    pub fn new<T: Scalar>(graph: &mut Graph<T>, num_classes: usize, device: Device) -> (r: Result<
        MobileNetV4ConvSmall,
    >)
        requires
            old(graph).wf(),
            num_classes * 1280 <= usize::MAX,
            old(graph).next_parameter + 112 <= u64::MAX,
        ensures
            final(graph).wf(),
            final(graph).extends(*old(graph)),
            match r {
                Ok(model) => {
                    &&& num_classes > 0
                    &&& model.num_classes == num_classes
                    &&& model.device == device
                    &&& model.fresh(*final(graph))
                    &&& all_new(*old(graph), *final(graph), all_parameters(model.blocks@))
                },
                Err(error) => {
                    &&& num_classes == 0
                    &&& error@ == Failure::InvalidShape("num_classes must be non-zero"@)
                    &&& *final(graph) == *old(graph)
                },
            },
    {
        if num_classes == 0 {
            return Err(Error::shape("num_classes must be non-zero"));
        }
        let ghost start = *graph;
        proof {
            lemma_small_conv(3, 32, 3);
            lemma_small_conv(32, 32, 3);
            lemma_small_conv(32, 32, 1);
            lemma_small_conv(32, 96, 3);
            lemma_small_conv(96, 64, 1);
            lemma_small_conv(128, 960, 1);
            lemma_small_conv(960, 1280, 1);
            lemma_row_at(num_classes, 0);
            lemma_row_at(num_classes, 1);
            lemma_row_at(num_classes, 2);
            lemma_row_at(num_classes, 15);
            lemma_row_at(num_classes, 17);
            lemma_row_at(num_classes, 18);
        }
        let mut blocks: Vec<Block> = Vec::new();
        let ghost none = blocks@;
        push_conv(&mut blocks, graph, 3, 32, 3, 2, true, device, num_classes)?;
        let ghost first = *graph;
        let ghost one = blocks@;
        push_fused(&mut blocks, graph, 32, 32, 32, 3, 2, device, num_classes)?;
        let ghost second = *graph;
        let ghost two = blocks@;
        push_fused(&mut blocks, graph, 32, 64, 96, 3, 2, device, num_classes)?;
        proof {
            lemma_extends(start, first, second);
            lemma_extends(start, second, *graph);
            assert(all_parameters(none) =~= Seq::empty());
            lemma_block_new(start, start, first, none, one.last());
            lemma_block_new(start, first, second, one, two.last());
            lemma_block_new(start, second, *graph, two, blocks@.last());
        }
        let specs: [(usize, usize, usize, Option<usize>, Option<usize>, usize); 12] = [
            (64, 96, 192, Some(5), Some(5), 2),
            (96, 96, 192, None, Some(3), 1),
            (96, 96, 192, None, Some(3), 1),
            (96, 96, 192, None, Some(3), 1),
            (96, 96, 192, None, Some(3), 1),
            (96, 96, 384, Some(3), None, 1),
            (96, 128, 576, Some(3), Some(3), 2),
            (128, 128, 512, Some(5), Some(5), 1),
            (128, 128, 512, None, Some(5), 1),
            (128, 128, 384, None, Some(5), 1),
            (128, 128, 512, None, Some(3), 1),
            (128, 128, 512, None, Some(3), 1),
        ];
        let mut i: usize = 0;
        while i < 12
            invariant
                start == *old(graph),
                start.wf(),
                graph.wf(),
                graph.extends(start),
                i <= 12,
                blocks.len() == 3 + i,
                fresh_blocks(blocks@, *graph, num_classes, device),
                all_new(start, *graph, all_parameters(blocks@)),
                graph.next_parameter <= start.next_parameter + 10 + 8 * i,
                start.next_parameter + 112 <= u64::MAX,
                specs@ == seq![
                    (64usize, 96usize, 192usize, Some(5usize), Some(5usize), 2usize),
                    (96usize, 96usize, 192usize, None, Some(3usize), 1usize),
                    (96usize, 96usize, 192usize, None, Some(3usize), 1usize),
                    (96usize, 96usize, 192usize, None, Some(3usize), 1usize),
                    (96usize, 96usize, 192usize, None, Some(3usize), 1usize),
                    (96usize, 96usize, 384usize, Some(3usize), None, 1usize),
                    (96usize, 128usize, 576usize, Some(3usize), Some(3usize), 2usize),
                    (128usize, 128usize, 512usize, Some(5usize), Some(5usize), 1usize),
                    (128usize, 128usize, 512usize, None, Some(5usize), 1usize),
                    (128usize, 128usize, 384usize, None, Some(5usize), 1usize),
                    (128usize, 128usize, 512usize, None, Some(3usize), 1usize),
                    (128usize, 128usize, 512usize, None, Some(3usize), 1usize),
                ],
            decreases 12 - i,
        {
            let (input, output, expanded, start_dw, middle_dw, stride) = specs[i];
            let ghost before = *graph;
            let ghost made = blocks@;
            proof {
                assert(rows(num_classes)[3 + i] == bottleneck_rows()[i as int]);
            }
            push_uib(
                &mut blocks,
                graph,
                input,
                output,
                expanded,
                start_dw,
                middle_dw,
                stride,
                device,
                num_classes,
            )?;
            proof {
                lemma_extends(start, before, *graph);
                lemma_block_new(start, before, *graph, made, blocks@.last());
            }
            i = i + 1;
        }
        let ghost third = *graph;
        let ghost made = blocks@;
        push_conv(&mut blocks, graph, 128, 960, 1, 1, true, device, num_classes)?;
        let ghost fourth = *graph;
        proof {
            lemma_extends(start, third, fourth);
            lemma_block_new(start, third, fourth, made, blocks@.last());
            lemma_block_new(start, fourth, fourth, blocks@, Block::GlobalAverage);
        }
        blocks.push(Block::GlobalAverage);
        let ghost made = blocks@;
        push_conv(&mut blocks, graph, 960, 1280, 1, 1, true, device, num_classes)?;
        let ghost fifth = *graph;
        proof {
            lemma_block_new(start, fourth, fifth, made, blocks@.last());
            lemma_extends(start, fourth, fifth);
            assert(num_classes * (1280usize / 1usize) * 1 * 1 == num_classes * 1280);
        }
        let ghost made = blocks@;
        push_conv(&mut blocks, graph, 1280, num_classes, 1, 1, false, device, num_classes)?;
        proof {
            lemma_extends(start, fifth, *graph);
            lemma_block_new(start, fifth, *graph, made, blocks@.last());
        }
        Ok(MobileNetV4ConvSmall { blocks, num_classes, device })
    }

    /// Where the classifier is evaluated.
    pub fn device(&self) -> (r: Device)
        ensures
            r == self.device,
    {
        self.device
    }
}

/// The outcome of the first `n` blocks.
pub open spec fn staged(blocks: Seq<Block>, input: Form, n: nat) -> std::result::Result<
    Form,
    Failure,
>
    decreases n,
{
    if n == 0 {
        Ok(input)
    } else {
        match staged(blocks, input, (n - 1) as nat) {
            Ok(form) => blocks[n - 1].output(form),
            Err(failure) => Err(failure),
        }
    }
}

/// The node `output` is the first `n` blocks applied to the node `input`.
pub open spec fn stacked<T>(
    blocks: Seq<Block>,
    nodes: Seq<Node<T>>,
    input: int,
    output: int,
    n: nat,
) -> bool
    decreases n,
{
    if n == 0 {
        output == input
    } else {
        exists|middle: int|
            {
                &&& stacked(blocks, nodes, input, middle, (n - 1) as nat)
                &&& #[trigger] blocks[n - 1].builds(nodes, middle, output)
            }
    }
}

proof fn lemma_stacked<T>(
    blocks: Seq<Block>,
    before: Graph<T>,
    after: Graph<T>,
    input: int,
    output: int,
    n: nat,
)
    requires
        stacked(blocks, before.nodes@, input, output, n),
        after.extends(before),
    ensures
        stacked(blocks, after.nodes@, input, output, n),
    decreases n,
{
    if n > 0 {
        let middle = choose|middle: int|
            {
                &&& stacked(blocks, before.nodes@, input, middle, (n - 1) as nat)
                &&& #[trigger] blocks[n - 1].builds(before.nodes@, middle, output)
            };
        lemma_stacked(blocks, before, after, input, middle, (n - 1) as nat);
        blocks[n - 1].lemma_builds(before, after, middle, output);
        assert(blocks[n - 1].builds(after.nodes@, middle, output));
    }
}

/// A failure of one block is the failure of all.
proof fn lemma_staged_failure(blocks: Seq<Block>, input: Form, m: nat, n: nat)
    requires
        m <= n,
        staged(blocks, input, m) is Err,
    ensures
        staged(blocks, input, n) == staged(blocks, input, m),
    decreases n,
{
    if m < n {
        lemma_staged_failure(blocks, input, m, (n - 1) as nat);
    }
}

/// Each block's own tensors belong to the graph.
pub open spec fn all_live<T>(blocks: Seq<Block>, graph: Graph<T>) -> bool {
    forall|i: int| 0 <= i < blocks.len() ==> (#[trigger] blocks[i]).lives_in(graph)
}

proof fn lemma_all_live<T>(blocks: Seq<Block>, before: Graph<T>, after: Graph<T>)
    requires
        all_live(blocks, before),
        after.extends(before),
    ensures
        all_live(blocks, after),
{
    assert forall|i: int| 0 <= i < blocks.len() implies (#[trigger] blocks[i]).lives_in(after) by {
        blocks[i].lemma_lives(before, after);
    }
}

/// Why the classifier does not take an image, if it does not.
pub open spec fn image_fault(device: Device, input: Form) -> Option<Failure> {
    if input.device != device {
        Some(Failure::DeviceMismatch)
    } else if input.shape.len() != 4 || input.shape[1] != 3 || input.shape[2]
        != MobileNetV4ConvSmall::INPUT_RESOLUTION || input.shape[3]
        != MobileNetV4ConvSmall::INPUT_RESOLUTION {
        Some(
            Failure::InvalidShape(
                "MNv4-Conv-S expects [N, 3, 224, 224], got "@ + shape_text(input.shape),
            ),
        )
    } else {
        None
    }
}

/// The shapes reported for the blocks: what each gives, the last as scores.
pub open spec fn reported(
    blocks: Seq<Block>,
    num_classes: usize,
    input: Form,
    shapes: Seq<Vec<usize>>,
) -> bool {
    &&& shapes.len() == blocks.len()
    &&& forall|i: int|
        0 <= i < shapes.len() ==> (#[trigger] shapes[i])@ == (if i == shapes.len() - 1 {
            seq![input.shape[0], num_classes]
        } else {
            staged(blocks, input, (i + 1) as nat)->Ok_0.shape
        })
}

impl Layer for MobileNetV4ConvSmall {
    open spec fn admits(&self, input: Form) -> bool {
        staged(self.blocks@, input, self.blocks@.len()) matches Ok(form) ==> numel(form.shape)
            <= usize::MAX
    }

    open spec fn output(&self, input: Form) -> std::result::Result<Form, Failure> {
        match image_fault(self.device, input) {
            Some(failure) => Err(failure),
            None => match staged(self.blocks@, input, self.blocks@.len()) {
                Err(failure) => Err(failure),
                Ok(form) => match reshaped(form, seq![input.shape[0], self.num_classes]) {
                    Ok(shape) => Ok(Form { shape, device: form.device }),
                    Err(failure) => Err(failure),
                },
            },
        }
    }
}

impl MobileNetV4ConvSmall {
    /// Whether the classifier takes an image.
    fn validate_input(&self, input: &Tensor) -> (r: Result<()>)
        ensures
            match r {
                Ok(_) => image_fault(self.device, input.form()) is None,
                Err(error) => image_fault(self.device, input.form()) == Some(error@),
            },
    {
        if input.device != self.device {
            return Err(Error::DeviceMismatch);
        }
        if input.shape.len() != 4 || input.shape[1] != 3 || input.shape[2]
            != MobileNetV4ConvSmall::INPUT_RESOLUTION || input.shape[3]
            != MobileNetV4ConvSmall::INPUT_RESOLUTION {
            let mut message = owned("MNv4-Conv-S expects [N, 3, 224, 224], got ");
            push_shape(&mut message, &input.shape);
            return Err(Error::InvalidShape(message));
        }
        Ok(())
    }

    /// Classifies images, and reports the shape that each block gives.
    pub fn forward_with_shapes<T>(&self, graph: &mut Graph<T>, input: &Tensor) -> (r: Result<
        (Tensor, Vec<Vec<usize>>),
    >)
        requires
            old(graph).wf(),
            all_live(self.blocks@, *old(graph)),
            self.admits(input.form()),
            old(graph).has(*input),
        ensures
            final(graph).wf(),
            final(graph).extends(*old(graph)),
            final(graph).next_parameter == old(graph).next_parameter,
            match r {
                Ok((tensor, shapes)) => {
                    &&& self.output(input.form()) == std::result::Result::<Form, Failure>::Ok(
                        tensor.form(),
                    )
                    &&& final(graph).has(tensor)
                    &&& Module::<T>::builds(
                        self,
                        final(graph).nodes@,
                        input.id as int,
                        tensor.id as int,
                    )
                    &&& reported(self.blocks@, self.num_classes, input.form(), shapes@)
                },
                Err(error) => self.output(input.form()) == std::result::Result::<
                    Form,
                    Failure,
                >::Err(error@),
            },
    {
        self.validate_input(input)?;
        let ghost start = *graph;
        let ghost form = input.form();
        let mut output = input.clone();
        let mut shapes: Vec<Vec<usize>> = Vec::with_capacity(self.blocks.len());
        let mut i: usize = 0;
        while i < self.blocks.len()
            invariant
                start == *old(graph),
                start.wf(),
                graph.wf(),
                graph.extends(start),
                graph.next_parameter == start.next_parameter,
                all_live(self.blocks@, *graph),
                i <= self.blocks.len(),
                form == input.form(),
                image_fault(self.device, form) is None,
                staged(self.blocks@, form, i as nat) == std::result::Result::<
                    Form,
                    Failure,
                >::Ok(output.form()),
                graph.has(output),
                stacked(
                    self.blocks@,
                    graph.nodes@,
                    input.id as int,
                    output.id as int,
                    i as nat,
                ),
                shapes.len() == i,
                forall|j: int|
                    0 <= j < i ==> (#[trigger] shapes@[j])@ == staged(
                        self.blocks@,
                        form,
                        (j + 1) as nat,
                    )->Ok_0.shape,
            decreases self.blocks.len() - i,
        {
            let ghost before = *graph;
            assert(self.blocks@[i as int].lives_in(*graph));
            let outcome = self.blocks[i].forward(graph, &output);
            proof {
                lemma_extends(start, before, *graph);
                lemma_all_live(self.blocks@, before, *graph);
                lemma_stacked(
                    self.blocks@,
                    before,
                    *graph,
                    input.id as int,
                    output.id as int,
                    i as nat,
                );
                if staged(self.blocks@, form, (i + 1) as nat) is Err {
                    lemma_staged_failure(
                        self.blocks@,
                        form,
                        (i + 1) as nat,
                        self.blocks@.len(),
                    );
                }
            }
            let ghost from = output.id as int;
            output = outcome?;
            proof {
                assert(self.blocks@[(i + 1) - 1].builds(graph.nodes@, from, output.id as int));
            }
            shapes.push(copied(&output.shape));
            i = i + 1;
        }
        let mut shape: Vec<usize> = Vec::new();
        shape.push(input.shape[0]);
        shape.push(self.num_classes);
        assert(shape@ =~= seq![form.shape[0], self.num_classes]);
        let ghost before = *graph;
        let ghost from = output.id as int;
        output = output.reshape(graph, shape)?;
        proof {
            lemma_extends(start, before, *graph);
            lemma_stacked(
                self.blocks@,
                before,
                *graph,
                input.id as int,
                from,
                self.blocks@.len(),
            );
        }
        if shapes.len() > 0 {
            let last: usize = shapes.len() - 1;
            shapes.set(last, copied(&output.shape));
        }
        Ok((output, shapes))
    }
}

impl<T> Module<T> for MobileNetV4ConvSmall {
    open spec fn lives_in(&self, graph: Graph<T>) -> bool {
        all_live(self.blocks@, graph)
    }

    open spec fn builds(&self, nodes: Seq<Node<T>>, input: int, output: int) -> bool {
        &&& 0 <= output < nodes.len()
        &&& nodes[output].op matches Op::Reshape(scores) && stacked(
            self.blocks@,
            nodes,
            input,
            scores as int,
            self.blocks@.len(),
        )
    }

    proof fn lemma_lives(&self, before: Graph<T>, after: Graph<T>) {
        lemma_all_live(self.blocks@, before, after);
    }

    proof fn lemma_builds(&self, before: Graph<T>, after: Graph<T>, input: int, output: int) {
        assert(after.nodes@[output] == before.nodes@[output]);
        let scores = before.nodes@[output].op->Reshape_0 as int;
        lemma_stacked(self.blocks@, before, after, input, scores, self.blocks@.len());
    }

    fn forward(&self, graph: &mut Graph<T>, input: &Tensor) -> (r: Result<Tensor>) {
        let (output, _) = self.forward_with_shapes(graph, input)?;
        Ok(output)
    }
}

/// The extent that a same-padded window of odd size leaves, taken every `stride` steps.
pub open spec fn strided(extent: int, stride: int) -> int {
    (extent - 1) / stride + 1
}

/// Images of a shape on a device.
pub open spec fn image(n: usize, channels: usize, height: int, width: int, device: Device) -> Form {
    Form { shape: seq![n, channels, height as usize, width as usize], device }
}

/// A convolution with an odd kernel keeps the extent of its input, up to its stride.
proof fn lemma_conv_output<T: Scalar>(
    layer: Conv2d,
    graph: Graph<T>,
    input: usize,
    output: usize,
    kernel: usize,
    stride: usize,
    groups: usize,
    device: Device,
    n: usize,
    height: int,
    width: int,
)
    requires
        layer.fresh(graph, input, output, kernel, stride, groups, device),
        configurable(input, output, kernel, groups),
        kernel % 2 == 1,
        stride != 0,
        1 <= height,
        height + kernel - 1 <= usize::MAX,
        1 <= width,
        width + kernel - 1 <= usize::MAX,
    ensures
        layer.output(image(n, input, height, width, device)) == std::result::Result::<
            Form,
            Failure,
        >::Ok(image(n, output, strided(height, stride as int), strided(width, stride as int), device)),
        1 <= strided(height, stride as int) <= height,
        1 <= strided(width, stride as int) <= width,
{
    let form = image(n, input, height, width, device);
    let padding = layer.padding;
    assert(padding == kernel / 2);
    assert(doubled(padding) == kernel - 1);
    assert(form.shape[2] + doubled(padding) - kernel == height - 1);
    assert(form.shape[3] + doubled(padding) - kernel == width - 1);
    let h = strided(height, stride as int);
    let w = strided(width, stride as int);
    assert(1 <= h <= height && 1 <= w <= width) by {
        crate::index::lemma_div_bound(height - 1, stride as int);
        crate::index::lemma_div_bound(width - 1, stride as int);
    }
    assert(crate::graph::conv2d_shape(
        form.shape,
        layer.weight.value.shape@,
        layer.bias.value.shape@,
        stride,
        padding,
        groups,
    ) =~= image(n, output, h, w, device).shape);
}

/// The padded extent of an image stays within the range of counts.
pub open spec fn paddable(extent: int, kernel: Option<usize>) -> bool {
    &&& 1 <= extent <= usize::MAX
    &&& kernel matches Some(k) ==> k % 2 == 1 && extent + k - 1 <= usize::MAX
}

/// A bottleneck with odd kernels divides the extents of images by its stride, and rounds
/// up.
pub proof fn bottlenecks_divide_extents<T: Scalar>(
    layer: UniversalInvertedBottleneck,
    graph: Graph<T>,
    input: usize,
    output: usize,
    expanded: usize,
    start: Option<usize>,
    middle: Option<usize>,
    stride: usize,
    device: Device,
    n: usize,
    height: usize,
    width: usize,
)
    requires
        layer.fresh(graph, input, output, expanded, start, middle, stride, device),
        bottleneck_failure(input, expanded, start, middle, stride) is None,
        stride != 0,
        paddable(height as int, start),
        paddable(width as int, start),
        paddable(height as int, middle),
        paddable(width as int, middle),
    ensures
        layer.output(image(n, input, height as int, width as int, device))
            == std::result::Result::<Form, Failure>::Ok(
            image(
                n,
                output,
                (height + stride - 1) / stride as int,
                (width + stride - 1) / stride as int,
                device,
            ),
        ),
{
    lemma_uib_output(
        layer,
        graph,
        input,
        output,
        expanded,
        start,
        middle,
        stride,
        device,
        n,
        height as int,
        width as int,
    );
    vstd::arithmetic::div_mod::lemma_div_plus_one(height - 1, stride as int);
    vstd::arithmetic::div_mod::lemma_div_plus_one(width - 1, stride as int);
}

/// What a bottleneck does to images.
proof fn lemma_uib_output<T: Scalar>(
    layer: UniversalInvertedBottleneck,
    graph: Graph<T>,
    input: usize,
    output: usize,
    expanded: usize,
    start: Option<usize>,
    middle: Option<usize>,
    stride: usize,
    device: Device,
    n: usize,
    height: int,
    width: int,
)
    requires
        layer.fresh(graph, input, output, expanded, start, middle, stride, device),
        bottleneck_failure(input, expanded, start, middle, stride) is None,
        stride != 0,
        paddable(height, start),
        paddable(width, start),
        paddable(height, middle),
        paddable(width, middle),
    ensures
        layer.output(image(n, input, height, width, device)) == std::result::Result::<
            Form,
            Failure,
        >::Ok(image(n, output, strided(height, stride as int), strided(width, stride as int), device)),
{
    assert(input > 0 ==> input % input == 0) by (nonlinear_arith);
    assert(expanded > 0 ==> expanded % expanded == 0) by (nonlinear_arith);
    assert(strided(height, 1) == height && strided(width, 1) == width);
    if start is Some {
        lemma_conv_output(
            layer.start_depthwise->Some_0.conv,
            graph,
            input,
            input,
            start->Some_0,
            1,
            input,
            device,
            n,
            height,
            width,
        );
    }
    lemma_conv_output(
        layer.expand.conv,
        graph,
        input,
        expanded,
        1,
        1,
        1,
        device,
        n,
        height,
        width,
    );
    if middle is Some {
        lemma_conv_output(
            layer.middle_depthwise->Some_0.conv,
            graph,
            expanded,
            expanded,
            middle->Some_0,
            stride,
            expanded,
            device,
            n,
            height,
            width,
        );
    }
    let h = strided(height, stride as int);
    let w = strided(width, stride as int);
    assert(1 <= h <= height && 1 <= w <= width) by {
        crate::index::lemma_div_bound(height - 1, stride as int);
        crate::index::lemma_div_bound(width - 1, stride as int);
    }
    assert(strided(h, 1) == h && strided(w, 1) == w);
    lemma_conv_output(layer.project.conv, graph, expanded, output, 1, 1, 1, device, n, h, w);
}

/// What a fused bottleneck does to images.
proof fn lemma_fused_output<T: Scalar>(
    layer: FusedInvertedBottleneck,
    graph: Graph<T>,
    input: usize,
    output: usize,
    expanded: usize,
    kernel: usize,
    stride: usize,
    device: Device,
    n: usize,
    height: int,
    width: int,
)
    requires
        layer.fresh(graph, input, output, expanded, kernel, stride, device),
        kernel == 3,
        stride == 1 || stride == 2,
        1 <= height <= 224,
        1 <= width <= 224,
    ensures
        layer.output(image(n, input, height, width, device)) == std::result::Result::<
            Form,
            Failure,
        >::Ok(image(n, output, strided(height, stride as int), strided(width, stride as int), device)),
{
    lemma_conv_output(
        layer.expand.conv,
        graph,
        input,
        expanded,
        kernel,
        stride,
        1,
        device,
        n,
        height,
        width,
    );
    let h = strided(height, stride as int);
    let w = strided(width, stride as int);
    assert(strided(h, 1) == h && strided(w, 1) == w);
    assert(strided(height, 1) == height && strided(width, 1) == width);
    lemma_conv_output(layer.project.conv, graph, expanded, output, 1, 1, 1, device, n, h, w);
}

/// The channels and the extent that the rows of the architecture give, in order.
pub open spec fn row_output(num_classes: usize, i: int) -> (usize, int) {
    if i == 0 {
        (32, 112)
    } else if i == 1 {
        (32, 56)
    } else if i == 2 {
        (64, 28)
    } else if i < 9 {
        (96, 14)
    } else if i < 15 {
        (128, 7)
    } else if i == 15 {
        (960, 7)
    } else if i == 16 {
        (960, 1)
    } else if i == 17 {
        (1280, 1)
    } else {
        (num_classes, 1)
    }
}

/// The row that stands at a place of the architecture.
pub open spec fn row_at(num_classes: usize, i: int) -> Row {
    if i == 0 {
        Row::Conv { input: 3, output: 32, kernel: 3, stride: 2, activation: true }
    } else if i == 1 {
        Row::Fused { input: 32, output: 32, expanded: 32, kernel: 3, stride: 2 }
    } else if i == 2 {
        Row::Fused { input: 32, output: 64, expanded: 96, kernel: 3, stride: 2 }
    } else if i == 3 {
        bottleneck(64, 96, 192, Some(5), Some(5), 2)
    } else if i < 8 {
        bottleneck(96, 96, 192, None, Some(3), 1)
    } else if i == 8 {
        bottleneck(96, 96, 384, Some(3), None, 1)
    } else if i == 9 {
        bottleneck(96, 128, 576, Some(3), Some(3), 2)
    } else if i == 10 {
        bottleneck(128, 128, 512, Some(5), Some(5), 1)
    } else if i == 11 {
        bottleneck(128, 128, 512, None, Some(5), 1)
    } else if i == 12 {
        bottleneck(128, 128, 384, None, Some(5), 1)
    } else if i < 15 {
        bottleneck(128, 128, 512, None, Some(3), 1)
    } else if i == 15 {
        Row::Conv { input: 128, output: 960, kernel: 1, stride: 1, activation: true }
    } else if i == 16 {
        Row::GlobalAverage
    } else if i == 17 {
        Row::Conv { input: 960, output: 1280, kernel: 1, stride: 1, activation: true }
    } else {
        Row::Conv { input: 1280, output: num_classes, kernel: 1, stride: 1, activation: false }
    }
}

proof fn lemma_row_at(num_classes: usize, i: int)
    requires
        0 <= i < 19,
    ensures
        rows(num_classes)[i] == row_at(num_classes, i),
{
}

/// The rows fit together: each takes the channels and the extent that the one before it
/// gives.
proof fn lemma_row_fits(num_classes: usize, i: int)
    requires
        0 <= i < 19,
    ensures
        ({
            let (channels, extent) = if i == 0 {
                (3usize, 224int)
            } else {
                row_output(num_classes, i - 1)
            };
            let next = row_output(num_classes, i);
            match row_at(num_classes, i) {
                Row::Conv { input, output, kernel, stride, .. } => {
                    &&& input == channels
                    &&& next == (output, strided(extent, stride as int))
                    &&& kernel == 1 || kernel == 3
                    &&& stride == 1 || stride == 2
                },
                Row::Fused { input, output, expanded, kernel, stride } => {
                    &&& input == channels
                    &&& next == (output, strided(extent, stride as int))
                    &&& kernel == 3
                    &&& stride == 2
                },
                Row::Uib { input, output, expanded, start, middle, stride } => {
                    &&& input == channels
                    &&& input > 0
                    &&& expanded > 0
                    &&& next == (output, strided(extent, stride as int))
                    &&& start matches Some(k) ==> k == 3 || k == 5
                    &&& middle matches Some(k) ==> k == 3 || k == 5
                    &&& stride == 1 || (stride == 2 && middle is Some)
                },
                Row::GlobalAverage => {
                    &&& channels == 960
                    &&& extent == 7
                    &&& next == (960usize, 1int)
                },
            }
        }),
{
    assert(strided(224, 2) == 112);
    assert(strided(112, 2) == 56);
    assert(strided(56, 2) == 28);
    assert(strided(28, 2) == 14);
    assert(strided(14, 2) == 7);
    assert(strided(14, 1) == 14);
    assert(strided(7, 1) == 7);
    assert(strided(1, 1) == 1);
}

/// A block that was made for a row does to images what the row says.
proof fn lemma_block_output<T: Scalar>(
    block: Block,
    graph: Graph<T>,
    num_classes: usize,
    i: int,
    device: Device,
    n: usize,
    channels: usize,
    extent: int,
)
    requires
        0 <= i < 19,
        (channels, extent) == (if i == 0 {
            (3usize, 224int)
        } else {
            row_output(num_classes, i - 1)
        }),
        block.fresh(graph, row_at(num_classes, i), device),
    ensures
        block.output(image(n, channels, extent, extent, device)) == std::result::Result::<
            Form,
            Failure,
        >::Ok(
            image(
                n,
                row_output(num_classes, i).0,
                row_output(num_classes, i).1,
                row_output(num_classes, i).1,
                device,
            ),
        ),
{
    lemma_row_fits(num_classes, i);
    match (block, row_at(num_classes, i)) {
        (Block::Conv(layer), Row::Conv { input, output, kernel, stride, .. }) => {
            lemma_conv_output(
                layer.conv,
                graph,
                input,
                output,
                kernel,
                stride,
                1,
                device,
                n,
                extent,
                extent,
            );
        },
        (Block::Fused(layer), Row::Fused { input, output, expanded, kernel, stride }) => {
            lemma_fused_output(
                layer,
                graph,
                input,
                output,
                expanded,
                kernel,
                stride,
                device,
                n,
                extent,
                extent,
            );
        },
        (Block::Uib(layer), Row::Uib { input, output, expanded, start, middle, stride }) => {
            lemma_uib_output(
                layer,
                graph,
                input,
                output,
                expanded,
                start,
                middle,
                stride,
                device,
                n,
                extent,
                extent,
            );
        },
        (Block::GlobalAverage, Row::GlobalAverage) => {
            let before = image(n, channels, extent, extent, device);
            assert(before.shape[2] == 7 && before.shape[3] == 7);
            assert(crate::graph::avg_pool2d_shape(
                before.shape,
                [before.shape[2], before.shape[3]],
                [before.shape[2], before.shape[3]],
            ) =~= image(n, 960, 1, 1, device).shape);
        },
        _ => {},
    }
}

/// The classifier takes 224 by 224 images through the channels and extents of its
/// architecture, row by row.
pub proof fn blocks_follow_the_architecture<T: Scalar>(
    model: MobileNetV4ConvSmall,
    graph: Graph<T>,
    n: usize,
    i: int,
)
    requires
        model.fresh(graph),
        0 <= i < 19,
    ensures
        staged(model.blocks@, image(n, 3, 224, 224, model.device), (i + 1) as nat)
            == std::result::Result::<Form, Failure>::Ok(
            image(
                n,
                row_output(model.num_classes, i).0,
                row_output(model.num_classes, i).1,
                row_output(model.num_classes, i).1,
                model.device,
            ),
        ),
    decreases i,
{
    let blocks = model.blocks@;
    let (channels, extent) = if i == 0 {
        (3usize, 224int)
    } else {
        row_output(model.num_classes, i - 1)
    };
    if i > 0 {
        blocks_follow_the_architecture(model, graph, n, i - 1);
    }
    lemma_row_at(model.num_classes, i);
    assert(blocks[i].fresh(graph, rows(model.num_classes)[i], model.device));
    lemma_block_output(
        blocks[i],
        graph,
        model.num_classes,
        i,
        model.device,
        n,
        channels,
        extent,
    );
}

/// The classifier gives one score for each image and class.
pub proof fn classifier_scores_every_class<T: Scalar>(
    model: MobileNetV4ConvSmall,
    graph: Graph<T>,
    n: usize,
)
    requires
        model.fresh(graph),
        n * model.num_classes <= usize::MAX,
    ensures
        model.admits(image(n, 3, 224, 224, model.device)),
        model.output(image(n, 3, 224, 224, model.device)) == std::result::Result::<
            Form,
            Failure,
        >::Ok(Form { shape: seq![n, model.num_classes], device: model.device }),
{
    let form = image(n, 3, 224, 224, model.device);
    blocks_follow_the_architecture(model, graph, n, 18);
    let last = image(n, model.num_classes, 1, 1, model.device);
    lemma_numel_4(last.shape);
    let shape = seq![n, model.num_classes];
    lemma_numel_2(shape);
    let classes = model.num_classes;
    assert(n * classes * 1 * 1 == n * classes) by (nonlinear_arith);
    assert forall|k: int| 0 <= k <= shape.len() implies #[trigger] numel(shape.take(k))
        <= usize::MAX by {
        if k == 0 {
            assert(shape.take(0) =~= Seq::empty());
        } else if k == 1 {
            crate::shape::lemma_numel_1(shape.take(1));
        } else {
            assert(shape.take(2) =~= shape);
        }
    }
}

} // verus!
