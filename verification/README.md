# oxide_torch

A compact tensor library in verified Rust: a lazy graph of tensor operations, evaluation and
differentiation on the host, traced plans, layers, optimizers, the MNIST data set, SafeTensors
checkpoints, the MobileNetV4 and Gemma 4 models, and the plans that a CUDA device runs.

## Layout

- `src/` is the library; every item of it is proved by Verus.
  - `scalar` names the arithmetic of elements.  Its trait carries no contract.  Contracts say
    which operations are applied to which elements, and in which order.
  - `graph`, `tensor`, `copy`, `eval`, `backward`, `jit` are the lazy graph.  Tensors are handles
    into a `Graph`.
  - `meaning` and `mirror` say what graphs, their copies and traced plans compute, `determined`
    that they compute one thing where every operation on elements has one result.
  - `forward`, `reverse`, `norm`, `shape`, `index` are the operations and their gradients.
  - `nn`, `optim`, `random`, `data`, `models`, `safetensors` are what is built on them.
  - `cuda` holds what each thread of a kernel computes, and the executor that turns graphs into
    commands.  `cuda::agreement` ties what a device holds to what the host computes, and
    `cuda::equations` values and gradients to the formulas of the device; `cuda::safety`,
    `cuda::gradient_safety` and `cuda::optimizer_safety` show that every launch finds its buffers
    written and as long as its kernel asks for; `cuda::top_tokens` that the two stages that pick
    tokens pick the best of all.
  - `gemma4_cuda` plans the launches of the Gemma model; `gemma4_cuda::safety` shows the same of
    them, `gemma4_cuda::effects` says what each does to what a device holds, and
    `gemma4_cuda::tally` shows that loading keeps every element.
- `app/` reads files, and runs plans on devices with the feature `cuda`.
- `tests/` runs the library on concrete values.  Planned commands are run thread by thread.

## Trusted

The crates `safetensors`, `half`, `serde_json` and `tokenizers` are called through wrappers whose
contracts are believed: see `src/safetensors.rs` and `src/models/tokenizer.rs`.  Where such a call
can panic, the library looks at its input first and returns an error: a header with a number that
cannot be added to, and a `tokenizer.json` with parts that `src/models/tokenizer_file.rs` does not
list, are refused.
