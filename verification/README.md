# microgpt

A complete character-level GPT — tokenizer, autograd, transformer, Adam, training loop,
temperature sampling — written in Rust and verified with Verus.

The same model is computed in four ways:

- on a *tape* of scalar nodes, one token at a time with a cache of keys and values;
- in *batches*, layer by layer over flat buffers, with the backward pass written out by hand
  and the rows divided among the cores of the processor;
- on a CUDA device, which carries out the same planned sequence of launches;
- with whole tensors of a framework that differentiates by itself.

## What is verified

`src/` is the library. Every algorithm is generic over a `Scalar` of which nothing is assumed,
so contracts say which operations produce a number, on which operands and in which order.
No verified function panics.

- `rng`, `text`, `batch`, `layout`, `init`: random numbers, tokens, batches, parameters.
- `tape`, `graph`, `tape_gpt`, `tape_token`, `tape_train`, `tape_sample`: autograd on a tape, and
  the model on it.
- `scalar`, `rows`, `reduce`, `matmul`, `norm`, `pointwise`, `attention`, `embed`, `loss`, `adam`:
  the kernels, forward and backward.
- `bank`, `shape`, `plan`, `device`: numbered buffers, the launches of a training step, and how a
  device spreads them over its threads.
- `network`, `gradient`, `model`, `sample`: what the planned launches compute, and training and
  sampling with them.
- `tensor`, `tensor_train`: the model in terms of whole tensors.
- `capacity`: whether a model can be counted in machine words, and whether a tape has room for it.

On top of the contracts stand the laws, public proof functions named `law_*`:

- In exact arithmetic the backward passes are derivatives: `tape_laws`, `derivative` and the
  `motion*` modules, built on `exact`.
- Where operations have one outcome, training and sampling have one outcome, bit by bit, in
  batches (`determinism`, `causality`, `repeat`, `agree`) and on the tape (`tape_repeat`);
  `sample_repeat` speaks of both samplers. On the tape this rests on the order of the nodes, which
  the contracts state: `order`, with `costs`.
- Positions see only the past, padding changes no loss, and a prefix alone has the logits that it
  has in a batch: `causality`, `padding`, `prefix`.
- Padding changes no gradient: in exact arithmetic (`accumulate`), and bit by bit where adding zero
  changes nothing (`unmoved`, with `live`).
- A pass over fewer rows keeps what lies behind them, and the backward pass leaves the gradients
  that it went through last: `tails`, `scratch`.
- A backward pass adds to the gradients what it would find on its own: `accumulate`, with
  `increments`.
- Among proportions a choice falls only on an index with weight, whatever their scale: `choice`.
- The tape and the batched network start from the same parameters; in exact arithmetic they compute
  the same loss, find the same gradients and draw the same documents: `twins`, `twin_network`,
  `twin_gradient` and `twin_sample`, with the `twin_*` modules they are built on.

The one thing taken on trust is how `cudarc` divides a line of threads into blocks
(`device::line_grid`).

## Layout

- `src/` the verified library
- `tests/` its tests, on machine floats
- `app/` the program: floats, files, threads, kernels and devices

```sh
microgpt            # the tape
microgpt cpu        # all cores, the large model; --parity for the small one
microgpt cuda       # --scale for the large model
microgpt mlx        # on Apple machines; --scale for the large model
```

The program reads `input.txt`, one document per line, and downloads a list of names if the file
is missing.
