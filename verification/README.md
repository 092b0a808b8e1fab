# hypergrad

A scalar-valued reverse-mode automatic differentiation engine and a small
multi-layer perceptron, verified with Verus.

- `src/hyper_engine.rs`: the computation graph (`Graph`, `Value`, `Op`), the
  operations that extend it, and the backward pass, which walks the nodes
  reachable from the output in reverse depth-first post-order and accumulates
  gradients into the inputs of each node.
- `src/topo.rs`: the depth-first order of the backward pass as a mathematical
  function, with its laws (every reachable node exactly once, users before
  their inputs, the output first).
- `src/hyper_neuron.rs`: `Neuron`, `Layer`, `MLP` and the `Module` trait
  (parameters and `zero_grad`), with the exact shape of the graph that each
  forward pass builds; the training step (`MLP::mse_loss`, which builds the
  loss graph over the samples paired with their targets, and `MLP::sgd_step`, which zeroes the gradients, runs the
  backward pass and updates every parameter); and the laws that, with a
  deterministic evaluator, a forward pass run again gives the same data, and
  a perceptron's outputs hold the data of its layers run one after another.
- `src/text.rs`: decimal numbers and joined lists for the descriptions of
  networks.
- `app/main.rs`: the training program; it supplies the floating-point
  arithmetic (forward values, local derivatives, the update rule, random
  initial weights and data) and drops each epoch's nodes with
  `Graph::truncate`.

The graph is generic in the scalar type: the caller hands the library an
evaluator for forward values and a rule for local derivatives, and the
contracts state what the library does with their results.
