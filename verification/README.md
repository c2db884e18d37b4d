# nominal

A small reverse-mode automatic differentiation library over strided tensors,
written in Verus.

- `src/types/shape.rs`: padded dims, row-major strides, offsets of
  multi-indices and their arithmetic.
- `src/types/tensor.rs`: the `Store` of element buffers, and strided tensors
  that each read one buffer of it. Views (transpose, unsqueeze, squeeze) and
  clones read the same buffer as the tensor they come from, so a write with
  `set` is seen through all of them. Also row-major iteration, elementwise
  maps and the matrix product, which add new buffers to the store.
- `src/types/properties.rs`: what the views and products keep and undo.
- `src/types/{node,tape,value}.rs`: the computation tape, which owns the
  store its tensors live in, and the operations that record on it; `src/types.rs` holds the same for scalars.
- `src/autograd.rs`: back-propagation over the tape.
- `src/nn.rs`: layers and models.
- `app/`: the runnable examples on `f32`, with the element arithmetic, the
  conversions from `ndarray` arrays and random tensors.

The element type of tensors is generic; the arithmetic on elements is passed
in as closures, and the contracts say what the results hold in terms of what
those closures return.
