# shrew_core

Tensors over exchangeable compute backends, written and proved in Verus.

A tensor is a handle to storage on a backend, a layout that says how the
storage is read, and a record of the operation that made it. Backends compute;
this library decides shapes, layouts, records and errors, computes what runs on
the host (convolutions, pooling, sorting, gradients of slices and gathers), and
differentiates by walking the records backwards.

## Layout of the library

- `shape`, `layout`, `views`, `nd`: sizes, row-major strides, and where a layout
  finds an element.
- `dynamic_shape`: shape patterns with names, their resolution and unification.
- `dtype`, `error`, `scalar`, `text`: data types, errors, numbers and messages.
- `backend`, `shared`, `op`, `tensor`: what a backend provides, storage behind a
  lock, records, and the tensor itself.
- `elementwise`, `shaping`, `joining`, `host`, `numeric`, `convolve`: the
  operations of a tensor. `kernels`, `conv`, `sorting`, `axes` hold what they
  compute on the host.
- `graph`, `gradients`, `rules`, `conv_rules`, `backprop`: the order of a graph,
  the chain rule of each operation, and backpropagation.
- `grad_shapes`, `contributions`, `sums`, `adjoint`: the shapes of gradients, the
  sum over the uses of a tensor, and the gradients of convolutions as adjoints.
- `elements`, `permuted`: what the elements of joined and padded tensors and of
  the gradient of a generalized transpose are, on a backend that stores numbers.
- `checkpoint`: gradient checkpointing.

## What is stated

Contracts speak of views: a layout is its sizes, strides and offset; a tensor is
its identity, storage, layout and record; a gradient store is a map. A backend
is not assumed to compute anything in particular: a contract says which call was
made with which arguments, and what becomes of each possible answer.

Laws that relate several functions are public proof functions named `law_...`.

`app/` holds what is not verified: floating-point numbers, errors as
`std::error::Error`, and the state of a process.
