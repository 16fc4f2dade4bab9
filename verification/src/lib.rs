//! Tensors over exchangeable compute backends: shapes and layouts, symbolic
//! shapes, the operations of a tensor, and gradients by backpropagation.
pub mod acceptance;
pub mod adjoint;
pub mod axes;
pub mod backend;
pub mod backprop;
pub mod broadcasts;
pub mod checkpoint;
pub mod contributions;
pub mod conv;
pub mod conv_rules;
pub mod convolve;
pub mod creation;
pub mod dtype;
pub mod dynamic_shape;
pub mod elements;
pub mod elementwise;
pub mod error;
pub mod extrema;
pub mod filters;
pub mod flows;
pub mod grad_shapes;
pub mod gradients;
pub mod graph;
pub mod host;
pub mod joined;
pub mod joining;
pub mod kernels;
pub mod kinds;
pub mod lanes;
pub mod layout;
pub mod matrices;
pub mod model;
pub mod nd;
pub mod numeric;
pub mod op;
pub mod patterns;
pub mod permuted;
pub mod pooled;
pub mod products;
pub mod reductions;
pub mod reshaped;
pub mod rules;
pub mod scalar;
pub mod selection;
pub mod shape;
pub mod shaping;
pub mod shared;
pub mod slopes;
pub mod sorting;
pub mod sums;
pub mod tensor;
pub mod text;
pub mod views;
pub mod windows;

pub use backend::{Backend, BackendDevice, BackendStorage};
pub use backprop::GradStore;
pub use checkpoint::{
    checkpoint,
    checkpoint_sequential,
    is_checkpointing,
    with_checkpoint_mode,
    CheckpointMode,
};
pub use dtype::DType;
pub use dynamic_shape::{ShapeEnv, ShapeGuard, SymDim, SymbolicShape};
pub use error::{Error, Result};
pub use layout::Layout;
pub use op::{Op, TensorId};
pub use shape::Shape;
pub use tensor::Tensor;
