//! The interface between tensors and the devices that compute with them.
//!
//! A backend provides a storage type and the operations on it. Tensors are
//! generic over the backend, so that new ones can be added without a change
//! here.
use crate::dtype::DType;
use crate::error::Result;
use crate::layout::Layout;
use crate::scalar::Real;
use crate::shape::Shape;
use std::sync::atomic::AtomicU64;
use vstd::prelude::*;

verus! {

/// A compute device (e.g. "cpu", "cuda:0").
pub trait BackendDevice: Clone + Send + Sync + 'static {
    /// A human-readable name for this device.
    fn name(&self) -> String;

    /// The device as it appears in the description of a tensor.
    fn describe(&self) -> String;
}

/// A buffer that holds tensor data on a device.
pub trait BackendStorage: Clone + Send + Sync + 'static {
    /// The data type of the elements.
    fn dtype(&self) -> DType;

    /// Total number of elements that fit in this storage.
    fn len(&self) -> usize;

    /// Whether the storage has no elements.
    fn is_empty(&self) -> (r: bool)
        default_ensures
            exists|n: usize| #[trigger] call_ensures(Self::len, (self,), n) && r == (n == 0),
    {
        let n: usize = self.len();
        n == 0
    }
}

/// Element-wise binary operations.
#[derive(Debug, Clone, Copy, PartialEq, Eq, Structural)]
pub enum BinaryOp {
    Add,
    Sub,
    Mul,
    Div,
}

/// Element-wise unary operations.
#[derive(Debug, Clone, Copy, PartialEq, Eq, Structural)]
pub enum UnaryOp {
    Neg,
    Abs,
    Exp,
    Log,
    Sqrt,
    Relu,
    Sigmoid,
    Tanh,
    Gelu,
    Silu,
    Sin,
    Cos,
    Square,
    Floor,
    Ceil,
    Round,
}

/// Reductions along dimensions.
#[derive(Debug, Clone, Copy, PartialEq, Eq, Structural)]
pub enum ReduceOp {
    Sum,
    Mean,
    Max,
    Min,
    ArgMax,
    ArgMin,
}

/// Comparisons (they produce tensors of 0 and 1).
#[derive(Debug, Clone, Copy, PartialEq, Eq, Structural)]
pub enum CmpOp {
    Eq,
    Ne,
    Gt,
    Ge,
    Lt,
    Le,
}

impl BinaryOp {
    /// The name of the operation.
    pub open spec fn name(self) -> Seq<char> {
        match self {
            BinaryOp::Add => "Add"@,
            BinaryOp::Sub => "Sub"@,
            BinaryOp::Mul => "Mul"@,
            BinaryOp::Div => "Div"@,
        }
    }

    pub(crate) fn name_str(&self) -> (r: &'static str)
        ensures
            r@ == self.name(),
    {
        match self {
            BinaryOp::Add => "Add",
            BinaryOp::Sub => "Sub",
            BinaryOp::Mul => "Mul",
            BinaryOp::Div => "Div",
        }
    }
}

impl UnaryOp {
    /// The name of the operation.
    pub open spec fn name(self) -> Seq<char> {
        match self {
            UnaryOp::Neg => "Neg"@,
            UnaryOp::Abs => "Abs"@,
            UnaryOp::Exp => "Exp"@,
            UnaryOp::Log => "Log"@,
            UnaryOp::Sqrt => "Sqrt"@,
            UnaryOp::Relu => "Relu"@,
            UnaryOp::Sigmoid => "Sigmoid"@,
            UnaryOp::Tanh => "Tanh"@,
            UnaryOp::Gelu => "Gelu"@,
            UnaryOp::Silu => "Silu"@,
            UnaryOp::Sin => "Sin"@,
            UnaryOp::Cos => "Cos"@,
            UnaryOp::Square => "Square"@,
            UnaryOp::Floor => "Floor"@,
            UnaryOp::Ceil => "Ceil"@,
            UnaryOp::Round => "Round"@,
        }
    }

    pub(crate) fn name_str(&self) -> (r: &'static str)
        ensures
            r@ == self.name(),
    {
        match self {
            UnaryOp::Neg => "Neg",
            UnaryOp::Abs => "Abs",
            UnaryOp::Exp => "Exp",
            UnaryOp::Log => "Log",
            UnaryOp::Sqrt => "Sqrt",
            UnaryOp::Relu => "Relu",
            UnaryOp::Sigmoid => "Sigmoid",
            UnaryOp::Tanh => "Tanh",
            UnaryOp::Gelu => "Gelu",
            UnaryOp::Silu => "Silu",
            UnaryOp::Sin => "Sin",
            UnaryOp::Cos => "Cos",
            UnaryOp::Square => "Square",
            UnaryOp::Floor => "Floor",
            UnaryOp::Ceil => "Ceil",
            UnaryOp::Round => "Round",
        }
    }
}

impl ReduceOp {
    /// The name of the operation.
    pub open spec fn name(self) -> Seq<char> {
        match self {
            ReduceOp::Sum => "Sum"@,
            ReduceOp::Mean => "Mean"@,
            ReduceOp::Max => "Max"@,
            ReduceOp::Min => "Min"@,
            ReduceOp::ArgMax => "ArgMax"@,
            ReduceOp::ArgMin => "ArgMin"@,
        }
    }

    pub(crate) fn name_str(&self) -> (r: &'static str)
        ensures
            r@ == self.name(),
    {
        match self {
            ReduceOp::Sum => "Sum",
            ReduceOp::Mean => "Mean",
            ReduceOp::Max => "Max",
            ReduceOp::Min => "Min",
            ReduceOp::ArgMax => "ArgMax",
            ReduceOp::ArgMin => "ArgMin",
        }
    }
}

/// A compute backend: storage and the operations on it.
///
/// All operations take storage and its layout and return new storage.
pub trait Backend: Clone + Send + Sync + 'static {
    /// The device type for this backend.
    type Device: BackendDevice;

    /// The storage type for this backend.
    type Storage: BackendStorage;

    /// The numbers that element values are exchanged as.
    type Scalar: Real;

    /// The counter that numbers the tensors of this backend.
    fn id_counter() -> &'static AtomicU64;

    /// Storage filled with zeros.
    fn zeros(shape: &Shape, dtype: DType, device: &Self::Device) -> Result<Self::Storage>;

    /// Storage filled with ones.
    fn ones(shape: &Shape, dtype: DType, device: &Self::Device) -> Result<Self::Storage>;

    /// Storage filled with a constant value.
    fn full(
        shape: &Shape,
        val: Self::Scalar,
        dtype: DType,
        device: &Self::Device,
    ) -> Result<Self::Storage>;

    /// Storage from a flat slice of numbers, converted to the dtype.
    fn from_f64_slice(
        data: &[Self::Scalar],
        dtype: DType,
        device: &Self::Device,
    ) -> Result<Self::Storage>;

    /// Storage with random uniform values in [0, 1).
    fn rand_uniform(shape: &Shape, dtype: DType, device: &Self::Device) -> Result<Self::Storage>;

    /// Storage with random normal values (mean 0, standard deviation 1).
    fn rand_normal(shape: &Shape, dtype: DType, device: &Self::Device) -> Result<Self::Storage>;

    /// Element-wise binary operation. The layouts handle broadcasting and
    /// strided access.
    fn binary_op(
        op: BinaryOp,
        lhs: &Self::Storage,
        lhs_layout: &Layout,
        rhs: &Self::Storage,
        rhs_layout: &Layout,
    ) -> Result<Self::Storage>;

    /// Element-wise unary operation.
    fn unary_op(op: UnaryOp, input: &Self::Storage, layout: &Layout) -> Result<Self::Storage>;

    /// Reduce along specific dimensions, or over all elements if `dims` is
    /// empty.
    fn reduce_op(
        op: ReduceOp,
        input: &Self::Storage,
        layout: &Layout,
        dims: &[usize],
        keep_dim: bool,
    ) -> Result<Self::Storage>;

    /// Matrix multiplication, batched for more than two dimensions.
    fn matmul(
        lhs: &Self::Storage,
        lhs_layout: &Layout,
        rhs: &Self::Storage,
        rhs_layout: &Layout,
    ) -> Result<Self::Storage>;

    /// A contiguous copy of the elements that the layout reads.
    fn to_contiguous(input: &Self::Storage, layout: &Layout) -> Result<Self::Storage>;

    /// The elements that the layout reads, as numbers on the host.
    fn to_f64_vec(input: &Self::Storage, layout: &Layout) -> Result<Vec<Self::Scalar>>;

    /// Element-wise comparison: storage of 0 and 1.
    fn cmp_op(
        op: CmpOp,
        lhs: &Self::Storage,
        lhs_layout: &Layout,
        rhs: &Self::Storage,
        rhs_layout: &Layout,
    ) -> Result<Self::Storage>;

    /// Affine transform: input * mul + add.
    fn affine(
        input: &Self::Storage,
        layout: &Layout,
        mul: Self::Scalar,
        add: Self::Scalar,
    ) -> Result<Self::Storage>;

    /// Select entries along a dimension using an index tensor.
    fn index_select(
        input: &Self::Storage,
        input_layout: &Layout,
        indices: &Self::Storage,
        indices_layout: &Layout,
        dim: usize,
    ) -> Result<Self::Storage>;

    /// Element-wise power.
    fn powf(input: &Self::Storage, layout: &Layout, exponent: Self::Scalar) -> Result<
        Self::Storage,
    >;

    /// Element-wise clamp to [min, max].
    fn clamp(
        input: &Self::Storage,
        layout: &Layout,
        min: Self::Scalar,
        max: Self::Scalar,
    ) -> Result<Self::Storage>;

    /// Element-wise selection by a mask.
    fn where_cond(
        mask: &Self::Storage,
        mask_layout: &Layout,
        on_true: &Self::Storage,
        on_true_layout: &Layout,
        on_false: &Self::Storage,
        on_false_layout: &Layout,
    ) -> Result<Self::Storage>;

    /// Gather elements along a dimension using an index tensor of the same
    /// rank.
    fn gather(
        input: &Self::Storage,
        input_layout: &Layout,
        index: &Self::Storage,
        index_layout: &Layout,
        dim: usize,
    ) -> Result<Self::Storage>;

    /// Concatenate along a dimension into storage of the given shape.
    fn cat(inputs: &[(&Self::Storage, &Layout)], out_shape: &Shape, dim: usize) -> Result<
        Self::Storage,
    >;

    /// Convert to another dtype. Without a conversion of its own a backend
    /// reads the numbers to the host and writes them back.
    fn cast(
        input: &Self::Storage,
        layout: &Layout,
        dtype: DType,
        device: &Self::Device,
    ) -> (r: Result<Self::Storage>)
        default_ensures
            exists|v: Result<Vec<Self::Scalar>>| #[trigger]
                call_ensures(Self::to_f64_vec, (input, layout), v) && match v {
                    Ok(data) => exists|s: &[Self::Scalar]|
                        s@ == data@ && #[trigger] call_ensures(
                            Self::from_f64_slice,
                            (s, dtype, device),
                            r,
                        ),
                    Err(e) => r == Err::<Self::Storage, _>(e),
                },
    {
        let data = Self::to_f64_vec(input, layout)?;
        Self::from_f64_slice(data.as_slice(), dtype, device)
    }
}

} // verus!
