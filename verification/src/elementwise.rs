//! Operations that a backend computes: element-wise arithmetic, comparisons,
//! reductions and matrix products, and what is composed of them.
use crate::axes::{self, reduced_sizes};
use crate::backend::{Backend, BinaryOp, CmpOp, ReduceOp, UnaryOp};
use crate::dtype::DType;
use crate::error::{Error, Result};
use crate::gradients::signs;
use crate::nd;
use crate::op::Op;
use crate::rules::{self, upload_like};
use crate::scalar::{self, Scalar};
use crate::shape::{self, copy_sizes, Shape};
use crate::tensor::{self, Tensor};
use crate::views::{self, contiguous_layout};
use vstd::prelude::*;

verus! {

/// A new contiguous tensor of the given shape around what a backend
/// returned.
pub open spec fn stored_result<B: Backend>(
    made: Result<B::Storage>,
    dims: Seq<usize>,
    dtype: DType,
    device: B::Device,
    op: Op<B>,
    r: Result<Tensor<B>>,
) -> bool {
    match made {
        Err(e) => r == Err::<Tensor<B>, _>(e),
        Ok(s) => if nd::fits(dims) {
            r matches Ok(t) && tensor::stored(t, s, dims, dtype, device) && t@.op == op
        } else {
            r matches Err(e) && views::is_too_large(e)
        },
    }
}

/// The result of a backend call on the storage of one tensor, with the shape
/// and the dtype of the tensor.
pub open spec fn applied<B: Backend>(
    a: Tensor<B>,
    call: spec_fn(B::Storage, Result<B::Storage>) -> bool,
    op: Op<B>,
    r: Result<Tensor<B>>,
) -> bool {
    ||| tensor::refused(a, r)
    ||| exists|s: B::Storage, made: Result<B::Storage>|
        a@.storage.can_hold(s) && #[trigger] call(s, made) && stored_result(
            made,
            a@.dims(),
            a@.dtype,
            a@.device,
            op,
            r,
        )
}

/// A new tensor of the shape that two tensors broadcast to, around what a
/// backend returned.
pub open spec fn joined_result<B: Backend>(
    made: Result<B::Storage>,
    a: Tensor<B>,
    b: Tensor<B>,
    dtype: DType,
    op: Op<B>,
    r: Result<Tensor<B>>,
) -> bool {
    if made is Ok && !shape::broadcastable(a@.dims(), b@.dims()) {
        r matches Err(e) && shape::is_clash(a@.dims(), b@.dims(), e)
    } else {
        stored_result(made, shape::broadcast(a@.dims(), b@.dims()), dtype, a@.device, op, r)
    }
}

/// The result of an element-wise binary operation.
pub open spec fn binary_result<B: Backend>(
    a: Tensor<B>,
    b: Tensor<B>,
    op: BinaryOp,
    r: Result<Tensor<B>>,
) -> bool {
    if a@.dtype != b@.dtype {
        r == Err::<Tensor<B>, _>(Error::DTypeMismatch { expected: a@.dtype, got: b@.dtype })
    } else {
        ||| tensor::refused(a, r)
        ||| tensor::refused(b, r)
        ||| exists|s: B::Storage, t: B::Storage, made: Result<B::Storage>|
            {
                &&& a@.storage.can_hold(s)
                &&& b@.storage.can_hold(t)
                &&& #[trigger] call_ensures(
                    B::binary_op,
                    (op, &s, &a@.layout, &t, &b@.layout),
                    made,
                )
                &&& joined_result(made, a, b, a@.dtype, Op::Binary { lhs: a, rhs: b, op }, r)
            }
    }
}

/// The result of a comparison: 0 and 1, without a record of how it was made.
pub open spec fn comparison_result<B: Backend>(
    a: Tensor<B>,
    b: Tensor<B>,
    op: CmpOp,
    r: Result<Tensor<B>>,
) -> bool {
    ||| tensor::refused(a, r)
    ||| tensor::refused(b, r)
    ||| exists|s: B::Storage, t: B::Storage, made: Result<B::Storage>|
        {
            &&& a@.storage.can_hold(s)
            &&& b@.storage.can_hold(t)
            &&& #[trigger] call_ensures(B::cmp_op, (op, &s, &a@.layout, &t, &b@.layout), made)
            &&& joined_result(made, a, b, DType::U8, Op::Leaf, r)
        }
}

/// The result of an element-wise unary operation.
pub open spec fn unary_result<B: Backend>(a: Tensor<B>, op: UnaryOp, r: Result<Tensor<B>>) -> bool {
    applied(
        a,
        |s: B::Storage, made: Result<B::Storage>|
            call_ensures(B::unary_op, (op, &s, &a@.layout), made),
        Op::Unary { input: a, op },
        r,
    )
}

/// The first of the dimensions that a tensor lacks.
pub open spec fn first_missing(axes: Seq<usize>, rank: nat, i: int) -> bool {
    &&& 0 <= i < axes.len()
    &&& axes[i] >= rank
    &&& forall|j: int| 0 <= j < i ==> #[trigger] axes[j] < rank
}

/// The dtype of a reduction: positions are whole numbers.
pub open spec fn reduced_dtype(op: ReduceOp, dtype: DType) -> DType {
    if op == ReduceOp::ArgMax || op == ReduceOp::ArgMin {
        DType::I64
    } else {
        dtype
    }
}

/// A new tensor around what a backend returned for a reduction.
pub open spec fn reduction_of<B: Backend>(
    made: Result<B::Storage>,
    a: Tensor<B>,
    op: ReduceOp,
    axes: Seq<usize>,
    keep_dim: bool,
    r: Result<Tensor<B>>,
) -> bool {
    match made {
        Err(e) => r == Err::<Tensor<B>, _>(e),
        Ok(s) => if !nd::fits(axes::reduced(a@.dims(), axes, keep_dim)) {
            r matches Err(e) && views::is_too_large(e)
        } else {
            r matches Ok(t) && {
                &&& tensor::stored(
                    t,
                    s,
                    axes::reduced(a@.dims(), axes, keep_dim),
                    reduced_dtype(op, a@.dtype),
                    a@.device,
                )
                &&& t@.op matches Op::Reduce { input, op: o, dims, keep_dim: k } && input == a
                    && o == op && dims@ == axes && k == keep_dim
            }
        },
    }
}

/// The result of a reduction along dimensions.
pub open spec fn reduction_result<B: Backend>(
    a: Tensor<B>,
    op: ReduceOp,
    axes: Seq<usize>,
    keep_dim: bool,
    r: Result<Tensor<B>>,
) -> bool {
    if exists|i: int| first_missing(axes, a@.dims().len(), i) {
        exists|i: int| #[trigger]
            first_missing(axes, a@.dims().len(), i) && r == Err::<Tensor<B>, _>(
                Error::DimOutOfRange { dim: axes[i], rank: a@.dims().len() as usize },
            )
    } else {
        ||| tensor::refused(a, r)
        ||| exists|s: B::Storage, d: &[usize], made: Result<B::Storage>|
            {
                &&& a@.storage.can_hold(s)
                &&& d@ == axes
                &&& #[trigger] call_ensures(B::reduce_op, (op, &s, &a@.layout, d, keep_dim), made)
                &&& reduction_of(made, a, op, axes, keep_dim, r)
            }
    }
}

/// The shape of a matrix product, batched over the leading dimensions of the
/// left factor.
pub open spec fn matmul_dims(a: Seq<usize>, b: Seq<usize>) -> Seq<usize> {
    a.take(a.len() - 2) + seq![a[a.len() - 2], b[b.len() - 1]]
}

/// The result of a matrix product.
pub open spec fn matmul_result<B: Backend>(a: Tensor<B>, b: Tensor<B>, r: Result<Tensor<B>>) -> bool {
    let da = a@.dims();
    let db = b@.dims();
    if a@.dtype != b@.dtype {
        r == Err::<Tensor<B>, _>(Error::DTypeMismatch { expected: a@.dtype, got: b@.dtype })
    } else if da.len() < 2 || db.len() < 2 {
        r == Err::<Tensor<B>, _>(
            Error::RankMismatch {
                expected: 2,
                got: if da.len() <= db.len() {
                    da.len() as usize
                } else {
                    db.len() as usize
                },
            },
        )
    } else if da[da.len() - 1] != db[db.len() - 2] {
        r == Err::<Tensor<B>, _>(
            Error::MatmulShapeMismatch {
                m: da[da.len() - 2],
                k1: da[da.len() - 1],
                k2: db[db.len() - 2],
                n: db[db.len() - 1],
            },
        )
    } else {
        ||| tensor::refused(a, r)
        ||| tensor::refused(b, r)
        ||| exists|s: B::Storage, t: B::Storage, made: Result<B::Storage>|
            {
                &&& a@.storage.can_hold(s)
                &&& b@.storage.can_hold(t)
                &&& #[trigger] call_ensures(B::matmul, (&s, &a@.layout, &t, &b@.layout), made)
                &&& stored_result(
                    made,
                    matmul_dims(da, db),
                    a@.dtype,
                    a@.device,
                    Op::Matmul { lhs: a, rhs: b },
                    r,
                )
            }
    }
}

/// The exponentials of a tensor, computed without overflow: the maximum
/// along a dimension, the tensor minus the maximum, its exponentials, and
/// their sums along the dimension.
#[verifier::reject_recursive_types(B)]
pub struct Powers<B: Backend> {
    pub top: Tensor<B>,
    pub shifted: Tensor<B>,
    pub powers: Tensor<B>,
    pub total: Tensor<B>,
}

/// The exponentials of a tensor. The maximum counts as a constant.
pub open spec fn powers_result<B: Backend>(
    x: Tensor<B>,
    dim: usize,
    r: Result<Powers<B>>,
) -> bool {
    exists|max: Result<Tensor<B>>| #[trigger]
        reduction_result(x, ReduceOp::Max, seq![dim], true, max) && match max {
            Err(e) => r == Err::<Powers<B>, _>(e),
            Ok(max) => exists|top: Tensor<B>| #[trigger]
                call_ensures(Tensor::detach, (&max,), top) && powers_below(x, dim, top, r),
        }
}

/// The exponentials of a tensor with a constant subtracted.
pub open spec fn powers_below<B: Backend>(
    x: Tensor<B>,
    dim: usize,
    top: Tensor<B>,
    r: Result<Powers<B>>,
) -> bool {
    exists|shifted: Result<Tensor<B>>| #[trigger]
        binary_result(x, top, BinaryOp::Sub, shifted) && match shifted {
            Err(e) => r == Err::<Powers<B>, _>(e),
            Ok(shifted) => exists|powers: Result<Tensor<B>>| #[trigger]
                unary_result(shifted, UnaryOp::Exp, powers) && match powers {
                    Err(e) => r == Err::<Powers<B>, _>(e),
                    Ok(powers) => exists|total: Result<Tensor<B>>| #[trigger]
                        reduction_result(powers, ReduceOp::Sum, seq![dim], true, total)
                            && match total {
                            Err(e) => r == Err::<Powers<B>, _>(e),
                            Ok(total) => r == Ok::<Powers<B>, Error>(
                                Powers { top, shifted, powers, total },
                            ),
                        },
                },
        }
}

/// The product of the magnitudes along a dimension: exp(sum(log(|x|))).
pub open spec fn magnitude_result<B: Backend>(
    x: Tensor<B>,
    dim: usize,
    keep_dim: bool,
    r: Result<Tensor<B>>,
) -> bool {
    exists|size: Result<Tensor<B>>| #[trigger]
        unary_result(x, UnaryOp::Abs, size) && match size {
            Err(e) => r == Err::<Tensor<B>, _>(e),
            Ok(size) => exists|logged: Result<Tensor<B>>| #[trigger]
                unary_result(size, UnaryOp::Log, logged) && match logged {
                    Err(e) => r == Err::<Tensor<B>, _>(e),
                    Ok(logged) => exists|total: Result<Tensor<B>>| #[trigger]
                        reduction_result(logged, ReduceOp::Sum, seq![dim], keep_dim, total)
                            && match total {
                            Err(e) => r == Err::<Tensor<B>, _>(e),
                            Ok(total) => unary_result(total, UnaryOp::Exp, r),
                        },
                },
        }
}

/// 1 where an element is negative, else 0, in the dtype of the tensor and
/// without a record of how it was made.
pub open spec fn negative_mask<B: Backend>(x: Tensor<B>, r: Result<Tensor<B>>) -> bool {
    exists|zeros: Result<Tensor<B>>| #[trigger]
        call_ensures(Tensor::zeros_like, (&x,), zeros) && match zeros {
            Err(e) => r == Err::<Tensor<B>, _>(e),
            Ok(zeros) => exists|negative: Result<Tensor<B>>| #[trigger]
                comparison_result(x, zeros, CmpOp::Lt, negative) && match negative {
                    Err(e) => r == Err::<Tensor<B>, _>(e),
                    Ok(negative) => exists|mask: Result<Tensor<B>>| #[trigger]
                        call_ensures(Tensor::to_dtype, (&negative, x@.dtype), mask) && match mask {
                            Err(e) => r == Err::<Tensor<B>, _>(e),
                            Ok(mask) => r matches Ok(fixed) && call_ensures(
                                Tensor::detach,
                                (&mask,),
                                fixed,
                            ),
                        },
                },
        }
}

/// The remainder of a count by 2: the count minus twice the half rounded
/// down.
pub open spec fn parity_result<B: Backend>(count: Tensor<B>, r: Result<Tensor<B>>) -> bool {
    let zero = <B::Scalar as Scalar>::zero_val();
    let two = scalar::two_val::<B::Scalar>();
    exists|half: Result<Tensor<B>>| #[trigger]
        call_ensures(
            Tensor::affine,
            (&count, <B::Scalar as Scalar>::one_val().over(two), zero),
            half,
        ) && match half {
            Err(e) => r == Err::<Tensor<B>, _>(e),
            Ok(half) => exists|pairs: Result<Tensor<B>>| #[trigger]
                unary_result(half, UnaryOp::Floor, pairs) && match pairs {
                    Err(e) => r == Err::<Tensor<B>, _>(e),
                    Ok(pairs) => exists|even: Result<Tensor<B>>| #[trigger]
                        call_ensures(Tensor::affine, (&pairs, two, zero), even) && match even {
                            Err(e) => r == Err::<Tensor<B>, _>(e),
                            Ok(even) => binary_result(count, even, BinaryOp::Sub, r),
                        },
                },
        }
}

/// The sign of the product along a dimension: 1 minus twice the parity of the
/// number of negative elements. It counts as a constant.
pub open spec fn product_sign<B: Backend>(
    x: Tensor<B>,
    dim: usize,
    keep_dim: bool,
    r: Result<Tensor<B>>,
) -> bool {
    let zero = <B::Scalar as Scalar>::zero_val();
    let two = scalar::two_val::<B::Scalar>();
    exists|mask: Result<Tensor<B>>| #[trigger]
        negative_mask(x, mask) && match mask {
            Err(e) => r == Err::<Tensor<B>, _>(e),
            Ok(mask) => exists|count: Result<Tensor<B>>| #[trigger]
                reduction_result(mask, ReduceOp::Sum, seq![dim], keep_dim, count) && match count {
                    Err(e) => r == Err::<Tensor<B>, _>(e),
                    Ok(count) => exists|odd: Result<Tensor<B>>| #[trigger]
                        parity_result(count, odd) && match odd {
                            Err(e) => r == Err::<Tensor<B>, _>(e),
                            Ok(odd) => exists|sign: Result<Tensor<B>>| #[trigger]
                                call_ensures(
                                    Tensor::affine,
                                    (&odd, zero.minus(two), <B::Scalar as Scalar>::one_val()),
                                    sign,
                                ) && match sign {
                                    Err(e) => r == Err::<Tensor<B>, _>(e),
                                    Ok(sign) => r matches Ok(fixed) && call_ensures(
                                        Tensor::detach,
                                        (&sign,),
                                        fixed,
                                    ),
                                },
                        },
                },
        }
}

impl<B: Backend> Tensor<B> {
    /// A tensor of the given shape around what a backend returned.
    pub(crate) fn store(
        made: Result<B::Storage>,
        shape: Shape,
        dtype: DType,
        device: &B::Device,
        op: Op<B>,
    ) -> (r: Result<Self>)
        ensures
            stored_result(made, shape@, dtype, *device, op, r),
    {
        match made {
            Err(e) => Err(e),
            Ok(s) => {
                let layout = contiguous_layout(shape)?;
                Ok(Self::from_storage(s, layout, dtype, device.clone(), op))
            },
        }
    }

    /// A tensor of this tensor's shape and dtype around what a backend
    /// returned.
    fn keep_shape(&self, made: Result<B::Storage>, op: Op<B>) -> (r: Result<Self>)
        ensures
            stored_result(made, self@.dims(), self@.dtype, self@.device, op, r),
    {
        Self::store(made, self.shape().clone(), self.dtype(), self.device(), op)
    }

    /// A tensor of the shape that two tensors broadcast to, around what a
    /// backend returned.
    fn join(made: Result<B::Storage>, a: &Self, b: &Self, dtype: DType, op: Op<B>) -> (r: Result<
        Self,
    >)
        ensures
            joined_result(made, *a, *b, dtype, op, r),
    {
        match made {
            Err(e) => Err(e),
            Ok(s) => {
                let shape = Shape::broadcast_shape(a.shape(), b.shape())?;
                Self::store(Ok(s), shape, dtype, a.device(), op)
            },
        }
    }

    /// Element-wise binary operation.
    fn binary_op(&self, rhs: &Self, op: BinaryOp) -> (r: Result<Self>)
        ensures
            binary_result(*self, *rhs, op, r),
    {
        if self.dtype() != rhs.dtype() {
            return Err(Error::DTypeMismatch { expected: self.dtype(), got: rhs.dtype() });
        }
        let left = self.storage()?;
        let right = rhs.storage_beside(self)?;
        let made = B::binary_op(
            op,
            self.contents(&left),
            self.layout(),
            rhs.contents_beside(&right, &left),
            rhs.layout(),
        );
        Self::join(
            made,
            self,
            rhs,
            self.dtype(),
            Op::Binary { lhs: self.clone(), rhs: rhs.clone(), op },
        )
    }

    /// Element-wise addition: self + rhs.
    pub fn add(&self, rhs: &Self) -> (r: Result<Self>)
        ensures
            binary_result(*self, *rhs, BinaryOp::Add, r),
    {
        self.binary_op(rhs, BinaryOp::Add)
    }

    /// Element-wise subtraction: self - rhs.
    pub fn sub(&self, rhs: &Self) -> (r: Result<Self>)
        ensures
            binary_result(*self, *rhs, BinaryOp::Sub, r),
    {
        self.binary_op(rhs, BinaryOp::Sub)
    }

    /// Element-wise multiplication: self * rhs.
    pub fn mul(&self, rhs: &Self) -> (r: Result<Self>)
        ensures
            binary_result(*self, *rhs, BinaryOp::Mul, r),
    {
        self.binary_op(rhs, BinaryOp::Mul)
    }

    /// Element-wise division: self / rhs.
    pub fn div(&self, rhs: &Self) -> (r: Result<Self>)
        ensures
            binary_result(*self, *rhs, BinaryOp::Div, r),
    {
        self.binary_op(rhs, BinaryOp::Div)
    }

    /// Element-wise comparison. The result is not differentiable.
    fn compare(&self, rhs: &Self, op: CmpOp) -> (r: Result<Self>)
        ensures
            comparison_result(*self, *rhs, op, r),
    {
        let left = self.storage()?;
        let right = rhs.storage_beside(self)?;
        let made = B::cmp_op(
            op,
            self.contents(&left),
            self.layout(),
            rhs.contents_beside(&right, &left),
            rhs.layout(),
        );
        Self::join(made, self, rhs, DType::U8, Op::Leaf)
    }

    /// Element-wise equal: a U8 tensor of 0 and 1.
    pub fn eq(&self, rhs: &Self) -> (r: Result<Self>)
        ensures
            comparison_result(*self, *rhs, CmpOp::Eq, r),
    {
        self.compare(rhs, CmpOp::Eq)
    }

    /// Element-wise not-equal: a U8 tensor of 0 and 1.
    pub fn ne(&self, rhs: &Self) -> (r: Result<Self>)
        ensures
            comparison_result(*self, *rhs, CmpOp::Ne, r),
    {
        self.compare(rhs, CmpOp::Ne)
    }

    /// Element-wise greater-than: a U8 tensor of 0 and 1.
    pub fn gt(&self, rhs: &Self) -> (r: Result<Self>)
        ensures
            comparison_result(*self, *rhs, CmpOp::Gt, r),
    {
        self.compare(rhs, CmpOp::Gt)
    }

    /// Element-wise greater-or-equal: a U8 tensor of 0 and 1.
    pub fn ge(&self, rhs: &Self) -> (r: Result<Self>)
        ensures
            comparison_result(*self, *rhs, CmpOp::Ge, r),
    {
        self.compare(rhs, CmpOp::Ge)
    }

    /// Element-wise less-than: a U8 tensor of 0 and 1.
    pub fn lt(&self, rhs: &Self) -> (r: Result<Self>)
        ensures
            comparison_result(*self, *rhs, CmpOp::Lt, r),
    {
        self.compare(rhs, CmpOp::Lt)
    }

    /// Element-wise less-or-equal: a U8 tensor of 0 and 1.
    pub fn le(&self, rhs: &Self) -> (r: Result<Self>)
        ensures
            comparison_result(*self, *rhs, CmpOp::Le, r),
    {
        self.compare(rhs, CmpOp::Le)
    }

    /// Element-wise unary operation.
    fn unary_op(&self, op: UnaryOp) -> (r: Result<Self>)
        ensures
            unary_result(*self, op, r),
    {
        let guard = self.storage()?;
        let ghost call = |s: B::Storage, made: Result<B::Storage>|
            call_ensures(B::unary_op, (op, &s, &self@.layout), made);
        let s = self.contents(&guard);
        let made = B::unary_op(op, s, self.layout());
        assert(call(*s, made));
        self.keep_shape(made, Op::Unary { input: self.clone(), op })
    }

    /// Element-wise negation: -self.
    pub fn neg(&self) -> (r: Result<Self>)
        ensures
            unary_result(*self, UnaryOp::Neg, r),
    {
        self.unary_op(UnaryOp::Neg)
    }

    /// Element-wise absolute value.
    pub fn abs(&self) -> (r: Result<Self>)
        ensures
            unary_result(*self, UnaryOp::Abs, r),
    {
        self.unary_op(UnaryOp::Abs)
    }

    /// Element-wise exponential.
    pub fn exp(&self) -> (r: Result<Self>)
        ensures
            unary_result(*self, UnaryOp::Exp, r),
    {
        self.unary_op(UnaryOp::Exp)
    }

    /// Element-wise natural logarithm.
    pub fn log(&self) -> (r: Result<Self>)
        ensures
            unary_result(*self, UnaryOp::Log, r),
    {
        self.unary_op(UnaryOp::Log)
    }

    /// Element-wise square root.
    pub fn sqrt(&self) -> (r: Result<Self>)
        ensures
            unary_result(*self, UnaryOp::Sqrt, r),
    {
        self.unary_op(UnaryOp::Sqrt)
    }

    /// Element-wise square.
    pub fn square(&self) -> (r: Result<Self>)
        ensures
            unary_result(*self, UnaryOp::Square, r),
    {
        self.unary_op(UnaryOp::Square)
    }

    /// ReLU activation: max(0, x).
    pub fn relu(&self) -> (r: Result<Self>)
        ensures
            unary_result(*self, UnaryOp::Relu, r),
    {
        self.unary_op(UnaryOp::Relu)
    }

    /// Sigmoid activation: 1 / (1 + e^(-x)).
    pub fn sigmoid(&self) -> (r: Result<Self>)
        ensures
            unary_result(*self, UnaryOp::Sigmoid, r),
    {
        self.unary_op(UnaryOp::Sigmoid)
    }

    /// Tanh activation.
    pub fn tanh(&self) -> (r: Result<Self>)
        ensures
            unary_result(*self, UnaryOp::Tanh, r),
    {
        self.unary_op(UnaryOp::Tanh)
    }

    /// GELU activation (Gaussian Error Linear Unit).
    pub fn gelu(&self) -> (r: Result<Self>)
        ensures
            unary_result(*self, UnaryOp::Gelu, r),
    {
        self.unary_op(UnaryOp::Gelu)
    }

    /// SiLU / Swish activation: x * sigmoid(x).
    pub fn silu(&self) -> (r: Result<Self>)
        ensures
            unary_result(*self, UnaryOp::Silu, r),
    {
        self.unary_op(UnaryOp::Silu)
    }

    /// Element-wise sine.
    pub fn sin(&self) -> (r: Result<Self>)
        ensures
            unary_result(*self, UnaryOp::Sin, r),
    {
        self.unary_op(UnaryOp::Sin)
    }

    /// Element-wise cosine.
    pub fn cos(&self) -> (r: Result<Self>)
        ensures
            unary_result(*self, UnaryOp::Cos, r),
    {
        self.unary_op(UnaryOp::Cos)
    }

    /// Element-wise floor.
    pub fn floor(&self) -> (r: Result<Self>)
        ensures
            unary_result(*self, UnaryOp::Floor, r),
    {
        self.unary_op(UnaryOp::Floor)
    }

    /// Element-wise ceiling.
    pub fn ceil(&self) -> (r: Result<Self>)
        ensures
            unary_result(*self, UnaryOp::Ceil, r),
    {
        self.unary_op(UnaryOp::Ceil)
    }

    /// Element-wise round to nearest integer.
    pub fn round(&self) -> (r: Result<Self>)
        ensures
            unary_result(*self, UnaryOp::Round, r),
    {
        self.unary_op(UnaryOp::Round)
    }

    /// Element-wise power: self^exponent.
    pub fn powf(&self, exponent: B::Scalar) -> (r: Result<Self>)
        ensures
            applied(
                *self,
                |s: B::Storage, made: Result<B::Storage>|
                    call_ensures(B::powf, (&s, &self@.layout, exponent), made),
                Op::Powf { input: *self, exponent },
                r,
            ),
    {
        let guard = self.storage()?;
        let ghost call = |s: B::Storage, made: Result<B::Storage>|
            call_ensures(B::powf, (&s, &self@.layout, exponent), made);
        let s = self.contents(&guard);
        let made = B::powf(s, self.layout(), exponent);
        assert(call(*s, made));
        self.keep_shape(made, Op::Powf { input: self.clone(), exponent })
    }

    /// Element-wise clamp to [min, max].
    pub fn clamp(&self, min: B::Scalar, max: B::Scalar) -> (r: Result<Self>)
        ensures
            applied(
                *self,
                |s: B::Storage, made: Result<B::Storage>|
                    call_ensures(B::clamp, (&s, &self@.layout, min, max), made),
                Op::Clamp { input: *self, min, max },
                r,
            ),
    {
        let guard = self.storage()?;
        let ghost call = |s: B::Storage, made: Result<B::Storage>|
            call_ensures(B::clamp, (&s, &self@.layout, min, max), made);
        let s = self.contents(&guard);
        let made = B::clamp(s, self.layout(), min, max);
        assert(call(*s, made));
        self.keep_shape(made, Op::Clamp { input: self.clone(), min, max })
    }

    /// Affine transform: self * mul + add.
    pub fn affine(&self, mul: B::Scalar, add: B::Scalar) -> (r: Result<Self>)
        ensures
            applied(
                *self,
                |s: B::Storage, made: Result<B::Storage>|
                    call_ensures(B::affine, (&s, &self@.layout, mul, add), made),
                Op::Affine { input: *self, mul, add },
                r,
            ),
    {
        let guard = self.storage()?;
        let ghost call = |s: B::Storage, made: Result<B::Storage>|
            call_ensures(B::affine, (&s, &self@.layout, mul, add), made);
        let s = self.contents(&guard);
        let made = B::affine(s, self.layout(), mul, add);
        assert(call(*s, made));
        self.keep_shape(made, Op::Affine { input: self.clone(), mul, add })
    }

    /// Conditional select: on_true where the mask is not 0, on_false
    /// elsewhere.
    pub fn where_cond(mask: &Self, on_true: &Self, on_false: &Self) -> (r: Result<Self>)
        ensures
            ({
                ||| tensor::refused(*mask, r)
                ||| tensor::refused(*on_true, r)
                ||| tensor::refused(*on_false, r)
                ||| exists|m: B::Storage, s: B::Storage, t: B::Storage, made: Result<B::Storage>|
                    {
                        &&& mask@.storage.can_hold(m)
                        &&& on_true@.storage.can_hold(s)
                        &&& on_false@.storage.can_hold(t)
                        &&& #[trigger] call_ensures(
                            B::where_cond,
                            (
                                &m,
                                &mask@.layout,
                                &s,
                                &on_true@.layout,
                                &t,
                                &on_false@.layout,
                            ),
                            made,
                        )
                        &&& stored_result(
                            made,
                            on_true@.dims(),
                            on_true@.dtype,
                            on_true@.device,
                            Op::WhereCond { mask: *mask, on_true: *on_true, on_false: *on_false },
                            r,
                        )
                    }
            }),
    {
        let m = mask.storage()?;
        let s = on_true.storage_beside(mask)?;
        let (t, held) = if on_false.shares_storage(on_true) {
            (
                None,
                match &s {
                    Some(guard) => guard,
                    None => &m,
                },
            )
        } else {
            (on_false.storage_beside(mask)?, &m)
        };
        let made = B::where_cond(
            mask.contents(&m),
            mask.layout(),
            on_true.contents_beside(&s, &m),
            on_true.layout(),
            on_false.contents_beside(&t, held),
            on_false.layout(),
        );
        on_true.keep_shape(
            made,
            Op::WhereCond {
                mask: mask.clone(),
                on_true: on_true.clone(),
                on_false: on_false.clone(),
            },
        )
    }

    /// Fill elements where the mask is not 0 with `value`, keeping the
    /// others.
    pub fn masked_fill(&self, mask: &Self, value: B::Scalar) -> (r: Result<Self>)
        ensures
            exists|fill: Result<Self>| #[trigger]
                call_ensures(Self::full_like, (self, value), fill) && match fill {
                    Err(e) => r == Err::<Self, _>(e),
                    Ok(f) => call_ensures(Self::where_cond, (mask, &f, self), r),
                },
    {
        let fill = Self::full_like(self, value)?;
        Self::where_cond(mask, &fill, self)
    }

    /// Gather elements along `dim` using an index tensor of the same rank.
    /// The result has the shape of the index tensor.
    pub fn gather(&self, dim: usize, index: &Self) -> (r: Result<Self>)
        ensures
            ({
                ||| tensor::refused(*self, r)
                ||| tensor::refused(*index, r)
                ||| exists|s: B::Storage, t: B::Storage, made: Result<B::Storage>|
                    {
                        &&& self@.storage.can_hold(s)
                        &&& index@.storage.can_hold(t)
                        &&& #[trigger] call_ensures(
                            B::gather,
                            (&s, &self@.layout, &t, &index@.layout, dim),
                            made,
                        )
                        &&& stored_result(
                            made,
                            index@.dims(),
                            self@.dtype,
                            self@.device,
                            Op::Gather { input: *self, index: *index, dim },
                            r,
                        )
                    }
            }),
    {
        let s = self.storage()?;
        let t = index.storage_beside(self)?;
        let made = B::gather(
            self.contents(&s),
            self.layout(),
            index.contents_beside(&t, &s),
            index.layout(),
            dim,
        );
        Self::store(
            made,
            index.shape().clone(),
            self.dtype(),
            self.device(),
            Op::Gather { input: self.clone(), index: index.clone(), dim },
        )
    }

    /// Select entries along `dim` using a 1-D index tensor. `dim` is resized
    /// to the number of indices.
    pub fn index_select(&self, dim: usize, indices: &Self) -> (r: Result<Self>)
        ensures
            if dim >= self@.dims().len() {
                r == Err::<Self, _>(
                    Error::DimOutOfRange { dim, rank: self@.dims().len() as usize },
                )
            } else {
                ||| tensor::refused(*self, r)
                ||| tensor::refused(*indices, r)
                ||| exists|s: B::Storage, t: B::Storage, made: Result<B::Storage>|
                    {
                        &&& self@.storage.can_hold(s)
                        &&& indices@.storage.can_hold(t)
                        &&& #[trigger] call_ensures(
                            B::index_select,
                            (&s, &self@.layout, &t, &indices@.layout, dim),
                            made,
                        )
                        &&& stored_result(
                            made,
                            self@.dims().update(
                                dim as int,
                                nd::product(indices@.dims()) as usize,
                            ),
                            self@.dtype,
                            self@.device,
                            Op::IndexSelect { input: *self, indices: *indices, dim },
                            r,
                        )
                    }
            },
    {
        let rank: usize = self.rank();
        if dim >= rank {
            return Err(Error::DimOutOfRange { dim, rank });
        }
        let s = self.storage()?;
        let t = indices.storage_beside(self)?;
        let made = B::index_select(
            self.contents(&s),
            self.layout(),
            indices.contents_beside(&t, &s),
            indices.layout(),
            dim,
        );
        let mut dims = copy_sizes(self.dims());
        dims[dim] = indices.elem_count();
        Self::store(
            made,
            Shape::new(dims),
            self.dtype(),
            self.device(),
            Op::IndexSelect { input: self.clone(), indices: indices.clone(), dim },
        )
    }

    /// Reduction along dimensions, or over all elements if there are none.
    fn reduce_op(&self, op: ReduceOp, dims: &[usize], keep_dim: bool) -> (r: Result<Self>)
        ensures
            reduction_result(*self, op, dims@, keep_dim, r),
    {
        let rank: usize = self.rank();
        let n: usize = dims.len();
        let mut i: usize = 0;
        while i < n
            invariant
                n == dims@.len(),
                i <= n,
                rank == self@.dims().len(),
                forall|j: int| 0 <= j < i ==> #[trigger] dims@[j] < rank,
            decreases n - i,
        {
            let d: usize = dims[i];
            if d >= rank {
                assert(first_missing(dims@, self@.dims().len(), i as int));
                return Err(Error::DimOutOfRange { dim: d, rank });
            }
            i += 1;
        }
        let guard = self.storage()?;
        let made = B::reduce_op(op, self.contents(&guard), self.layout(), dims, keep_dim);
        let s = made?;
        let sizes = reduced_sizes(self.dims(), dims, keep_dim);
        let layout = contiguous_layout(Shape::new(sizes))?;
        let dtype = match op {
            ReduceOp::ArgMax => DType::I64,
            ReduceOp::ArgMin => DType::I64,
            _ => self.dtype(),
        };
        let record = Op::Reduce { input: self.clone(), op, dims: copy_sizes(dims), keep_dim };
        Ok(Self::from_storage(s, layout, dtype, self.device().clone(), record))
    }

    /// Sum all elements, returning a scalar tensor.
    pub fn sum_all(&self) -> (r: Result<Self>)
        ensures
            reduction_result(*self, ReduceOp::Sum, seq![], false, r),
    {
        let none: Vec<usize> = Vec::new();
        self.reduce_op(ReduceOp::Sum, none.as_slice(), false)
    }

    /// Sum along a specific dimension.
    pub fn sum(&self, dim: usize, keep_dim: bool) -> (r: Result<Self>)
        ensures
            reduction_result(*self, ReduceOp::Sum, seq![dim], keep_dim, r),
    {
        let one: [usize; 1] = [dim];
        assert(one@ =~= seq![dim]);
        self.reduce_op(ReduceOp::Sum, one.as_slice(), keep_dim)
    }

    /// Mean of all elements, returning a scalar tensor.
    pub fn mean_all(&self) -> (r: Result<Self>)
        ensures
            reduction_result(*self, ReduceOp::Mean, seq![], false, r),
    {
        let none: Vec<usize> = Vec::new();
        self.reduce_op(ReduceOp::Mean, none.as_slice(), false)
    }

    /// Mean along a specific dimension.
    pub fn mean(&self, dim: usize, keep_dim: bool) -> (r: Result<Self>)
        ensures
            reduction_result(*self, ReduceOp::Mean, seq![dim], keep_dim, r),
    {
        let one: [usize; 1] = [dim];
        assert(one@ =~= seq![dim]);
        self.reduce_op(ReduceOp::Mean, one.as_slice(), keep_dim)
    }

    /// Max along a specific dimension.
    pub fn max(&self, dim: usize, keep_dim: bool) -> (r: Result<Self>)
        ensures
            reduction_result(*self, ReduceOp::Max, seq![dim], keep_dim, r),
    {
        let one: [usize; 1] = [dim];
        assert(one@ =~= seq![dim]);
        self.reduce_op(ReduceOp::Max, one.as_slice(), keep_dim)
    }

    /// Min along a specific dimension.
    pub fn min(&self, dim: usize, keep_dim: bool) -> (r: Result<Self>)
        ensures
            reduction_result(*self, ReduceOp::Min, seq![dim], keep_dim, r),
    {
        let one: [usize; 1] = [dim];
        assert(one@ =~= seq![dim]);
        self.reduce_op(ReduceOp::Min, one.as_slice(), keep_dim)
    }

    /// ArgMax along a specific dimension (I64 indices).
    pub fn argmax(&self, dim: usize, keep_dim: bool) -> (r: Result<Self>)
        ensures
            reduction_result(*self, ReduceOp::ArgMax, seq![dim], keep_dim, r),
    {
        let one: [usize; 1] = [dim];
        assert(one@ =~= seq![dim]);
        self.reduce_op(ReduceOp::ArgMax, one.as_slice(), keep_dim)
    }

    /// ArgMin along a specific dimension (I64 indices).
    pub fn argmin(&self, dim: usize, keep_dim: bool) -> (r: Result<Self>)
        ensures
            reduction_result(*self, ReduceOp::ArgMin, seq![dim], keep_dim, r),
    {
        let one: [usize; 1] = [dim];
        assert(one@ =~= seq![dim]);
        self.reduce_op(ReduceOp::ArgMin, one.as_slice(), keep_dim)
    }

    /// Matrix multiplication: [m, k] times [k, n], batched over leading
    /// dimensions.
    pub fn matmul(&self, rhs: &Self) -> (r: Result<Self>)
        ensures
            matmul_result(*self, *rhs, r),
    {
        if self.dtype() != rhs.dtype() {
            return Err(Error::DTypeMismatch { expected: self.dtype(), got: rhs.dtype() });
        }
        let da = self.dims();
        let db = rhs.dims();
        let la: usize = da.len();
        let lb: usize = db.len();
        if la < 2 || lb < 2 {
            let got: usize = if la <= lb {
                la
            } else {
                lb
            };
            return Err(Error::RankMismatch { expected: 2, got });
        }
        let k1: usize = da[la - 1];
        let k2: usize = db[lb - 2];
        if k1 != k2 {
            return Err(Error::MatmulShapeMismatch { m: da[la - 2], k1, k2, n: db[lb - 1] });
        }
        let left = self.storage()?;
        let right = rhs.storage_beside(self)?;
        let made = B::matmul(
            self.contents(&left),
            self.layout(),
            rhs.contents_beside(&right, &left),
            rhs.layout(),
        );
        let mut dims = copy_sizes(da);
        dims[la - 1] = db[lb - 1];
        assert(dims@ =~= matmul_dims(da@, db@));
        Self::store(
            made,
            Shape::new(dims),
            self.dtype(),
            self.device(),
            Op::Matmul { lhs: self.clone(), rhs: rhs.clone() },
        )
    }

    /// The exponentials of a tensor with the maximum along a dimension
    /// subtracted, and their sums.
    fn shifted_powers(&self, dim: usize) -> (r: Result<Powers<B>>)
        ensures
            powers_result(*self, dim, r),
    {
        let max = self.max(dim, true)?;
        let top = max.detach();
        let shifted = self.sub(&top)?;
        let powers = shifted.exp()?;
        let total = powers.sum(dim, true)?;
        Ok(Powers { top, shifted, powers, total })
    }

    /// Softmax along a dimension: exp(x_i) / sum(exp(x_j)), with the maximum
    /// subtracted first for stability. The maximum counts as a constant.
    pub fn softmax(&self, dim: usize) -> (r: Result<Self>)
        ensures
            exists|p: Result<Powers<B>>| #[trigger]
                powers_result(*self, dim, p) && match p {
                    Err(e) => r == Err::<Self, _>(e),
                    Ok(p) => binary_result(p.powers, p.total, BinaryOp::Div, r),
                },
    {
        let p = self.shifted_powers(dim)?;
        p.powers.div(&p.total)
    }

    /// Log-softmax along a dimension: x_i - max(x) - log(sum(exp(x - max(x)))).
    pub fn log_softmax(&self, dim: usize) -> (r: Result<Self>)
        ensures
            exists|p: Result<Powers<B>>| #[trigger]
                powers_result(*self, dim, p) && match p {
                    Err(e) => r == Err::<Self, _>(e),
                    Ok(p) => exists|logged: Result<Self>| #[trigger]
                        unary_result(p.total, UnaryOp::Log, logged) && match logged {
                            Err(e) => r == Err::<Self, _>(e),
                            Ok(logged) => binary_result(p.shifted, logged, BinaryOp::Sub, r),
                        },
                },
    {
        let p = self.shifted_powers(dim)?;
        let logged = p.total.log()?;
        p.shifted.sub(&logged)
    }

    /// Variance along a dimension: mean((x - mean(x))^2).
    pub fn var(&self, dim: usize, keep_dim: bool) -> (r: Result<Self>)
        ensures
            exists|center: Result<Self>| #[trigger]
                call_ensures(Self::mean, (self, dim, true), center) && match center {
                    Err(e) => r == Err::<Self, _>(e),
                    Ok(center) => exists|shifted: Result<Self>| #[trigger]
                        call_ensures(Self::sub, (self, &center), shifted) && match shifted {
                            Err(e) => r == Err::<Self, _>(e),
                            Ok(shifted) => exists|squares: Result<Self>| #[trigger]
                                call_ensures(Self::square, (&shifted,), squares) && match squares {
                                    Err(e) => r == Err::<Self, _>(e),
                                    Ok(squares) => call_ensures(Self::mean, (&squares, dim, keep_dim), r),
                                },
                        },
                },
    {
        let center = self.mean(dim, true)?;
        let shifted = self.sub(&center)?;
        let squares = shifted.square()?;
        squares.mean(dim, keep_dim)
    }

    /// Standard deviation along a dimension: sqrt(var(x, dim)).
    pub fn std_dev(&self, dim: usize, keep_dim: bool) -> (r: Result<Self>)
        ensures
            exists|variance: Result<Self>| #[trigger]
                call_ensures(Self::var, (self, dim, keep_dim), variance) && match variance {
                    Err(e) => r == Err::<Self, _>(e),
                    Ok(variance) => call_ensures(Self::sqrt, (&variance,), r),
                },
    {
        let variance = self.var(dim, keep_dim)?;
        variance.sqrt()
    }

    /// Element-wise reciprocal: 1 / x.
    pub fn reciprocal(&self) -> (r: Result<Self>)
        ensures
            exists|one: Result<Self>| #[trigger]
                call_ensures(Self::ones_like, (self,), one) && match one {
                    Err(e) => r == Err::<Self, _>(e),
                    Ok(one) => call_ensures(Self::div, (&one, self), r),
                },
    {
        let one = Self::ones_like(self)?;
        one.div(self)
    }

    /// Element-wise reciprocal square root: 1 / sqrt(x).
    pub fn rsqrt(&self) -> (r: Result<Self>)
        ensures
            exists|root: Result<Self>| #[trigger]
                call_ensures(Self::sqrt, (self,), root) && match root {
                    Err(e) => r == Err::<Self, _>(e),
                    Ok(root) => call_ensures(Self::reciprocal, (&root,), r),
                },
    {
        let root = self.sqrt()?;
        root.reciprocal()
    }

    /// Product along a dimension: exp(sum(log(|x|))) with the sign that the
    /// number of negative elements gives.
    pub fn prod(&self, dim: usize, keep_dim: bool) -> (r: Result<Self>)
        ensures
            exists|size: Result<Self>| #[trigger]
                magnitude_result(*self, dim, keep_dim, size) && match size {
                    Err(e) => r == Err::<Self, _>(e),
                    Ok(size) => exists|sign: Result<Self>| #[trigger]
                        product_sign(*self, dim, keep_dim, sign) && match sign {
                            Err(e) => r == Err::<Self, _>(e),
                            Ok(sign) => binary_result(size, sign, BinaryOp::Mul, r),
                        },
                },
    {
        let size = self.magnitude(dim, keep_dim)?;
        let sign = self.sign_of_product(dim, keep_dim)?;
        size.mul(&sign)
    }

    /// The product of the magnitudes along a dimension.
    fn magnitude(&self, dim: usize, keep_dim: bool) -> (r: Result<Self>)
        ensures
            magnitude_result(*self, dim, keep_dim, r),
    {
        let size = self.abs()?;
        let logged = size.log()?;
        let total = logged.sum(dim, keep_dim)?;
        total.exp()
    }

    /// 1 where an element is negative, else 0.
    fn negatives(&self) -> (r: Result<Self>)
        ensures
            negative_mask(*self, r),
    {
        let zeros = Self::zeros_like(self)?;
        let negative = self.lt(&zeros)?;
        let mask = negative.to_dtype(self.dtype())?;
        Ok(mask.detach())
    }

    /// The remainder of a count by 2.
    fn parity(&self) -> (r: Result<Self>)
        ensures
            parity_result(*self, r),
    {
        let zero: B::Scalar = <B::Scalar as Scalar>::zero();
        let one: B::Scalar = <B::Scalar as Scalar>::one();
        let two: B::Scalar = scalar::two();
        let half = self.affine(one.div(two), zero)?;
        let pairs = half.floor()?;
        let even = pairs.affine(two, zero)?;
        self.sub(&even)
    }

    /// The sign of the product along a dimension: 1 if an even number of
    /// elements is negative, else -1.
    fn sign_of_product(&self, dim: usize, keep_dim: bool) -> (r: Result<Self>)
        ensures
            product_sign(*self, dim, keep_dim, r),
    {
        let zero: B::Scalar = <B::Scalar as Scalar>::zero();
        let one: B::Scalar = <B::Scalar as Scalar>::one();
        let two: B::Scalar = scalar::two();
        let mask = self.negatives()?;
        let count = mask.sum(dim, keep_dim)?;
        let odd = count.parity()?;
        let sign = odd.affine(zero.sub(two), one)?;
        Ok(sign.detach())
    }

    /// Element-wise sign: -1, 0 or +1. It is computed on the host; as it does
    /// not change with small changes of the elements, no gradient flows through
    /// it.
    pub fn sign(&self) -> (r: Result<Self>)
        ensures
            rules::signs_result(*self, r),
    {
        let values = self.to_f64_vec()?;
        let found = signs(values.as_slice());
        upload_like(found.as_slice(), self)
    }

    /// Log-sum-exp along a dimension: max(x) + log(sum(exp(x - max(x)))). The
    /// maximum counts as a constant.
    pub fn logsumexp(&self, dim: usize, keep_dim: bool) -> (r: Result<Self>)
        ensures
            exists|p: Result<Powers<B>>| #[trigger]
                powers_result(*self, dim, p) && match p {
                    Err(e) => r == Err::<Self, _>(e),
                    Ok(p) => exists|logged: Result<Self>| #[trigger]
                        unary_result(p.total, UnaryOp::Log, logged) && match logged {
                            Err(e) => r == Err::<Self, _>(e),
                            Ok(logged) => exists|result: Result<Self>| #[trigger]
                                binary_result(p.top, logged, BinaryOp::Add, result)
                                    && match result {
                                    Err(e) => r == Err::<Self, _>(e),
                                    Ok(result) => if keep_dim {
                                        r == Ok::<Self, Error>(result)
                                    } else {
                                        call_ensures(Self::squeeze, (&result, dim), r)
                                    },
                                },
                        },
                },
    {
        let p = self.shifted_powers(dim)?;
        let logged = p.total.log()?;
        let result = p.top.add(&logged)?;
        if keep_dim {
            Ok(result)
        } else {
            result.squeeze(dim)
        }
    }
}

} // verus!
