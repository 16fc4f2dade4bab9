//! Conversions of the number type, and products along a dimension.
use crate::backend::{Backend, BinaryOp, CmpOp, ReduceOp, UnaryOp};
use crate::contributions;
use crate::dtype::DType;
use crate::elements;
use crate::elementwise;
use crate::error::{Error, Result};
use crate::flows;
use crate::host;
use crate::layout::Layout;
use crate::model;
use crate::nd;
use crate::op::Op;
use crate::reductions;
use crate::scalar::Scalar;
use crate::shape;
use crate::slopes;
use crate::tensor::Tensor;
use vstd::prelude::*;

verus! {

/// The backend converts each number to a type as `f` does.
pub open spec fn casts<B: Backend>(
    at: spec_fn(B::Storage, nat) -> B::Scalar,
    f: spec_fn(DType, B::Scalar) -> B::Scalar,
) -> bool {
    forall|s: B::Storage, l: Layout, dtype: DType, device: B::Device, made: B::Storage| #[trigger]
        call_ensures(
            B::cast,
            (&s, &l, dtype, &device),
            Ok::<B::Storage, Error>(made),
        ) ==> model::holds_mapped::<B>(at, s, l@, |x: B::Scalar| f(dtype, x), made)
}

/// A conversion to the type that the tensor has gives the tensor itself; another
/// one has the asked type and the converted elements, in the same places.
pub proof fn law_to_dtype_elements<B: Backend>(
    at: spec_fn(B::Storage, nat) -> B::Scalar,
    f: spec_fn(DType, B::Scalar) -> B::Scalar,
    x: Tensor<B>,
    dtype: DType,
    t: Tensor<B>,
    i: Seq<usize>,
    v: B::Scalar,
)
    requires
        model::stores::<B>(at),
        casts::<B>(at, f),
        call_ensures(Tensor::to_dtype, (&x, dtype), Ok::<Tensor<B>, Error>(t)),
        nd::in_bounds(i, x@.dims()),
        elements::element_is(at, x, i, v),
    ensures
        t@.dtype == dtype,
        t@.dims() == x@.dims(),
        x@.dtype == dtype ==> t == x,
        x@.dtype != dtype ==> elements::element_is(at, t, i, f(dtype, v))
            && contributions::used(t@.op) == seq![x],
{
    if x@.dtype != dtype {
        let op = Op::ToDtype { input: x, src_dtype: x@.dtype };
        let (s, made) = choose|s: B::Storage, made: Result<B::Storage>|
            x@.storage.can_hold(s) && #[trigger] call_ensures(
                B::cast,
                (&s, &x@.layout, dtype, &x@.device),
                made,
            ) && elementwise::stored_result(made, x@.dims(), dtype, x@.device, op, Ok(t));
        model::lemma_around_storage(at, t, made->Ok_0, i);
        assert(contributions::used(t@.op) =~= seq![x]);
    }
}

/// The gradient of a conversion is converted back: it has the type of the input,
/// and the elements of the gradient of the output in that type.
pub proof fn law_to_dtype_gradient<B: Backend>(
    at: spec_fn(B::Storage, nat) -> B::Scalar,
    f: spec_fn(DType, B::Scalar) -> B::Scalar,
    x: Tensor<B>,
    dtype: DType,
    t: Tensor<B>,
    grad: Tensor<B>,
    g: Tensor<B>,
    i: Seq<usize>,
    d: B::Scalar,
)
    requires
        model::stores::<B>(at),
        casts::<B>(at, f),
        x@.dtype != dtype,
        call_ensures(Tensor::to_dtype, (&x, dtype), Ok::<Tensor<B>, Error>(t)),
        grad@.dims() == t@.dims(),
        grad@.dtype == dtype,
        contributions::contribution(t@.op, grad, 0, g),
        nd::in_bounds(i, x@.dims()),
        elements::element_is(at, grad, i, d),
    ensures
        contributions::used(t@.op) == seq![x],
        g@.dtype == x@.dtype,
        g@.dims() == x@.dims(),
        elements::element_is(at, g, i, f(x@.dtype, d)),
{
    assert(t@.op == Op::ToDtype { input: x, src_dtype: x@.dtype });
    assert(contributions::used(t@.op) =~= seq![x]);
    law_to_dtype_elements(at, f, grad, x@.dtype, g, i, d);
}

/// A detached tensor has the elements of the tensor and passes no gradient on.
pub proof fn law_detach_elements<B: Backend>(
    at: spec_fn(B::Storage, nat) -> B::Scalar,
    x: Tensor<B>,
    t: Tensor<B>,
    i: Seq<usize>,
    v: B::Scalar,
)
    requires
        call_ensures(Tensor::detach, (&x,), t),
        elements::element_is(at, x, i, v),
    ensures
        t@.dims() == x@.dims(),
        t@.dtype == x@.dtype,
        elements::element_is(at, t, i, v),
        contributions::used(t@.op) == Seq::<Tensor<B>>::empty(),
{
    assert(contributions::used(t@.op) =~= seq![]);
}

/// The number that a tensor of one element is read as is that element, whatever
/// its rank.
pub proof fn law_to_scalar_reads<B: Backend>(
    at: spec_fn(B::Storage, nat) -> B::Scalar,
    x: Tensor<B>,
    v: B::Scalar,
    i: Seq<usize>,
    e: B::Scalar,
)
    requires
        model::stores::<B>(at),
        call_ensures(Tensor::to_scalar_f64, (&x,), Ok::<B::Scalar, Error>(v)),
        nd::in_bounds(i, x@.dims()),
        elements::element_is(at, x, i, e),
    ensures
        forall|c: int| 0 <= c < i.len() ==> #[trigger] x@.dims()[c] == 1,
        v == e,
{
    let list = choose|l: Vec<B::Scalar>| #[trigger]
        host::values_result(x, Ok(l)) && l@.len() == 1 && v == l@[0];
    model::lemma_values(at, x, list, i, e);
    lemma_all_ones(x@.dims(), i);
}

/// A shape with one element has size 1 everywhere.
proof fn lemma_all_ones(dims: Seq<usize>, i: Seq<usize>)
    requires
        nd::in_bounds(i, dims),
        nd::product(dims) == 1,
    ensures
        forall|c: int| 0 <= c < dims.len() ==> #[trigger] dims[c] == 1,
    decreases dims.len(),
{
    if dims.len() > 0 {
        let d1 = dims.skip(1);
        let i1 = i.skip(1);
        assert(i[0] < dims[0]);
        let a = dims[0] as int;
        let p = nd::product(d1) as int;
        assert(a == 1 && p == 1) by (nonlinear_arith)
            requires
                a * p == 1,
                a > 0,
                p >= 0,
        ;
        assert forall|k: int| 0 <= k < d1.len() implies #[trigger] i1[k] < d1[k] by {
            assert(i[k + 1] < dims[k + 1]);
        }
        lemma_all_ones(d1, i1);
        assert forall|c: int| 0 <= c < dims.len() implies #[trigger] dims[c] == 1 by {
            if c > 0 {
                assert(d1[c - 1] == 1);
            }
        }
    }
}

/// The sign that a number of negative factors gives: 1 for an even number, -1 for
/// an odd one, which is what is left of it by twice its half rounded down.
pub open spec fn sign_of_count<S: Scalar>(f: spec_fn(UnaryOp, S) -> S, n: S) -> S {
    let two = S::one_val().plus(S::one_val());
    let zero = S::zero_val();
    let half = f(UnaryOp::Floor, n.times(S::one_val().over(two)).plus(zero));
    let odd = n.minus(half.times(two).plus(zero));
    odd.times(zero.minus(two)).plus(S::one_val())
}

/// A number below zero.
pub open spec fn is_negative<S: Scalar>(v: S) -> bool {
    v.below(S::zero_val())
}

/// Which elements are negative: 1 for those, 0 for the others.
proof fn lemma_negative<B: Backend>(
    at: spec_fn(B::Storage, nat) -> B::Scalar,
    x: Tensor<B>,
    zeros: Tensor<B>,
    negative: Tensor<B>,
    i: Seq<usize>,
    v: B::Scalar,
    zero: B::Scalar,
)
    requires
        model::stores::<B>(at),
        slopes::compares::<B>(at),
        elementwise::comparison_result(x, zeros, CmpOp::Lt, Ok(negative)),
        zeros@.dims() == x@.dims(),
        nd::in_bounds(i, x@.dims()),
        elements::element_is(at, x, i, v),
        elements::element_is(at, zeros, i, zero),
    ensures
        negative@.dims() == x@.dims(),
        elements::element_is(at, negative, i, slopes::flag(v.below(zero))),
{
    let d = x@.dims();
    shape::law_broadcast_with_itself(d);
    assert(shape::repeated_index(i, d, d) =~= i);
    slopes::lemma_compared(at, CmpOp::Lt, x, zeros, negative, i, v, zero);
}

/// The mask of the negative elements.
proof fn lemma_mask<B: Backend>(
    at: spec_fn(B::Storage, nat) -> B::Scalar,
    cast: spec_fn(DType, B::Scalar) -> B::Scalar,
    x: Tensor<B>,
    mask: Tensor<B>,
    xs: spec_fn(Seq<usize>) -> B::Scalar,
    i: Seq<usize>,
    zero: B::Scalar,
)
    requires
        model::stores::<B>(at),
        casts::<B>(at, cast),
        slopes::compares::<B>(at),
        elementwise::negative_mask(x, Ok(mask)),
        model::has(at, x, xs),
        nd::in_bounds(i, x@.dims()),
        forall|zeros: Tensor<B>|
            #[trigger] call_ensures(Tensor::zeros_like, (&x,), Ok::<Tensor<B>, Error>(zeros))
                ==> zeros@.dims() == x@.dims() && elements::element_is(at, zeros, i, zero),
    ensures
        mask@.dims() == x@.dims(),
        mask@.dtype == x@.dtype,
        x@.dtype != DType::U8 ==> elements::element_is(
            at,
            mask,
            i,
            cast(x@.dtype, slopes::flag(xs(i).below(zero))),
        ),
{
    let zeros = choose|zeros: Tensor<B>|
        #[trigger] call_ensures(Tensor::zeros_like, (&x,), Ok::<Tensor<B>, Error>(zeros))
            && exists|negative: Tensor<B>, cut: Tensor<B>|
            {
                &&& #[trigger] elementwise::comparison_result(x, zeros, CmpOp::Lt, Ok(negative))
                &&& #[trigger] call_ensures(
                    Tensor::to_dtype,
                    (&negative, x@.dtype),
                    Ok::<Tensor<B>, Error>(cut),
                )
                &&& call_ensures(Tensor::detach, (&cut,), mask)
            };
    let (negative, cut) = choose|negative: Tensor<B>, cut: Tensor<B>|
        {
            &&& #[trigger] elementwise::comparison_result(x, zeros, CmpOp::Lt, Ok(negative))
            &&& #[trigger] call_ensures(
                Tensor::to_dtype,
                (&negative, x@.dtype),
                Ok::<Tensor<B>, Error>(cut),
            )
            &&& call_ensures(Tensor::detach, (&cut,), mask)
        };
    assert(elements::element_is(at, x, i, xs(i)));
    lemma_negative(at, x, zeros, negative, i, xs(i), zero);
    law_to_dtype_elements(
        at,
        cast,
        negative,
        x@.dtype,
        cut,
        i,
        slopes::flag(xs(i).below(zero)),
    );
}

/// The product along a dimension: the exponential of the sum of the logarithms of
/// the magnitudes, with the sign that the number of negative elements gives.
pub proof fn law_prod_elements<B: Backend>(
    at: spec_fn(B::Storage, nat) -> B::Scalar,
    f: spec_fn(UnaryOp, B::Scalar) -> B::Scalar,
    fold: spec_fn(ReduceOp, Seq<B::Scalar>) -> B::Scalar,
    cast: spec_fn(DType, B::Scalar) -> B::Scalar,
    x: Tensor<B>,
    dim: usize,
    keep_dim: bool,
    t: Tensor<B>,
    xs: spec_fn(Seq<usize>) -> B::Scalar,
    i: Seq<usize>,
)
    requires
        model::stores::<B>(at),
        model::combines::<B>(at),
        model::maps::<B>(at, f),
        model::scales::<B>(at),
        reductions::reduces::<B>(at, fold),
        casts::<B>(at, cast),
        slopes::compares::<B>(at),
        call_ensures(Tensor::prod, (&x, dim, keep_dim), Ok::<Tensor<B>, Error>(t)),
        x@.dtype != DType::U8,
        x@.dims().len() <= usize::MAX,
        nd::product(x@.dims()) <= usize::MAX,
        model::has(at, x, xs),
        nd::in_bounds(i, x@.dims()),
    ensures
        dim < x@.dims().len(),
        t@.dims() == flows::reduced_sizes(x@.dims(), dim as int, keep_dim),
        ({
            let size = x@.dims()[dim as int];
            let logs = |j: Seq<usize>| f(UnaryOp::Log, f(UnaryOp::Abs, xs(j)));
            let marks = |j: Seq<usize>| cast(x@.dtype, slopes::flag(is_negative(xs(j))));
            let magnitude = f(
                UnaryOp::Exp,
                fold(ReduceOp::Sum, reductions::lane(logs, i, dim as int, size)),
            );
            let negatives = fold(ReduceOp::Sum, reductions::lane(marks, i, dim as int, size));
            elements::element_is(
                at,
                t,
                flows::reduced_index(i, dim as int, keep_dim),
                magnitude.times(sign_of_count(f, negatives)),
            )
        }),
{
    let d = x@.dims();
    let (size, sign) = choose|size: Tensor<B>, sign: Tensor<B>|
        {
            &&& #[trigger] elementwise::magnitude_result(x, dim, keep_dim, Ok(size))
            &&& #[trigger] elementwise::product_sign(x, dim, keep_dim, Ok(sign))
            &&& elementwise::binary_result(size, sign, BinaryOp::Mul, Ok(t))
        };
    let r = flows::reduced_index(i, dim as int, keep_dim);
    lemma_magnitude(at, f, fold, x, dim, keep_dim, size, xs, i);
    lemma_sign(at, f, fold, cast, x, dim, keep_dim, sign, xs, i);
    flows::lemma_reduced_one(d, dim, keep_dim, i);
    let logs = |j: Seq<usize>| f(UnaryOp::Log, f(UnaryOp::Abs, xs(j)));
    let marks = |j: Seq<usize>| cast(x@.dtype, slopes::flag(is_negative(xs(j))));
    let a = f(
        UnaryOp::Exp,
        fold(ReduceOp::Sum, reductions::lane(logs, i, dim as int, d[dim as int])),
    );
    let b = sign_of_count(
        f,
        fold(ReduceOp::Sum, reductions::lane(marks, i, dim as int, d[dim as int])),
    );
    model::lemma_binary_same(at, size, sign, BinaryOp::Mul, t, r, a, b);
}

/// The magnitude of a product.
proof fn lemma_magnitude<B: Backend>(
    at: spec_fn(B::Storage, nat) -> B::Scalar,
    f: spec_fn(UnaryOp, B::Scalar) -> B::Scalar,
    fold: spec_fn(ReduceOp, Seq<B::Scalar>) -> B::Scalar,
    x: Tensor<B>,
    dim: usize,
    keep_dim: bool,
    t: Tensor<B>,
    xs: spec_fn(Seq<usize>) -> B::Scalar,
    i: Seq<usize>,
)
    requires
        model::stores::<B>(at),
        model::maps::<B>(at, f),
        reductions::reduces::<B>(at, fold),
        elementwise::magnitude_result(x, dim, keep_dim, Ok(t)),
        x@.dims().len() <= usize::MAX,
        nd::product(x@.dims()) <= usize::MAX,
        model::has(at, x, xs),
        nd::in_bounds(i, x@.dims()),
    ensures
        dim < x@.dims().len(),
        t@.dims() == flows::reduced_sizes(x@.dims(), dim as int, keep_dim),
        ({
            let logs = |j: Seq<usize>| f(UnaryOp::Log, f(UnaryOp::Abs, xs(j)));
            elements::element_is(
                at,
                t,
                flows::reduced_index(i, dim as int, keep_dim),
                f(
                    UnaryOp::Exp,
                    fold(
                        ReduceOp::Sum,
                        reductions::lane(logs, i, dim as int, x@.dims()[dim as int]),
                    ),
                ),
            )
        }),
{
    let (size, logged) = choose|size: Tensor<B>, logged: Tensor<B>|
        {
            &&& #[trigger] elementwise::unary_result(x, UnaryOp::Abs, Ok(size))
            &&& #[trigger] elementwise::unary_result(size, UnaryOp::Log, Ok(logged))
            &&& exists|total: Tensor<B>|
                {
                    &&& #[trigger] elementwise::reduction_result(
                        logged,
                        ReduceOp::Sum,
                        seq![dim],
                        keep_dim,
                        Ok(total),
                    )
                    &&& elementwise::unary_result(total, UnaryOp::Exp, Ok(t))
                }
        };
    let total = choose|total: Tensor<B>|
        {
            &&& #[trigger] elementwise::reduction_result(
                logged,
                ReduceOp::Sum,
                seq![dim],
                keep_dim,
                Ok(total),
            )
            &&& elementwise::unary_result(total, UnaryOp::Exp, Ok(t))
        };
    let logs = |j: Seq<usize>| f(UnaryOp::Log, f(UnaryOp::Abs, xs(j)));
    assert forall|j: Seq<usize>| #[trigger] nd::in_bounds(j, x@.dims()) implies logged@.dims()
        == x@.dims() && elements::element_is(at, logged, j, logs(j)) by {
        assert(elements::element_is(at, x, j, xs(j)));
        model::lemma_unary(at, f, x, UnaryOp::Abs, size, j, xs(j));
        model::lemma_unary(at, f, size, UnaryOp::Log, logged, j, f(UnaryOp::Abs, xs(j)));
    }
    assert(nd::in_bounds(i, x@.dims()) && logged@.dims() == x@.dims());
    reductions::lemma_reduced(
        at,
        fold,
        ReduceOp::Sum,
        logged,
        dim,
        keep_dim,
        total,
        logs,
        i,
    );
    flows::lemma_reduced_one(x@.dims(), dim, keep_dim, i);
    model::lemma_unary(
        at,
        f,
        total,
        UnaryOp::Exp,
        t,
        flows::reduced_index(i, dim as int, keep_dim),
        fold(ReduceOp::Sum, reductions::lane(logs, i, dim as int, x@.dims()[dim as int])),
    );
}

/// The sign of a product.
proof fn lemma_sign<B: Backend>(
    at: spec_fn(B::Storage, nat) -> B::Scalar,
    f: spec_fn(UnaryOp, B::Scalar) -> B::Scalar,
    fold: spec_fn(ReduceOp, Seq<B::Scalar>) -> B::Scalar,
    cast: spec_fn(DType, B::Scalar) -> B::Scalar,
    x: Tensor<B>,
    dim: usize,
    keep_dim: bool,
    t: Tensor<B>,
    xs: spec_fn(Seq<usize>) -> B::Scalar,
    i: Seq<usize>,
)
    requires
        model::stores::<B>(at),
        model::combines::<B>(at),
        model::maps::<B>(at, f),
        model::scales::<B>(at),
        reductions::reduces::<B>(at, fold),
        casts::<B>(at, cast),
        slopes::compares::<B>(at),
        elementwise::product_sign(x, dim, keep_dim, Ok(t)),
        x@.dtype != DType::U8,
        x@.dims().len() <= usize::MAX,
        nd::product(x@.dims()) <= usize::MAX,
        model::has(at, x, xs),
        nd::in_bounds(i, x@.dims()),
    ensures
        dim < x@.dims().len(),
        t@.dims() == flows::reduced_sizes(x@.dims(), dim as int, keep_dim),
        ({
            let marks = |j: Seq<usize>| cast(x@.dtype, slopes::flag(is_negative(xs(j))));
            elements::element_is(
                at,
                t,
                flows::reduced_index(i, dim as int, keep_dim),
                sign_of_count(
                    f,
                    fold(
                        ReduceOp::Sum,
                        reductions::lane(marks, i, dim as int, x@.dims()[dim as int]),
                    ),
                ),
            )
        }),
{
    let zero = <B::Scalar as Scalar>::zero_val();
    let one = <B::Scalar as Scalar>::one_val();
    let two = one.plus(one);
    let (mask, count) = choose|mask: Tensor<B>, count: Tensor<B>|
        {
            &&& #[trigger] elementwise::negative_mask(x, Ok(mask))
            &&& #[trigger] elementwise::reduction_result(
                mask,
                ReduceOp::Sum,
                seq![dim],
                keep_dim,
                Ok(count),
            )
            &&& exists|odd: Tensor<B>, sign: Tensor<B>|
                {
                    &&& #[trigger] elementwise::parity_result(count, Ok(odd))
                    &&& #[trigger] call_ensures(
                        Tensor::affine,
                        (&odd, zero.minus(two), one),
                        Ok::<Tensor<B>, Error>(sign),
                    )
                    &&& call_ensures(Tensor::detach, (&sign,), t)
                }
        };
    let (odd, sign) = choose|odd: Tensor<B>, sign: Tensor<B>|
        {
            &&& #[trigger] elementwise::parity_result(count, Ok(odd))
            &&& #[trigger] call_ensures(
                Tensor::affine,
                (&odd, zero.minus(two), one),
                Ok::<Tensor<B>, Error>(sign),
            )
            &&& call_ensures(Tensor::detach, (&sign,), t)
        };
    let (half, pairs) = choose|half: Tensor<B>, pairs: Tensor<B>|
        {
            &&& #[trigger] call_ensures(
                Tensor::affine,
                (&count, one.over(two), zero),
                Ok::<Tensor<B>, Error>(half),
            )
            &&& #[trigger] elementwise::unary_result(half, UnaryOp::Floor, Ok(pairs))
            &&& exists|even: Tensor<B>|
                {
                    &&& #[trigger] call_ensures(
                        Tensor::affine,
                        (&pairs, two, zero),
                        Ok::<Tensor<B>, Error>(even),
                    )
                    &&& elementwise::binary_result(count, even, BinaryOp::Sub, Ok(odd))
                }
        };
    let even = choose|even: Tensor<B>|
        {
            &&& #[trigger] call_ensures(
                Tensor::affine,
                (&pairs, two, zero),
                Ok::<Tensor<B>, Error>(even),
            )
            &&& elementwise::binary_result(count, even, BinaryOp::Sub, Ok(odd))
        };
    let marks = |j: Seq<usize>| cast(x@.dtype, slopes::flag(is_negative(xs(j))));
    assert forall|j: Seq<usize>| #[trigger] nd::in_bounds(j, x@.dims()) implies mask@.dims()
        == x@.dims() && elements::element_is(at, mask, j, marks(j)) by {
        assert forall|zeros: Tensor<B>| #[trigger]
            call_ensures(
                Tensor::zeros_like,
                (&x,),
                Ok::<Tensor<B>, Error>(zeros),
            ) implies zeros@.dims() == x@.dims() && elements::element_is(at, zeros, j, zero) by {
            model::lemma_zeros_like(at, x, zeros, j);
        }
        lemma_mask(at, cast, x, mask, xs, j, zero);
    }
    assert(nd::in_bounds(i, x@.dims()) && mask@.dims() == x@.dims());
    reductions::lemma_reduced(at, fold, ReduceOp::Sum, mask, dim, keep_dim, count, marks, i);
    flows::lemma_reduced_one(x@.dims(), dim, keep_dim, i);
    let r = flows::reduced_index(i, dim as int, keep_dim);
    let n = fold(ReduceOp::Sum, reductions::lane(marks, i, dim as int, x@.dims()[dim as int]));
    let h = n.times(one.over(two)).plus(zero);
    let p = f(UnaryOp::Floor, h);
    let e = p.times(two).plus(zero);
    let o = n.minus(e);
    model::lemma_affine(at, count, one.over(two), zero, half, r, n);
    model::lemma_unary(at, f, half, UnaryOp::Floor, pairs, r, h);
    model::lemma_affine(at, pairs, two, zero, even, r, p);
    model::lemma_binary_same(at, count, even, BinaryOp::Sub, odd, r, n, e);
    model::lemma_affine(at, odd, zero.minus(two), one, sign, r, o);
}

} // verus!
