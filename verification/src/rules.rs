//! The chain rule for each operation: the gradient of an input, given the
//! gradient of the output.
use crate::axes::{self, keep};
use crate::backend::{Backend, BinaryOp, ReduceOp, UnaryOp};
use crate::elementwise;
use crate::error::{Error, Result};
use crate::gradients::{
    self,
    clamp_grad,
    extremum_grad,
    gather_grad,
    gelu_slopes,
    mask_gradient,
    narrow_grad,
    positions_after_reduction,
    repeat_gradient,
    select_grad,
    signs,
    sizes_multiplied,
    steps,
    whole_extremum_grad,
};
use crate::host;
use crate::nd;
use crate::scalar::{self, Scalar};
use crate::shape::{self, same_sizes, Shape};
use crate::shaping;
use crate::tensor::{self, Tensor};
use crate::views::{sizes_fit, too_large};
use vstd::prelude::*;

verus! {

/// The size that a shape has at dimension `d` once it is filled up with
/// leading ones to the given rank.
pub open spec fn padded_dim(target: Seq<usize>, rank: nat, d: int) -> usize {
    if d < rank - target.len() {
        1
    } else {
        target[d - (rank - target.len())]
    }
}

/// A dimension of a gradient along which the target was repeated.
pub open spec fn was_repeated(dims: Seq<usize>, target: Seq<usize>, d: int) -> bool {
    padded_dim(target, dims.len(), d) == 1 && dims[d] > 1
}

/// A gradient summed over the repeated ones of the first `n` dimensions, the
/// last of them first.
pub open spec fn sums<B: Backend>(
    dims: Seq<usize>,
    target: Seq<usize>,
    n: nat,
    cur: Tensor<B>,
    r: Result<Tensor<B>>,
) -> bool
    decreases n,
{
    if n == 0 {
        r == Ok::<Tensor<B>, Error>(cur)
    } else if was_repeated(dims, target, n - 1) {
        exists|s: Result<Tensor<B>>| #[trigger]
            elementwise::reduction_result(cur, ReduceOp::Sum, seq![(n - 1) as usize], true, s)
                && match s {
                Err(e) => r == Err::<Tensor<B>, _>(e),
                Ok(s) => sums(dims, target, (n - 1) as nat, s, r),
            }
    } else {
        sums(dims, target, (n - 1) as nat, cur, r)
    }
}

/// A gradient brought back to the shape that was broadcast.
pub open spec fn unbroadcast<B: Backend>(
    grad: Tensor<B>,
    target: Seq<usize>,
    r: Result<Tensor<B>>,
) -> bool {
    let dims = grad@.dims();
    if dims == target {
        r == Ok::<Tensor<B>, Error>(grad)
    } else if dims.len() < target.len() {
        r == Err::<Tensor<B>, _>(
            Error::RankMismatch { expected: target.len() as usize, got: dims.len() as usize },
        )
    } else {
        exists|s: Result<Tensor<B>>| #[trigger]
            sums(dims, target, dims.len(), grad, s) && match s {
                Err(e) => r == Err::<Tensor<B>, _>(e),
                Ok(s) => shaping::reshape_result(s, target, r),
            }
    }
}

/// Sums a gradient over the dimensions that broadcasting repeated, so that it
/// has the shape that was broadcast.
pub fn reduce_broadcast_grad<B: Backend>(grad: &Tensor<B>, target: &Shape) -> (r: Result<Tensor<B>>)
    ensures
        unbroadcast(*grad, target@, r),
{
    let dims = grad.dims();
    let sizes = target.dims();
    if same_sizes(dims, sizes) {
        return Ok(grad.clone());
    }
    let rank: usize = dims.len();
    let own: usize = sizes.len();
    if rank < own {
        return Err(Error::RankMismatch { expected: own, got: rank });
    }
    let offset: usize = rank - own;
    let mut cur = grad.clone();
    let mut d: usize = rank;
    while d > 0
        invariant
            d <= rank,
            rank == dims@.len(),
            own == sizes@.len(),
            own <= rank,
            offset == rank - own,
            dims@ == grad@.dims(),
            sizes@ == target@,
            forall|x: Result<Tensor<B>>| #[trigger]
                sums(dims@, target@, d as nat, cur, x) ==> sums(
                    dims@,
                    target@,
                    rank as nat,
                    *grad,
                    x,
                ),
        decreases d,
    {
        let ghost before = cur;
        d -= 1;
        let size: usize = if d < offset {
            1
        } else {
            sizes[d - offset]
        };
        if size == 1 && dims[d] > 1 {
            assert(was_repeated(dims@, target@, d as int));
            let s = cur.sum(d, true);
            match s {
                Err(e) => {
                    assert(sums(dims@, target@, (d + 1) as nat, before, Err(e)));
                    return Err(e);
                },
                Ok(next) => {
                    proof {
                        assert forall|x: Result<Tensor<B>>| #[trigger]
                            sums(dims@, target@, d as nat, next, x) implies sums(
                            dims@,
                            target@,
                            (d + 1) as nat,
                            before,
                            x,
                        ) by {
                            assert(elementwise::reduction_result(
                                before,
                                ReduceOp::Sum,
                                seq![d],
                                true,
                                Ok(next),
                            ));
                        }
                    }
                    cur = next;
                },
            }
        } else {
            assert(!was_repeated(dims@, target@, d as int));
            assert forall|x: Result<Tensor<B>>| #[trigger]
                sums(dims@, target@, d as nat, before, x) implies sums(
                dims@,
                target@,
                (d + 1) as nat,
                before,
                x,
            ) by {}
        }
    }
    assert(sums(dims@, target@, 0, cur, Ok(cur)));
    cur.reshape_to(target.clone())
}

/// A gradient that was brought back to a shape has that shape.
pub proof fn law_unbroadcast_shape<B: Backend>(grad: Tensor<B>, target: Seq<usize>, r: Tensor<B>)
    requires
        unbroadcast(grad, target, Ok(r)),
    ensures
        r@.dims() == target,
{
}

/// The sizes of a gradient once it is summed over the repeated ones of the
/// first `n` dimensions.
spec fn summed_dims(dims: Seq<usize>, target: Seq<usize>, n: nat, cur: Seq<usize>) -> Seq<usize> {
    Seq::new(
        cur.len(),
        |d: int|
            if d < n && was_repeated(dims, target, d) {
                1
            } else {
                cur[d]
            },
    )
}

proof fn lemma_sums_dims<B: Backend>(
    dims: Seq<usize>,
    target: Seq<usize>,
    n: nat,
    cur: Tensor<B>,
    s: Tensor<B>,
)
    requires
        n <= dims.len(),
        cur@.dims().len() == dims.len(),
        dims.len() <= usize::MAX,
        sums(dims, target, n, cur, Ok(s)),
    ensures
        s@.dims() == summed_dims(dims, target, n, cur@.dims()),
    decreases n,
{
    if n == 0 {
        assert(summed_dims(dims, target, 0, cur@.dims()) =~= cur@.dims());
    } else {
        let d = (n - 1) as usize;
        if was_repeated(dims, target, n - 1) {
            let next = choose|next: Tensor<B>|
                #[trigger] elementwise::reduction_result(
                    cur,
                    ReduceOp::Sum,
                    seq![d],
                    true,
                    Ok(next),
                ) && sums(dims, target, (n - 1) as nat, next, Ok(s));
            assert(seq![d][0] == d);
            assert(next@.dims() == axes::flattened(cur@.dims(), seq![d]));
            assert(forall|x: usize| #[trigger] seq![d].contains(x) <==> x == d);
            lemma_sums_dims(dims, target, (n - 1) as nat, next, s);
        } else {
            lemma_sums_dims(dims, target, (n - 1) as nat, cur, s);
        }
        assert(s@.dims() =~= summed_dims(dims, target, n, cur@.dims()));
    }
}

/// Leading ones do not change the element count.
proof fn lemma_leading_ones(target: Seq<usize>, padded: Seq<usize>)
    requires
        target.len() <= padded.len(),
        forall|d: int|
            0 <= d < padded.len() ==> #[trigger] padded[d] == padded_dim(target, padded.len(), d),
    ensures
        nd::product(padded) == nd::product(target),
    decreases padded.len(),
{
    if padded.len() == target.len() {
        assert(padded =~= target);
    } else {
        let rest = padded.skip(1);
        assert forall|d: int| 0 <= d < rest.len() implies #[trigger] rest[d] == padded_dim(
            target,
            rest.len(),
            d,
        ) by {
            assert(rest[d] == padded[d + 1]);
        }
        lemma_leading_ones(target, rest);
        assert(padded[0] == 1);
    }
}

/// The gradient of a broadcast without elements of size 0, once it is summed,
/// has as many elements as the shape that was broadcast, so that it can be
/// brought to that shape.
pub proof fn law_broadcast_grad_counts<B: Backend>(
    grad: Tensor<B>,
    a: Seq<usize>,
    b: Seq<usize>,
    s: Tensor<B>,
)
    requires
        shape::broadcastable(a, b),
        grad@.dims() == shape::broadcast(a, b),
        grad@.dims().len() <= usize::MAX,
        nd::product(grad@.dims()) > 0,
        sums(grad@.dims(), a, grad@.dims().len(), grad, Ok(s)),
    ensures
        a.len() <= grad@.dims().len(),
        nd::product(s@.dims()) == nd::product(a),
{
    let dims = grad@.dims();
    let rank = dims.len();
    lemma_sums_dims(dims, a, rank, grad, s);
    nd::lemma_product_zero(dims);
    assert forall|d: int| 0 <= d < rank implies #[trigger] s@.dims()[d] == padded_dim(a, rank, d) by {
        let i = rank - 1 - d;
        assert(!shape::clash_at(a, b, i));
        assert(padded_dim(a, rank, d) == shape::from_right(a, i));
        assert(dims[d] == shape::joint_size(shape::from_right(a, i), shape::from_right(b, i)));
        assert(dims[d] > 0);
    }
    lemma_leading_ones(a, s@.dims());
}

/// A leaf with these values and the shape, dtype and device of `a`.
pub open spec fn uploaded_like<B: Backend>(
    data: Seq<B::Scalar>,
    a: Tensor<B>,
    r: Result<Tensor<B>>,
) -> bool {
    tensor::uploaded(data, a@.dims(), a@.dtype, a@.device, r)
}

/// A tensor whose sizes do not fit has no elements.
proof fn lemma_no_elements<B: Backend>(x: Tensor<B>)
    requires
        nd::product(x@.dims()) <= usize::MAX,
        !nd::fits(x@.dims()),
    ensures
        nd::product(x@.dims()) == 0,
{
    if nd::product(x@.dims()) > 0 {
        nd::lemma_count_fits(x@.dims());
    }
}

/// A leaf with these values and the shape, dtype and device of `a`.
pub(crate) fn upload_like<B: Backend>(data: &[B::Scalar], a: &Tensor<B>) -> (r: Result<Tensor<B>>)
    ensures
        uploaded_like(data@, *a, r),
{
    Tensor::upload(data, a.shape().clone(), a.dtype(), a.device())
}

/// The signs of the elements of a tensor.
pub open spec fn signs_result<B: Backend>(x: Tensor<B>, d: Result<Tensor<B>>) -> bool {
    exists|v: Result<Vec<B::Scalar>>| #[trigger]
        call_ensures(Tensor::to_f64_vec, (&x,), v) && match v {
            Err(e) => d == Err::<Tensor<B>, _>(e),
            Ok(v) => uploaded_like(
                Seq::new(v@.len(), |i: int| gradients::sign_of(v@[i])),
                x,
                d,
            ),
        }
}

/// 1 for each positive element of a tensor, else 0.
pub open spec fn steps_result<B: Backend>(x: Tensor<B>, d: Result<Tensor<B>>) -> bool {
    exists|v: Result<Vec<B::Scalar>>| #[trigger]
        call_ensures(Tensor::to_f64_vec, (&x,), v) && match v {
            Err(e) => d == Err::<Tensor<B>, _>(e),
            Ok(v) => uploaded_like(
                Seq::new(v@.len(), |i: int| gradients::step_of(v@[i])),
                x,
                d,
            ),
        }
}

/// The derivatives of GELU at the elements of a tensor.
pub open spec fn gelu_slopes_result<B: Backend>(x: Tensor<B>, d: Result<Tensor<B>>) -> bool {
    exists|v: Result<Vec<B::Scalar>>| #[trigger]
        call_ensures(Tensor::to_f64_vec, (&x,), v) && match v {
            Err(e) => d == Err::<Tensor<B>, _>(e),
            Ok(v) => exists|s: Seq<B::Scalar>| #[trigger]
                gradients::are_gelu_slopes(v@, s) && uploaded_like(s, x, d),
        }
}

/// 1 minus a tensor, element by element; the ones have the shape of `x`.
pub open spec fn one_minus<B: Backend>(x: Tensor<B>, a: Tensor<B>, r: Result<Tensor<B>>) -> bool {
    exists|one: Result<Tensor<B>>| #[trigger]
        call_ensures(Tensor::ones_like, (&x,), one) && match one {
            Err(e) => r == Err::<Tensor<B>, _>(e),
            Ok(one) => elementwise::binary_result(one, a, BinaryOp::Sub, r),
        }
}

fn subtract_from_one<B: Backend>(x: &Tensor<B>, a: &Tensor<B>) -> (r: Result<Tensor<B>>)
    ensures
        one_minus(*x, *a, r),
{
    let one = Tensor::ones_like(x)?;
    one.sub(a)
}

/// The derivative of the sigmoid s: s * (1 - s).
pub open spec fn sigmoid_slope<B: Backend>(x: Tensor<B>, d: Result<Tensor<B>>) -> bool {
    exists|s: Result<Tensor<B>>| #[trigger]
        elementwise::unary_result(x, UnaryOp::Sigmoid, s) && match s {
            Err(e) => d == Err::<Tensor<B>, _>(e),
            Ok(s) => exists|m: Result<Tensor<B>>| #[trigger]
                one_minus(x, s, m) && match m {
                    Err(e) => d == Err::<Tensor<B>, _>(e),
                    Ok(m) => elementwise::binary_result(s, m, BinaryOp::Mul, d),
                },
        }
}

/// The derivative of the hyperbolic tangent t: 1 - t * t.
pub open spec fn tanh_slope<B: Backend>(x: Tensor<B>, d: Result<Tensor<B>>) -> bool {
    exists|t: Result<Tensor<B>>| #[trigger]
        elementwise::unary_result(x, UnaryOp::Tanh, t) && match t {
            Err(e) => d == Err::<Tensor<B>, _>(e),
            Ok(t) => exists|q: Result<Tensor<B>>| #[trigger]
                elementwise::binary_result(t, t, BinaryOp::Mul, q) && match q {
                    Err(e) => d == Err::<Tensor<B>, _>(e),
                    Ok(q) => one_minus(x, q, d),
                },
        }
}

/// The derivative of SiLU, with the sigmoid s: s * (1 + x * (1 - s)).
pub open spec fn silu_slope<B: Backend>(x: Tensor<B>, d: Result<Tensor<B>>) -> bool {
    exists|s: Result<Tensor<B>>| #[trigger]
        elementwise::unary_result(x, UnaryOp::Sigmoid, s) && match s {
            Err(e) => d == Err::<Tensor<B>, _>(e),
            Ok(s) => exists|m: Result<Tensor<B>>| #[trigger]
                one_minus(x, s, m) && match m {
                    Err(e) => d == Err::<Tensor<B>, _>(e),
                    Ok(m) => exists|p: Result<Tensor<B>>| #[trigger]
                        elementwise::binary_result(x, m, BinaryOp::Mul, p) && match p {
                            Err(e) => d == Err::<Tensor<B>, _>(e),
                            Ok(p) => silu_bracket(x, s, p, d),
                        },
                },
        }
}

/// s * (1 + p), element by element.
pub open spec fn silu_bracket<B: Backend>(
    x: Tensor<B>,
    s: Tensor<B>,
    p: Tensor<B>,
    d: Result<Tensor<B>>,
) -> bool {
    exists|one: Result<Tensor<B>>| #[trigger]
        call_ensures(Tensor::ones_like, (&x,), one) && match one {
            Err(e) => d == Err::<Tensor<B>, _>(e),
            Ok(one) => exists|b: Result<Tensor<B>>| #[trigger]
                elementwise::binary_result(one, p, BinaryOp::Add, b) && match b {
                    Err(e) => d == Err::<Tensor<B>, _>(e),
                    Ok(b) => elementwise::binary_result(s, b, BinaryOp::Mul, d),
                },
        }
}

/// The derivative of the cosine: the negative sine.
pub open spec fn cos_slope<B: Backend>(x: Tensor<B>, d: Result<Tensor<B>>) -> bool {
    exists|s: Result<Tensor<B>>| #[trigger]
        elementwise::unary_result(x, UnaryOp::Sin, s) && match s {
            Err(e) => d == Err::<Tensor<B>, _>(e),
            Ok(s) => elementwise::unary_result(s, UnaryOp::Neg, d),
        }
}

/// A tensor doubled.
pub open spec fn doubled<B: Backend>(x: Tensor<B>, r: Result<Tensor<B>>) -> bool {
    call_ensures(
        Tensor::affine,
        (&x, scalar::two_val::<B::Scalar>(), <B::Scalar as Scalar>::zero_val()),
        r,
    )
}

fn double<B: Backend>(x: &Tensor<B>) -> (r: Result<Tensor<B>>)
    ensures
        doubled(*x, r),
{
    let two: B::Scalar = scalar::two();
    let zero: B::Scalar = <B::Scalar as Scalar>::zero();
    x.affine(two, zero)
}

/// The derivative of an operation whose gradient is the gradient of the
/// output times a derivative.
pub open spec fn slope_result<B: Backend>(op: UnaryOp, x: Tensor<B>, d: Result<Tensor<B>>) -> bool {
    match op {
        UnaryOp::Abs => signs_result(x, d),
        UnaryOp::Exp => elementwise::unary_result(x, UnaryOp::Exp, d),
        UnaryOp::Square => doubled(x, d),
        UnaryOp::Relu => steps_result(x, d),
        UnaryOp::Sigmoid => sigmoid_slope(x, d),
        UnaryOp::Tanh => tanh_slope(x, d),
        UnaryOp::Gelu => gelu_slopes_result(x, d),
        UnaryOp::Silu => silu_slope(x, d),
        UnaryOp::Sin => elementwise::unary_result(x, UnaryOp::Cos, d),
        UnaryOp::Cos => cos_slope(x, d),
        _ => false,
    }
}

/// The gradient of the input of a unary operation.
pub open spec fn unary_rule<B: Backend>(
    op: UnaryOp,
    grad: Tensor<B>,
    x: Tensor<B>,
    r: Result<Tensor<B>>,
) -> bool {
    match op {
        UnaryOp::Neg => elementwise::unary_result(grad, UnaryOp::Neg, r),
        UnaryOp::Log => elementwise::binary_result(grad, x, BinaryOp::Div, r),
        UnaryOp::Sqrt => exists|s: Result<Tensor<B>>| #[trigger]
            elementwise::unary_result(x, UnaryOp::Sqrt, s) && match s {
                Err(e) => r == Err::<Tensor<B>, _>(e),
                Ok(s) => exists|t: Result<Tensor<B>>| #[trigger]
                    doubled(s, t) && match t {
                        Err(e) => r == Err::<Tensor<B>, _>(e),
                        Ok(t) => elementwise::binary_result(grad, t, BinaryOp::Div, r),
                    },
            },
        UnaryOp::Floor | UnaryOp::Ceil | UnaryOp::Round => call_ensures(
            Tensor::zeros_like,
            (&x,),
            r,
        ),
        _ => exists|d: Result<Tensor<B>>| #[trigger]
            slope_result(op, x, d) && match d {
                Err(e) => r == Err::<Tensor<B>, _>(e),
                Ok(d) => elementwise::binary_result(grad, d, BinaryOp::Mul, r),
            },
    }
}

fn sigmoid_derivative<B: Backend>(x: &Tensor<B>) -> (d: Result<Tensor<B>>)
    ensures
        sigmoid_slope(*x, d),
{
    let s = x.sigmoid()?;
    let m = subtract_from_one(x, &s)?;
    s.mul(&m)
}

fn tanh_derivative<B: Backend>(x: &Tensor<B>) -> (d: Result<Tensor<B>>)
    ensures
        tanh_slope(*x, d),
{
    let t = x.tanh()?;
    let q = t.mul(&t)?;
    subtract_from_one(x, &q)
}

fn silu_derivative<B: Backend>(x: &Tensor<B>) -> (d: Result<Tensor<B>>)
    ensures
        silu_slope(*x, d),
{
    let s = x.sigmoid()?;
    let m = subtract_from_one(x, &s)?;
    let p = x.mul(&m)?;
    let one = Tensor::ones_like(x)?;
    let b = one.add(&p)?;
    s.mul(&b)
}

fn cos_derivative<B: Backend>(x: &Tensor<B>) -> (d: Result<Tensor<B>>)
    ensures
        cos_slope(*x, d),
{
    let s = x.sin()?;
    s.neg()
}

/// The derivatives that are computed on the host: of the absolute value, of
/// ReLU and of GELU.
fn host_derivative<B: Backend>(op: UnaryOp, x: &Tensor<B>) -> (d: Result<Tensor<B>>)
    requires
        op is Abs || op is Relu || op is Gelu,
    ensures
        slope_result(op, *x, d),
{
    let v = x.to_f64_vec()?;
    let slopes = match op {
        UnaryOp::Abs => signs(v.as_slice()),
        UnaryOp::Relu => steps(v.as_slice()),
        _ => gelu_slopes(v.as_slice()),
    };
    upload_like(slopes.as_slice(), x)
}

/// The derivative of an operation whose gradient is the gradient of the
/// output times a derivative.
fn derivative<B: Backend>(op: UnaryOp, x: &Tensor<B>) -> (d: Result<Tensor<B>>)
    requires
        !(op is Neg || op is Log || op is Sqrt || op is Floor || op is Ceil || op is Round),
    ensures
        slope_result(op, *x, d),
{
    match op {
        UnaryOp::Exp => x.exp(),
        UnaryOp::Square => double(x),
        UnaryOp::Sigmoid => sigmoid_derivative(x),
        UnaryOp::Tanh => tanh_derivative(x),
        UnaryOp::Silu => silu_derivative(x),
        UnaryOp::Sin => x.cos(),
        UnaryOp::Cos => cos_derivative(x),
        _ => host_derivative(op, x),
    }
}

/// The gradient of the input of a unary operation: the gradient of the output
/// times the derivative at the input.
pub fn unary_grad<B: Backend>(op: UnaryOp, grad: &Tensor<B>, x: &Tensor<B>) -> (r: Result<
    Tensor<B>,
>)
    ensures
        unary_rule(op, *grad, *x, r),
{
    match op {
        UnaryOp::Neg => grad.neg(),
        UnaryOp::Log => grad.div(x),
        UnaryOp::Sqrt => {
            let s = x.sqrt()?;
            let t = double(&s)?;
            grad.div(&t)
        },
        UnaryOp::Floor => Tensor::zeros_like(x),
        UnaryOp::Ceil => Tensor::zeros_like(x),
        UnaryOp::Round => Tensor::zeros_like(x),
        _ => {
            let d = derivative(op, x)?;
            grad.mul(&d)
        },
    }
}

/// A gradient repeated along the dimensions of a reduction, to the shape of
/// the input.
pub open spec fn spread<B: Backend>(
    grad: Tensor<B>,
    x: Tensor<B>,
    axes: Seq<usize>,
    r: Result<Tensor<B>>,
) -> bool {
    exists|v: Result<Vec<B::Scalar>>| #[trigger]
        call_ensures(Tensor::to_f64_vec, (&grad,), v) && match v {
            Err(e) => r == Err::<Tensor<B>, _>(e),
            Ok(v) => uploaded_like(
                gradients::repeated(v@, gradients::reduced_positions(x@.dims(), axes)),
                x,
                r,
            ),
        }
}

/// Repeats a gradient along the dimensions of a reduction, to the shape of
/// the input.
pub fn expand_grad_for_reduce<B: Backend>(grad: &Tensor<B>, x: &Tensor<B>, axes: &[usize]) -> (r:
    Result<Tensor<B>>)
    ensures
        spread(*grad, *x, axes@, r),
{
    let v = grad.to_f64_vec()?;
    let positions = positions_after_reduction(x.shape(), axes);
    let data = repeat_gradient(v.as_slice(), positions.as_slice());
    upload_like(data.as_slice(), x)
}

/// A gradient that was spread over reduced elements has the shape of the
/// input.
pub proof fn law_spread_shape<B: Backend>(
    grad: Tensor<B>,
    x: Tensor<B>,
    axes: Seq<usize>,
    r: Tensor<B>,
)
    requires
        spread(grad, x, axes, Ok(r)),
    ensures
        r@.dims() == x@.dims(),
{
}

/// The gradient of the sum of all elements.
pub open spec fn sum_all_rule<B: Backend>(
    grad: Tensor<B>,
    x: Tensor<B>,
    r: Result<Tensor<B>>,
) -> bool {
    exists|v: Result<B::Scalar>| #[trigger]
        call_ensures(Tensor::to_scalar_f64, (&grad,), v) && match v {
            Err(e) => r == Err::<Tensor<B>, _>(e),
            Ok(v) => call_ensures(Tensor::full_like, (&x, v), r),
        }
}

/// The gradient of the mean of all elements.
pub open spec fn mean_all_rule<B: Backend>(
    grad: Tensor<B>,
    x: Tensor<B>,
    r: Result<Tensor<B>>,
) -> bool {
    exists|v: Result<B::Scalar>| #[trigger]
        call_ensures(Tensor::to_scalar_f64, (&grad,), v) && match v {
            Err(e) => r == Err::<Tensor<B>, _>(e),
            Ok(v) => call_ensures(
                Tensor::full_like,
                (&x, v.over(<B::Scalar as Scalar>::of_count(nd::product(x@.dims()) as usize))),
                r,
            ),
        }
}

/// The gradient of the mean along dimensions.
pub open spec fn mean_rule<B: Backend>(
    grad: Tensor<B>,
    x: Tensor<B>,
    axes: Seq<usize>,
    r: Result<Tensor<B>>,
) -> bool {
    if exists|i: int| elementwise::first_missing(axes, x@.dims().len(), i) {
        exists|i: int| #[trigger]
            elementwise::first_missing(axes, x@.dims().len(), i) && r == Err::<Tensor<B>, _>(
                Error::DimOutOfRange { dim: axes[i], rank: x@.dims().len() as usize },
            )
    } else {
        exists|s: Result<Tensor<B>>| #[trigger]
            spread(grad, x, axes, s) && match s {
                Err(e) => r == Err::<Tensor<B>, _>(e),
                Ok(s) => call_ensures(
                    Tensor::affine,
                    (
                        &s,
                        <B::Scalar as Scalar>::one_val().over(
                            gradients::size_product::<B::Scalar>(x@.dims(), axes, axes.len()),
                        ),
                        <B::Scalar as Scalar>::zero_val(),
                    ),
                    r,
                ),
            }
    }
}

/// The gradient of the largest or smallest of all elements.
pub open spec fn extremum_all_rule<B: Backend>(
    grad: Tensor<B>,
    x: Tensor<B>,
    largest: bool,
    r: Result<Tensor<B>>,
) -> bool {
    exists|g: Result<B::Scalar>| #[trigger]
        call_ensures(Tensor::to_scalar_f64, (&grad,), g) && match g {
            Err(e) => r == Err::<Tensor<B>, _>(e),
            Ok(g) => exists|v: Result<Vec<B::Scalar>>| #[trigger]
                call_ensures(Tensor::to_f64_vec, (&x,), v) && match v {
                    Err(e) => r == Err::<Tensor<B>, _>(e),
                    Ok(v) => uploaded_like(
                        gradients::whole_extremum_grad_result(v@, g, largest),
                        x,
                        r,
                    ),
                },
        }
}

/// The gradient of the largest or smallest elements along dimensions.
pub open spec fn extremum_rule<B: Backend>(
    grad: Tensor<B>,
    x: Tensor<B>,
    axes: Seq<usize>,
    largest: bool,
    r: Result<Tensor<B>>,
) -> bool {
    exists|v: Result<Vec<B::Scalar>>| #[trigger]
        host::values_result(x, v) && match v {
            Err(e) => r == Err::<Tensor<B>, _>(e),
            Ok(v) => exists|s: Result<Tensor<B>>| #[trigger]
                spread(grad, x, axes, s) && match s {
                    Err(e) => r == Err::<Tensor<B>, _>(e),
                    Ok(s) => exists|g: Result<Vec<B::Scalar>>| #[trigger]
                        host::values_result(s, g) && match g {
                            Err(e) => r == Err::<Tensor<B>, _>(e),
                            Ok(g) => uploaded_like(
                                gradients::extremum_grad_result(
                                    v@,
                                    g@,
                                    gradients::reduced_positions(x@.dims(), axes),
                                    largest,
                                ),
                                x,
                                r,
                            ),
                        },
                },
        }
}

/// The gradient of the input of a reduction that has one.
pub open spec fn reduce_rule<B: Backend>(
    op: ReduceOp,
    grad: Tensor<B>,
    x: Tensor<B>,
    axes: Seq<usize>,
    r: Result<Tensor<B>>,
) -> bool {
    match op {
        ReduceOp::Sum => if axes.len() == 0 {
            sum_all_rule(grad, x, r)
        } else {
            spread(grad, x, axes, r)
        },
        ReduceOp::Mean => if axes.len() == 0 {
            mean_all_rule(grad, x, r)
        } else {
            mean_rule(grad, x, axes, r)
        },
        _ => if axes.len() == 0 {
            extremum_all_rule(grad, x, op is Max, r)
        } else {
            extremum_rule(grad, x, axes, op is Max, r)
        },
    }
}

fn mean_grad<B: Backend>(grad: &Tensor<B>, x: &Tensor<B>, axes: &[usize]) -> (r: Result<Tensor<B>>)
    ensures
        mean_rule(*grad, *x, axes@, r),
{
    let dims = x.dims();
    let rank: usize = dims.len();
    let n: usize = axes.len();
    let mut i: usize = 0;
    while i < n
        invariant
            n == axes@.len(),
            i <= n,
            rank == x@.dims().len(),
            forall|j: int| 0 <= j < i ==> #[trigger] axes@[j] < rank,
        decreases n - i,
    {
        let d: usize = axes[i];
        if d >= rank {
            assert(elementwise::first_missing(axes@, x@.dims().len(), i as int));
            return Err(Error::DimOutOfRange { dim: d, rank });
        }
        i += 1;
    }
    let count: B::Scalar = sizes_multiplied(dims, axes);
    let s = expand_grad_for_reduce(grad, x, axes)?;
    let one: B::Scalar = <B::Scalar as Scalar>::one();
    let zero: B::Scalar = <B::Scalar as Scalar>::zero();
    s.affine(one.div(count), zero)
}

fn extremum_all_grad<B: Backend>(grad: &Tensor<B>, x: &Tensor<B>, largest: bool) -> (r: Result<
    Tensor<B>,
>)
    ensures
        extremum_all_rule(*grad, *x, largest, r),
{
    let g = grad.to_scalar_f64()?;
    let v = x.to_f64_vec()?;
    let data = whole_extremum_grad(v.as_slice(), g, largest);
    upload_like(data.as_slice(), x)
}

fn extremum_dims_grad<B: Backend>(
    grad: &Tensor<B>,
    x: &Tensor<B>,
    axes: &[usize],
    largest: bool,
) -> (r: Result<Tensor<B>>)
    ensures
        extremum_rule(*grad, *x, axes@, largest, r),
{
    let v = x.values()?;
    let s = expand_grad_for_reduce(grad, x, axes)?;
    let g = s.values()?;
    let positions = positions_after_reduction(x.shape(), axes);
    proof {
        law_spread_shape(*grad, *x, axes@, s);
    }
    let outputs: usize = if x.elem_count() == 0 {
        0
    } else {
        proof {
            axes::lemma_kept_fits(x@.dims(), axes@);
        }
        Shape::new(keep(x.dims(), axes)).elem_count()
    };
    let data = extremum_grad(
        v.as_slice(),
        g.as_slice(),
        positions.as_slice(),
        outputs,
        largest,
    );
    upload_like(data.as_slice(), x)
}

/// The gradient of the input of a reduction: it is spread over the reduced
/// elements; that of an extremum is split among the elements that are equal
/// to it.
pub fn reduce_grad<B: Backend>(
    op: ReduceOp,
    grad: &Tensor<B>,
    x: &Tensor<B>,
    axes: &[usize],
) -> (r: Result<Tensor<B>>)
    ensures
        reduce_rule(op, *grad, *x, axes@, r),
{
    let whole = axes.len() == 0;
    match op {
        ReduceOp::Sum => if whole {
            let v = grad.to_scalar_f64()?;
            Tensor::full_like(x, v)
        } else {
            expand_grad_for_reduce(grad, x, axes)
        },
        ReduceOp::Mean => if whole {
            let v = grad.to_scalar_f64()?;
            let count: B::Scalar = <B::Scalar as Scalar>::from_usize(x.elem_count());
            Tensor::full_like(x, v.div(count))
        } else {
            mean_grad(grad, x, axes)
        },
        ReduceOp::Max => if whole {
            extremum_all_grad(grad, x, true)
        } else {
            extremum_dims_grad(grad, x, axes, true)
        },
        _ => if whole {
            extremum_all_grad(grad, x, false)
        } else {
            extremum_dims_grad(grad, x, axes, false)
        },
    }
}

/// A matrix with its last two dimensions exchanged, in contiguous form.
pub open spec fn flipped<B: Backend>(a: Tensor<B>, r: Result<Tensor<B>>) -> bool {
    let rank = a@.dims().len();
    if rank < 2 {
        r == Err::<Tensor<B>, _>(Error::RankMismatch { expected: 2, got: rank as usize })
    } else {
        exists|t: Result<Tensor<B>>| #[trigger]
            call_ensures(Tensor::transpose, (&a, (rank - 2) as usize, (rank - 1) as usize), t)
                && match t {
                Err(e) => r == Err::<Tensor<B>, _>(e),
                Ok(t) => call_ensures(Tensor::contiguous, (&t,), r),
            }
    }
}

fn flip<B: Backend>(a: &Tensor<B>) -> (r: Result<Tensor<B>>)
    ensures
        flipped(*a, r),
{
    let rank: usize = a.rank();
    if rank < 2 {
        return Err(Error::RankMismatch { expected: 2, got: rank });
    }
    let t = a.transpose(rank - 2, rank - 1)?;
    t.contiguous()
}

/// The gradient of the left factor of a matrix product: the gradient times
/// the right factor transposed.
pub open spec fn left_factor_rule<B: Backend>(
    grad: Tensor<B>,
    rhs: Tensor<B>,
    r: Result<Tensor<B>>,
) -> bool {
    exists|t: Result<Tensor<B>>| #[trigger]
        flipped(rhs, t) && match t {
            Err(e) => r == Err::<Tensor<B>, _>(e),
            Ok(t) => elementwise::matmul_result(grad, t, r),
        }
}

/// The gradient of the right factor of a matrix product: the left factor
/// transposed times the gradient.
pub open spec fn right_factor_rule<B: Backend>(
    grad: Tensor<B>,
    lhs: Tensor<B>,
    r: Result<Tensor<B>>,
) -> bool {
    exists|t: Result<Tensor<B>>| #[trigger]
        flipped(lhs, t) && match t {
            Err(e) => r == Err::<Tensor<B>, _>(e),
            Ok(t) => elementwise::matmul_result(t, grad, r),
        }
}

/// The gradient of the left factor of a matrix product.
pub fn left_factor_grad<B: Backend>(grad: &Tensor<B>, rhs: &Tensor<B>) -> (r: Result<Tensor<B>>)
    ensures
        left_factor_rule(*grad, *rhs, r),
{
    let t = flip(rhs)?;
    grad.matmul(&t)
}

/// The gradient of the right factor of a matrix product.
pub fn right_factor_grad<B: Backend>(grad: &Tensor<B>, lhs: &Tensor<B>) -> (r: Result<Tensor<B>>)
    ensures
        right_factor_rule(*grad, *lhs, r),
{
    let t = flip(lhs)?;
    t.matmul(grad)
}

/// The gradient of the input of a slice: zeros with the gradient at the
/// position of the slice.
pub open spec fn narrow_rule<B: Backend>(
    grad: Tensor<B>,
    x: Tensor<B>,
    dim: usize,
    start: usize,
    r: Result<Tensor<B>>,
) -> bool {
    let dims = x@.dims();
    let own = grad@.dims();
    if own.len() > dims.len() {
        r == Err::<Tensor<B>, _>(
            Error::RankMismatch { expected: dims.len() as usize, got: own.len() as usize },
        )
    } else if dim >= own.len() {
        r == Err::<Tensor<B>, _>(Error::DimOutOfRange { dim, rank: own.len() as usize })
    } else {
        exists|v: Result<Vec<B::Scalar>>| #[trigger]
            host::values_result(grad, v) && match v {
                Err(e) => r == Err::<Tensor<B>, _>(e),
                Ok(v) => uploaded_like(
                    gradients::narrow_grad_result(v@, dims, own, dim as int, start),
                    x,
                    r,
                ),
            }
    }
}

/// The gradient of the input of a slice along `dim` from `start` on.
pub fn narrow_input_grad<B: Backend>(
    grad: &Tensor<B>,
    x: &Tensor<B>,
    dim: usize,
    start: usize,
) -> (r: Result<Tensor<B>>)
    ensures
        narrow_rule(*grad, *x, dim, start, r),
{
    let rank: usize = x.rank();
    let own: usize = grad.rank();
    if own > rank {
        return Err(Error::RankMismatch { expected: rank, got: own });
    }
    if dim >= own {
        return Err(Error::DimOutOfRange { dim, rank: own });
    }
    let v = grad.values()?;
    if !sizes_fit(x.dims()) {
        return Err(too_large());
    }
    let data = narrow_grad(v.as_slice(), x.shape(), grad.shape(), dim, start);
    upload_like(data.as_slice(), x)
}

/// The gradient of a power: n * x^(n - 1) times the gradient.
pub open spec fn powf_rule<B: Backend>(
    grad: Tensor<B>,
    x: Tensor<B>,
    exponent: B::Scalar,
    r: Result<Tensor<B>>,
) -> bool {
    exists|p: Result<Tensor<B>>| #[trigger]
        call_ensures(
            Tensor::powf,
            (&x, exponent.minus(<B::Scalar as Scalar>::one_val())),
            p,
        ) && match p {
            Err(e) => r == Err::<Tensor<B>, _>(e),
            Ok(p) => exists|n: Result<Tensor<B>>| #[trigger]
                call_ensures(Tensor::full_like, (&x, exponent), n) && match n {
                    Err(e) => r == Err::<Tensor<B>, _>(e),
                    Ok(n) => exists|g: Result<Tensor<B>>| #[trigger]
                        elementwise::binary_result(grad, n, BinaryOp::Mul, g) && match g {
                            Err(e) => r == Err::<Tensor<B>, _>(e),
                            Ok(g) => elementwise::binary_result(g, p, BinaryOp::Mul, r),
                        },
                },
        }
}

/// The gradient of the input of a power.
pub fn powf_grad<B: Backend>(grad: &Tensor<B>, x: &Tensor<B>, exponent: B::Scalar) -> (r: Result<
    Tensor<B>,
>)
    ensures
        powf_rule(*grad, *x, exponent, r),
{
    let one: B::Scalar = <B::Scalar as Scalar>::one();
    let p = x.powf(exponent.sub(one))?;
    let n = Tensor::full_like(x, exponent)?;
    let g = grad.mul(&n)?;
    g.mul(&p)
}

/// The gradient of a clamp: that of the output where the input lies strictly
/// between the bounds, else 0.
pub open spec fn clamp_rule<B: Backend>(
    grad: Tensor<B>,
    x: Tensor<B>,
    min: B::Scalar,
    max: B::Scalar,
    r: Result<Tensor<B>>,
) -> bool {
    exists|v: Result<Vec<B::Scalar>>| #[trigger]
        call_ensures(Tensor::to_f64_vec, (&x,), v) && match v {
            Err(e) => r == Err::<Tensor<B>, _>(e),
            Ok(v) => exists|g: Result<Vec<B::Scalar>>| #[trigger]
                call_ensures(Tensor::to_f64_vec, (&grad,), g) && match g {
                    Err(e) => r == Err::<Tensor<B>, _>(e),
                    Ok(g) => uploaded_like(
                        gradients::clamp_grad_result(v@, g@, min, max),
                        x,
                        r,
                    ),
                },
        }
}

/// The gradient of the input of a clamp.
pub fn clamp_input_grad<B: Backend>(
    grad: &Tensor<B>,
    x: &Tensor<B>,
    min: B::Scalar,
    max: B::Scalar,
) -> (r: Result<Tensor<B>>)
    ensures
        clamp_rule(*grad, *x, min, max, r),
{
    let v = x.to_f64_vec()?;
    let g = grad.to_f64_vec()?;
    let data = clamp_grad(v.as_slice(), g.as_slice(), min, max);
    upload_like(data.as_slice(), x)
}

/// The error about a gradient with too few elements for what it is the
/// gradient of.
pub open spec fn is_shortfall(e: Error, dims: Seq<usize>, needed: nat, got: nat) -> bool {
    e matches Error::ElementCountMismatch { shape, expected, got: g } && shape@ == dims && expected
        == needed && g == got
}

/// The gradients of both branches of a selection by a mask.
pub open spec fn branches_rule<B: Backend>(
    grad: Tensor<B>,
    mask: Tensor<B>,
    on_true: Tensor<B>,
    on_false: Tensor<B>,
    r: Result<(Tensor<B>, Tensor<B>)>,
) -> bool {
    exists|m: Result<Vec<B::Scalar>>| #[trigger]
        call_ensures(Tensor::to_f64_vec, (&mask,), m) && match m {
            Err(e) => r == Err::<(Tensor<B>, Tensor<B>), _>(e),
            Ok(m) => exists|g: Result<Vec<B::Scalar>>| #[trigger]
                call_ensures(Tensor::to_f64_vec, (&grad,), g) && match g {
                    Err(e) => r == Err::<(Tensor<B>, Tensor<B>), _>(e),
                    Ok(g) => if g@.len() < m@.len() {
                        r matches Err(e) && is_shortfall(e, mask@.dims(), m@.len(), g@.len())
                    } else {
                        both_branches(m@, g@, on_true, on_false, r)
                    },
                },
        }
}

/// The gradient where the mask is not 0, in the shape of `on_true`, and where
/// it is 0, in the shape of `on_false`.
pub open spec fn both_branches<B: Backend>(
    m: Seq<B::Scalar>,
    g: Seq<B::Scalar>,
    on_true: Tensor<B>,
    on_false: Tensor<B>,
    r: Result<(Tensor<B>, Tensor<B>)>,
) -> bool {
    exists|a: Result<Tensor<B>>| #[trigger]
        uploaded_like(gradients::masked(m, g, true), on_true, a) && match a {
            Err(e) => r == Err::<(Tensor<B>, Tensor<B>), _>(e),
            Ok(a) => exists|b: Result<Tensor<B>>| #[trigger]
                uploaded_like(gradients::masked(m, g, false), on_false, b) && match b {
                    Err(e) => r == Err::<(Tensor<B>, Tensor<B>), _>(e),
                    Ok(b) => r == Ok::<(Tensor<B>, Tensor<B>), Error>((a, b)),
                },
        }
}

/// The gradients of both branches of a selection by a mask. The mask itself
/// has none.
pub fn branch_grads<B: Backend>(
    grad: &Tensor<B>,
    mask: &Tensor<B>,
    on_true: &Tensor<B>,
    on_false: &Tensor<B>,
) -> (r: Result<(Tensor<B>, Tensor<B>)>)
    ensures
        branches_rule(*grad, *mask, *on_true, *on_false, r),
{
    let m = mask.to_f64_vec()?;
    let g = grad.to_f64_vec()?;
    if g.len() < m.len() {
        return Err(
            Error::ElementCountMismatch {
                shape: mask.shape().clone(),
                expected: m.len(),
                got: g.len(),
            },
        );
    }
    let chosen = mask_gradient(m.as_slice(), g.as_slice(), true);
    let others = mask_gradient(m.as_slice(), g.as_slice(), false);
    let a = upload_like(chosen.as_slice(), on_true)?;
    let b = upload_like(others.as_slice(), on_false)?;
    Ok((a, b))
}

/// The error about an index that names no element.
pub open spec fn is_index_error(e: Error) -> bool {
    e matches Error::Msg(m) && m@ == "gradient: index out of range"@
}

fn index_error() -> (r: Error)
    ensures
        is_index_error(r),
{
    Error::Msg("gradient: index out of range".to_owned())
}

/// Every index of a gather names an element.
pub open spec fn gather_in_range<S: Scalar>(
    dims: Seq<usize>,
    index_dims: Seq<usize>,
    index: Seq<S>,
    dim: int,
) -> bool {
    forall|k: int|
        0 <= k < index.len() ==> #[trigger] gradients::gather_source(
            dims,
            index_dims,
            index,
            dim,
            k,
        ) < nd::product(dims)
}

/// The gradient of the input of a gather: each gradient is added to the
/// element that its index names.
pub open spec fn gather_rule<B: Backend>(
    grad: Tensor<B>,
    x: Tensor<B>,
    index: Tensor<B>,
    dim: usize,
    r: Result<Tensor<B>>,
) -> bool {
    let dims = x@.dims();
    let own = index@.dims();
    if own.len() != dims.len() {
        r == Err::<Tensor<B>, _>(
            Error::RankMismatch { expected: dims.len() as usize, got: own.len() as usize },
        )
    } else if dim >= dims.len() {
        r == Err::<Tensor<B>, _>(Error::DimOutOfRange { dim, rank: dims.len() as usize })
    } else {
        exists|g: Result<Vec<B::Scalar>>| #[trigger]
            call_ensures(Tensor::to_f64_vec, (&grad,), g) && match g {
                Err(e) => r == Err::<Tensor<B>, _>(e),
                Ok(g) => exists|i: Result<Vec<B::Scalar>>| #[trigger]
                    host::values_result(index, i) && match i {
                        Err(e) => r == Err::<Tensor<B>, _>(e),
                        Ok(i) => if g@.len() < i@.len() {
                            r matches Err(e) && is_shortfall(e, own, i@.len(), g@.len())
                        } else if !gather_in_range(dims, own, i@, dim as int) {
                            r matches Err(e) && is_index_error(e)
                        } else {
                            uploaded_like(
                                gradients::collected(
                                    nd::product(dims),
                                    |k: int| gradients::gather_source(dims, own, i@, dim as int, k),
                                    g@,
                                    i@.len(),
                                ),
                                x,
                                r,
                            )
                        },
                    },
            }
    }
}

/// The gradient of the input of a gather. The index has none.
pub fn gather_input_grad<B: Backend>(
    grad: &Tensor<B>,
    x: &Tensor<B>,
    index: &Tensor<B>,
    dim: usize,
) -> (r: Result<Tensor<B>>)
    ensures
        gather_rule(*grad, *x, *index, dim, r),
{
    let rank: usize = x.rank();
    if index.rank() != rank {
        return Err(Error::RankMismatch { expected: rank, got: index.rank() });
    }
    if dim >= rank {
        return Err(Error::DimOutOfRange { dim, rank });
    }
    let g = grad.to_f64_vec()?;
    let i = index.values()?;
    if g.len() < i.len() {
        return Err(
            Error::ElementCountMismatch {
                shape: index.shape().clone(),
                expected: i.len(),
                got: g.len(),
            },
        );
    }
    if !sizes_fit(x.dims()) {
        proof {
            lemma_no_elements(*x);
        }
        if i.len() > 0 {
            assert(gradients::gather_source(x@.dims(), index@.dims(), i@, dim as int, 0) >= 0);
            return Err(index_error());
        }
        return Err(too_large());
    }
    match gather_grad(g.as_slice(), i.as_slice(), x.shape(), index.shape(), dim) {
        Some(data) => upload_like(data.as_slice(), x),
        None => Err(index_error()),
    }
}

/// Every element of a selection comes from an element of the input.
pub open spec fn all_selected<S: Scalar>(
    dims: Seq<usize>,
    out_dims: Seq<usize>,
    indices: Seq<S>,
    dim: int,
    n: nat,
) -> bool {
    forall|k: int|
        0 <= k < n ==> #[trigger] gradients::select_in_range(dims, out_dims, indices, dim, k)
}

/// The gradient of the input of a selection along a dimension: each gradient
/// is added to the element that it was selected from.
pub open spec fn select_rule<B: Backend>(
    grad: Tensor<B>,
    x: Tensor<B>,
    indices: Tensor<B>,
    dim: usize,
    r: Result<Tensor<B>>,
) -> bool {
    let dims = x@.dims();
    let own = grad@.dims();
    if own.len() != dims.len() {
        r == Err::<Tensor<B>, _>(
            Error::RankMismatch { expected: dims.len() as usize, got: own.len() as usize },
        )
    } else if dim >= dims.len() {
        r == Err::<Tensor<B>, _>(Error::DimOutOfRange { dim, rank: dims.len() as usize })
    } else {
        exists|g: Result<Vec<B::Scalar>>| #[trigger]
            host::values_result(grad, g) && match g {
                Err(e) => r == Err::<Tensor<B>, _>(e),
                Ok(g) => exists|i: Result<Vec<B::Scalar>>| #[trigger]
                    call_ensures(Tensor::to_f64_vec, (&indices,), i) && match i {
                        Err(e) => r == Err::<Tensor<B>, _>(e),
                        Ok(i) => if !all_selected(dims, own, i@, dim as int, g@.len()) {
                            r matches Err(e) && is_index_error(e)
                        } else {
                            uploaded_like(
                                gradients::collected(
                                    nd::product(dims),
                                    |k: int| gradients::select_source(dims, own, i@, dim as int, k),
                                    g@,
                                    g@.len(),
                                ),
                                x,
                                r,
                            )
                        },
                    },
            }
    }
}

/// The gradient of the input of a selection. The indices have none.
pub fn select_input_grad<B: Backend>(
    grad: &Tensor<B>,
    x: &Tensor<B>,
    indices: &Tensor<B>,
    dim: usize,
) -> (r: Result<Tensor<B>>)
    ensures
        select_rule(*grad, *x, *indices, dim, r),
{
    let rank: usize = x.rank();
    if grad.rank() != rank {
        return Err(Error::RankMismatch { expected: rank, got: grad.rank() });
    }
    if dim >= rank {
        return Err(Error::DimOutOfRange { dim, rank });
    }
    let g = grad.values()?;
    let i = indices.to_f64_vec()?;
    if !sizes_fit(x.dims()) {
        proof {
            lemma_no_elements(*x);
        }
        if g.len() > 0 {
            assert(!gradients::select_in_range(x@.dims(), grad@.dims(), i@, dim as int, 0));
            return Err(index_error());
        }
        return Err(too_large());
    }
    match select_grad(g.as_slice(), i.as_slice(), x.shape(), grad.shape(), dim) {
        Some(data) => upload_like(data.as_slice(), x),
        None => Err(index_error()),
    }
}

/// A gradient without the padding of the dimensions from `d` on.
pub open spec fn trimmed<B: Backend>(
    dims: Seq<usize>,
    padding: Seq<[usize; 2]>,
    d: nat,
    cur: Tensor<B>,
    r: Result<Tensor<B>>,
) -> bool
    decreases dims.len() - d,
{
    if d >= dims.len() {
        r == Ok::<Tensor<B>, Error>(cur)
    } else if padding[d as int]@[0] == 0 && padding[d as int]@[1] == 0 {
        trimmed(dims, padding, d + 1, cur, r)
    } else {
        exists|s: Result<Tensor<B>>| #[trigger]
            call_ensures(
                Tensor::narrow,
                (&cur, d as usize, padding[d as int]@[0], dims[d as int]),
                s,
            ) && match s {
                Err(e) => r == Err::<Tensor<B>, _>(e),
                Ok(s) => trimmed(dims, padding, d + 1, s, r),
            }
    }
}

/// The gradient of the input of a padding: the part of the gradient that is
/// not padding.
pub open spec fn pad_rule<B: Backend>(
    grad: Tensor<B>,
    x: Tensor<B>,
    padding: Seq<[usize; 2]>,
    r: Result<Tensor<B>>,
) -> bool {
    if padding.len() < x@.dims().len() {
        r == Err::<Tensor<B>, _>(
            Error::RankMismatch {
                expected: x@.dims().len() as usize,
                got: padding.len() as usize,
            },
        )
    } else {
        trimmed(x@.dims(), padding, 0, grad, r)
    }
}

/// The gradient of the input of a padding.
pub fn pad_input_grad<B: Backend>(grad: &Tensor<B>, x: &Tensor<B>, padding: &[[usize; 2]]) -> (r:
    Result<Tensor<B>>)
    ensures
        pad_rule(*grad, *x, padding@, r),
{
    let dims = x.dims();
    let rank: usize = dims.len();
    let pairs: usize = padding.len();
    if pairs < rank {
        return Err(Error::RankMismatch { expected: rank, got: pairs });
    }
    let mut cur = grad.clone();
    let mut d: usize = 0;
    while d < rank
        invariant
            d <= rank,
            rank == dims@.len(),
            dims@ == x@.dims(),
            rank <= padding@.len(),
            forall|y: Result<Tensor<B>>| #[trigger]
                trimmed(dims@, padding@, d as nat, cur, y) ==> trimmed(
                    dims@,
                    padding@,
                    0,
                    *grad,
                    y,
                ),
        decreases rank - d,
    {
        let ghost before = cur;
        let at: usize = d;
        d += 1;
        let p: [usize; 2] = padding[at];
        if p[0] != 0 || p[1] != 0 {
            match cur.narrow(at, p[0], dims[at]) {
                Err(e) => {
                    assert(trimmed(dims@, padding@, at as nat, before, Err(e)));
                    return Err(e);
                },
                Ok(next) => {
                    proof {
                        assert forall|y: Result<Tensor<B>>| #[trigger]
                            trimmed(dims@, padding@, d as nat, next, y) implies trimmed(
                            dims@,
                            padding@,
                            at as nat,
                            before,
                            y,
                        ) by {
                            assert(call_ensures(
                                Tensor::narrow,
                                (&before, at, padding@[at as int]@[0], dims@[at as int]),
                                Ok::<Tensor<B>, Error>(next),
                            ));
                        }
                    }
                    cur = next;
                },
            }
        } else {
            assert forall|y: Result<Tensor<B>>| #[trigger]
                trimmed(dims@, padding@, d as nat, before, y) implies trimmed(
                dims@,
                padding@,
                at as nat,
                before,
                y,
            ) by {}
        }
    }
    assert(trimmed(dims@, padding@, rank as nat, cur, Ok(cur)));
    Ok(cur)
}

} // verus!
