//! Gradients have the shapes of their tensors.
use crate::backend::{Backend, BinaryOp, ReduceOp, UnaryOp};
use crate::backprop;
use crate::conv_rules;
use crate::dtype::DType;
use crate::elementwise;
use crate::error::{Error, Result};
use crate::gradients;
use crate::graph;
use crate::joining;
use crate::nd;
use crate::op::Op;
use crate::rules;
use crate::scalar::Scalar;
use crate::shape;
use crate::shaping;
use crate::tensor::Tensor;
use crate::views;
use vstd::prelude::*;

verus! {

/// The shape of a tensor is the one that its operation gives. The factors of
/// a matrix product have the same leading dimensions.
pub open spec fn consistent<B: Backend>(t: Tensor<B>) -> bool {
    let dims = t@.dims();
    match t@.op {
        Op::Unary { input, .. } => dims == input@.dims(),
        Op::Affine { input, .. } => dims == input@.dims(),
        Op::Contiguous { input } => dims == input@.dims(),
        Op::Powf { input, .. } => dims == input@.dims(),
        Op::ToDtype { input, .. } => dims == input@.dims(),
        Op::Reshape { input, src_shape } => src_shape@ == input@.dims(),
        Op::Transpose { input, dim0, dim1 } => {
            &&& dim0 < input@.dims().len()
            &&& dim1 < input@.dims().len()
            &&& dims == nd::swapped(input@.dims(), dim0 as int, dim1 as int)
        },
        Op::Permute { input, dims: order } => {
            &&& views::is_permutation(order@)
            &&& order@.len() == input@.dims().len()
            &&& dims == views::selected(input@.dims(), order@)
        },
        Op::Matmul { lhs, rhs } => {
            let a = lhs@.dims();
            let b = rhs@.dims();
            &&& a.len() == b.len() >= 2
            &&& a.take(a.len() - 2) == b.take(b.len() - 2)
            &&& a[a.len() - 1] == b[b.len() - 2]
            &&& dims == elementwise::matmul_dims(a, b)
        },
        Op::Cat { inputs, dim, sizes } => {
            &&& dim < dims.len()
            &&& sizes@.len() == inputs@.len()
            &&& forall|i: int|
                0 <= i < inputs@.len() ==> (#[trigger] inputs@[i])@.dims() == dims.update(
                    dim as int,
                    sizes@[i],
                )
        },
        Op::Pad { input, padding } => {
            &&& padding@.len() == input@.dims().len()
            &&& dims.len() == input@.dims().len()
            &&& forall|i: int|
                0 <= i < dims.len() && joining::no_padding(#[trigger] padding@[i]) ==> dims[i]
                    == input@.dims()[i]
        },
        _ => true,
    }
}

/// Every gradient of a store has the shape that belongs to its number.
pub open spec fn sized<B: Backend>(
    grads: Map<u64, Tensor<B>>,
    shapes: spec_fn(u64) -> Seq<usize>,
) -> bool {
    forall|id: u64| #[trigger] grads.dom().contains(id) ==> grads[id]@.dims() == shapes(id)
}

proof fn lemma_binary_dims<B: Backend>(a: Tensor<B>, b: Tensor<B>, op: BinaryOp, r: Tensor<B>)
    requires
        elementwise::binary_result(a, b, op, Ok(r)),
        a@.dims() == b@.dims(),
    ensures
        r@.dims() == a@.dims(),
{
    shape::law_broadcast_with_itself(a@.dims());
}

/// A gradient of the right shape, added to a store, keeps its shapes.
proof fn lemma_given_sized<B: Backend>(
    before: Map<u64, Tensor<B>>,
    input: Tensor<B>,
    grad: Result<Tensor<B>>,
    after: Map<u64, Tensor<B>>,
    shapes: spec_fn(u64) -> Seq<usize>,
)
    requires
        backprop::given(before, input, grad, Ok(after)),
        grad matches Ok(g) ==> g@.dims() == input@.dims(),
        shapes(graph::number_of(input)) == input@.dims(),
        sized(before, shapes),
    ensures
        sized(after, shapes),
{
    let id = graph::number_of(input);
    let g = grad->Ok_0;
    if !backprop::constant(input) && before.dom().contains(id) {
        let sum = choose|sum: Tensor<B>|
            #[trigger] elementwise::binary_result(before[id], g, BinaryOp::Add, Ok(sum)) && after
                == before.insert(id, sum);
        lemma_binary_dims(before[id], g, BinaryOp::Add, sum);
    }
}

proof fn lemma_both_sized<B: Backend>(
    before: Map<u64, Tensor<B>>,
    a: Tensor<B>,
    grad_a: Tensor<B>,
    b: Tensor<B>,
    grad_b: Tensor<B>,
    after: Map<u64, Tensor<B>>,
    shapes: spec_fn(u64) -> Seq<usize>,
)
    requires
        backprop::both_given(before, a, grad_a, b, grad_b, Ok(after)),
        grad_a@.dims() == a@.dims(),
        grad_b@.dims() == b@.dims(),
        shapes(graph::number_of(a)) == a@.dims(),
        shapes(graph::number_of(b)) == b@.dims(),
        sized(before, shapes),
    ensures
        sized(after, shapes),
{
    let m = choose|m: Map<u64, Tensor<B>>| #[trigger]
        backprop::given(before, a, Ok(grad_a), Ok(m)) && backprop::given(
            m,
            b,
            Ok(grad_b),
            Ok(after),
        );
    lemma_given_sized(before, a, Ok(grad_a), m, shapes);
    lemma_given_sized(m, b, Ok(grad_b), after, shapes);
}

proof fn lemma_reduced_sized<B: Backend>(
    before: Map<u64, Tensor<B>>,
    input: Tensor<B>,
    raw: Tensor<B>,
    after: Map<u64, Tensor<B>>,
    shapes: spec_fn(u64) -> Seq<usize>,
)
    requires
        backprop::reduced_given(before, input, raw, Ok(after)),
        shapes(graph::number_of(input)) == input@.dims(),
        sized(before, shapes),
    ensures
        sized(after, shapes),
{
    let g = choose|g: Result<Tensor<B>>| #[trigger]
        rules::unbroadcast(raw, input@.dims(), g) && backprop::given(before, input, g, Ok(after));
    if g is Ok {
        rules::law_unbroadcast_shape(raw, input@.dims(), g->Ok_0);
    }
    lemma_given_sized(before, input, g, after, shapes);
}

proof fn lemma_binary_sized<B: Backend>(
    op: BinaryOp,
    grad: Tensor<B>,
    lhs: Tensor<B>,
    rhs: Tensor<B>,
    before: Map<u64, Tensor<B>>,
    after: Map<u64, Tensor<B>>,
    shapes: spec_fn(u64) -> Seq<usize>,
)
    requires
        backprop::binary_rule(op, grad, lhs, rhs, before, Ok(after)),
        shapes(graph::number_of(lhs)) == lhs@.dims(),
        shapes(graph::number_of(rhs)) == rhs@.dims(),
        sized(before, shapes),
    ensures
        sized(after, shapes),
{
    match op {
        BinaryOp::Add => {
            let (a, b) = choose|a: Tensor<B>, b: Tensor<B>|
                {
                    &&& #[trigger] rules::unbroadcast(grad, lhs@.dims(), Ok(a))
                    &&& #[trigger] rules::unbroadcast(grad, rhs@.dims(), Ok(b))
                    &&& backprop::both_given(before, lhs, a, rhs, b, Ok(after))
                };
            rules::law_unbroadcast_shape(grad, lhs@.dims(), a);
            rules::law_unbroadcast_shape(grad, rhs@.dims(), b);
            lemma_both_sized(before, lhs, a, rhs, b, after, shapes);
        },
        BinaryOp::Sub => {
            let (a, n, b) = choose|a: Tensor<B>, n: Tensor<B>, b: Tensor<B>|
                {
                    &&& #[trigger] rules::unbroadcast(grad, lhs@.dims(), Ok(a))
                    &&& #[trigger] rules::unbroadcast(n, rhs@.dims(), Ok(b))
                    &&& backprop::both_given(before, lhs, a, rhs, b, Ok(after))
                };
            rules::law_unbroadcast_shape(grad, lhs@.dims(), a);
            rules::law_unbroadcast_shape(n, rhs@.dims(), b);
            lemma_both_sized(before, lhs, a, rhs, b, after, shapes);
        },
        BinaryOp::Mul | BinaryOp::Div => {
            let (a, m, b) = choose|a: Tensor<B>, m: Map<u64, Tensor<B>>, b: Tensor<B>|
                #[trigger] backprop::reduced_given(before, lhs, a, Ok(m)) && #[trigger]
                    backprop::reduced_given(m, rhs, b, Ok(after));
            lemma_reduced_sized(before, lhs, a, m, shapes);
            lemma_reduced_sized(m, rhs, b, after, shapes);
        },
    }
}

/// The derivative of a unary operation has the shape of its input.
proof fn lemma_slope_dims<B: Backend>(op: UnaryOp, x: Tensor<B>, d: Tensor<B>)
    requires
        rules::slope_result(op, x, Ok(d)),
    ensures
        d@.dims() == x@.dims(),
{
    let dims = x@.dims();
    match op {
        UnaryOp::Sigmoid => {
            let (s, m) = choose|s: Tensor<B>, m: Tensor<B>|
                {
                    &&& #[trigger] elementwise::unary_result(x, UnaryOp::Sigmoid, Ok(s))
                    &&& #[trigger] rules::one_minus(x, s, Ok(m))
                    &&& elementwise::binary_result(s, m, BinaryOp::Mul, Ok(d))
                };
            lemma_one_minus_dims(x, s, m);
            lemma_binary_dims(s, m, BinaryOp::Mul, d);
        },
        UnaryOp::Tanh => {
            let (t, q) = choose|t: Tensor<B>, q: Tensor<B>|
                {
                    &&& #[trigger] elementwise::unary_result(x, UnaryOp::Tanh, Ok(t))
                    &&& #[trigger] elementwise::binary_result(t, t, BinaryOp::Mul, Ok(q))
                    &&& rules::one_minus(x, q, Ok(d))
                };
            lemma_binary_dims(t, t, BinaryOp::Mul, q);
            lemma_one_minus_dims(x, q, d);
        },
        UnaryOp::Silu => {
            let (s, m, p) = choose|s: Tensor<B>, m: Tensor<B>, p: Tensor<B>|
                {
                    &&& #[trigger] elementwise::unary_result(x, UnaryOp::Sigmoid, Ok(s))
                    &&& #[trigger] rules::one_minus(x, s, Ok(m))
                    &&& #[trigger] elementwise::binary_result(x, m, BinaryOp::Mul, Ok(p))
                    &&& rules::silu_bracket(x, s, p, Ok(d))
                };
            lemma_one_minus_dims(x, s, m);
            lemma_binary_dims(x, m, BinaryOp::Mul, p);
            let (one, b) = choose|one: Tensor<B>, b: Tensor<B>|
                {
                    &&& #[trigger] call_ensures(
                        Tensor::ones_like,
                        (&x,),
                        Ok::<Tensor<B>, Error>(one),
                    )
                    &&& #[trigger] elementwise::binary_result(one, p, BinaryOp::Add, Ok(b))
                    &&& elementwise::binary_result(s, b, BinaryOp::Mul, Ok(d))
                };
            lemma_binary_dims(one, p, BinaryOp::Add, b);
            lemma_binary_dims(s, b, BinaryOp::Mul, d);
        },
        _ => {},
    }
}

proof fn lemma_one_minus_dims<B: Backend>(x: Tensor<B>, a: Tensor<B>, r: Tensor<B>)
    requires
        rules::one_minus(x, a, Ok(r)),
        a@.dims() == x@.dims(),
    ensures
        r@.dims() == x@.dims(),
{
    let one = choose|one: Tensor<B>|
        #[trigger] call_ensures(Tensor::ones_like, (&x,), Ok::<Tensor<B>, Error>(one))
            && elementwise::binary_result(one, a, BinaryOp::Sub, Ok(r));
    lemma_binary_dims(one, a, BinaryOp::Sub, r);
}

proof fn lemma_unary_dims<B: Backend>(op: UnaryOp, grad: Tensor<B>, x: Tensor<B>, r: Tensor<B>)
    requires
        rules::unary_rule(op, grad, x, Ok(r)),
        grad@.dims() == x@.dims(),
    ensures
        r@.dims() == x@.dims(),
{
    match op {
        UnaryOp::Neg => {},
        UnaryOp::Log => {
            lemma_binary_dims(grad, x, BinaryOp::Div, r);
        },
        UnaryOp::Sqrt => {
            let (s, t) = choose|s: Tensor<B>, t: Tensor<B>|
                {
                    &&& #[trigger] elementwise::unary_result(x, UnaryOp::Sqrt, Ok(s))
                    &&& #[trigger] rules::doubled(s, Ok(t))
                    &&& elementwise::binary_result(grad, t, BinaryOp::Div, Ok(r))
                };
            lemma_binary_dims(grad, t, BinaryOp::Div, r);
        },
        UnaryOp::Floor | UnaryOp::Ceil | UnaryOp::Round => {},
        _ => {
            let d = choose|d: Tensor<B>|
                #[trigger] rules::slope_result(op, x, Ok(d)) && elementwise::binary_result(
                    grad,
                    d,
                    BinaryOp::Mul,
                    Ok(r),
                );
            lemma_slope_dims(op, x, d);
            lemma_binary_dims(grad, d, BinaryOp::Mul, r);
        },
    }
}

proof fn lemma_reduce_dims<B: Backend>(
    op: ReduceOp,
    grad: Tensor<B>,
    x: Tensor<B>,
    axes: Seq<usize>,
    r: Tensor<B>,
)
    requires
        rules::reduce_rule(op, grad, x, axes, Ok(r)),
    ensures
        r@.dims() == x@.dims(),
{
    if op is Mean && axes.len() > 0 {
        let s = choose|s: Tensor<B>| #[trigger]
            rules::spread(grad, x, axes, Ok(s)) && call_ensures(
                Tensor::affine,
                (
                    &s,
                    <B::Scalar as Scalar>::one_val().over(
                        gradients::size_product::<B::Scalar>(x@.dims(), axes, axes.len()),
                    ),
                    <B::Scalar as Scalar>::zero_val(),
                ),
                Ok::<Tensor<B>, Error>(r),
            );
        rules::law_spread_shape(grad, x, axes, s);
    }
}

proof fn lemma_powf_dims<B: Backend>(
    grad: Tensor<B>,
    x: Tensor<B>,
    exponent: B::Scalar,
    r: Tensor<B>,
)
    requires
        rules::powf_rule(grad, x, exponent, Ok(r)),
        grad@.dims() == x@.dims(),
    ensures
        r@.dims() == x@.dims(),
{
    let (p, n, g) = choose|p: Tensor<B>, n: Tensor<B>, g: Tensor<B>|
        {
            &&& #[trigger] call_ensures(
                Tensor::powf,
                (&x, exponent.minus(<B::Scalar as Scalar>::one_val())),
                Ok::<Tensor<B>, Error>(p),
            )
            &&& #[trigger] call_ensures(
                Tensor::full_like,
                (&x, exponent),
                Ok::<Tensor<B>, Error>(n),
            )
            &&& #[trigger] elementwise::binary_result(grad, n, BinaryOp::Mul, Ok(g))
            &&& elementwise::binary_result(g, p, BinaryOp::Mul, Ok(r))
        };
    lemma_binary_dims(grad, n, BinaryOp::Mul, g);
    lemma_binary_dims(g, p, BinaryOp::Mul, r);
}

proof fn lemma_trimmed_dims<B: Backend>(
    dims: Seq<usize>,
    padding: Seq<[usize; 2]>,
    d: nat,
    cur: Tensor<B>,
    r: Tensor<B>,
)
    requires
        rules::trimmed(dims, padding, d, cur, Ok(r)),
        dims.len() <= usize::MAX,
        d <= dims.len(),
        cur@.dims().len() == dims.len(),
        padding.len() == dims.len(),
        forall|i: int| 0 <= i < d ==> #[trigger] cur@.dims()[i] == dims[i],
        forall|i: int|
            d <= i < dims.len() && joining::no_padding(#[trigger] padding[i]) ==> cur@.dims()[i]
                == dims[i],
    ensures
        r@.dims() == dims,
    decreases dims.len() - d,
{
    if d < dims.len() {
        let p = padding[d as int];
        if p@[0] == 0 && p@[1] == 0 {
            assert(joining::no_padding(p));
            lemma_trimmed_dims(dims, padding, d + 1, cur, r);
        } else {
            let next = choose|next: Tensor<B>|
                #[trigger] call_ensures(
                    Tensor::narrow,
                    (&cur, d as usize, p@[0], dims[d as int]),
                    Ok::<Tensor<B>, Error>(next),
                ) && rules::trimmed(dims, padding, d + 1, next, Ok(r));
            assert(next@.dims() == cur@.dims().update(d as int, dims[d as int]));
            lemma_trimmed_dims(dims, padding, d + 1, next, r);
        }
    } else {
        assert(r@.dims() =~= dims);
    }
}

proof fn lemma_flipped_dims<B: Backend>(a: Tensor<B>, r: Tensor<B>)
    requires
        rules::flipped(a, Ok(r)),
        a@.dims().len() <= usize::MAX,
    ensures
        a@.dims().len() >= 2,
        r@.dims() == nd::swapped(
            a@.dims(),
            a@.dims().len() - 2,
            a@.dims().len() - 1,
        ),
{
    let rank = a@.dims().len();
    if rank >= 2 {
        let t = choose|t: Tensor<B>|
            #[trigger] call_ensures(
                Tensor::transpose,
                (&a, (rank - 2) as usize, (rank - 1) as usize),
                Ok::<Tensor<B>, Error>(t),
            ) && call_ensures(Tensor::contiguous, (&t,), Ok::<Tensor<B>, Error>(r));
        assert(t@.dims() == nd::swapped(a@.dims(), rank - 2, rank - 1));
        assert(r@.dims() == t@.dims());
    }
}

/// The gradients of both factors of a matrix product have their shapes.
proof fn lemma_matmul_dims<B: Backend>(
    grad: Tensor<B>,
    lhs: Tensor<B>,
    rhs: Tensor<B>,
    r: Tensor<B>,
)
    requires
        lhs@.dims().len() == rhs@.dims().len() >= 2,
        lhs@.dims().len() <= usize::MAX,
        lhs@.dims().take(lhs@.dims().len() - 2) == rhs@.dims().take(rhs@.dims().len() - 2),
        lhs@.dims()[lhs@.dims().len() - 1] == rhs@.dims()[rhs@.dims().len() - 2],
        grad@.dims() == elementwise::matmul_dims(lhs@.dims(), rhs@.dims()),
    ensures
        rules::left_factor_rule(grad, rhs, Ok(r)) ==> r@.dims() == lhs@.dims(),
        rules::right_factor_rule(grad, lhs, Ok(r)) ==> r@.dims() == rhs@.dims(),
{
    let a = lhs@.dims();
    let b = rhs@.dims();
    let n = a.len() as int;
    assert(forall|i: int| 0 <= i < n - 2 ==> a.take(n - 2)[i] == a[i]);
    assert(forall|i: int| 0 <= i < n - 2 ==> b.take(n - 2)[i] == b[i]);
    assert(forall|i: int| 0 <= i < n - 2 ==> #[trigger] a[i] == b[i]) by {
        assert forall|i: int| 0 <= i < n - 2 implies #[trigger] a[i] == b[i] by {
            assert(a.take(n - 2)[i] == b.take(n - 2)[i]);
        }
    }
    if rules::left_factor_rule(grad, rhs, Ok(r)) {
        let t = choose|t: Tensor<B>|
            #[trigger] rules::flipped(rhs, Ok(t)) && elementwise::matmul_result(grad, t, Ok(r));
        lemma_flipped_dims(rhs, t);
        assert(r@.dims() =~= a);
    }
    if rules::right_factor_rule(grad, lhs, Ok(r)) {
        let t = choose|t: Tensor<B>|
            #[trigger] rules::flipped(lhs, Ok(t)) && elementwise::matmul_result(t, grad, Ok(r));
        lemma_flipped_dims(lhs, t);
        assert(r@.dims() =~= b);
    }
}

proof fn lemma_matmul_sized<B: Backend>(
    grad: Tensor<B>,
    lhs: Tensor<B>,
    rhs: Tensor<B>,
    before: Map<u64, Tensor<B>>,
    after: Map<u64, Tensor<B>>,
    shapes: spec_fn(u64) -> Seq<usize>,
)
    requires
        backprop::matmul_rule(grad, lhs, rhs, before, Ok(after)),
        lhs@.dims().len() == rhs@.dims().len() >= 2,
        lhs@.dims().len() <= usize::MAX,
        lhs@.dims().take(lhs@.dims().len() - 2) == rhs@.dims().take(rhs@.dims().len() - 2),
        lhs@.dims()[lhs@.dims().len() - 1] == rhs@.dims()[rhs@.dims().len() - 2],
        grad@.dims() == elementwise::matmul_dims(lhs@.dims(), rhs@.dims()),
        shapes(graph::number_of(lhs)) == lhs@.dims(),
        shapes(graph::number_of(rhs)) == rhs@.dims(),
        sized(before, shapes),
    ensures
        sized(after, shapes),
{
    let (a, m, b) = choose|a: Result<Tensor<B>>, m: Map<u64, Tensor<B>>, b: Result<Tensor<B>>|
        {
            &&& #[trigger] rules::left_factor_rule(grad, rhs, a)
            &&& #[trigger] backprop::given(before, lhs, a, Ok(m))
            &&& #[trigger] rules::right_factor_rule(grad, lhs, b)
            &&& backprop::given(m, rhs, b, Ok(after))
        };
    if a is Ok {
        lemma_matmul_dims(grad, lhs, rhs, a->Ok_0);
    }
    if b is Ok {
        lemma_matmul_dims(grad, lhs, rhs, b->Ok_0);
    }
    lemma_given_sized(before, lhs, a, m, shapes);
    lemma_given_sized(m, rhs, b, after, shapes);
}

proof fn lemma_cat_sized<B: Backend>(
    grad: Tensor<B>,
    inputs: Seq<Tensor<B>>,
    sizes: Seq<usize>,
    dim: usize,
    k: nat,
    offset: nat,
    before: Map<u64, Tensor<B>>,
    after: Map<u64, Tensor<B>>,
    shapes: spec_fn(u64) -> Seq<usize>,
)
    requires
        backprop::cat_rule(grad, inputs, sizes, dim, k, offset, before, Ok(after)),
        forall|i: int|
            0 <= i < inputs.len() ==> (#[trigger] inputs[i])@.dims() == grad@.dims().update(
                dim as int,
                sizes[i],
            ),
        forall|i: int|
            0 <= i < inputs.len() ==> shapes(graph::number_of(#[trigger] inputs[i]))
                == inputs[i]@.dims(),
        sized(before, shapes),
    ensures
        sized(after, shapes),
    decreases inputs.len() - k,
{
    if k < inputs.len() && k < sizes.len() {
        let input = inputs[k as int];
        let next = offset + sizes[k as int] as nat;
        let (s, m) = choose|s: Result<Tensor<B>>, m: Map<u64, Tensor<B>>|
            {
                &&& #[trigger] call_ensures(
                    Tensor::narrow,
                    (&grad, dim, offset as usize, sizes[k as int]),
                    s,
                )
                &&& #[trigger] backprop::given(before, input, s, Ok(m))
                &&& backprop::cat_rule(grad, inputs, sizes, dim, k + 1, next, m, Ok(after))
            };
        if s is Ok {
            assert(s->Ok_0@.dims() == grad@.dims().update(dim as int, sizes[k as int]));
        }
        lemma_given_sized(before, input, s, m, shapes);
        lemma_cat_sized(grad, inputs, sizes, dim, k + 1, next, m, after, shapes);
    }
}

proof fn lemma_conv_sized<B: Backend>(
    parts: Result<conv_rules::ConvParts<B::Scalar>>,
    x: Tensor<B>,
    weight: Tensor<B>,
    bias: Option<Tensor<B>>,
    before: Map<u64, Tensor<B>>,
    after: Map<u64, Tensor<B>>,
    shapes: spec_fn(u64) -> Seq<usize>,
)
    requires
        backprop::conv_rule(parts, x, weight, bias, before, Ok(after)),
        shapes(graph::number_of(x)) == x@.dims(),
        shapes(graph::number_of(weight)) == weight@.dims(),
        bias matches Some(b) ==> shapes(graph::number_of(b)) == b@.dims(),
        sized(before, shapes),
    ensures
        sized(after, shapes),
{
    let p = parts->Ok_0;
    let (w, m) = choose|w: Result<Tensor<B>>, m: Map<u64, Tensor<B>>|
        {
            &&& #[trigger] conv_rules::weight_rule(p, weight, w)
            &&& #[trigger] backprop::given(before, weight, w, Ok(m))
            &&& backprop::conv_rest(p, x, bias, m, Ok(after))
        };
    lemma_given_sized(before, weight, w, m, shapes);
    let (i, n) = choose|i: Result<Tensor<B>>, n: Map<u64, Tensor<B>>|
        {
            &&& #[trigger] conv_rules::input_rule(p, x, i)
            &&& #[trigger] backprop::given(m, x, i, Ok(n))
            &&& match bias {
                None => after == n,
                Some(b) => exists|g: Result<Tensor<B>>| #[trigger]
                    conv_rules::bias_rule(p, b, g) && backprop::given(n, b, g, Ok(after)),
            }
        };
    lemma_given_sized(m, x, i, n, shapes);
    if bias is Some {
        let b = bias->0;
        let g = choose|g: Result<Tensor<B>>| #[trigger]
            conv_rules::bias_rule(p, b, g) && backprop::given(n, b, g, Ok(after));
        lemma_given_sized(n, b, g, after, shapes);
    }
}

proof fn lemma_where_sized<B: Backend>(
    grad: Tensor<B>,
    mask: Tensor<B>,
    on_true: Tensor<B>,
    on_false: Tensor<B>,
    before: Map<u64, Tensor<B>>,
    after: Map<u64, Tensor<B>>,
    shapes: spec_fn(u64) -> Seq<usize>,
)
    requires
        backprop::where_rule(grad, mask, on_true, on_false, before, Ok(after)),
        shapes(graph::number_of(on_true)) == on_true@.dims(),
        shapes(graph::number_of(on_false)) == on_false@.dims(),
        sized(before, shapes),
    ensures
        sized(after, shapes),
{
    let pair = choose|pair: (Tensor<B>, Tensor<B>)| #[trigger]
        rules::branches_rule(grad, mask, on_true, on_false, Ok(pair)) && backprop::both_given(
            before,
            on_true,
            pair.0,
            on_false,
            pair.1,
            Ok(after),
        );
    lemma_both_sized(before, on_true, pair.0, on_false, pair.1, after, shapes);
}

/// The shapes that belong to numbers are those of a tensor and its inputs.
pub open spec fn fits_shapes<B: Backend>(
    t: Tensor<B>,
    shapes: spec_fn(u64) -> Seq<usize>,
) -> bool {
    &&& t@.dims().len() <= usize::MAX
    &&& shapes(graph::number_of(t)) == t@.dims()
    &&& forall|i: int|
        0 <= i < graph::inputs_of(t).len() ==> ({
            let u = #[trigger] graph::inputs_of(t)[i];
            &&& u@.dims().len() <= usize::MAX
            &&& shapes(graph::number_of(u)) == u@.dims()
        })
}

/// The sizes of a permuted shape, permuted by the inverse.
pub proof fn lemma_permuted_back(dims: Seq<usize>, p: Seq<usize>)
    requires
        views::is_permutation(p),
        p.len() == dims.len(),
    ensures
        views::selected(views::selected(dims, p), views::inverse(p)) == dims,
{
    views::lemma_inverse(p);
    let back = views::selected(views::selected(dims, p), views::inverse(p));
    assert forall|d: int| 0 <= d < dims.len() implies back[d] == #[trigger] dims[d] by {
        assert(p[views::inverse(p)[d] as int] == d);
    }
    assert(back =~= dims);
}

/// The gradient of a permutation is permuted back: it reads the storage of
/// the gradient of the result, and finds at an index what that has at the
/// permuted index.
pub proof fn law_permute_grad<B: Backend>(grad: Tensor<B>, p: Seq<usize>, g: Tensor<B>)
    requires
        grad@.layout@.valid(),
        views::is_permutation(p),
        p.len() == grad@.dims().len(),
        shaping::permute_result(grad, views::inverse(p), Ok(g)),
    ensures
        g@.storage == grad@.storage,
        g@.dims() == views::selected(grad@.dims(), views::inverse(p)),
        forall|index: Seq<usize>|
            index.len() == p.len() ==> #[trigger] g@.layout@.address(index)
                == grad@.layout@.address(views::selected(index, p)),
        forall|index: Seq<usize>|
            index.len() == p.len() ==> (#[trigger] nd::in_bounds(index, g@.dims())
                <==> nd::in_bounds(views::selected(index, p), grad@.dims())),
{
    assert forall|index: Seq<usize>| index.len() == p.len() implies #[trigger] g@.layout@.address(
        index,
    ) == grad@.layout@.address(views::selected(index, p)) by {
        views::law_inverse_addresses(grad@.layout@, p, index);
    }
    assert forall|index: Seq<usize>| index.len() == p.len() implies (#[trigger] nd::in_bounds(
        index,
        g@.dims(),
    ) <==> nd::in_bounds(views::selected(index, p), grad@.dims())) by {
        views::law_inverse_addresses(grad@.layout@, p, index);
    }
}

/// The chain rule gives every input of a tensor a gradient of the input's
/// shape, if the gradient of the tensor has the tensor's shape.
#[verifier::rlimit(30)]
pub proof fn law_chain_rule_shapes<B: Backend>(
    t: Tensor<B>,
    grad: Tensor<B>,
    before: Map<u64, Tensor<B>>,
    after: Map<u64, Tensor<B>>,
    shapes: spec_fn(u64) -> Seq<usize>,
)
    requires
        backprop::chain_rule(t@.op, grad, before, Ok(after)),
        consistent(t),
        grad@.dims() == t@.dims(),
        fits_shapes(t, shapes),
        sized(before, shapes),
    ensures
        sized(after, shapes),
{
    let inputs = graph::inputs_of(t);
    assert(inputs.len() > 0 ==> shapes(graph::number_of(inputs[0])) == inputs[0]@.dims());
    assert(inputs.len() > 1 ==> shapes(graph::number_of(inputs[1])) == inputs[1]@.dims());
    assert(inputs.len() > 2 ==> shapes(graph::number_of(inputs[2])) == inputs[2]@.dims());
    match t@.op {
        Op::Leaf => {},
        Op::Contiguous { input } => {
            lemma_given_sized(before, input, Ok(grad), after, shapes);
        },
        Op::Binary { lhs, rhs, op } => {
            lemma_binary_sized(op, grad, lhs, rhs, before, after, shapes);
        },
        Op::Matmul { lhs, rhs } => {
            lemma_matmul_sized(grad, lhs, rhs, before, after, shapes);
        },
        Op::Conv2d { input, weight, bias, stride, padding } => {
            let p = choose|p: Result<conv_rules::ConvParts<B::Scalar>>| #[trigger]
                conv_rules::conv2d_parts_result(grad, input, weight, stride, padding, p)
                    && backprop::conv_rule(p, input, weight, bias, before, Ok(after));
            lemma_conv_sized(p, input, weight, bias, before, after, shapes);
        },
        Op::Conv1d { input, weight, bias, stride, padding } => {
            let p = choose|p: Result<conv_rules::ConvParts<B::Scalar>>| #[trigger]
                conv_rules::conv1d_parts_result(grad, input, weight, stride, padding, p)
                    && backprop::conv_rule(p, input, weight, bias, before, Ok(after));
            lemma_conv_sized(p, input, weight, bias, before, after, shapes);
        },
        Op::Cat { inputs: ts, dim, sizes } => {
            lemma_cat_sized(grad, ts@, sizes@, dim, 0, 0, before, after, shapes);
        },
        Op::WhereCond { mask, on_true, on_false } => {
            lemma_where_sized(grad, mask, on_true, on_false, before, after, shapes);
        },
        Op::Unary { input, op } => {
            let g = choose|g: Result<Tensor<B>>| #[trigger]
                rules::unary_rule(op, grad, input, g)
                    && backprop::given(before, input, g, Ok(after));
            if g is Ok {
                lemma_unary_dims(op, grad, input, g->Ok_0);
            }
            lemma_given_sized(before, input, g, after, shapes);
        },
        Op::Reduce { input, op, dims, .. } => {
            if !(op is ArgMax || op is ArgMin) {
                let g = choose|g: Result<Tensor<B>>| #[trigger]
                    rules::reduce_rule(op, grad, input, dims@, g) && backprop::given(
                        before,
                        input,
                        g,
                        Ok(after),
                    );
                if g is Ok {
                    lemma_reduce_dims(op, grad, input, dims@, g->Ok_0);
                }
                lemma_given_sized(before, input, g, after, shapes);
            }
        },
        Op::Reshape { input, src_shape } => {
            let g = choose|g: Result<Tensor<B>>| #[trigger]
                shaping::reshape_result(grad, src_shape@, g)
                    && backprop::given(before, input, g, Ok(after));
            lemma_given_sized(before, input, g, after, shapes);
        },
        Op::Transpose { input, dim0, dim1 } => {
            let g = choose|g: Result<Tensor<B>>| #[trigger]
                call_ensures(Tensor::transpose, (&grad, dim0, dim1), g)
                    && backprop::given(before, input, g, Ok(after));
            if g is Ok {
                assert(g->Ok_0@.dims() =~= input@.dims());
            }
            lemma_given_sized(before, input, g, after, shapes);
        },
        Op::Permute { input, dims } => {
            let back = views::inverse(dims@);
            let g = choose|g: Result<Tensor<B>>| #[trigger]
                shaping::permute_result(grad, back, g)
                    && backprop::given(before, input, g, Ok(after));
            if g is Ok {
                lemma_permuted_back(input@.dims(), dims@);
            }
            lemma_given_sized(before, input, g, after, shapes);
        },
        Op::Narrow { input, dim, start, .. } => {
            let g = choose|g: Result<Tensor<B>>| #[trigger]
                rules::narrow_rule(grad, input, dim, start, g)
                    && backprop::given(before, input, g, Ok(after));
            lemma_given_sized(before, input, g, after, shapes);
        },
        Op::Affine { input, mul, .. } => {
            let g = choose|g: Result<Tensor<B>>| #[trigger]
                call_ensures(Tensor::affine, (&grad, mul, <B::Scalar as Scalar>::zero_val()), g)
                    && backprop::given(before, input, g, Ok(after));
            lemma_given_sized(before, input, g, after, shapes);
        },
        Op::MaxPool2d { input, indices, .. } => {
            let g = choose|g: Result<Tensor<B>>| #[trigger]
                conv_rules::max_pool_rule(grad, input, indices@, g)
                    && backprop::given(before, input, g, Ok(after));
            lemma_given_sized(before, input, g, after, shapes);
        },
        Op::AvgPool2d { input, kernel_size, stride, padding } => {
            let g = choose|g: Result<Tensor<B>>| #[trigger]
                conv_rules::avg_pool_rule(grad, input, kernel_size, stride, padding, g)
                    && backprop::given(before, input, g, Ok(after));
            lemma_given_sized(before, input, g, after, shapes);
        },
        Op::Powf { input, exponent } => {
            let g = choose|g: Result<Tensor<B>>| #[trigger]
                rules::powf_rule(grad, input, exponent, g)
                    && backprop::given(before, input, g, Ok(after));
            if g is Ok {
                lemma_powf_dims(grad, input, exponent, g->Ok_0);
            }
            lemma_given_sized(before, input, g, after, shapes);
        },
        Op::Clamp { input, min, max } => {
            let g = choose|g: Result<Tensor<B>>| #[trigger]
                rules::clamp_rule(grad, input, min, max, g)
                    && backprop::given(before, input, g, Ok(after));
            lemma_given_sized(before, input, g, after, shapes);
        },
        Op::Gather { input, index, dim } => {
            let g = choose|g: Result<Tensor<B>>| #[trigger]
                rules::gather_rule(grad, input, index, dim, g)
                    && backprop::given(before, input, g, Ok(after));
            lemma_given_sized(before, input, g, after, shapes);
        },
        Op::IndexSelect { input, indices, dim } => {
            let g = choose|g: Result<Tensor<B>>| #[trigger]
                rules::select_rule(grad, input, indices, dim, g)
                    && backprop::given(before, input, g, Ok(after));
            lemma_given_sized(before, input, g, after, shapes);
        },
        Op::Pad { input, padding } => {
            let g = choose|g: Result<Tensor<B>>| #[trigger]
                rules::pad_rule(grad, input, padding@, g)
                    && backprop::given(before, input, g, Ok(after));
            if g is Ok {
                lemma_trimmed_dims(input@.dims(), padding@, 0, grad, g->Ok_0);
            }
            lemma_given_sized(before, input, g, after, shapes);
        },
        Op::ToDtype { input, src_dtype } => {
            let g = choose|g: Result<Tensor<B>>| #[trigger]
                call_ensures(Tensor::to_dtype, (&grad, src_dtype), g)
                    && backprop::given(before, input, g, Ok(after));
            lemma_given_sized(before, input, g, after, shapes);
        },
    }
}

proof fn lemma_steps_sized<B: Backend>(
    order: Seq<Tensor<B>>,
    n: nat,
    before: Map<u64, Tensor<B>>,
    after: Map<u64, Tensor<B>>,
    shapes: spec_fn(u64) -> Seq<usize>,
)
    requires
        n <= order.len(),
        backprop::steps_back(order, n, before, Ok(after)),
        forall|k: int| 0 <= k < order.len() ==> consistent(#[trigger] order[k]),
        forall|k: int| 0 <= k < order.len() ==> fits_shapes(#[trigger] order[k], shapes),
        sized(before, shapes),
    ensures
        sized(after, shapes),
    decreases n,
{
    if n > 0 {
        let t = order[n - 1];
        let m = choose|m: Map<u64, Tensor<B>>| #[trigger]
            backprop::step(t, before, Ok(m)) && backprop::steps_back(
                order,
                (n - 1) as nat,
                m,
                Ok(after),
            );
        assert(fits_shapes(t, shapes));
        if before.dom().contains(graph::number_of(t)) {
            law_chain_rule_shapes(t, before[graph::number_of(t)], before, m, shapes);
        }
        lemma_steps_sized(order, (n - 1) as nat, m, after, shapes);
    }
}

/// Backpropagation gives every tensor of a graph a gradient of the tensor's
/// shape.
pub proof fn law_gradient_shapes<B: Backend>(
    root: Tensor<B>,
    grads: Map<u64, Tensor<B>>,
    shapes: spec_fn(u64) -> Seq<usize>,
)
    requires
        backprop::backward_result(root, Ok(grads)),
        forall|k: int|
            0 <= k < graph::topo_order(root).len() ==> consistent(
                #[trigger] graph::topo_order(root)[k],
            ),
        forall|k: int|
            0 <= k < graph::topo_order(root).len() ==> fits_shapes(
                #[trigger] graph::topo_order(root)[k],
                shapes,
            ),
    ensures
        forall|k: int|
            0 <= k < graph::topo_order(root).len() ==> ({
                let t = #[trigger] graph::topo_order(root)[k];
                grads.dom().contains(graph::number_of(t)) ==> grads[graph::number_of(t)]@.dims()
                    == t@.dims()
            }),
{
    let order = graph::topo_order(root);
    let id = graph::number_of(root);
    graph::law_topo_root_last(root);
    assert(fits_shapes(order[order.len() - 1], shapes));
    let one = choose|one: Tensor<B>|
        #[trigger] call_ensures(Tensor::ones_like, (&root,), Ok::<Tensor<B>, Error>(one))
            && backprop::steps_back(
            order,
            order.len(),
            Map::empty().insert(id, one),
            Ok(grads),
        );
    let start = Map::<u64, Tensor<B>>::empty().insert(id, one);
    assert(one@.dims() == root@.dims());
    assert(sized(start, shapes));
    lemma_steps_sized(order, order.len(), start, grads, shapes);
    assert forall|k: int| 0 <= k < order.len() implies ({
        let t = #[trigger] order[k];
        grads.dom().contains(graph::number_of(t)) ==> grads[graph::number_of(t)]@.dims()
            == t@.dims()
    }) by {
        assert(fits_shapes(order[k], shapes));
    }
}

/// Element-wise operations keep the shape.
pub proof fn law_pointwise_consistent<B: Backend>(
    a: Tensor<B>,
    op: UnaryOp,
    exponent: B::Scalar,
    mul: B::Scalar,
    add: B::Scalar,
    t: Tensor<B>,
)
    requires
        ({
            ||| elementwise::unary_result(a, op, Ok(t))
            ||| call_ensures(Tensor::powf, (&a, exponent), Ok::<Tensor<B>, Error>(t))
            ||| call_ensures(Tensor::affine, (&a, mul, add), Ok::<Tensor<B>, Error>(t))
        }),
    ensures
        consistent(t),
{
}

/// Copies and conversions keep the shape.
pub proof fn law_copy_consistent<B: Backend>(a: Tensor<B>, dtype: DType, t: Tensor<B>)
    requires
        consistent(a),
        ({
            ||| call_ensures(Tensor::contiguous, (&a,), Ok::<Tensor<B>, Error>(t))
            ||| call_ensures(Tensor::to_dtype, (&a, dtype), Ok::<Tensor<B>, Error>(t))
        }),
    ensures
        consistent(t),
{
}

/// Views record what they are views of.
pub proof fn law_view_consistent<B: Backend>(
    a: Tensor<B>,
    dims: Seq<usize>,
    dim0: usize,
    dim1: usize,
    t: Tensor<B>,
)
    requires
        ({
            ||| shaping::reshape_result(a, dims, Ok(t))
            ||| call_ensures(Tensor::transpose, (&a, dim0, dim1), Ok::<Tensor<B>, Error>(t))
            ||| shaping::permute_result(a, dims, Ok(t))
            ||| call_ensures(Tensor::unsqueeze, (&a, dim0), Ok::<Tensor<B>, Error>(t))
            ||| call_ensures(Tensor::squeeze, (&a, dim0), Ok::<Tensor<B>, Error>(t))
            ||| call_ensures(Tensor::squeeze_all, (&a,), t)
        }),
    ensures
        consistent(t),
{
}

/// A matrix product of factors with the same leading dimensions has the shape
/// of a matrix product.
pub proof fn law_matmul_consistent<B: Backend>(a: Tensor<B>, b: Tensor<B>, t: Tensor<B>)
    requires
        elementwise::matmul_result(a, b, Ok(t)),
        a@.dims().len() == b@.dims().len(),
        a@.dims().take(a@.dims().len() - 2) == b@.dims().take(b@.dims().len() - 2),
    ensures
        consistent(t),
{
}

/// The inputs of a concatenation have its shape but for their sizes.
pub proof fn law_cat_consistent<B: Backend>(ts: Seq<Tensor<B>>, dim: usize, t: Tensor<B>)
    requires
        joining::cat_result(ts, dim, Ok(t)),
        forall|i: int| 0 <= i < ts.len() ==> consistent(#[trigger] ts[i]),
    ensures
        consistent(t),
{
    if ts.len() > 1 {
        let sizes = joining::sizes_along(ts, dim as int);
        assert forall|i: int| 0 <= i < ts.len() implies (#[trigger] ts[i])@.dims()
            == t@.dims().update(dim as int, sizes[i]) by {
            if i > 0 {
                assert(joining::joins(ts[0], ts[i], dim as int)) by {
                    if !joining::joins(ts[0], ts[i], dim as int) {
                        lemma_first_misfit(ts, dim as int, i);
                    }
                }
            }
            assert(ts[i]@.dims() =~= t@.dims().update(dim as int, sizes[i]));
        }
    }
}

/// If some tensor cannot be joined to the first, there is a first such.
pub proof fn lemma_first_misfit<B: Backend>(ts: Seq<Tensor<B>>, dim: int, i: int)
    requires
        1 <= i < ts.len(),
        !joining::joins(ts[0], ts[i], dim),
    ensures
        exists|j: int| joining::join_stops_at(ts, dim, j),
    decreases i,
{
    if exists|j: int| 1 <= j < i && !joining::joins(ts[0], #[trigger] ts[j], dim) {
        let j = choose|j: int| 1 <= j < i && !joining::joins(ts[0], #[trigger] ts[j], dim);
        lemma_first_misfit(ts, dim, j);
    } else {
        assert(joining::join_stops_at(ts, dim, i));
    }
}

/// A padded tensor has the sizes of its input where there is no padding.
pub proof fn law_pad_consistent<B: Backend>(
    a: Tensor<B>,
    padding: Seq<[usize; 2]>,
    value: B::Scalar,
    t: Tensor<B>,
)
    requires
        joining::pad_result(a, padding, value, Ok(t)),
        consistent(a),
    ensures
        consistent(t),
{
}

} // verus!
