//! Element-wise operations and their derivatives: what the elements of a result
//! are, and what flows back to the elements of the inputs.
use crate::backend::{Backend, BinaryOp, CmpOp, UnaryOp};
use crate::backprop;
use crate::contributions;
use crate::dtype::DType;
use crate::elements;
use crate::elementwise;
use crate::error::{Error, Result};
use crate::gradients;
use crate::layout::{Layout, LayoutView};
use crate::model;
use crate::nd;
use crate::op::Op;
use crate::rules;
use crate::scalar::{Real, Scalar};
use crate::shape;
use crate::tensor::Tensor;
use vstd::prelude::*;

verus! {

/// A tensor is the result of the method for a unary operation.
pub open spec fn unary_call<B: Backend>(op: UnaryOp, x: Tensor<B>, t: Tensor<B>) -> bool {
    let r = Ok::<Tensor<B>, Error>(t);
    match op {
        UnaryOp::Neg => call_ensures(Tensor::neg, (&x,), r),
        UnaryOp::Abs => call_ensures(Tensor::abs, (&x,), r),
        UnaryOp::Exp => call_ensures(Tensor::exp, (&x,), r),
        UnaryOp::Log => call_ensures(Tensor::log, (&x,), r),
        UnaryOp::Sqrt => call_ensures(Tensor::sqrt, (&x,), r),
        UnaryOp::Relu => call_ensures(Tensor::relu, (&x,), r),
        UnaryOp::Sigmoid => call_ensures(Tensor::sigmoid, (&x,), r),
        UnaryOp::Tanh => call_ensures(Tensor::tanh, (&x,), r),
        UnaryOp::Gelu => call_ensures(Tensor::gelu, (&x,), r),
        UnaryOp::Silu => call_ensures(Tensor::silu, (&x,), r),
        UnaryOp::Sin => call_ensures(Tensor::sin, (&x,), r),
        UnaryOp::Cos => call_ensures(Tensor::cos, (&x,), r),
        UnaryOp::Square => call_ensures(Tensor::square, (&x,), r),
        UnaryOp::Floor => call_ensures(Tensor::floor, (&x,), r),
        UnaryOp::Ceil => call_ensures(Tensor::ceil, (&x,), r),
        UnaryOp::Round => call_ensures(Tensor::round, (&x,), r),
    }
}

/// A tensor is the result of the method for a binary operation.
pub open spec fn binary_call<B: Backend>(
    op: BinaryOp,
    a: Tensor<B>,
    b: Tensor<B>,
    t: Tensor<B>,
) -> bool {
    let r = Ok::<Tensor<B>, Error>(t);
    match op {
        BinaryOp::Add => call_ensures(Tensor::add, (&a, &b), r),
        BinaryOp::Sub => call_ensures(Tensor::sub, (&a, &b), r),
        BinaryOp::Mul => call_ensures(Tensor::mul, (&a, &b), r),
        BinaryOp::Div => call_ensures(Tensor::div, (&a, &b), r),
    }
}

/// A tensor is the result of the method for a comparison.
pub open spec fn comparison_call<B: Backend>(
    op: CmpOp,
    a: Tensor<B>,
    b: Tensor<B>,
    t: Tensor<B>,
) -> bool {
    let r = Ok::<Tensor<B>, Error>(t);
    match op {
        CmpOp::Eq => call_ensures(Tensor::eq, (&a, &b), r),
        CmpOp::Ne => call_ensures(Tensor::ne, (&a, &b), r),
        CmpOp::Gt => call_ensures(Tensor::gt, (&a, &b), r),
        CmpOp::Ge => call_ensures(Tensor::ge, (&a, &b), r),
        CmpOp::Lt => call_ensures(Tensor::lt, (&a, &b), r),
        CmpOp::Le => call_ensures(Tensor::le, (&a, &b), r),
    }
}

/// Each method applies its own function to each element.
pub proof fn law_unary_elements<B: Backend>(
    at: spec_fn(B::Storage, nat) -> B::Scalar,
    f: spec_fn(UnaryOp, B::Scalar) -> B::Scalar,
    op: UnaryOp,
    x: Tensor<B>,
    t: Tensor<B>,
    index: Seq<usize>,
    v: B::Scalar,
)
    requires
        model::stores::<B>(at),
        model::maps::<B>(at, f),
        unary_call(op, x, t),
        nd::in_bounds(index, x@.dims()),
        elements::element_is(at, x, index, v),
    ensures
        t@.dims() == x@.dims(),
        t@.dtype == x@.dtype,
        elements::element_is(at, t, index, f(op, v)),
{
    assert(elementwise::unary_result(x, op, Ok(t)));
    model::lemma_unary(at, f, x, op, t, index, v);
}

/// Sums, differences, products and quotients of elements, repeated to the shape
/// that the two tensors broadcast to.
pub proof fn law_binary_elements<B: Backend>(
    at: spec_fn(B::Storage, nat) -> B::Scalar,
    op: BinaryOp,
    a: Tensor<B>,
    b: Tensor<B>,
    t: Tensor<B>,
    index: Seq<usize>,
    x: B::Scalar,
    y: B::Scalar,
)
    requires
        model::stores::<B>(at),
        model::combines::<B>(at),
        binary_call(op, a, b, t),
        nd::in_bounds(index, t@.dims()),
        elements::element_is(at, a, shape::repeated_index(index, a@.dims(), t@.dims()), x),
        elements::element_is(at, b, shape::repeated_index(index, b@.dims(), t@.dims()), y),
    ensures
        t@.dims() == shape::broadcast(a@.dims(), b@.dims()),
        t@.dtype == a@.dtype,
        op is Add ==> elements::element_is(at, t, index, x.plus(y)),
        op is Sub ==> elements::element_is(at, t, index, x.minus(y)),
        op is Mul ==> elements::element_is(at, t, index, x.times(y)),
        op is Div ==> elements::element_is(at, t, index, x.over(y)),
{
    assert(elementwise::binary_result(a, b, op, Ok(t)));
    model::lemma_binary(at, a, b, op, t, index, x, y);
}

/// The answer to a comparison of two numbers.
pub open spec fn holds_between<S: Scalar>(op: CmpOp, a: S, b: S) -> bool {
    match op {
        CmpOp::Eq => a.same(b),
        CmpOp::Ne => !a.same(b),
        CmpOp::Gt => b.below(a),
        CmpOp::Ge => b.below(a) || a.same(b),
        CmpOp::Lt => a.below(b),
        CmpOp::Le => a.below(b) || a.same(b),
    }
}

/// 1 for yes, 0 for no.
pub open spec fn flag<S: Scalar>(yes: bool) -> S {
    if yes {
        S::one_val()
    } else {
        S::zero_val()
    }
}

/// The backend compares with broadcasting: 1 where the comparison holds, else 0.
pub open spec fn compares<B: Backend>(at: spec_fn(B::Storage, nat) -> B::Scalar) -> bool {
    forall|
        op: CmpOp,
        s: B::Storage,
        l: Layout,
        t: B::Storage,
        m: Layout,
        made: B::Storage,
        index: Seq<usize>,
    |
        #[trigger] call_ensures(
            B::cmp_op,
            (op, &s, &l, &t, &m),
            Ok::<B::Storage, Error>(made),
        ) && #[trigger] nd::in_bounds(index, shape::broadcast(l@.dims, m@.dims)) ==> at(
            made,
            LayoutView::contiguous(shape::broadcast(l@.dims, m@.dims)).address(index),
        ) == flag::<B::Scalar>(
            holds_between(
                op,
                at(
                    s,
                    l@.address(
                        shape::repeated_index(index, l@.dims, shape::broadcast(l@.dims, m@.dims)),
                    ),
                ),
                at(
                    t,
                    m@.address(
                        shape::repeated_index(index, m@.dims, shape::broadcast(l@.dims, m@.dims)),
                    ),
                ),
            ),
        )
}

/// The elements of a comparison.
pub proof fn lemma_compared<B: Backend>(
    at: spec_fn(B::Storage, nat) -> B::Scalar,
    op: CmpOp,
    a: Tensor<B>,
    b: Tensor<B>,
    t: Tensor<B>,
    index: Seq<usize>,
    x: B::Scalar,
    y: B::Scalar,
)
    requires
        model::stores::<B>(at),
        compares::<B>(at),
        elementwise::comparison_result(a, b, op, Ok(t)),
        nd::in_bounds(index, t@.dims()),
        elements::element_is(at, a, shape::repeated_index(index, a@.dims(), t@.dims()), x),
        elements::element_is(at, b, shape::repeated_index(index, b@.dims(), t@.dims()), y),
    ensures
        t@.dims() == shape::broadcast(a@.dims(), b@.dims()),
        t@.dtype == DType::U8,
        contributions::used(t@.op) == Seq::<Tensor<B>>::empty(),
        elements::element_is(at, t, index, flag(holds_between(op, x, y))),
{
    let (s, u, made) = choose|s: B::Storage, u: B::Storage, made: Result<B::Storage>|
        {
            &&& a@.storage.can_hold(s)
            &&& b@.storage.can_hold(u)
            &&& #[trigger] call_ensures(B::cmp_op, (op, &s, &a@.layout, &u, &b@.layout), made)
            &&& elementwise::joined_result(made, a, b, DType::U8, Op::Leaf, Ok(t))
        };
    model::lemma_around_storage(at, t, made->Ok_0, index);
    assert(contributions::used(t@.op) =~= seq![]);
}

/// A comparison is 1 where it holds and 0 where it does not.
pub proof fn law_comparison_elements<B: Backend>(
    at: spec_fn(B::Storage, nat) -> B::Scalar,
    op: CmpOp,
    a: Tensor<B>,
    b: Tensor<B>,
    t: Tensor<B>,
    index: Seq<usize>,
    x: B::Scalar,
    y: B::Scalar,
)
    requires
        model::stores::<B>(at),
        compares::<B>(at),
        comparison_call(op, a, b, t),
        nd::in_bounds(index, t@.dims()),
        elements::element_is(at, a, shape::repeated_index(index, a@.dims(), t@.dims()), x),
        elements::element_is(at, b, shape::repeated_index(index, b@.dims(), t@.dims()), y),
    ensures
        t@.dims() == shape::broadcast(a@.dims(), b@.dims()),
        t@.dtype == DType::U8,
        contributions::used(t@.op) == Seq::<Tensor<B>>::empty(),
        elements::element_is(at, t, index, flag(holds_between(op, x, y))),
{
    assert(elementwise::comparison_result(a, b, op, Ok(t)));
    lemma_compared(at, op, a, b, t, index, x, y);
}

/// A power raises each element to the exponent.
pub proof fn law_powf_elements<B: Backend>(
    at: spec_fn(B::Storage, nat) -> B::Scalar,
    pow: spec_fn(B::Scalar, B::Scalar) -> B::Scalar,
    x: Tensor<B>,
    n: B::Scalar,
    t: Tensor<B>,
    index: Seq<usize>,
    v: B::Scalar,
)
    requires
        model::stores::<B>(at),
        model::raises::<B>(at, pow),
        call_ensures(Tensor::powf, (&x, n), Ok::<Tensor<B>, Error>(t)),
        nd::in_bounds(index, x@.dims()),
        elements::element_is(at, x, index, v),
    ensures
        t@.dims() == x@.dims(),
        elements::element_is(at, t, index, pow(v, n)),
{
    model::lemma_powf(at, pow, x, n, t, index, v);
}

/// The derivative of a power: whatever the exponent `n` is, each element of the
/// gradient that flows back is that of the output times `n` times the element
/// of the input to the power of `n - 1`.
pub proof fn law_powf_gradient<B: Backend>(
    at: spec_fn(B::Storage, nat) -> B::Scalar,
    pow: spec_fn(B::Scalar, B::Scalar) -> B::Scalar,
    x: Tensor<B>,
    n: B::Scalar,
    t: Tensor<B>,
    grad: Tensor<B>,
    g: Tensor<B>,
    index: Seq<usize>,
    v: B::Scalar,
    d: B::Scalar,
)
    requires
        model::stores::<B>(at),
        model::combines::<B>(at),
        model::raises::<B>(at, pow),
        call_ensures(Tensor::powf, (&x, n), Ok::<Tensor<B>, Error>(t)),
        grad@.dims() == t@.dims(),
        contributions::contribution(t@.op, grad, 0, g),
        nd::in_bounds(index, x@.dims()),
        elements::element_is(at, x, index, v),
        elements::element_is(at, grad, index, d),
    ensures
        contributions::used(t@.op) == seq![x],
        g@.dims() == x@.dims(),
        elements::element_is(
            at,
            g,
            index,
            d.times(n).times(pow(v, n.minus(<B::Scalar as Scalar>::one_val()))),
        ),
{
    let one = <B::Scalar as Scalar>::one_val();
    assert(contributions::used(t@.op) =~= seq![x]);
    assert(rules::powf_rule(grad, x, n, Ok(g)));
    let p = choose|p: Result<Tensor<B>>| #[trigger]
        call_ensures(Tensor::powf, (&x, n.minus(one)), p) && match p {
            Err(e) => false,
            Ok(p) => exists|m: Tensor<B>, h: Tensor<B>|
                {
                    &&& #[trigger] call_ensures(
                        Tensor::full_like,
                        (&x, n),
                        Ok::<Tensor<B>, Error>(m),
                    )
                    &&& #[trigger] elementwise::binary_result(grad, m, BinaryOp::Mul, Ok(h))
                    &&& elementwise::binary_result(h, p, BinaryOp::Mul, Ok(g))
                },
        };
    let p = p->Ok_0;
    let (m, h) = choose|m: Tensor<B>, h: Tensor<B>|
        {
            &&& #[trigger] call_ensures(Tensor::full_like, (&x, n), Ok::<Tensor<B>, Error>(m))
            &&& #[trigger] elementwise::binary_result(grad, m, BinaryOp::Mul, Ok(h))
            &&& elementwise::binary_result(h, p, BinaryOp::Mul, Ok(g))
        };
    model::lemma_powf(at, pow, x, n.minus(one), p, index, v);
    model::lemma_full_like(at, x, n, m, index);
    model::lemma_binary_same(at, grad, m, BinaryOp::Mul, h, index, d, n);
    model::lemma_binary_same(
        at,
        h,
        p,
        BinaryOp::Mul,
        g,
        index,
        d.times(n),
        pow(v, n.minus(one)),
    );
}

/// The gradient that flows back through a function whose value at `v` is known,
/// given the gradient `d` of the output. `f` are the functions of the backend.
pub open spec fn flows_back<S: Real>(
    f: spec_fn(UnaryOp, S) -> S,
    op: UnaryOp,
    v: S,
    d: S,
    g: S,
) -> bool {
    let zero = S::zero_val();
    let one = S::one_val();
    let two = one.plus(one);
    match op {
        // (-x)' = -1
        UnaryOp::Neg => g == f(UnaryOp::Neg, d),
        // |x|' is the sign of x
        UnaryOp::Abs => {
            &&& zero.below(v) ==> g == d.times(one)
            &&& v.below(zero) && !zero.below(v) ==> g == d.times(zero.minus(one))
            &&& !v.below(zero) && !zero.below(v) ==> g == d.times(zero)
        },
        // exp' = exp
        UnaryOp::Exp => g == d.times(f(UnaryOp::Exp, v)),
        // log' = 1 / x
        UnaryOp::Log => g == d.over(v),
        // sqrt' = 1 / (2 sqrt)
        UnaryOp::Sqrt => g == d.over(f(UnaryOp::Sqrt, v).times(two).plus(zero)),
        // relu' is 1 for positive numbers, else 0
        UnaryOp::Relu => {
            &&& zero.below(v) ==> g == d.times(one)
            &&& !zero.below(v) ==> g == d.times(zero)
        },
        // sigmoid' = sigmoid (1 - sigmoid)
        UnaryOp::Sigmoid => g == d.times(
            f(UnaryOp::Sigmoid, v).times(one.minus(f(UnaryOp::Sigmoid, v))),
        ),
        // tanh' = 1 - tanh^2
        UnaryOp::Tanh => g == d.times(
            one.minus(f(UnaryOp::Tanh, v).times(f(UnaryOp::Tanh, v))),
        ),
        // gelu' = (1 + t) / 2 + x / 2 (1 - t^2) u', where t is the hyperbolic
        // tangent of u = sqrt(2 / pi) (x + 0.044715 x^3)
        UnaryOp::Gelu => exists|q: S, root: S, t: S|
            {
                let c = S::of_count(44715).over(S::of_count(1000000));
                let half = one.over(two);
                let du = root.times(one.plus(S::of_count(3).times(c).times(v).times(v)));
                &&& #[trigger] call_ensures(S::two_over_pi, (), q)
                &&& #[trigger] call_ensures(S::sqrt, (q,), root)
                &&& #[trigger] call_ensures(
                    S::tanh,
                    (
                        root.times(
                            v.plus(
                                S::of_count(44715).over(S::of_count(1000000)).times(v).times(
                                    v,
                                ).times(v),
                            ),
                        ),
                    ),
                    t,
                )
                &&& g == d.times(
                    half.times(one.plus(t)).plus(
                        half.times(v).times(one.minus(t.times(t))).times(du),
                    ),
                )
            },
        // (x s)' = s (1 + x (1 - s)), where s is the sigmoid
        UnaryOp::Silu => g == d.times(
            f(UnaryOp::Sigmoid, v).times(
                one.plus(v.times(one.minus(f(UnaryOp::Sigmoid, v)))),
            ),
        ),
        // sin' = cos, cos' = -sin
        UnaryOp::Sin => g == d.times(f(UnaryOp::Cos, v)),
        UnaryOp::Cos => g == d.times(f(UnaryOp::Neg, f(UnaryOp::Sin, v))),
        // (x^2)' = 2 x
        UnaryOp::Square => g == d.times(v.times(two).plus(zero)),
        // Steps are flat.
        UnaryOp::Floor | UnaryOp::Ceil | UnaryOp::Round => g == zero,
    }
}

/// What one minus a tensor holds.
proof fn lemma_one_minus<B: Backend>(
    at: spec_fn(B::Storage, nat) -> B::Scalar,
    x: Tensor<B>,
    a: Tensor<B>,
    r: Tensor<B>,
    index: Seq<usize>,
    v: B::Scalar,
)
    requires
        model::stores::<B>(at),
        model::combines::<B>(at),
        rules::one_minus(x, a, Ok(r)),
        a@.dims() == x@.dims(),
        nd::in_bounds(index, x@.dims()),
        elements::element_is(at, a, index, v),
    ensures
        r@.dims() == x@.dims(),
        elements::element_is(at, r, index, <B::Scalar as Scalar>::one_val().minus(v)),
{
    let one = choose|one: Tensor<B>|
        #[trigger] call_ensures(Tensor::ones_like, (&x,), Ok::<Tensor<B>, Error>(one))
            && elementwise::binary_result(one, a, BinaryOp::Sub, Ok(r));
    model::lemma_ones_like(at, x, one, index);
    model::lemma_binary_same(
        at,
        one,
        a,
        BinaryOp::Sub,
        r,
        index,
        <B::Scalar as Scalar>::one_val(),
        v,
    );
}

/// The derivatives that are computed on the host.
proof fn lemma_host_slope<B: Backend>(
    at: spec_fn(B::Storage, nat) -> B::Scalar,
    f: spec_fn(UnaryOp, B::Scalar) -> B::Scalar,
    op: UnaryOp,
    x: Tensor<B>,
    s: Tensor<B>,
    index: Seq<usize>,
    v: B::Scalar,
    d: B::Scalar,
) -> (k: B::Scalar)
    requires
        model::stores::<B>(at),
        op is Abs || op is Relu || op is Gelu,
        rules::slope_result(op, x, Ok(s)),
        nd::in_bounds(index, x@.dims()),
        elements::element_is(at, x, index, v),
    ensures
        s@.dims() == x@.dims(),
        elements::element_is(at, s, index, k),
        flows_back(f, op, v, d, d.times(k)),
{
    let list = choose|list: Vec<B::Scalar>|
        #[trigger] call_ensures(Tensor::to_f64_vec, (&x,), Ok::<Vec<B::Scalar>, Error>(list))
            && match op {
            UnaryOp::Abs => rules::uploaded_like(
                Seq::new(list@.len(), |i: int| gradients::sign_of(list@[i])),
                x,
                Ok(s),
            ),
            UnaryOp::Relu => rules::uploaded_like(
                Seq::new(list@.len(), |i: int| gradients::step_of(list@[i])),
                x,
                Ok(s),
            ),
            _ => exists|w: Seq<B::Scalar>| #[trigger]
                gradients::are_gelu_slopes(list@, w) && rules::uploaded_like(w, x, Ok(s)),
        };
    let data = match op {
        UnaryOp::Abs => Seq::new(list@.len(), |i: int| gradients::sign_of(list@[i])),
        UnaryOp::Relu => Seq::new(list@.len(), |i: int| gradients::step_of(list@[i])),
        _ => choose|w: Seq<B::Scalar>| #[trigger]
            gradients::are_gelu_slopes(list@, w) && rules::uploaded_like(w, x, Ok(s)),
    };
    model::lemma_uploaded(at, data, x@.dims(), x@.dtype, x@.device, s, index);
    model::lemma_read(at, x, list, index, v);
    let k = data[model::place(index, x@.dims()) as int];
    if op is Gelu {
        assert(gradients::is_gelu_slope(v, k));
        let (q, root, t) = choose|q: B::Scalar, root: B::Scalar, t: B::Scalar|
            {
                &&& #[trigger] call_ensures(<B::Scalar as Real>::two_over_pi, (), q)
                &&& #[trigger] call_ensures(<B::Scalar as Real>::sqrt, (q,), root)
                &&& #[trigger] call_ensures(
                    <B::Scalar as Real>::tanh,
                    (gradients::gelu_inner(v, root),),
                    t,
                )
                &&& k == gradients::gelu_slope_from(v, root, t)
            };
        assert(flows_back(f, op, v, d, d.times(k)));
    }
    k
}

/// The derivatives that are composed of tensor operations.
proof fn lemma_slope<B: Backend>(
    at: spec_fn(B::Storage, nat) -> B::Scalar,
    f: spec_fn(UnaryOp, B::Scalar) -> B::Scalar,
    op: UnaryOp,
    x: Tensor<B>,
    s: Tensor<B>,
    index: Seq<usize>,
    v: B::Scalar,
    d: B::Scalar,
) -> (k: B::Scalar)
    requires
        model::stores::<B>(at),
        model::combines::<B>(at),
        model::maps::<B>(at, f),
        model::scales::<B>(at),
        rules::slope_result(op, x, Ok(s)),
        nd::in_bounds(index, x@.dims()),
        elements::element_is(at, x, index, v),
    ensures
        s@.dims() == x@.dims(),
        elements::element_is(at, s, index, k),
        flows_back(f, op, v, d, d.times(k)),
{
    let zero = <B::Scalar as Scalar>::zero_val();
    let one = <B::Scalar as Scalar>::one_val();
    let two = one.plus(one);
    match op {
        UnaryOp::Abs | UnaryOp::Relu | UnaryOp::Gelu => lemma_host_slope(
            at,
            f,
            op,
            x,
            s,
            index,
            v,
            d,
        ),
        UnaryOp::Exp => {
            model::lemma_unary(at, f, x, UnaryOp::Exp, s, index, v);
            f(UnaryOp::Exp, v)
        },
        UnaryOp::Square => {
            model::lemma_affine(at, x, two, zero, s, index, v);
            v.times(two).plus(zero)
        },
        UnaryOp::Sigmoid => {
            let (a, m) = choose|a: Tensor<B>, m: Tensor<B>|
                {
                    &&& #[trigger] elementwise::unary_result(x, UnaryOp::Sigmoid, Ok(a))
                    &&& #[trigger] rules::one_minus(x, a, Ok(m))
                    &&& elementwise::binary_result(a, m, BinaryOp::Mul, Ok(s))
                };
            let y = f(UnaryOp::Sigmoid, v);
            model::lemma_unary(at, f, x, UnaryOp::Sigmoid, a, index, v);
            lemma_one_minus(at, x, a, m, index, y);
            model::lemma_binary_same(at, a, m, BinaryOp::Mul, s, index, y, one.minus(y));
            y.times(one.minus(y))
        },
        UnaryOp::Tanh => {
            let (a, q) = choose|a: Tensor<B>, q: Tensor<B>|
                {
                    &&& #[trigger] elementwise::unary_result(x, UnaryOp::Tanh, Ok(a))
                    &&& #[trigger] elementwise::binary_result(a, a, BinaryOp::Mul, Ok(q))
                    &&& rules::one_minus(x, q, Ok(s))
                };
            let y = f(UnaryOp::Tanh, v);
            model::lemma_unary(at, f, x, UnaryOp::Tanh, a, index, v);
            model::lemma_binary_same(at, a, a, BinaryOp::Mul, q, index, y, y);
            lemma_one_minus(at, x, q, s, index, y.times(y));
            one.minus(y.times(y))
        },
        UnaryOp::Silu => {
            let (a, m, p) = choose|a: Tensor<B>, m: Tensor<B>, p: Tensor<B>|
                {
                    &&& #[trigger] elementwise::unary_result(x, UnaryOp::Sigmoid, Ok(a))
                    &&& #[trigger] rules::one_minus(x, a, Ok(m))
                    &&& #[trigger] elementwise::binary_result(x, m, BinaryOp::Mul, Ok(p))
                    &&& rules::silu_bracket(x, a, p, Ok(s))
                };
            let (o, b) = choose|o: Tensor<B>, b: Tensor<B>|
                {
                    &&& #[trigger] call_ensures(
                        Tensor::ones_like,
                        (&x,),
                        Ok::<Tensor<B>, Error>(o),
                    )
                    &&& #[trigger] elementwise::binary_result(o, p, BinaryOp::Add, Ok(b))
                    &&& elementwise::binary_result(a, b, BinaryOp::Mul, Ok(s))
                };
            let y = f(UnaryOp::Sigmoid, v);
            let w = v.times(one.minus(y));
            model::lemma_unary(at, f, x, UnaryOp::Sigmoid, a, index, v);
            lemma_one_minus(at, x, a, m, index, y);
            model::lemma_binary_same(at, x, m, BinaryOp::Mul, p, index, v, one.minus(y));
            model::lemma_ones_like(at, x, o, index);
            model::lemma_binary_same(at, o, p, BinaryOp::Add, b, index, one, w);
            model::lemma_binary_same(at, a, b, BinaryOp::Mul, s, index, y, one.plus(w));
            y.times(one.plus(w))
        },
        UnaryOp::Sin => {
            model::lemma_unary(at, f, x, UnaryOp::Cos, s, index, v);
            f(UnaryOp::Cos, v)
        },
        UnaryOp::Cos => {
            let a = choose|a: Tensor<B>|
                #[trigger] elementwise::unary_result(x, UnaryOp::Sin, Ok(a))
                    && elementwise::unary_result(a, UnaryOp::Neg, Ok(s));
            model::lemma_unary(at, f, x, UnaryOp::Sin, a, index, v);
            model::lemma_unary(at, f, a, UnaryOp::Neg, s, index, f(UnaryOp::Sin, v));
            f(UnaryOp::Neg, f(UnaryOp::Sin, v))
        },
        _ => zero,
    }
}

/// The derivatives of all functions: each element of the gradient that flows
/// back is that of the output times the derivative at the element of the input.
pub proof fn law_unary_gradient<B: Backend>(
    at: spec_fn(B::Storage, nat) -> B::Scalar,
    f: spec_fn(UnaryOp, B::Scalar) -> B::Scalar,
    op: UnaryOp,
    x: Tensor<B>,
    t: Tensor<B>,
    grad: Tensor<B>,
    g: Tensor<B>,
    index: Seq<usize>,
    v: B::Scalar,
    d: B::Scalar,
) -> (r: B::Scalar)
    requires
        model::stores::<B>(at),
        model::combines::<B>(at),
        model::maps::<B>(at, f),
        model::scales::<B>(at),
        unary_call(op, x, t),
        grad@.dims() == t@.dims(),
        contributions::contribution(t@.op, grad, 0, g),
        nd::in_bounds(index, x@.dims()),
        elements::element_is(at, x, index, v),
        elements::element_is(at, grad, index, d),
    ensures
        contributions::used(t@.op) == seq![x],
        g@.dims() == x@.dims(),
        elements::element_is(at, g, index, r),
        flows_back(f, op, v, d, r),
{
    let zero = <B::Scalar as Scalar>::zero_val();
    let one = <B::Scalar as Scalar>::one_val();
    let two = one.plus(one);
    assert(elementwise::unary_result(x, op, Ok(t)));
    assert(t@.op == Op::<B>::Unary { input: x, op } && t@.dims() == x@.dims());
    assert(contributions::used(t@.op) =~= seq![x]);
    assert(rules::unary_rule(op, grad, x, Ok(g)));
    match op {
        UnaryOp::Neg => {
            model::lemma_unary(at, f, grad, UnaryOp::Neg, g, index, d);
            f(UnaryOp::Neg, d)
        },
        UnaryOp::Log => {
            model::lemma_binary_same(at, grad, x, BinaryOp::Div, g, index, d, v);
            d.over(v)
        },
        UnaryOp::Sqrt => {
            let (s, u) = choose|s: Tensor<B>, u: Tensor<B>|
                {
                    &&& #[trigger] elementwise::unary_result(x, UnaryOp::Sqrt, Ok(s))
                    &&& #[trigger] rules::doubled(s, Ok(u))
                    &&& elementwise::binary_result(grad, u, BinaryOp::Div, Ok(g))
                };
            let y = f(UnaryOp::Sqrt, v);
            let w = y.times(two).plus(zero);
            model::lemma_unary(at, f, x, UnaryOp::Sqrt, s, index, v);
            model::lemma_affine(at, s, two, zero, u, index, y);
            model::lemma_binary_same(at, grad, u, BinaryOp::Div, g, index, d, w);
            d.over(w)
        },
        UnaryOp::Floor | UnaryOp::Ceil | UnaryOp::Round => {
            model::lemma_zeros_like(at, x, g, index);
            zero
        },
        _ => {
            let s = choose|s: Tensor<B>|
                #[trigger] rules::slope_result(op, x, Ok(s)) && elementwise::binary_result(
                    grad,
                    s,
                    BinaryOp::Mul,
                    Ok(g),
                );
            let k = lemma_slope(at, f, op, x, s, index, v, d);
            model::lemma_binary_same(at, grad, s, BinaryOp::Mul, g, index, d, k);
            d.times(k)
        },
    }
}

/// An affine transform multiplies each element and adds to it.
pub proof fn law_affine_elements<B: Backend>(
    at: spec_fn(B::Storage, nat) -> B::Scalar,
    x: Tensor<B>,
    m: B::Scalar,
    c: B::Scalar,
    t: Tensor<B>,
    index: Seq<usize>,
    v: B::Scalar,
)
    requires
        model::stores::<B>(at),
        model::scales::<B>(at),
        call_ensures(Tensor::affine, (&x, m, c), Ok::<Tensor<B>, Error>(t)),
        nd::in_bounds(index, x@.dims()),
        elements::element_is(at, x, index, v),
    ensures
        t@.dims() == x@.dims(),
        elements::element_is(at, t, index, v.times(m).plus(c)),
{
    model::lemma_affine(at, x, m, c, t, index, v);
}

/// The gradient of an affine transform is that of the output times the factor;
/// the summand has none.
pub proof fn law_affine_gradient<B: Backend>(
    at: spec_fn(B::Storage, nat) -> B::Scalar,
    x: Tensor<B>,
    m: B::Scalar,
    c: B::Scalar,
    t: Tensor<B>,
    grad: Tensor<B>,
    g: Tensor<B>,
    index: Seq<usize>,
    d: B::Scalar,
)
    requires
        model::stores::<B>(at),
        model::scales::<B>(at),
        call_ensures(Tensor::affine, (&x, m, c), Ok::<Tensor<B>, Error>(t)),
        grad@.dims() == t@.dims(),
        contributions::contribution(t@.op, grad, 0, g),
        nd::in_bounds(index, x@.dims()),
        elements::element_is(at, grad, index, d),
    ensures
        contributions::used(t@.op) == seq![x],
        g@.dims() == x@.dims(),
        elements::element_is(
            at,
            g,
            index,
            d.times(m).plus(<B::Scalar as Scalar>::zero_val()),
        ),
{
    assert(contributions::used(t@.op) =~= seq![x]);
    model::lemma_affine(at, grad, m, <B::Scalar as Scalar>::zero_val(), g, index, d);
}

/// The gradient of a clamp is that of the output where the input lies strictly
/// between the bounds, else 0.
pub proof fn law_clamp_gradient<B: Backend>(
    at: spec_fn(B::Storage, nat) -> B::Scalar,
    x: Tensor<B>,
    min: B::Scalar,
    max: B::Scalar,
    t: Tensor<B>,
    grad: Tensor<B>,
    g: Tensor<B>,
    index: Seq<usize>,
    v: B::Scalar,
    d: B::Scalar,
)
    requires
        model::stores::<B>(at),
        call_ensures(Tensor::clamp, (&x, min, max), Ok::<Tensor<B>, Error>(t)),
        grad@.dims() == t@.dims(),
        contributions::contribution(t@.op, grad, 0, g),
        nd::in_bounds(index, x@.dims()),
        elements::element_is(at, x, index, v),
        elements::element_is(at, grad, index, d),
    ensures
        contributions::used(t@.op) == seq![x],
        g@.dims() == x@.dims(),
        min.below(v) && v.below(max) ==> elements::element_is(at, g, index, d),
        !(min.below(v) && v.below(max)) ==> elements::element_is(
            at,
            g,
            index,
            <B::Scalar as Scalar>::zero_val(),
        ),
{
    assert(contributions::used(t@.op) =~= seq![x]);
    let (xv, gv) = choose|xv: Vec<B::Scalar>, gv: Vec<B::Scalar>|
        {
            &&& #[trigger] call_ensures(
                Tensor::to_f64_vec,
                (&x,),
                Ok::<Vec<B::Scalar>, Error>(xv),
            )
            &&& #[trigger] call_ensures(
                Tensor::to_f64_vec,
                (&grad,),
                Ok::<Vec<B::Scalar>, Error>(gv),
            )
            &&& rules::uploaded_like(
                gradients::clamp_grad_result(xv@, gv@, min, max),
                x,
                Ok(g),
            )
        };
    let data = gradients::clamp_grad_result(xv@, gv@, min, max);
    model::lemma_uploaded(at, data, x@.dims(), x@.dtype, x@.device, g, index);
    model::lemma_read(at, x, xv, index, v);
    model::lemma_read(at, grad, gv, index, d);
}

/// The backend clamps each number to bounds.
pub open spec fn clamps<B: Backend>(at: spec_fn(B::Storage, nat) -> B::Scalar) -> bool {
    forall|s: B::Storage, l: Layout, min: B::Scalar, max: B::Scalar, made: B::Storage| #[trigger]
        call_ensures(
            B::clamp,
            (&s, &l, min, max),
            Ok::<B::Storage, Error>(made),
        ) ==> model::holds_mapped::<B>(
            at,
            s,
            l@,
            |x: B::Scalar|
                if x.below(min) {
                    min
                } else if max.below(x) {
                    max
                } else {
                    x
                },
            made,
        )
}

/// A clamp replaces what is below the one bound by it, and what is above the
/// other by that.
pub proof fn law_clamp_elements<B: Backend>(
    at: spec_fn(B::Storage, nat) -> B::Scalar,
    x: Tensor<B>,
    min: B::Scalar,
    max: B::Scalar,
    t: Tensor<B>,
    index: Seq<usize>,
    v: B::Scalar,
)
    requires
        model::stores::<B>(at),
        clamps::<B>(at),
        call_ensures(Tensor::clamp, (&x, min, max), Ok::<Tensor<B>, Error>(t)),
        nd::in_bounds(index, x@.dims()),
        elements::element_is(at, x, index, v),
    ensures
        t@.dims() == x@.dims(),
        elements::element_is(
            at,
            t,
            index,
            if v.below(min) {
                min
            } else if max.below(v) {
                max
            } else {
                v
            },
        ),
{
    let call = |s: B::Storage, made: Result<B::Storage>|
        call_ensures(B::clamp, (&s, &x@.layout, min, max), made);
    model::lemma_applied(
        at,
        x,
        call,
        Op::Clamp { input: x, min, max },
        |y: B::Scalar|
            if y.below(min) {
                min
            } else if max.below(y) {
                max
            } else {
                y
            },
        t,
        index,
        v,
    );
}

/// The sign of each element: 1, -1 or 0.
pub proof fn law_sign_elements<B: Backend>(
    at: spec_fn(B::Storage, nat) -> B::Scalar,
    x: Tensor<B>,
    t: Tensor<B>,
    index: Seq<usize>,
    v: B::Scalar,
)
    requires
        model::stores::<B>(at),
        call_ensures(Tensor::sign, (&x,), Ok::<Tensor<B>, Error>(t)),
        nd::in_bounds(index, x@.dims()),
        elements::element_is(at, x, index, v),
    ensures
        t@.dims() == x@.dims(),
        contributions::used(t@.op) == Seq::<Tensor<B>>::empty(),
        <B::Scalar as Scalar>::zero_val().below(v) ==> elements::element_is(
            at,
            t,
            index,
            <B::Scalar as Scalar>::one_val(),
        ),
        v.below(<B::Scalar as Scalar>::zero_val()) && !<B::Scalar as Scalar>::zero_val().below(v)
            ==> elements::element_is(
            at,
            t,
            index,
            <B::Scalar as Scalar>::zero_val().minus(<B::Scalar as Scalar>::one_val()),
        ),
        !v.below(<B::Scalar as Scalar>::zero_val()) && !<B::Scalar as Scalar>::zero_val().below(v)
            ==> elements::element_is(at, t, index, <B::Scalar as Scalar>::zero_val()),
{
    let list = choose|list: Vec<B::Scalar>|
        #[trigger] call_ensures(Tensor::to_f64_vec, (&x,), Ok::<Vec<B::Scalar>, Error>(list))
            && rules::uploaded_like(
            Seq::new(list@.len(), |i: int| gradients::sign_of(list@[i])),
            x,
            Ok(t),
        );
    let data = Seq::new(list@.len(), |i: int| gradients::sign_of(list@[i]));
    model::lemma_uploaded(at, data, x@.dims(), x@.dtype, x@.device, t, index);
    model::lemma_read(at, x, list, index, v);
    assert(contributions::used(t@.op) =~= seq![]);
}

/// The reciprocal of each element.
pub proof fn law_reciprocal_elements<B: Backend>(
    at: spec_fn(B::Storage, nat) -> B::Scalar,
    x: Tensor<B>,
    t: Tensor<B>,
    index: Seq<usize>,
    v: B::Scalar,
)
    requires
        model::stores::<B>(at),
        model::combines::<B>(at),
        call_ensures(Tensor::reciprocal, (&x,), Ok::<Tensor<B>, Error>(t)),
        nd::in_bounds(index, x@.dims()),
        elements::element_is(at, x, index, v),
    ensures
        t@.dims() == x@.dims(),
        elements::element_is(at, t, index, <B::Scalar as Scalar>::one_val().over(v)),
{
    let one = choose|one: Tensor<B>|
        #[trigger] call_ensures(Tensor::ones_like, (&x,), Ok::<Tensor<B>, Error>(one))
            && call_ensures(Tensor::div, (&one, &x), Ok::<Tensor<B>, Error>(t));
    model::lemma_ones_like(at, x, one, index);
    model::lemma_binary_same(
        at,
        one,
        x,
        BinaryOp::Div,
        t,
        index,
        <B::Scalar as Scalar>::one_val(),
        v,
    );
}

/// The reciprocal of the square root of each element.
pub proof fn law_rsqrt_elements<B: Backend>(
    at: spec_fn(B::Storage, nat) -> B::Scalar,
    f: spec_fn(UnaryOp, B::Scalar) -> B::Scalar,
    x: Tensor<B>,
    t: Tensor<B>,
    index: Seq<usize>,
    v: B::Scalar,
)
    requires
        model::stores::<B>(at),
        model::combines::<B>(at),
        model::maps::<B>(at, f),
        call_ensures(Tensor::rsqrt, (&x,), Ok::<Tensor<B>, Error>(t)),
        nd::in_bounds(index, x@.dims()),
        elements::element_is(at, x, index, v),
    ensures
        t@.dims() == x@.dims(),
        elements::element_is(
            at,
            t,
            index,
            <B::Scalar as Scalar>::one_val().over(f(UnaryOp::Sqrt, v)),
        ),
{
    let root = choose|root: Tensor<B>|
        #[trigger] call_ensures(Tensor::sqrt, (&x,), Ok::<Tensor<B>, Error>(root))
            && call_ensures(Tensor::reciprocal, (&root,), Ok::<Tensor<B>, Error>(t));
    model::lemma_unary(at, f, x, UnaryOp::Sqrt, root, index, v);
    law_reciprocal_elements(at, root, t, index, f(UnaryOp::Sqrt, v));
}

/// The gradients of two tensors of one shape that are added, subtracted,
/// multiplied or divided: with the gradient `d` of the output, `d` and `d`; `d`
/// and `-d`; `d b` and `d a`; `d / b` and `-d a / b^2`.
pub proof fn law_binary_gradient<B: Backend>(
    at: spec_fn(B::Storage, nat) -> B::Scalar,
    f: spec_fn(UnaryOp, B::Scalar) -> B::Scalar,
    op: BinaryOp,
    a: Tensor<B>,
    b: Tensor<B>,
    t: Tensor<B>,
    grad: Tensor<B>,
    g: Tensor<B>,
    h: Tensor<B>,
    index: Seq<usize>,
    x: B::Scalar,
    y: B::Scalar,
    d: B::Scalar,
)
    requires
        model::stores::<B>(at),
        model::combines::<B>(at),
        model::maps::<B>(at, f),
        a@.dims() == b@.dims(),
        binary_call(op, a, b, t),
        grad@.dims() == t@.dims(),
        contributions::contribution(t@.op, grad, 0, g),
        contributions::contribution(t@.op, grad, 1, h),
        nd::in_bounds(index, a@.dims()),
        elements::element_is(at, a, index, x),
        elements::element_is(at, b, index, y),
        elements::element_is(at, grad, index, d),
    ensures
        contributions::used(t@.op) == seq![a, b],
        g@.dims() == a@.dims() && h@.dims() == b@.dims(),
        op is Add ==> elements::element_is(at, g, index, d) && elements::element_is(
            at,
            h,
            index,
            d,
        ),
        op is Sub ==> elements::element_is(at, g, index, d) && elements::element_is(
            at,
            h,
            index,
            f(UnaryOp::Neg, d),
        ),
        op is Mul ==> elements::element_is(at, g, index, d.times(y)) && elements::element_is(
            at,
            h,
            index,
            d.times(x),
        ),
        op is Div ==> elements::element_is(at, g, index, d.over(y)) && elements::element_is(
            at,
            h,
            index,
            f(UnaryOp::Neg, d).times(x).over(y.times(y)),
        ),
{
    assert(elementwise::binary_result(a, b, op, Ok(t)));
    shape::law_broadcast_with_itself(a@.dims());
    assert(t@.dims() == a@.dims());
    assert(contributions::used(t@.op) =~= seq![a, b]);
    assert(contributions::binary_contribution(op, grad, a, b, 0, g));
    assert(contributions::binary_contribution(op, grad, a, b, 1, h));
    let p = choose|p: Tensor<B>| #[trigger]
        contributions::binary_part(op, grad, a, b, 0, p) && rules::unbroadcast(
            p,
            a@.dims(),
            Ok(g),
        );
    let q = choose|q: Tensor<B>| #[trigger]
        contributions::binary_part(op, grad, a, b, 1, q) && rules::unbroadcast(
            q,
            b@.dims(),
            Ok(h),
        );
    match op {
        BinaryOp::Add => {},
        BinaryOp::Sub => {
            model::lemma_unary(at, f, grad, UnaryOp::Neg, q, index, d);
        },
        BinaryOp::Mul => {
            model::lemma_binary_same(at, grad, b, BinaryOp::Mul, p, index, d, y);
            model::lemma_binary_same(at, grad, a, BinaryOp::Mul, q, index, d, x);
        },
        BinaryOp::Div => {
            model::lemma_binary_same(at, grad, b, BinaryOp::Div, p, index, d, y);
            assert(backprop::divisor_grad(grad, a, b, Ok(q)));
            let (n, s, m) = choose|n: Tensor<B>, s: Tensor<B>, m: Tensor<B>|
                {
                    &&& #[trigger] call_ensures(
                        Tensor::neg,
                        (&grad,),
                        Ok::<Tensor<B>, Error>(n),
                    )
                    &&& #[trigger] elementwise::binary_result(b, b, BinaryOp::Mul, Ok(s))
                    &&& #[trigger] elementwise::binary_result(n, a, BinaryOp::Mul, Ok(m))
                    &&& elementwise::binary_result(m, s, BinaryOp::Div, Ok(q))
                };
            let e = f(UnaryOp::Neg, d);
            model::lemma_unary(at, f, grad, UnaryOp::Neg, n, index, d);
            model::lemma_binary_same(at, b, b, BinaryOp::Mul, s, index, y, y);
            model::lemma_binary_same(at, n, a, BinaryOp::Mul, m, index, e, x);
            model::lemma_binary_same(
                at,
                m,
                s,
                BinaryOp::Div,
                q,
                index,
                e.times(x),
                y.times(y),
            );
        },
    }
}

} // verus!
