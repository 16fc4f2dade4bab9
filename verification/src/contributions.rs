//! Accumulation: the gradient of a tensor is the sum of one contribution for
//! each use of the tensor.
use crate::backend::{Backend, BinaryOp};
use crate::backprop;
use crate::conv_rules::{self, ConvParts};
use crate::elementwise;
use crate::error::{Error, Result};
use crate::graph;
use crate::nd;
use crate::op::Op;
use crate::rules;
use crate::scalar::Scalar;
use crate::shaping;
use crate::tensor::Tensor;
use crate::views;
use vstd::prelude::*;

verus! {

/// The tensors that an operation passes gradients to, one for each use: its
/// inputs but for masks and indices, and none where there is no gradient.
pub open spec fn used<B: Backend>(op: Op<B>) -> Seq<Tensor<B>> {
    match op {
        Op::Reduce { input, op, .. } => if op is ArgMax || op is ArgMin {
            seq![]
        } else {
            seq![input]
        },
        Op::Conv2d { input, weight, bias, .. } => match bias {
            Some(b) => seq![weight, input, b],
            None => seq![weight, input],
        },
        Op::Conv1d { input, weight, bias, .. } => match bias {
            Some(b) => seq![weight, input, b],
            None => seq![weight, input],
        },
        Op::Cat { inputs, sizes, .. } => if sizes@.len() < inputs@.len() {
            inputs@.take(sizes@.len() as int)
        } else {
            inputs@
        },
        Op::WhereCond { on_true, on_false, .. } => seq![on_true, on_false],
        Op::Gather { input, .. } => seq![input],
        Op::IndexSelect { input, .. } => seq![input],
        _ => op.input_list(),
    }
}

/// The sum of the first `n` sizes.
pub open spec fn offset_of(sizes: Seq<usize>, n: nat) -> nat
    decreases n,
{
    if n == 0 {
        0
    } else {
        offset_of(sizes, (n - 1) as nat) + sizes[n - 1] as nat
    }
}

/// What a binary operation passes back to its input `i`, in the shape of the
/// gradient.
pub open spec fn binary_part<B: Backend>(
    op: BinaryOp,
    grad: Tensor<B>,
    lhs: Tensor<B>,
    rhs: Tensor<B>,
    i: int,
    raw: Tensor<B>,
) -> bool {
    match op {
        BinaryOp::Add => raw == grad,
        BinaryOp::Sub => if i == 0 {
            raw == grad
        } else {
            call_ensures(Tensor::neg, (&grad,), Ok::<Tensor<B>, Error>(raw))
        },
        BinaryOp::Mul => if i == 0 {
            elementwise::binary_result(grad, rhs, BinaryOp::Mul, Ok(raw))
        } else {
            elementwise::binary_result(grad, lhs, BinaryOp::Mul, Ok(raw))
        },
        BinaryOp::Div => if i == 0 {
            elementwise::binary_result(grad, rhs, BinaryOp::Div, Ok(raw))
        } else {
            backprop::divisor_grad(grad, lhs, rhs, Ok(raw))
        },
    }
}

/// What a binary operation passes back to its input `i`.
pub open spec fn binary_contribution<B: Backend>(
    op: BinaryOp,
    grad: Tensor<B>,
    lhs: Tensor<B>,
    rhs: Tensor<B>,
    i: int,
    g: Tensor<B>,
) -> bool {
    exists|raw: Tensor<B>| #[trigger]
        binary_part(op, grad, lhs, rhs, i, raw) && if i == 0 {
            rules::unbroadcast(raw, lhs@.dims(), Ok(g))
        } else {
            rules::unbroadcast(raw, rhs@.dims(), Ok(g))
        }
}

/// What a convolution passes back to its weight, its input and its bias.
pub open spec fn conv_contribution<B: Backend>(
    p: ConvParts<B::Scalar>,
    x: Tensor<B>,
    weight: Tensor<B>,
    bias: Option<Tensor<B>>,
    i: int,
    g: Tensor<B>,
) -> bool {
    if i == 0 {
        conv_rules::weight_rule(p, weight, Ok(g))
    } else if i == 1 {
        conv_rules::input_rule(p, x, Ok(g))
    } else {
        bias matches Some(b) && conv_rules::bias_rule(p, b, Ok(g))
    }
}

/// What an operation passes back to its use `i`, given the gradient of its
/// output: the chain rule of the operation.
pub open spec fn contribution<B: Backend>(
    op: Op<B>,
    grad: Tensor<B>,
    i: int,
    g: Tensor<B>,
) -> bool {
    match op {
        Op::Leaf => false,
        Op::Contiguous { .. } => g == grad,
        Op::Binary { lhs, rhs, op } => binary_contribution(op, grad, lhs, rhs, i, g),
        Op::Unary { input, op } => rules::unary_rule(op, grad, input, Ok(g)),
        Op::Reduce { input, op, dims, .. } => rules::reduce_rule(op, grad, input, dims@, Ok(g)),
        Op::Matmul { lhs, rhs } => if i == 0 {
            rules::left_factor_rule(grad, rhs, Ok(g))
        } else {
            rules::right_factor_rule(grad, lhs, Ok(g))
        },
        Op::Reshape { src_shape, .. } => shaping::reshape_result(grad, src_shape@, Ok(g)),
        Op::Transpose { dim0, dim1, .. } => call_ensures(
            Tensor::transpose,
            (&grad, dim0, dim1),
            Ok::<Tensor<B>, Error>(g),
        ),
        Op::Permute { dims, .. } => shaping::permute_result(grad, views::inverse(dims@), Ok(g)),
        Op::Narrow { input, dim, start, .. } => rules::narrow_rule(
            grad,
            input,
            dim,
            start,
            Ok(g),
        ),
        Op::Affine { mul, .. } => call_ensures(
            Tensor::affine,
            (&grad, mul, <B::Scalar as Scalar>::zero_val()),
            Ok::<Tensor<B>, Error>(g),
        ),
        Op::Conv2d { input, weight, bias, stride, padding } => exists|
            p: ConvParts<B::Scalar>,
        | #[trigger]
            conv_rules::conv2d_parts_result(grad, input, weight, stride, padding, Ok(p))
                && conv_contribution(p, input, weight, bias, i, g),
        Op::Conv1d { input, weight, bias, stride, padding } => exists|
            p: ConvParts<B::Scalar>,
        | #[trigger]
            conv_rules::conv1d_parts_result(grad, input, weight, stride, padding, Ok(p))
                && conv_contribution(p, input, weight, bias, i, g),
        Op::MaxPool2d { input, indices, .. } => conv_rules::max_pool_rule(
            grad,
            input,
            indices@,
            Ok(g),
        ),
        Op::AvgPool2d { input, kernel_size, stride, padding } => conv_rules::avg_pool_rule(
            grad,
            input,
            kernel_size,
            stride,
            padding,
            Ok(g),
        ),
        Op::Cat { dim, sizes, .. } => call_ensures(
            Tensor::narrow,
            (&grad, dim, offset_of(sizes@, i as nat) as usize, sizes@[i]),
            Ok::<Tensor<B>, Error>(g),
        ),
        Op::Powf { input, exponent } => rules::powf_rule(grad, input, exponent, Ok(g)),
        Op::Clamp { input, min, max } => rules::clamp_rule(grad, input, min, max, Ok(g)),
        Op::WhereCond { mask, on_true, on_false } => exists|a: Tensor<B>, b: Tensor<B>|
            #[trigger] rules::branches_rule(grad, mask, on_true, on_false, Ok((a, b))) && g
                == if i == 0 {
                a
            } else {
                b
            },
        Op::Gather { input, index, dim } => rules::gather_rule(grad, input, index, dim, Ok(g)),
        Op::IndexSelect { input, indices, dim } => rules::select_rule(
            grad,
            input,
            indices,
            dim,
            Ok(g),
        ),
        Op::Pad { input, padding } => rules::pad_rule(grad, input, padding@, Ok(g)),
        Op::ToDtype { src_dtype, .. } => call_ensures(
            Tensor::to_dtype,
            (&grad, src_dtype),
            Ok::<Tensor<B>, Error>(g),
        ),
    }
}

/// One contribution for each use.
pub open spec fn contributes<B: Backend>(
    op: Op<B>,
    grad: Tensor<B>,
    gs: Seq<Tensor<B>>,
) -> bool {
    &&& gs.len() == used(op).len()
    &&& forall|i: int| 0 <= i < gs.len() ==> contribution(op, grad, i, #[trigger] gs[i])
}

/// The gradients from `k` on are added to a store, one after the other.
pub open spec fn all_given<B: Backend>(
    inputs: Seq<Tensor<B>>,
    gs: Seq<Tensor<B>>,
    k: nat,
    before: Map<u64, Tensor<B>>,
    after: Map<u64, Tensor<B>>,
) -> bool
    decreases inputs.len() - k,
{
    if k >= inputs.len() {
        after == before
    } else {
        exists|mid: Map<u64, Tensor<B>>| #[trigger]
            backprop::given(before, inputs[k as int], Ok(gs[k as int]), Ok(mid)) && all_given(
                inputs,
                gs,
                k + 1,
                mid,
                after,
            )
    }
}

proof fn lemma_all_given_same<B: Backend>(
    inputs: Seq<Tensor<B>>,
    gs: Seq<Tensor<B>>,
    hs: Seq<Tensor<B>>,
    k: nat,
    before: Map<u64, Tensor<B>>,
    after: Map<u64, Tensor<B>>,
)
    requires
        all_given(inputs, gs, k, before, after),
        gs.len() == hs.len() == inputs.len(),
        forall|j: int| k <= j < gs.len() ==> #[trigger] gs[j] == hs[j],
    ensures
        all_given(inputs, hs, k, before, after),
    decreases inputs.len() - k,
{
    if k < inputs.len() {
        let mid = choose|mid: Map<u64, Tensor<B>>| #[trigger]
            backprop::given(before, inputs[k as int], Ok(gs[k as int]), Ok(mid)) && all_given(
                inputs,
                gs,
                k + 1,
                mid,
                after,
            );
        assert(gs[k as int] == hs[k as int]);
        lemma_all_given_same(inputs, gs, hs, k + 1, mid, after);
    }
}

proof fn lemma_one_given<B: Backend>(
    a: Tensor<B>,
    g: Tensor<B>,
    before: Map<u64, Tensor<B>>,
    after: Map<u64, Tensor<B>>,
)
    requires
        backprop::given(before, a, Ok(g), Ok(after)),
    ensures
        all_given(seq![a], seq![g], 0, before, after),
{
    let inputs = seq![a];
    let gs = seq![g];
    assert(all_given(inputs, gs, 1, after, after));
    assert(backprop::given(before, inputs[0], Ok(gs[0]), Ok(after)));
}

proof fn lemma_two_given<B: Backend>(
    a: Tensor<B>,
    g: Tensor<B>,
    b: Tensor<B>,
    h: Tensor<B>,
    before: Map<u64, Tensor<B>>,
    mid: Map<u64, Tensor<B>>,
    after: Map<u64, Tensor<B>>,
)
    requires
        backprop::given(before, a, Ok(g), Ok(mid)),
        backprop::given(mid, b, Ok(h), Ok(after)),
    ensures
        all_given(seq![a, b], seq![g, h], 0, before, after),
{
    let inputs = seq![a, b];
    let gs = seq![g, h];
    assert(all_given(inputs, gs, 2, after, after));
    assert(backprop::given(mid, inputs[1], Ok(gs[1]), Ok(after)));
    assert(all_given(inputs, gs, 1, mid, after));
    assert(backprop::given(before, inputs[0], Ok(gs[0]), Ok(mid)));
}

proof fn lemma_three_given<B: Backend>(
    a: Tensor<B>,
    g: Tensor<B>,
    b: Tensor<B>,
    h: Tensor<B>,
    c: Tensor<B>,
    i: Tensor<B>,
    before: Map<u64, Tensor<B>>,
    m: Map<u64, Tensor<B>>,
    n: Map<u64, Tensor<B>>,
    after: Map<u64, Tensor<B>>,
)
    requires
        backprop::given(before, a, Ok(g), Ok(m)),
        backprop::given(m, b, Ok(h), Ok(n)),
        backprop::given(n, c, Ok(i), Ok(after)),
    ensures
        all_given(seq![a, b, c], seq![g, h, i], 0, before, after),
{
    let inputs = seq![a, b, c];
    let gs = seq![g, h, i];
    assert(all_given(inputs, gs, 3, after, after));
    assert(backprop::given(n, inputs[2], Ok(gs[2]), Ok(after)));
    assert(all_given(inputs, gs, 2, n, after));
    assert(backprop::given(m, inputs[1], Ok(gs[1]), Ok(n)));
    assert(all_given(inputs, gs, 1, m, after));
    assert(backprop::given(before, inputs[0], Ok(gs[0]), Ok(m)));
}

/// The chain rule passes one contribution to each use.
pub open spec fn shared_out<B: Backend>(
    op: Op<B>,
    grad: Tensor<B>,
    gs: Seq<Tensor<B>>,
    before: Map<u64, Tensor<B>>,
    after: Map<u64, Tensor<B>>,
) -> bool {
    contributes(op, grad, gs) && all_given(used(op), gs, 0, before, after)
}

proof fn lemma_single_shared<B: Backend>(
    op: Op<B>,
    grad: Tensor<B>,
    input: Tensor<B>,
    g: Tensor<B>,
    before: Map<u64, Tensor<B>>,
    after: Map<u64, Tensor<B>>,
)
    requires
        used(op) == seq![input],
        contribution(op, grad, 0, g),
        backprop::given(before, input, Ok(g), Ok(after)),
    ensures
        shared_out(op, grad, seq![g], before, after),
{
    lemma_one_given(input, g, before, after);
}

proof fn lemma_binary_shared<B: Backend>(
    o: Op<B>,
    op: BinaryOp,
    grad: Tensor<B>,
    lhs: Tensor<B>,
    rhs: Tensor<B>,
    before: Map<u64, Tensor<B>>,
    after: Map<u64, Tensor<B>>,
)
    requires
        o == (Op::Binary { lhs, rhs, op }),
        backprop::binary_rule(op, grad, lhs, rhs, before, Ok(after)),
    ensures
        exists|gs: Seq<Tensor<B>>| shared_out(o, grad, gs, before, after),
{
    match op {
        BinaryOp::Add => {
            let (a, b) = choose|a: Tensor<B>, b: Tensor<B>|
                {
                    &&& #[trigger] rules::unbroadcast(grad, lhs@.dims(), Ok(a))
                    &&& #[trigger] rules::unbroadcast(grad, rhs@.dims(), Ok(b))
                    &&& backprop::both_given(before, lhs, a, rhs, b, Ok(after))
                };
            assert(binary_part(op, grad, lhs, rhs, 0, grad));
            assert(binary_part(op, grad, lhs, rhs, 1, grad));
            lemma_both_shared(o, op, grad, lhs, rhs, a, b, before, after);
        },
        BinaryOp::Sub => {
            let (a, n, b) = choose|a: Tensor<B>, n: Tensor<B>, b: Tensor<B>|
                {
                    &&& #[trigger] rules::unbroadcast(grad, lhs@.dims(), Ok(a))
                    &&& call_ensures(Tensor::neg, (&grad,), Ok::<Tensor<B>, Error>(n))
                    &&& #[trigger] rules::unbroadcast(n, rhs@.dims(), Ok(b))
                    &&& backprop::both_given(before, lhs, a, rhs, b, Ok(after))
                };
            assert(binary_part(op, grad, lhs, rhs, 0, grad));
            assert(binary_part(op, grad, lhs, rhs, 1, n));
            lemma_both_shared(o, op, grad, lhs, rhs, a, b, before, after);
        },
        BinaryOp::Mul => {
            let (a, b, m) = choose|a: Tensor<B>, b: Tensor<B>, m: Map<u64, Tensor<B>>|
                {
                    &&& elementwise::binary_result(grad, rhs, BinaryOp::Mul, Ok(a))
                    &&& elementwise::binary_result(grad, lhs, BinaryOp::Mul, Ok(b))
                    &&& #[trigger] backprop::reduced_given(before, lhs, a, Ok(m))
                    &&& #[trigger] backprop::reduced_given(m, rhs, b, Ok(after))
                };
            lemma_reduced_shared(o, op, grad, lhs, rhs, a, b, before, m, after);
        },
        BinaryOp::Div => {
            let (a, b, m) = choose|a: Tensor<B>, b: Tensor<B>, m: Map<u64, Tensor<B>>|
                {
                    &&& elementwise::binary_result(grad, rhs, BinaryOp::Div, Ok(a))
                    &&& backprop::divisor_grad(grad, lhs, rhs, Ok(b))
                    &&& #[trigger] backprop::reduced_given(before, lhs, a, Ok(m))
                    &&& #[trigger] backprop::reduced_given(m, rhs, b, Ok(after))
                };
            lemma_reduced_shared(o, op, grad, lhs, rhs, a, b, before, m, after);
        },
    }
}

proof fn lemma_both_shared<B: Backend>(
    o: Op<B>,
    op: BinaryOp,
    grad: Tensor<B>,
    lhs: Tensor<B>,
    rhs: Tensor<B>,
    a: Tensor<B>,
    b: Tensor<B>,
    before: Map<u64, Tensor<B>>,
    after: Map<u64, Tensor<B>>,
)
    requires
        o == (Op::Binary { lhs, rhs, op }),
        binary_contribution(op, grad, lhs, rhs, 0, a),
        binary_contribution(op, grad, lhs, rhs, 1, b),
        backprop::both_given(before, lhs, a, rhs, b, Ok(after)),
    ensures
        exists|gs: Seq<Tensor<B>>| shared_out(o, grad, gs, before, after),
{
    let m = choose|m: Map<u64, Tensor<B>>| #[trigger]
        backprop::given(before, lhs, Ok(a), Ok(m)) && backprop::given(m, rhs, Ok(b), Ok(after));
    lemma_two_given(lhs, a, rhs, b, before, m, after);
    assert(used(o) =~= seq![lhs, rhs]);
    assert(shared_out(o, grad, seq![a, b], before, after));
}

proof fn lemma_reduced_shared<B: Backend>(
    o: Op<B>,
    op: BinaryOp,
    grad: Tensor<B>,
    lhs: Tensor<B>,
    rhs: Tensor<B>,
    a: Tensor<B>,
    b: Tensor<B>,
    before: Map<u64, Tensor<B>>,
    m: Map<u64, Tensor<B>>,
    after: Map<u64, Tensor<B>>,
)
    requires
        o == (Op::Binary { lhs, rhs, op }),
        binary_part(op, grad, lhs, rhs, 0, a),
        binary_part(op, grad, lhs, rhs, 1, b),
        backprop::reduced_given(before, lhs, a, Ok(m)),
        backprop::reduced_given(m, rhs, b, Ok(after)),
    ensures
        exists|gs: Seq<Tensor<B>>| shared_out(o, grad, gs, before, after),
{
    let g = choose|g: Tensor<B>| #[trigger]
        rules::unbroadcast(a, lhs@.dims(), Ok(g)) && backprop::given(before, lhs, Ok(g), Ok(m));
    let h = choose|h: Tensor<B>| #[trigger]
        rules::unbroadcast(b, rhs@.dims(), Ok(h)) && backprop::given(m, rhs, Ok(h), Ok(after));
    assert(binary_contribution(op, grad, lhs, rhs, 0, g));
    assert(binary_contribution(op, grad, lhs, rhs, 1, h));
    lemma_two_given(lhs, g, rhs, h, before, m, after);
    assert(used(o) =~= seq![lhs, rhs]);
    assert(shared_out(o, grad, seq![g, h], before, after));
}

proof fn lemma_cat_shared<B: Backend>(
    o: Op<B>,
    grad: Tensor<B>,
    inputs: Vec<Tensor<B>>,
    sizes: Vec<usize>,
    dim: usize,
    k: nat,
    before: Map<u64, Tensor<B>>,
    after: Map<u64, Tensor<B>>,
) -> (gs: Seq<Tensor<B>>)
    requires
        o == (Op::Cat { inputs, dim, sizes }),
        k <= used(o).len(),
        backprop::cat_rule(
            grad,
            inputs@,
            sizes@,
            dim,
            k,
            offset_of(sizes@, k),
            before,
            Ok(after),
        ),
    ensures
        gs.len() == used(o).len(),
        forall|i: int| k <= i < gs.len() ==> contribution(o, grad, i, #[trigger] gs[i]),
        all_given(used(o), gs, k, before, after),
    decreases inputs@.len() - k,
{
    if k == used(o).len() {
        used(o)
    } else {
        let next = offset_of(sizes@, k + 1);
        let (s, m) = choose|s: Result<Tensor<B>>, m: Map<u64, Tensor<B>>|
            {
                &&& #[trigger] call_ensures(
                    Tensor::narrow,
                    (&grad, dim, offset_of(sizes@, k) as usize, sizes@[k as int]),
                    s,
                )
                &&& #[trigger] backprop::given(before, inputs@[k as int], s, Ok(m))
                &&& backprop::cat_rule(grad, inputs@, sizes@, dim, k + 1, next, m, Ok(after))
            };
        let rest = lemma_cat_shared(o, grad, inputs, sizes, dim, k + 1, m, after);
        let gs = rest.update(k as int, s->Ok_0);
        lemma_all_given_same(used(o), rest, gs, k + 1, m, after);
        assert(backprop::given(before, used(o)[k as int], Ok(gs[k as int]), Ok(m)));
        gs
    }
}

proof fn lemma_conv_shared<B: Backend>(
    o: Op<B>,
    grad: Tensor<B>,
    p: ConvParts<B::Scalar>,
    x: Tensor<B>,
    weight: Tensor<B>,
    bias: Option<Tensor<B>>,
    before: Map<u64, Tensor<B>>,
    after: Map<u64, Tensor<B>>,
)
    requires
        backprop::conv_rule(Ok(p), x, weight, bias, before, Ok(after)),
        used(o) == match bias {
            Some(b) => seq![weight, x, b],
            None => seq![weight, x],
        },
        forall|i: int, g: Tensor<B>| #[trigger]
            conv_contribution(p, x, weight, bias, i, g) ==> contribution(o, grad, i, g),
    ensures
        exists|gs: Seq<Tensor<B>>| shared_out(o, grad, gs, before, after),
{
    let (w, m) = choose|w: Tensor<B>, m: Map<u64, Tensor<B>>|
        {
            &&& #[trigger] conv_rules::weight_rule(p, weight, Ok(w))
            &&& #[trigger] backprop::given(before, weight, Ok(w), Ok(m))
            &&& backprop::conv_rest(p, x, bias, m, Ok(after))
        };
    let (i, n) = choose|i: Tensor<B>, n: Map<u64, Tensor<B>>|
        {
            &&& #[trigger] conv_rules::input_rule(p, x, Ok(i))
            &&& #[trigger] backprop::given(m, x, Ok(i), Ok(n))
            &&& match bias {
                None => after == n,
                Some(b) => exists|g: Result<Tensor<B>>| #[trigger]
                    conv_rules::bias_rule(p, b, g) && backprop::given(n, b, g, Ok(after)),
            }
        };
    assert(conv_contribution(p, x, weight, bias, 0, w));
    assert(conv_contribution(p, x, weight, bias, 1, i));
    match bias {
        None => {
            lemma_two_given(weight, w, x, i, before, m, after);
            assert(shared_out(o, grad, seq![w, i], before, after));
        },
        Some(b) => {
            let g = choose|g: Tensor<B>| #[trigger]
                conv_rules::bias_rule(p, b, Ok(g)) && backprop::given(n, b, Ok(g), Ok(after));
            assert(conv_contribution(p, x, weight, bias, 2, g));
            lemma_three_given(weight, w, x, i, b, g, before, m, n, after);
            assert(shared_out(o, grad, seq![w, i, g], before, after));
        },
    }
}

/// The chain rule of an operation passes one contribution to each use, and
/// adds it to the gradient of the tensor that is used.
pub proof fn law_one_contribution_per_use<B: Backend>(
    op: Op<B>,
    grad: Tensor<B>,
    before: Map<u64, Tensor<B>>,
    after: Map<u64, Tensor<B>>,
)
    requires
        backprop::chain_rule(op, grad, before, Ok(after)),
    ensures
        exists|gs: Seq<Tensor<B>>| shared_out(op, grad, gs, before, after),
{
    match op {
        Op::Leaf => {
            assert(shared_out(op, grad, seq![], before, after));
        },
        Op::Binary { lhs, rhs, op: o } => {
            lemma_binary_shared(op, o, grad, lhs, rhs, before, after);
        },
        Op::Matmul { lhs, rhs } => {
            let (a, m, b) = choose|a: Tensor<B>, m: Map<u64, Tensor<B>>, b: Tensor<B>|
                {
                    &&& rules::left_factor_rule(grad, rhs, Ok(a))
                    &&& #[trigger] backprop::given(before, lhs, Ok(a), Ok(m))
                    &&& rules::right_factor_rule(grad, lhs, Ok(b))
                    &&& #[trigger] backprop::given(m, rhs, Ok(b), Ok(after))
                };
            lemma_two_given(lhs, a, rhs, b, before, m, after);
            assert(shared_out(op, grad, seq![a, b], before, after));
        },
        Op::Conv2d { input, weight, bias, stride, padding } => {
            let p = choose|p: ConvParts<B::Scalar>| #[trigger]
                conv_rules::conv2d_parts_result(grad, input, weight, stride, padding, Ok(p))
                    && backprop::conv_rule(Ok(p), input, weight, bias, before, Ok(after));
            lemma_conv_shared(op, grad, p, input, weight, bias, before, after);
        },
        Op::Conv1d { input, weight, bias, stride, padding } => {
            let p = choose|p: ConvParts<B::Scalar>| #[trigger]
                conv_rules::conv1d_parts_result(grad, input, weight, stride, padding, Ok(p))
                    && backprop::conv_rule(Ok(p), input, weight, bias, before, Ok(after));
            lemma_conv_shared(op, grad, p, input, weight, bias, before, after);
        },
        Op::Cat { inputs, dim, sizes } => {
            let gs = lemma_cat_shared(op, grad, inputs, sizes, dim, 0, before, after);
            assert(shared_out(op, grad, gs, before, after));
        },
        Op::WhereCond { mask, on_true, on_false } => {
            let (a, b) = choose|a: Tensor<B>, b: Tensor<B>|
                {
                    &&& #[trigger] rules::branches_rule(grad, mask, on_true, on_false, Ok((a, b)))
                    &&& backprop::both_given(before, on_true, a, on_false, b, Ok(after))
                };
            let m = choose|m: Map<u64, Tensor<B>>| #[trigger]
                backprop::given(before, on_true, Ok(a), Ok(m)) && backprop::given(
                    m,
                    on_false,
                    Ok(b),
                    Ok(after),
                );
            lemma_two_given(on_true, a, on_false, b, before, m, after);
            assert(shared_out(op, grad, seq![a, b], before, after));
        },
        _ => {
            lemma_rest_shared(op, grad, before, after);
        },
    }
}

/// The same for operations that pass a gradient to one input, or to none.
proof fn lemma_rest_shared<B: Backend>(
    op: Op<B>,
    grad: Tensor<B>,
    before: Map<u64, Tensor<B>>,
    after: Map<u64, Tensor<B>>,
)
    requires
        backprop::chain_rule(op, grad, before, Ok(after)),
        !(op is Leaf || op is Binary || op is Matmul || op is Conv2d || op is Conv1d || op is Cat
            || op is WhereCond),
    ensures
        exists|gs: Seq<Tensor<B>>| shared_out(op, grad, gs, before, after),
{
    if used(op).len() == 0 {
        assert(shared_out(op, grad, seq![], before, after));
    } else {
        let input = used(op)[0];
        assert(used(op) =~= seq![input]);
        let g = choose|g: Tensor<B>| #[trigger]
            backprop::given(before, input, Ok(g), Ok(after)) && contribution(op, grad, 0, g);
        assert(exists|g: Tensor<B>| #[trigger]
            backprop::given(before, input, Ok(g), Ok(after)) && contribution(op, grad, 0, g));
        lemma_single_shared(op, grad, input, g, before, after);
    }
}

/// The contributions from `k` on that go to the tensor with this number.
pub open spec fn toward<B: Backend>(
    inputs: Seq<Tensor<B>>,
    gs: Seq<Tensor<B>>,
    k: nat,
    id: u64,
) -> Seq<Tensor<B>>
    decreases inputs.len() - k,
{
    if k >= inputs.len() {
        seq![]
    } else if graph::number_of(inputs[k as int]) == id && !backprop::constant(inputs[k as int]) {
        seq![gs[k as int]] + toward(inputs, gs, k + 1, id)
    } else {
        toward(inputs, gs, k + 1, id)
    }
}

/// What the first `n` tensors of an order pass to the tensor with this
/// number, the last of them first. `parts` holds the contributions of each.
pub open spec fn received<B: Backend>(
    order: Seq<Tensor<B>>,
    parts: Seq<Seq<Tensor<B>>>,
    n: nat,
    id: u64,
) -> Seq<Tensor<B>>
    decreases n,
{
    if n == 0 {
        seq![]
    } else {
        let now = if parts[n - 1].len() == 0 {
            seq![]
        } else {
            toward(used(order[n - 1]@.op), parts[n - 1], 0, id)
        };
        now + received(order, parts, (n - 1) as nat, id)
    }
}

/// The sum of tensors, added up from the first on.
pub open spec fn summed<B: Backend>(cs: Seq<Tensor<B>>, sum: Tensor<B>) -> bool
    decreases cs.len(),
{
    if cs.len() == 0 {
        false
    } else if cs.len() == 1 {
        sum == cs[0]
    } else {
        exists|part: Tensor<B>| #[trigger]
            elementwise::binary_result(part, cs.last(), BinaryOp::Add, Ok(sum)) && summed(
                cs.drop_last(),
                part,
            )
    }
}

/// A store holds the sum of these contributions, and nothing if there are
/// none.
pub open spec fn holds_sum<B: Backend>(
    grads: Map<u64, Tensor<B>>,
    id: u64,
    cs: Seq<Tensor<B>>,
) -> bool {
    if cs.len() == 0 {
        !grads.dom().contains(id)
    } else {
        grads.dom().contains(id) && summed(cs, grads[id])
    }
}

proof fn lemma_given_sums<B: Backend>(
    before: Map<u64, Tensor<B>>,
    input: Tensor<B>,
    g: Tensor<B>,
    after: Map<u64, Tensor<B>>,
    id: u64,
    cs: Seq<Tensor<B>>,
)
    requires
        backprop::given(before, input, Ok(g), Ok(after)),
        holds_sum(before, id, cs),
    ensures
        graph::number_of(input) == id && !backprop::constant(input) ==> holds_sum(
            after,
            id,
            cs.push(g),
        ),
        graph::number_of(input) != id || backprop::constant(input) ==> holds_sum(after, id, cs),
{
    if graph::number_of(input) == id && !backprop::constant(input) {
        let next = cs.push(g);
        assert(next.last() == g);
        assert(next.drop_last() =~= cs);
        if before.dom().contains(id) {
            let sum = choose|sum: Tensor<B>| #[trigger]
                elementwise::binary_result(before[id], g, BinaryOp::Add, Ok(sum)) && after
                    == before.insert(id, sum);
            assert(elementwise::binary_result(before[id], next.last(), BinaryOp::Add, Ok(sum)));
            assert(summed(next, sum));
        } else {
            assert(summed(next, g));
        }
    }
}

proof fn lemma_all_given_sums<B: Backend>(
    inputs: Seq<Tensor<B>>,
    gs: Seq<Tensor<B>>,
    k: nat,
    before: Map<u64, Tensor<B>>,
    after: Map<u64, Tensor<B>>,
    id: u64,
    cs: Seq<Tensor<B>>,
)
    requires
        all_given(inputs, gs, k, before, after),
        holds_sum(before, id, cs),
    ensures
        holds_sum(after, id, cs + toward(inputs, gs, k, id)),
    decreases inputs.len() - k,
{
    if k >= inputs.len() {
        assert(cs + toward(inputs, gs, k, id) =~= cs);
    } else {
        let input = inputs[k as int];
        let g = gs[k as int];
        let mid = choose|mid: Map<u64, Tensor<B>>| #[trigger]
            backprop::given(before, input, Ok(g), Ok(mid)) && all_given(
                inputs,
                gs,
                k + 1,
                mid,
                after,
            );
        lemma_given_sums(before, input, g, mid, id, cs);
        let rest = toward(inputs, gs, k + 1, id);
        if graph::number_of(input) == id && !backprop::constant(input) {
            lemma_all_given_sums(inputs, gs, k + 1, mid, after, id, cs.push(g));
            assert(cs.push(g) + rest =~= cs + (seq![g] + rest));
        } else {
            lemma_all_given_sums(inputs, gs, k + 1, mid, after, id, cs);
        }
    }
}

proof fn lemma_received_same<B: Backend>(
    order: Seq<Tensor<B>>,
    parts: Seq<Seq<Tensor<B>>>,
    others: Seq<Seq<Tensor<B>>>,
    n: nat,
    id: u64,
)
    requires
        n <= parts.len(),
        n <= others.len(),
        forall|k: int| 0 <= k < n ==> #[trigger] parts[k] == others[k],
    ensures
        received(order, parts, n, id) == received(order, others, n, id),
    decreases n,
{
    if n > 0 {
        lemma_received_same(order, parts, others, (n - 1) as nat, id);
        assert(parts[n - 1] == others[n - 1]);
    }
}

/// Each of the first `n` tensors of an order that has a gradient in the end
/// passed back what that gradient gives; the others passed nothing.
pub open spec fn all_contributed<B: Backend>(
    order: Seq<Tensor<B>>,
    parts: Seq<Seq<Tensor<B>>>,
    n: nat,
    grads: Map<u64, Tensor<B>>,
) -> bool {
    forall|k: int|
        0 <= k < n ==> {
            let id = graph::number_of(order[k]);
            if grads.dom().contains(id) {
                contributes(order[k]@.op, grads[id], #[trigger] parts[k])
            } else {
                parts[k].len() == 0
            }
        }
}

proof fn lemma_walk_sums<B: Backend>(
    order: Seq<Tensor<B>>,
    n: nat,
    before: Map<u64, Tensor<B>>,
    after: Map<u64, Tensor<B>>,
) -> (parts: Seq<Seq<Tensor<B>>>)
    requires
        n <= order.len(),
        backprop::all_different(order),
        graph::inputs_first(order),
        backprop::steps_back(order, n, before, Ok(after)),
    ensures
        parts.len() == n,
        all_contributed(order, parts, n, after),
        forall|id: u64, cs: Seq<Tensor<B>>| #[trigger]
            holds_sum(before, id, cs) ==> holds_sum(
                after,
                id,
                cs + received(order, parts, n, id),
            ),
    decreases n,
{
    if n == 0 {
        let parts = Seq::<Seq<Tensor<B>>>::empty();
        assert forall|id: u64, cs: Seq<Tensor<B>>| #[trigger]
            holds_sum(before, id, cs) implies holds_sum(
            after,
            id,
            cs + received(order, parts, n, id),
        ) by {
            assert(cs + received(order, parts, n, id) =~= cs);
        }
        parts
    } else {
        let t = order[n - 1];
        let me = graph::number_of(t);
        let m = choose|m: Map<u64, Tensor<B>>| #[trigger]
            backprop::step(t, before, Ok(m)) && backprop::steps_back(
                order,
                (n - 1) as nat,
                m,
                Ok(after),
            );
        backprop::lemma_step_keeps_later(order, n - 1, n - 1, before, m);
        backprop::lemma_steps_keep_later(order, (n - 1) as nat, n - 1, m, after);
        let gs = if before.dom().contains(me) {
            law_one_contribution_per_use(t@.op, before[me], before, m);
            choose|gs: Seq<Tensor<B>>| shared_out(t@.op, before[me], gs, before, m)
        } else {
            Seq::<Tensor<B>>::empty()
        };
        let rest = lemma_walk_sums(order, (n - 1) as nat, m, after);
        let parts = rest.push(gs);
        assert forall|k: int| 0 <= k < n implies {
            let id = graph::number_of(order[k]);
            if after.dom().contains(id) {
                contributes(order[k]@.op, after[id], #[trigger] parts[k])
            } else {
                parts[k].len() == 0
            }
        } by {
            if k < n - 1 {
                assert(parts[k] == rest[k]);
            }
        }
        assert forall|id: u64, cs: Seq<Tensor<B>>| #[trigger]
            holds_sum(before, id, cs) implies holds_sum(
            after,
            id,
            cs + received(order, parts, n, id),
        ) by {
            let tail = received(order, parts, (n - 1) as nat, id);
            lemma_received_same(order, parts, rest, (n - 1) as nat, id);
            assert(parts[n - 1] == gs);
            let now = if gs.len() == 0 {
                seq![]
            } else {
                toward(used(t@.op), gs, 0, id)
            };
            if before.dom().contains(me) {
                lemma_all_given_sums(used(t@.op), gs, 0, before, m, id, cs);
                assert(gs.len() == used(t@.op).len());
            } else {
                assert(cs + now =~= cs);
            }
            assert(holds_sum(m, id, cs + now));
            assert((cs + now) + tail =~= cs + (now + tail));
        }
        parts
    }
}

/// What backpropagation starts the gradient of a tensor with: the ones for
/// the root, nothing for the others.
pub open spec fn started<B: Backend>(root: Tensor<B>, one: Tensor<B>, id: u64) -> Seq<Tensor<B>> {
    if id == graph::number_of(root) {
        seq![one]
    } else {
        seq![]
    }
}

/// Accumulation: in a graph without cycles the gradient of every tensor is
/// the sum of one contribution for each use of the tensor (for the root, with
/// the ones that it starts with), and a tensor that gets none has no gradient.
/// Each contribution is the chain rule of the operation that uses the tensor,
/// applied to the complete gradient of that operation's result.
pub proof fn law_gradient_is_sum_of_uses<B: Backend>(
    root: Tensor<B>,
    grads: Map<u64, Tensor<B>>,
) -> (r: (Tensor<B>, Seq<Seq<Tensor<B>>>))
    requires
        backprop::backward_result(root, Ok(grads)),
        graph::acyclic(root),
    ensures
        call_ensures(Tensor::ones_like, (&root,), Ok::<Tensor<B>, Error>(r.0)),
        r.1.len() == graph::topo_order(root).len(),
        all_contributed(graph::topo_order(root), r.1, r.1.len(), grads),
        forall|id: u64| #[trigger]
            holds_sum(
                grads,
                id,
                started(root, r.0, id) + received(
                    graph::topo_order(root),
                    r.1,
                    r.1.len(),
                    id,
                ),
            ),
{
    let order = graph::topo_order(root);
    graph::law_topo_inputs_first(root);
    graph::law_topo_root_last(root);
    let me = graph::number_of(root);
    let one = choose|one: Tensor<B>|
        #[trigger] call_ensures(Tensor::ones_like, (&root,), Ok::<Tensor<B>, Error>(one))
            && backprop::steps_back(
            order,
            order.len(),
            Map::empty().insert(me, one),
            Ok(grads),
        );
    let start = Map::<u64, Tensor<B>>::empty().insert(me, one);
    let parts = lemma_walk_sums(order, order.len(), start, grads);
    assert forall|id: u64| #[trigger]
        holds_sum(
            grads,
            id,
            started(root, one, id) + received(order, parts, parts.len(), id),
        ) by {
        assert(summed(seq![one], one));
        assert(holds_sum(start, id, started(root, one, id)));
    }
    (one, parts)
}

/// Every tensor that an operation passes a gradient to is one of its inputs, so
/// that the walk through the graph reaches it.
pub proof fn law_uses_are_inputs<B: Backend>(op: Op<B>, k: int)
    requires
        0 <= k < used(op).len(),
    ensures
        exists|j: int|
            0 <= j < op.input_list().len() && #[trigger] op.input_list()[j] == used(op)[k],
{
    let list = op.input_list();
    let u = used(op)[k];
    match op {
        Op::Conv2d { .. } | Op::Conv1d { .. } => {
            assert(list[0] == u || list[1] == u || list[2] == u);
        },
        Op::WhereCond { .. } => {
            assert(list[1] == u || list[2] == u);
        },
        Op::Gather { .. } | Op::IndexSelect { .. } => {
            assert(list[0] == u);
        },
        _ => {
            assert(list[k] == u);
        },
    }
}

/// Gradients are kept of variables and of all computed tensors; only leaves that
/// are no variables are passed over.
pub proof fn law_variables_keep_gradients<B: Backend>(
    before: Map<u64, Tensor<B>>,
    input: Tensor<B>,
    g: Tensor<B>,
    after: Map<u64, Tensor<B>>,
)
    requires
        backprop::given(before, input, Ok(g), Ok(after)),
    ensures
        input@.variable || !(input@.op is Leaf) ==> after.dom().contains(graph::number_of(input)),
        (input@.variable || !(input@.op is Leaf)) && !before.dom().contains(
            graph::number_of(input),
        ) ==> after[graph::number_of(input)] == g,
        !input@.variable && input@.op is Leaf ==> after == before,
{
}

/// Backpropagation starts only from a tensor of one element.
pub proof fn law_backward_needs_scalar<B: Backend>(
    root: Tensor<B>,
    r: Result<backprop::GradStore<B>>,
)
    requires
        call_ensures(backprop::backward::<B>, (&root,), r),
        r is Ok,
    ensures
        nd::product(root@.dims()) == 1,
{
}

} // verus!
