//! Backpropagation: reverse-mode automatic differentiation.
//!
//! The operations of a computation form a graph. `backward` sorts it so that
//! every tensor stands after its inputs, starts with the gradient 1 of the
//! result, and walks the order backwards: at each tensor the chain rule gives
//! the gradients of its inputs, which are added up. Leaves that are no
//! variables are constants, and get no gradient.
use crate::backend::{Backend, BinaryOp, ReduceOp};
use crate::conv_rules::{
    self,
    avg_pool_input_grad,
    bias_grad,
    conv1d_parts,
    conv2d_parts,
    input_grad,
    max_pool_input_grad,
    weight_grad,
    ConvParts,
};
use crate::elementwise;
use crate::error::{Error, Result};
use crate::graph::{self, build_topo};
use crate::nd;
use crate::op::{Op, TensorId};
use crate::rules::{
    self,
    branch_grads,
    clamp_input_grad,
    gather_input_grad,
    left_factor_grad,
    narrow_input_grad,
    pad_input_grad,
    powf_grad,
    reduce_broadcast_grad,
    reduce_grad,
    right_factor_grad,
    select_input_grad,
    unary_grad,
};
use crate::scalar::Scalar;
use crate::shaping;
use crate::tensor::Tensor;
use crate::views::{self, inverse_order};
use std::collections::HashMap;
use vstd::prelude::*;

verus! {

/// Stores gradients for the tensors of a computation graph.
///
/// `backward` returns one; `get` gives the gradient of a tensor.
#[verifier::reject_recursive_types(B)]
pub struct GradStore<B: Backend> {
    grads: HashMap<u64, Tensor<B>>,
}

/// The gradients in a store, by the numbers of the tensors.
impl<B: Backend> View for GradStore<B> {
    type V = Map<u64, Tensor<B>>;

    closed spec fn view(&self) -> Map<u64, Tensor<B>> {
        self.grads@
    }
}

/// A gradient is added to a store: to the gradient that is there, if there
/// is one.
pub open spec fn accumulated<B: Backend>(
    before: Map<u64, Tensor<B>>,
    id: u64,
    grad: Tensor<B>,
    after: Result<Map<u64, Tensor<B>>>,
) -> bool {
    if before.dom().contains(id) {
        exists|sum: Result<Tensor<B>>| #[trigger]
            elementwise::binary_result(before[id], grad, BinaryOp::Add, sum) && match sum {
                Err(e) => after == Err::<Map<u64, Tensor<B>>, _>(e),
                Ok(s) => after == Ok::<Map<u64, Tensor<B>>, Error>(before.insert(id, s)),
            }
    } else {
        after == Ok::<Map<u64, Tensor<B>>, Error>(before.insert(id, grad))
    }
}

/// A leaf that is not a variable: constant data, or a frozen parameter. It
/// accumulates no gradient.
pub open spec fn constant<B: Backend>(t: Tensor<B>) -> bool {
    t@.op is Leaf && !t@.variable
}

/// A gradient that was computed is added to a store, unless it is that of a
/// constant; an error is passed on.
pub open spec fn given<B: Backend>(
    before: Map<u64, Tensor<B>>,
    input: Tensor<B>,
    grad: Result<Tensor<B>>,
    after: Result<Map<u64, Tensor<B>>>,
) -> bool {
    match grad {
        Err(e) => after == Err::<Map<u64, Tensor<B>>, _>(e),
        Ok(g) => if constant(input) {
            after == Ok::<Map<u64, Tensor<B>>, Error>(before)
        } else {
            accumulated(before, graph::number_of(input), g, after)
        },
    }
}

/// The store after a step that succeeded, else the error.
pub open spec fn outcome<B: Backend>(r: Result<()>, now: Map<u64, Tensor<B>>) -> Result<
    Map<u64, Tensor<B>>,
> {
    match r {
        Ok(_) => Ok(now),
        Err(e) => Err(e),
    }
}

impl<B: Backend> Clone for GradStore<B> {
    fn clone(&self) -> (r: Self)
        ensures
            r@ == self@,
    {
        GradStore { grads: self.grads.clone() }
    }
}

impl<B: Backend> Default for GradStore<B> {
    fn default() -> (r: Self)
        ensures
            r@ == Map::<u64, Tensor<B>>::empty(),
    {
        Self::new()
    }
}

impl<B: Backend> GradStore<B> {
    /// Create a new empty store.
    pub fn new() -> (r: Self)
        ensures
            r@ == Map::<u64, Tensor<B>>::empty(),
    {
        GradStore { grads: HashMap::new() }
    }

    /// The gradient of a tensor, if there is one.
    pub fn get(&self, tensor: &Tensor<B>) -> (r: Option<&Tensor<B>>)
        ensures
            match r {
                Some(g) => self@.dom().contains(graph::number_of(*tensor)) && *g
                    == self@[graph::number_of(*tensor)],
                None => !self@.dom().contains(graph::number_of(*tensor)),
            },
    {
        self.get_by_id(tensor.id())
    }

    fn get_by_id(&self, id: TensorId) -> (r: Option<&Tensor<B>>)
        ensures
            match r {
                Some(g) => self@.dom().contains(id.number()) && *g == self@[id.number()],
                None => !self@.dom().contains(id.number()),
            },
    {
        broadcast use vstd::std_specs::hash::group_hash_axioms;

        let key: u64 = id.key();
        self.grads.get(&key)
    }

    /// Accumulate a gradient for a tensor: if there is a gradient, the new
    /// one is added to it. A failed addition changes nothing.
    pub fn accumulate(&mut self, id: TensorId, grad: Tensor<B>) -> (r: Result<()>)
        ensures
            accumulated(old(self)@, id.number(), grad, outcome(r, final(self)@)),
            r is Err ==> final(self)@ == old(self)@,
    {
        broadcast use vstd::std_specs::hash::group_hash_axioms;

        let key: u64 = id.key();
        let sum: Option<Tensor<B>> = match self.get_by_id(id) {
            Some(existing) => {
                match existing.add(&grad) {
                    Ok(s) => Some(s),
                    Err(e) => {
                        return Err(e);
                    },
                }
            },
            None => None,
        };
        match sum {
            Some(s) => {
                self.grads.insert(key, s);
            },
            None => {
                self.grads.insert(key, grad);
            },
        }
        Ok(())
    }

    /// Adds the gradient of a tensor, unless the tensor is a constant, or
    /// passes an error on.
    fn give(&mut self, input: &Tensor<B>, grad: Result<Tensor<B>>) -> (r: Result<()>)
        ensures
            given(old(self)@, *input, grad, outcome(r, final(self)@)),
    {
        match grad {
            Ok(g) => {
                if is_constant(input) {
                    Ok(())
                } else {
                    self.accumulate(input.id(), g)
                }
            },
            Err(e) => Err(e),
        }
    }
}

fn is_constant<B: Backend>(t: &Tensor<B>) -> (r: bool)
    ensures
        r == constant(*t),
{
    match t.op() {
        Op::Leaf => !t.is_variable(),
        _ => false,
    }
}

/// Two gradients are added, one after the other.
pub open spec fn both_given<B: Backend>(
    before: Map<u64, Tensor<B>>,
    a: Tensor<B>,
    grad_a: Tensor<B>,
    b: Tensor<B>,
    grad_b: Tensor<B>,
    after: Result<Map<u64, Tensor<B>>>,
) -> bool {
    exists|mid: Result<Map<u64, Tensor<B>>>| #[trigger]
        given(before, a, Ok(grad_a), mid) && match mid {
            Err(e) => after == Err::<Map<u64, Tensor<B>>, _>(e),
            Ok(m) => given(m, b, Ok(grad_b), after),
        }
}

/// A gradient is brought to the shape of the tensor and added.
pub open spec fn reduced_given<B: Backend>(
    before: Map<u64, Tensor<B>>,
    input: Tensor<B>,
    raw: Tensor<B>,
    after: Result<Map<u64, Tensor<B>>>,
) -> bool {
    exists|g: Result<Tensor<B>>| #[trigger]
        rules::unbroadcast(raw, input@.dims(), g) && given(before, input, g, after)
}

/// Addition: both inputs get the gradient.
pub open spec fn add_rule<B: Backend>(
    grad: Tensor<B>,
    lhs: Tensor<B>,
    rhs: Tensor<B>,
    before: Map<u64, Tensor<B>>,
    after: Result<Map<u64, Tensor<B>>>,
) -> bool {
    exists|a: Result<Tensor<B>>| #[trigger]
        rules::unbroadcast(grad, lhs@.dims(), a) && match a {
            Err(e) => after == Err::<Map<u64, Tensor<B>>, _>(e),
            Ok(a) => exists|b: Result<Tensor<B>>| #[trigger]
                rules::unbroadcast(grad, rhs@.dims(), b) && match b {
                    Err(e) => after == Err::<Map<u64, Tensor<B>>, _>(e),
                    Ok(b) => both_given(before, lhs, a, rhs, b, after),
                },
        }
}

/// Subtraction: the left input gets the gradient, the right one its
/// negative.
pub open spec fn sub_rule<B: Backend>(
    grad: Tensor<B>,
    lhs: Tensor<B>,
    rhs: Tensor<B>,
    before: Map<u64, Tensor<B>>,
    after: Result<Map<u64, Tensor<B>>>,
) -> bool {
    exists|a: Result<Tensor<B>>| #[trigger]
        rules::unbroadcast(grad, lhs@.dims(), a) && match a {
            Err(e) => after == Err::<Map<u64, Tensor<B>>, _>(e),
            Ok(a) => exists|neg: Result<Tensor<B>>| #[trigger]
                call_ensures(Tensor::neg, (&grad,), neg) && match neg {
                    Err(e) => after == Err::<Map<u64, Tensor<B>>, _>(e),
                    Ok(neg) => exists|b: Result<Tensor<B>>| #[trigger]
                        rules::unbroadcast(neg, rhs@.dims(), b) && match b {
                            Err(e) => after == Err::<Map<u64, Tensor<B>>, _>(e),
                            Ok(b) => both_given(before, lhs, a, rhs, b, after),
                        },
                },
        }
}

/// Multiplication: each input gets the gradient times the other.
pub open spec fn mul_rule<B: Backend>(
    grad: Tensor<B>,
    lhs: Tensor<B>,
    rhs: Tensor<B>,
    before: Map<u64, Tensor<B>>,
    after: Result<Map<u64, Tensor<B>>>,
) -> bool {
    exists|a: Result<Tensor<B>>| #[trigger]
        elementwise::binary_result(grad, rhs, BinaryOp::Mul, a) && match a {
            Err(e) => after == Err::<Map<u64, Tensor<B>>, _>(e),
            Ok(a) => exists|b: Result<Tensor<B>>| #[trigger]
                elementwise::binary_result(grad, lhs, BinaryOp::Mul, b) && match b {
                    Err(e) => after == Err::<Map<u64, Tensor<B>>, _>(e),
                    Ok(b) => exists|mid: Result<Map<u64, Tensor<B>>>| #[trigger]
                        reduced_given(before, lhs, a, mid) && match mid {
                            Err(e) => after == Err::<Map<u64, Tensor<B>>, _>(e),
                            Ok(m) => reduced_given(m, rhs, b, after),
                        },
                },
        }
}

/// The gradient of a divisor, before it is brought to its shape: the negative
/// gradient times the dividend, over the square of the divisor.
pub open spec fn divisor_grad<B: Backend>(
    grad: Tensor<B>,
    lhs: Tensor<B>,
    rhs: Tensor<B>,
    r: Result<Tensor<B>>,
) -> bool {
    exists|neg: Result<Tensor<B>>| #[trigger]
        call_ensures(Tensor::neg, (&grad,), neg) && match neg {
            Err(e) => r == Err::<Tensor<B>, _>(e),
            Ok(neg) => exists|q: Result<Tensor<B>>| #[trigger]
                elementwise::binary_result(rhs, rhs, BinaryOp::Mul, q) && match q {
                    Err(e) => r == Err::<Tensor<B>, _>(e),
                    Ok(q) => exists|p: Result<Tensor<B>>| #[trigger]
                        elementwise::binary_result(neg, lhs, BinaryOp::Mul, p) && match p {
                            Err(e) => r == Err::<Tensor<B>, _>(e),
                            Ok(p) => elementwise::binary_result(p, q, BinaryOp::Div, r),
                        },
                },
        }
}

fn divisor_gradient<B: Backend>(grad: &Tensor<B>, lhs: &Tensor<B>, rhs: &Tensor<B>) -> (r: Result<
    Tensor<B>,
>)
    ensures
        divisor_grad(*grad, *lhs, *rhs, r),
{
    let neg = grad.neg()?;
    let q = rhs.mul(rhs)?;
    let p = neg.mul(lhs)?;
    p.div(&q)
}

/// Division: the dividend gets the gradient over the divisor.
pub open spec fn div_rule<B: Backend>(
    grad: Tensor<B>,
    lhs: Tensor<B>,
    rhs: Tensor<B>,
    before: Map<u64, Tensor<B>>,
    after: Result<Map<u64, Tensor<B>>>,
) -> bool {
    exists|a: Result<Tensor<B>>| #[trigger]
        elementwise::binary_result(grad, rhs, BinaryOp::Div, a) && match a {
            Err(e) => after == Err::<Map<u64, Tensor<B>>, _>(e),
            Ok(a) => exists|mid: Result<Map<u64, Tensor<B>>>| #[trigger]
                reduced_given(before, lhs, a, mid) && match mid {
                    Err(e) => after == Err::<Map<u64, Tensor<B>>, _>(e),
                    Ok(m) => exists|b: Result<Tensor<B>>| #[trigger]
                        divisor_grad(grad, lhs, rhs, b) && match b {
                            Err(e) => after == Err::<Map<u64, Tensor<B>>, _>(e),
                            Ok(b) => reduced_given(m, rhs, b, after),
                        },
                },
        }
}

/// The gradients of the inputs of a binary operation.
pub open spec fn binary_rule<B: Backend>(
    op: BinaryOp,
    grad: Tensor<B>,
    lhs: Tensor<B>,
    rhs: Tensor<B>,
    before: Map<u64, Tensor<B>>,
    after: Result<Map<u64, Tensor<B>>>,
) -> bool {
    match op {
        BinaryOp::Add => add_rule(grad, lhs, rhs, before, after),
        BinaryOp::Sub => sub_rule(grad, lhs, rhs, before, after),
        BinaryOp::Mul => mul_rule(grad, lhs, rhs, before, after),
        BinaryOp::Div => div_rule(grad, lhs, rhs, before, after),
    }
}

/// The gradients of both factors of a matrix product.
pub open spec fn matmul_rule<B: Backend>(
    grad: Tensor<B>,
    lhs: Tensor<B>,
    rhs: Tensor<B>,
    before: Map<u64, Tensor<B>>,
    after: Result<Map<u64, Tensor<B>>>,
) -> bool {
    exists|a: Result<Tensor<B>>, mid: Result<Map<u64, Tensor<B>>>|
        {
            &&& #[trigger] rules::left_factor_rule(grad, rhs, a)
            &&& #[trigger] given(before, lhs, a, mid)
            &&& match mid {
                Err(e) => after == Err::<Map<u64, Tensor<B>>, _>(e),
                Ok(m) => exists|b: Result<Tensor<B>>| #[trigger]
                    rules::right_factor_rule(grad, lhs, b) && given(m, rhs, b, after),
            }
        }
}

/// The gradients of the weight, the input and the bias of a convolution.
pub open spec fn conv_rule<B: Backend>(
    parts: Result<ConvParts<B::Scalar>>,
    x: Tensor<B>,
    weight: Tensor<B>,
    bias: Option<Tensor<B>>,
    before: Map<u64, Tensor<B>>,
    after: Result<Map<u64, Tensor<B>>>,
) -> bool {
    match parts {
        Err(e) => after == Err::<Map<u64, Tensor<B>>, _>(e),
        Ok(p) => exists|w: Result<Tensor<B>>, mid: Result<Map<u64, Tensor<B>>>|
            {
                &&& #[trigger] conv_rules::weight_rule(p, weight, w)
                &&& #[trigger] given(before, weight, w, mid)
                &&& match mid {
                    Err(e) => after == Err::<Map<u64, Tensor<B>>, _>(e),
                    Ok(m) => conv_rest(p, x, bias, m, after),
                }
            },
    }
}

/// The gradients of the input and the bias of a convolution.
pub open spec fn conv_rest<B: Backend>(
    p: ConvParts<B::Scalar>,
    x: Tensor<B>,
    bias: Option<Tensor<B>>,
    before: Map<u64, Tensor<B>>,
    after: Result<Map<u64, Tensor<B>>>,
) -> bool {
    exists|i: Result<Tensor<B>>, mid: Result<Map<u64, Tensor<B>>>|
        {
            &&& #[trigger] conv_rules::input_rule(p, x, i)
            &&& #[trigger] given(before, x, i, mid)
            &&& match mid {
                Err(e) => after == Err::<Map<u64, Tensor<B>>, _>(e),
                Ok(m) => match bias {
                    None => after == mid,
                    Some(b) => exists|g: Result<Tensor<B>>| #[trigger]
                        conv_rules::bias_rule(p, b, g) && given(m, b, g, after),
                },
            }
        }
}

/// The gradients of the inputs from `k` on of a concatenation: the slices of
/// the gradient, the first of them at `offset`.
pub open spec fn cat_rule<B: Backend>(
    grad: Tensor<B>,
    inputs: Seq<Tensor<B>>,
    sizes: Seq<usize>,
    dim: usize,
    k: nat,
    offset: nat,
    before: Map<u64, Tensor<B>>,
    after: Result<Map<u64, Tensor<B>>>,
) -> bool
    decreases inputs.len() - k,
{
    if k >= inputs.len() || k >= sizes.len() {
        after == Ok::<Map<u64, Tensor<B>>, Error>(before)
    } else {
        exists|s: Result<Tensor<B>>, mid: Result<Map<u64, Tensor<B>>>|
            {
                &&& #[trigger] call_ensures(
                    Tensor::narrow,
                    (&grad, dim, offset as usize, sizes[k as int]),
                    s,
                )
                &&& #[trigger] given(before, inputs[k as int], s, mid)
                &&& match mid {
                    Err(e) => after == Err::<Map<u64, Tensor<B>>, _>(e),
                    Ok(m) => cat_rule(
                        grad,
                        inputs,
                        sizes,
                        dim,
                        k + 1,
                        offset + sizes[k as int] as nat,
                        m,
                        after,
                    ),
                }
            }
    }
}

/// The gradients of both branches of a selection by a mask.
pub open spec fn where_rule<B: Backend>(
    grad: Tensor<B>,
    mask: Tensor<B>,
    on_true: Tensor<B>,
    on_false: Tensor<B>,
    before: Map<u64, Tensor<B>>,
    after: Result<Map<u64, Tensor<B>>>,
) -> bool {
    exists|r: Result<(Tensor<B>, Tensor<B>)>| #[trigger]
        rules::branches_rule(grad, mask, on_true, on_false, r) && match r {
            Err(e) => after == Err::<Map<u64, Tensor<B>>, _>(e),
            Ok(pair) => both_given(before, on_true, pair.0, on_false, pair.1, after),
        }
}

impl<B: Backend> GradStore<B> {
    /// Adds two gradients, one after the other.
    fn give_both(
        &mut self,
        a: &Tensor<B>,
        grad_a: Tensor<B>,
        b: &Tensor<B>,
        grad_b: Tensor<B>,
    ) -> (r: Result<()>)
        ensures
            both_given(old(self)@, *a, grad_a, *b, grad_b, outcome(r, final(self)@)),
    {
        self.give(a, Ok(grad_a))?;
        self.give(b, Ok(grad_b))
    }

    /// Brings a gradient to the shape of the tensor and adds it.
    fn give_reduced(&mut self, input: &Tensor<B>, raw: &Tensor<B>) -> (r: Result<()>)
        ensures
            reduced_given(old(self)@, *input, *raw, outcome(r, final(self)@)),
    {
        let g = reduce_broadcast_grad(raw, input.shape());
        self.give(input, g)
    }

    fn add_grads(&mut self, grad: &Tensor<B>, lhs: &Tensor<B>, rhs: &Tensor<B>) -> (r: Result<()>)
        ensures
            add_rule(*grad, *lhs, *rhs, old(self)@, outcome(r, final(self)@)),
    {
        let a = reduce_broadcast_grad(grad, lhs.shape())?;
        let b = reduce_broadcast_grad(grad, rhs.shape())?;
        self.give_both(lhs, a, rhs, b)
    }

    fn sub_grads(&mut self, grad: &Tensor<B>, lhs: &Tensor<B>, rhs: &Tensor<B>) -> (r: Result<()>)
        ensures
            sub_rule(*grad, *lhs, *rhs, old(self)@, outcome(r, final(self)@)),
    {
        let a = reduce_broadcast_grad(grad, lhs.shape())?;
        let neg = grad.neg()?;
        let b = reduce_broadcast_grad(&neg, rhs.shape())?;
        self.give_both(lhs, a, rhs, b)
    }

    fn mul_grads(&mut self, grad: &Tensor<B>, lhs: &Tensor<B>, rhs: &Tensor<B>) -> (r: Result<()>)
        ensures
            mul_rule(*grad, *lhs, *rhs, old(self)@, outcome(r, final(self)@)),
    {
        let a = grad.mul(rhs)?;
        let b = grad.mul(lhs)?;
        self.give_reduced(lhs, &a)?;
        self.give_reduced(rhs, &b)
    }

    fn div_grads(&mut self, grad: &Tensor<B>, lhs: &Tensor<B>, rhs: &Tensor<B>) -> (r: Result<()>)
        ensures
            div_rule(*grad, *lhs, *rhs, old(self)@, outcome(r, final(self)@)),
    {
        let a = grad.div(rhs)?;
        self.give_reduced(lhs, &a)?;
        let b = divisor_gradient(grad, lhs, rhs)?;
        self.give_reduced(rhs, &b)
    }

    /// Adds the gradients of the inputs of a binary operation.
    fn binary_grads(
        &mut self,
        op: BinaryOp,
        grad: &Tensor<B>,
        lhs: &Tensor<B>,
        rhs: &Tensor<B>,
    ) -> (r: Result<()>)
        ensures
            binary_rule(op, *grad, *lhs, *rhs, old(self)@, outcome(r, final(self)@)),
    {
        match op {
            BinaryOp::Add => self.add_grads(grad, lhs, rhs),
            BinaryOp::Sub => self.sub_grads(grad, lhs, rhs),
            BinaryOp::Mul => self.mul_grads(grad, lhs, rhs),
            BinaryOp::Div => self.div_grads(grad, lhs, rhs),
        }
    }

    /// Adds the gradients of both factors of a matrix product.
    fn matmul_grads(
        &mut self,
        grad: &Tensor<B>,
        lhs: &Tensor<B>,
        rhs: &Tensor<B>,
    ) -> (r: Result<()>)
        ensures
            matmul_rule(*grad, *lhs, *rhs, old(self)@, outcome(r, final(self)@)),
    {
        let a = left_factor_grad(grad, rhs);
        self.give(lhs, a)?;
        let b = right_factor_grad(grad, lhs);
        self.give(rhs, b)
    }

    /// Adds the gradients of the weight, the input and the bias of a
    /// convolution.
    fn conv_grads(
        &mut self,
        parts: Result<ConvParts<B::Scalar>>,
        x: &Tensor<B>,
        weight: &Tensor<B>,
        bias: &Option<Tensor<B>>,
    ) -> (r: Result<()>)
        requires
            parts matches Ok(p) ==> conv_rules::parts_valid(p) && p.weight@.len() == nd::product(
                weight@.dims(),
            ),
        ensures
            conv_rule(parts, *x, *weight, *bias, old(self)@, outcome(r, final(self)@)),
    {
        let p = parts?;
        let w = weight_grad(&p, weight);
        let ghost made = w;
        self.give(weight, w)?;
        assert(made is Ok);
        let i = input_grad(&p, x);
        self.give(x, i)?;
        match bias {
            None => Ok(()),
            Some(b) => {
                let g = bias_grad(&p, b);
                self.give(b, g)
            },
        }
    }

    /// Adds the gradients of both branches of a selection by a mask.
    fn where_grads(
        &mut self,
        grad: &Tensor<B>,
        mask: &Tensor<B>,
        on_true: &Tensor<B>,
        on_false: &Tensor<B>,
    ) -> (r: Result<()>)
        ensures
            where_rule(*grad, *mask, *on_true, *on_false, old(self)@, outcome(r, final(self)@)),
    {
        let pair = branch_grads(grad, mask, on_true, on_false)?;
        let (a, b) = pair;
        self.give_both(on_true, a, on_false, b)
    }

    /// Adds the gradients of the inputs of a concatenation.
    fn cat_grads(
        &mut self,
        grad: &Tensor<B>,
        inputs: &[Tensor<B>],
        sizes: &[usize],
        dim: usize,
    ) -> (r: Result<()>)
        ensures
            cat_rule(
                *grad,
                inputs@,
                sizes@,
                dim,
                0,
                0,
                old(self)@,
                outcome(r, final(self)@),
            ),
    {
        let ghost start = self@;
        let n: usize = inputs.len();
        let m: usize = sizes.len();
        let mut offset: usize = 0;
        let mut k: usize = 0;
        while k < n && k < m
            invariant
                n == inputs@.len(),
                m == sizes@.len(),
                start == old(self)@,
                k <= n,
                forall|y: Result<Map<u64, Tensor<B>>>| #[trigger]
                    cat_rule(
                        *grad,
                        inputs@,
                        sizes@,
                        dim,
                        k as nat,
                        offset as nat,
                        self@,
                        y,
                    ) ==> cat_rule(*grad, inputs@, sizes@, dim, 0, 0, start, y),
            decreases n - k,
        {
            let ghost before = self@;
            let at: usize = k;
            let from: usize = offset;
            k += 1;
            let input = &inputs[at];
            let size: usize = sizes[at];
            let s = grad.narrow(dim, from, size);
            let ghost slice = s;
            assert(call_ensures(Tensor::narrow, (grad, dim, from, sizes@[at as int]), slice));
            match self.give(input, s) {
                Err(e) => {
                    assert(given(before, inputs@[at as int], slice, Err(e)));
                    assert(cat_rule(
                        *grad,
                        inputs@,
                        sizes@,
                        dim,
                        at as nat,
                        from as nat,
                        before,
                        Err(e),
                    ));
                    return Err(e);
                },
                Ok(_) => {},
            }
            assert(given(before, inputs@[at as int], slice, Ok(self@)));
            offset = from + size;
            assert forall|y: Result<Map<u64, Tensor<B>>>| #[trigger]
                cat_rule(
                    *grad,
                    inputs@,
                    sizes@,
                    dim,
                    k as nat,
                    offset as nat,
                    self@,
                    y,
                ) implies cat_rule(
                *grad,
                inputs@,
                sizes@,
                dim,
                at as nat,
                from as nat,
                before,
                y,
            ) by {}
        }
        assert(cat_rule(
            *grad,
            inputs@,
            sizes@,
            dim,
            k as nat,
            offset as nat,
            self@,
            Ok(self@),
        ));
        Ok(())
    }
}

/// The chain rule: the gradients that the inputs of an operation get from the
/// gradient of its output.
pub open spec fn chain_rule<B: Backend>(
    op: Op<B>,
    grad: Tensor<B>,
    before: Map<u64, Tensor<B>>,
    after: Result<Map<u64, Tensor<B>>>,
) -> bool {
    match op {
        Op::Leaf => after == Ok::<Map<u64, Tensor<B>>, Error>(before),
        Op::Contiguous { input } => given(before, input, Ok(grad), after),
        Op::Binary { lhs, rhs, op } => binary_rule(op, grad, lhs, rhs, before, after),
        Op::Unary { input, op } => exists|g: Result<Tensor<B>>| #[trigger]
            rules::unary_rule(op, grad, input, g) && given(before, input, g, after),
        Op::Reduce { input, op, dims, .. } => if op is ArgMax || op is ArgMin {
            after == Ok::<Map<u64, Tensor<B>>, Error>(before)
        } else {
            exists|g: Result<Tensor<B>>| #[trigger]
                rules::reduce_rule(op, grad, input, dims@, g) && given(before, input, g, after)
        },
        Op::Matmul { lhs, rhs } => matmul_rule(grad, lhs, rhs, before, after),
        Op::Reshape { input, src_shape } => exists|g: Result<Tensor<B>>| #[trigger]
            shaping::reshape_result(grad, src_shape@, g) && given(before, input, g, after),
        Op::Transpose { input, dim0, dim1 } => exists|g: Result<Tensor<B>>| #[trigger]
            call_ensures(Tensor::transpose, (&grad, dim0, dim1), g) && given(
                before,
                input,
                g,
                after,
            ),
        Op::Permute { input, dims } => exists|g: Result<Tensor<B>>| #[trigger]
            shaping::permute_result(grad, views::inverse(dims@), g) && given(
                before,
                input,
                g,
                after,
            ),
        Op::Narrow { input, dim, start, .. } => exists|g: Result<Tensor<B>>| #[trigger]
            rules::narrow_rule(grad, input, dim, start, g) && given(before, input, g, after),
        Op::Affine { input, mul, .. } => exists|g: Result<Tensor<B>>| #[trigger]
            call_ensures(Tensor::affine, (&grad, mul, <B::Scalar as Scalar>::zero_val()), g)
                && given(before, input, g, after),
        Op::Conv2d { input, weight, bias, stride, padding } => exists|
            p: Result<ConvParts<B::Scalar>>,
        | #[trigger]
            conv_rules::conv2d_parts_result(grad, input, weight, stride, padding, p) && conv_rule(
                p,
                input,
                weight,
                bias,
                before,
                after,
            ),
        Op::Conv1d { input, weight, bias, stride, padding } => exists|
            p: Result<ConvParts<B::Scalar>>,
        | #[trigger]
            conv_rules::conv1d_parts_result(grad, input, weight, stride, padding, p) && conv_rule(
                p,
                input,
                weight,
                bias,
                before,
                after,
            ),
        Op::MaxPool2d { input, indices, .. } => exists|g: Result<Tensor<B>>| #[trigger]
            conv_rules::max_pool_rule(grad, input, indices@, g) && given(before, input, g, after),
        Op::AvgPool2d { input, kernel_size, stride, padding } => exists|
            g: Result<Tensor<B>>,
        | #[trigger]
            conv_rules::avg_pool_rule(grad, input, kernel_size, stride, padding, g) && given(
                before,
                input,
                g,
                after,
            ),
        Op::Cat { inputs, dim, sizes } => cat_rule(
            grad,
            inputs@,
            sizes@,
            dim,
            0,
            0,
            before,
            after,
        ),
        Op::Powf { input, exponent } => exists|g: Result<Tensor<B>>| #[trigger]
            rules::powf_rule(grad, input, exponent, g) && given(before, input, g, after),
        Op::Clamp { input, min, max } => exists|g: Result<Tensor<B>>| #[trigger]
            rules::clamp_rule(grad, input, min, max, g) && given(before, input, g, after),
        Op::WhereCond { mask, on_true, on_false } => where_rule(
            grad,
            mask,
            on_true,
            on_false,
            before,
            after,
        ),
        Op::Gather { input, index, dim } => exists|g: Result<Tensor<B>>| #[trigger]
            rules::gather_rule(grad, input, index, dim, g) && given(before, input, g, after),
        Op::IndexSelect { input, indices, dim } => exists|g: Result<Tensor<B>>| #[trigger]
            rules::select_rule(grad, input, indices, dim, g) && given(before, input, g, after),
        Op::Pad { input, padding } => exists|g: Result<Tensor<B>>| #[trigger]
            rules::pad_rule(grad, input, padding@, g) && given(before, input, g, after),
        Op::ToDtype { input, src_dtype } => exists|g: Result<Tensor<B>>| #[trigger]
            call_ensures(Tensor::to_dtype, (&grad, src_dtype), g) && given(
                before,
                input,
                g,
                after,
            ),
    }
}

/// One step back: the chain rule at a tensor that has a gradient.
pub open spec fn step<B: Backend>(
    t: Tensor<B>,
    before: Map<u64, Tensor<B>>,
    after: Result<Map<u64, Tensor<B>>>,
) -> bool {
    if before.dom().contains(graph::number_of(t)) {
        chain_rule(t@.op, before[graph::number_of(t)], before, after)
    } else {
        after == Ok::<Map<u64, Tensor<B>>, Error>(before)
    }
}

/// The steps back from the first `n` tensors of an order, the last of them
/// first.
pub open spec fn steps_back<B: Backend>(
    order: Seq<Tensor<B>>,
    n: nat,
    before: Map<u64, Tensor<B>>,
    after: Result<Map<u64, Tensor<B>>>,
) -> bool
    decreases n,
{
    if n == 0 {
        after == Ok::<Map<u64, Tensor<B>>, Error>(before)
    } else {
        exists|mid: Result<Map<u64, Tensor<B>>>| #[trigger]
            step(order[n - 1], before, mid) && match mid {
                Err(e) => after == Err::<Map<u64, Tensor<B>>, _>(e),
                Ok(m) => steps_back(order, (n - 1) as nat, m, after),
            }
    }
}

/// The message about a tensor that is not a scalar.
pub open spec fn is_backward_error(e: Error) -> bool {
    e matches Error::Msg(m) && m@
        == "backward() requires a scalar tensor (single element). Use .sum_all() or .mean_all() to reduce to a scalar first."@
}

/// The gradients of a scalar: it starts with the gradient 1, and the chain
/// rule is applied at each tensor of the graph, the root first.
pub open spec fn backward_result<B: Backend>(
    root: Tensor<B>,
    r: Result<Map<u64, Tensor<B>>>,
) -> bool {
    if nd::product(root@.dims()) != 1 {
        r matches Err(e) && is_backward_error(e)
    } else {
        exists|one: Result<Tensor<B>>| #[trigger]
            call_ensures(Tensor::ones_like, (&root,), one) && match one {
                Err(e) => r == Err::<Map<u64, Tensor<B>>, _>(e),
                Ok(one) => steps_back(
                    graph::topo_order(root),
                    graph::topo_order(root).len(),
                    Map::empty().insert(graph::number_of(root), one),
                    r,
                ),
            }
    }
}

/// The gradients of a store that was made, else the error.
pub open spec fn stored_grads<B: Backend>(r: Result<GradStore<B>>) -> Result<
    Map<u64, Tensor<B>>,
> {
    match r {
        Ok(store) => Ok(store@),
        Err(e) => Err(e),
    }
}

impl<B: Backend> GradStore<B> {
    /// Applies the chain rule: adds the gradients of the inputs of an
    /// operation, given the gradient of its output.
    fn propagate(&mut self, op: &Op<B>, grad: &Tensor<B>) -> (r: Result<()>)
        ensures
            chain_rule(*op, *grad, old(self)@, outcome(r, final(self)@)),
    {
        match op {
            Op::Leaf => Ok(()),
            Op::Contiguous { input } => self.give(input, Ok(grad.clone())),
            Op::Binary { lhs, rhs, op } => self.binary_grads(*op, grad, lhs, rhs),
            Op::Unary { input, op } => {
                let g = unary_grad(*op, grad, input);
                self.give(input, g)
            },
            Op::Reduce { input, op, dims, .. } => match op {
                ReduceOp::ArgMax => Ok(()),
                ReduceOp::ArgMin => Ok(()),
                _ => {
                    let g = reduce_grad(*op, grad, input, dims.as_slice());
                    self.give(input, g)
                },
            },
            Op::Matmul { lhs, rhs } => self.matmul_grads(grad, lhs, rhs),
            Op::Reshape { input, src_shape } => {
                let g = grad.reshape_to(src_shape.clone());
                self.give(input, g)
            },
            Op::Transpose { input, dim0, dim1 } => {
                let g = grad.transpose(*dim0, *dim1);
                self.give(input, g)
            },
            Op::Permute { input, dims } => {
                let back = inverse_order(dims.as_slice());
                let g = grad.permute(back.as_slice());
                self.give(input, g)
            },
            Op::Narrow { input, dim, start, .. } => {
                let g = narrow_input_grad(grad, input, *dim, *start);
                self.give(input, g)
            },
            Op::Affine { input, mul, .. } => {
                let zero: B::Scalar = <B::Scalar as Scalar>::zero();
                let g = grad.affine(*mul, zero);
                self.give(input, g)
            },
            Op::Conv2d { input, weight, bias, stride, padding } => {
                let parts = conv2d_parts(grad, input, weight, *stride, *padding);
                self.conv_grads(parts, input, weight, bias)
            },
            Op::Conv1d { input, weight, bias, stride, padding } => {
                let parts = conv1d_parts(grad, input, weight, *stride, *padding);
                self.conv_grads(parts, input, weight, bias)
            },
            Op::MaxPool2d { input, indices, .. } => {
                let g = max_pool_input_grad(grad, input, indices.as_slice());
                self.give(input, g)
            },
            Op::AvgPool2d { input, kernel_size, stride, padding } => {
                let g = avg_pool_input_grad(grad, input, *kernel_size, *stride, *padding);
                self.give(input, g)
            },
            Op::Cat { inputs, dim, sizes } => self.cat_grads(
                grad,
                inputs.as_slice(),
                sizes.as_slice(),
                *dim,
            ),
            Op::Powf { input, exponent } => {
                let g = powf_grad(grad, input, *exponent);
                self.give(input, g)
            },
            Op::Clamp { input, min, max } => {
                let g = clamp_input_grad(grad, input, *min, *max);
                self.give(input, g)
            },
            Op::WhereCond { mask, on_true, on_false } => self.where_grads(
                grad,
                mask,
                on_true,
                on_false,
            ),
            Op::Gather { input, index, dim } => {
                let g = gather_input_grad(grad, input, index, *dim);
                self.give(input, g)
            },
            Op::IndexSelect { input, indices, dim } => {
                let g = select_input_grad(grad, input, indices, *dim);
                self.give(input, g)
            },
            Op::Pad { input, padding } => {
                let g = pad_input_grad(grad, input, padding.as_slice());
                self.give(input, g)
            },
            Op::ToDtype { input, src_dtype } => {
                let g = grad.to_dtype(*src_dtype);
                self.give(input, g)
            },
        }
    }

    /// One step back: applies the chain rule at a tensor that has a gradient.
    fn step_back(&mut self, t: &Tensor<B>) -> (r: Result<()>)
        ensures
            step(*t, old(self)@, outcome(r, final(self)@)),
    {
        let grad = match self.get(t) {
            Some(g) => g.clone(),
            None => {
                return Ok(());
            },
        };
        self.propagate(t.op(), &grad)
    }
}

/// Compute gradients of `root` with respect to all tensors of its graph.
///
/// `root` must be a scalar tensor (single element).
pub fn backward<B: Backend>(root: &Tensor<B>) -> (r: Result<GradStore<B>>)
    ensures
        backward_result(*root, stored_grads(r)),
{
    if root.elem_count() != 1 {
        return Err(
            Error::Msg(
                "backward() requires a scalar tensor (single element). Use .sum_all() or .mean_all() to reduce to a scalar first.".to_owned(),
            ),
        );
    }
    let topo = build_topo(root);
    let mut store: GradStore<B> = GradStore::new();
    let one = Tensor::ones_like(root)?;
    store.accumulate(root.id(), one)?;
    let ghost start = store@;
    assert(start == Map::empty().insert(graph::number_of(*root), one));
    let n: usize = topo.len();
    let mut k: usize = n;
    while k > 0
        invariant
            k <= n,
            n == topo@.len(),
            topo@ == graph::topo_order(*root),
            nd::product(root@.dims()) == 1,
            call_ensures(Tensor::ones_like, (root,), Ok::<Tensor<B>, Error>(one)),
            start == Map::empty().insert(graph::number_of(*root), one),
            forall|y: Result<Map<u64, Tensor<B>>>| #[trigger]
                steps_back(topo@, k as nat, store@, y) ==> steps_back(
                    topo@,
                    n as nat,
                    start,
                    y,
                ),
        decreases k,
    {
        let ghost before = store@;
        k -= 1;
        match store.step_back(&topo[k]) {
            Err(e) => {
                assert(step(topo@[k as int], before, Err(e)));
                assert(steps_back(topo@, (k + 1) as nat, before, Err(e)));
                return Err(e);
            },
            Ok(_) => {
                assert(step(topo@[k as int], before, Ok(store@)));
            },
        }
        assert forall|y: Result<Map<u64, Tensor<B>>>| #[trigger]
            steps_back(topo@, k as nat, store@, y) implies steps_back(
            topo@,
            (k + 1) as nat,
            before,
            y,
        ) by {}
    }
    assert(steps_back(topo@, 0, store@, Ok(store@)));
    Ok(store)
}

impl<B: Backend> Tensor<B> {
    /// Compute the gradients of this scalar with respect to all tensors that
    /// it was computed from.
    pub fn backward(&self) -> (r: Result<GradStore<B>>)
        ensures
            backward_result(*self, stored_grads(r)),
    {
        backward(self)
    }
}

/// One of the tensors has the number, and is no constant.
pub open spec fn named<B: Backend>(inputs: Seq<Tensor<B>>, id: u64) -> bool {
    exists|i: int|
        0 <= i < inputs.len() && graph::number_of(#[trigger] inputs[i]) == id && !constant(
            inputs[i],
        )
}

/// No gradient is lost, and only those of the given tensors are new or
/// changed, and of these not those of constants.
pub open spec fn only_for<B: Backend>(
    before: Map<u64, Tensor<B>>,
    after: Map<u64, Tensor<B>>,
    inputs: Seq<Tensor<B>>,
) -> bool {
    &&& forall|id: u64| before.dom().contains(id) ==> #[trigger] after.dom().contains(id)
    &&& forall|id: u64| #[trigger]
        after.dom().contains(id) && !named(inputs, id) ==> before.dom().contains(id) && after[id]
            == before[id]
}

proof fn lemma_given_only<B: Backend>(
    before: Map<u64, Tensor<B>>,
    inputs: Seq<Tensor<B>>,
    i: int,
    grad: Result<Tensor<B>>,
    after: Map<u64, Tensor<B>>,
)
    requires
        0 <= i < inputs.len(),
        given(before, inputs[i], grad, Ok(after)),
    ensures
        only_for(before, after, inputs),
{
    assert(!constant(inputs[i]) ==> named(inputs, graph::number_of(inputs[i])));
}

proof fn lemma_only_twice<B: Backend>(
    a: Map<u64, Tensor<B>>,
    b: Map<u64, Tensor<B>>,
    c: Map<u64, Tensor<B>>,
    inputs: Seq<Tensor<B>>,
)
    requires
        only_for(a, b, inputs),
        only_for(b, c, inputs),
    ensures
        only_for(a, c, inputs),
{
}

proof fn lemma_both_only<B: Backend>(
    before: Map<u64, Tensor<B>>,
    inputs: Seq<Tensor<B>>,
    i: int,
    a: Tensor<B>,
    j: int,
    b: Tensor<B>,
    after: Map<u64, Tensor<B>>,
)
    requires
        0 <= i < inputs.len(),
        0 <= j < inputs.len(),
        both_given(before, inputs[i], a, inputs[j], b, Ok(after)),
    ensures
        only_for(before, after, inputs),
{
    let mid = choose|mid: Result<Map<u64, Tensor<B>>>| #[trigger]
        given(before, inputs[i], Ok(a), mid) && match mid {
            Err(e) => Ok::<Map<u64, Tensor<B>>, Error>(after) == Err::<Map<u64, Tensor<B>>, _>(e),
            Ok(m) => given(m, inputs[j], Ok(b), Ok(after)),
        };
    let m = mid->Ok_0;
    lemma_given_only(before, inputs, i, Ok(a), m);
    lemma_given_only(m, inputs, j, Ok(b), after);
    lemma_only_twice(before, m, after, inputs);
}

proof fn lemma_reduced_only<B: Backend>(
    before: Map<u64, Tensor<B>>,
    inputs: Seq<Tensor<B>>,
    i: int,
    raw: Tensor<B>,
    after: Map<u64, Tensor<B>>,
)
    requires
        0 <= i < inputs.len(),
        reduced_given(before, inputs[i], raw, Ok(after)),
    ensures
        only_for(before, after, inputs),
{
    let g = choose|g: Result<Tensor<B>>| #[trigger]
        rules::unbroadcast(raw, inputs[i]@.dims(), g) && given(before, inputs[i], g, Ok(after));
    lemma_given_only(before, inputs, i, g, after);
}

proof fn lemma_binary_only<B: Backend>(
    op: BinaryOp,
    grad: Tensor<B>,
    lhs: Tensor<B>,
    rhs: Tensor<B>,
    before: Map<u64, Tensor<B>>,
    after: Map<u64, Tensor<B>>,
)
    requires
        binary_rule(op, grad, lhs, rhs, before, Ok(after)),
    ensures
        only_for(before, after, seq![lhs, rhs]),
{
    let inputs = seq![lhs, rhs];
    assert(inputs[0] == lhs && inputs[1] == rhs);
    match op {
        BinaryOp::Add | BinaryOp::Sub => {
            let (a, b) = choose|a: Tensor<B>, b: Tensor<B>| #[trigger]
                both_given(before, lhs, a, rhs, b, Ok(after));
            lemma_both_only(before, inputs, 0, a, 1, b, after);
        },
        BinaryOp::Mul | BinaryOp::Div => {
            let (a, m, b) = choose|a: Tensor<B>, m: Map<u64, Tensor<B>>, b: Tensor<B>|
                #[trigger] reduced_given(before, lhs, a, Ok(m)) && #[trigger] reduced_given(
                    m,
                    rhs,
                    b,
                    Ok(after),
                );
            lemma_reduced_only(before, inputs, 0, a, m);
            lemma_reduced_only(m, inputs, 1, b, after);
            lemma_only_twice(before, m, after, inputs);
        },
    }
}

proof fn lemma_cat_only<B: Backend>(
    grad: Tensor<B>,
    inputs: Seq<Tensor<B>>,
    sizes: Seq<usize>,
    dim: usize,
    k: nat,
    offset: nat,
    before: Map<u64, Tensor<B>>,
    after: Map<u64, Tensor<B>>,
)
    requires
        cat_rule(grad, inputs, sizes, dim, k, offset, before, Ok(after)),
    ensures
        only_for(before, after, inputs),
    decreases inputs.len() - k,
{
    if k < inputs.len() && k < sizes.len() {
        let next = offset + sizes[k as int] as nat;
        let (s, m) = choose|s: Result<Tensor<B>>, m: Map<u64, Tensor<B>>|
            #[trigger] given(before, inputs[k as int], s, Ok(m)) && cat_rule(
                grad,
                inputs,
                sizes,
                dim,
                k + 1,
                next,
                m,
                Ok(after),
            );
        lemma_given_only(before, inputs, k as int, s, m);
        lemma_cat_only(grad, inputs, sizes, dim, k + 1, next, m, after);
        lemma_only_twice(before, m, after, inputs);
    }
}

proof fn lemma_conv_only<B: Backend>(
    parts: Result<ConvParts<B::Scalar>>,
    x: Tensor<B>,
    weight: Tensor<B>,
    bias: Option<Tensor<B>>,
    before: Map<u64, Tensor<B>>,
    after: Map<u64, Tensor<B>>,
    inputs: Seq<Tensor<B>>,
)
    requires
        conv_rule(parts, x, weight, bias, before, Ok(after)),
        inputs == match bias {
            Some(b) => seq![x, weight, b],
            None => seq![x, weight],
        },
    ensures
        only_for(before, after, inputs),
{
    let p = parts->Ok_0;
    let (w, m) = choose|w: Result<Tensor<B>>, m: Map<u64, Tensor<B>>|
        #[trigger] given(before, weight, w, Ok(m)) && conv_rest(p, x, bias, m, Ok(after));
    assert(inputs[0] == x && inputs[1] == weight);
    lemma_given_only(before, inputs, 1, w, m);
    let (i, n) = choose|i: Result<Tensor<B>>, n: Map<u64, Tensor<B>>|
        #[trigger] given(m, x, i, Ok(n)) && match bias {
            None => after == n,
            Some(b) => exists|g: Result<Tensor<B>>| #[trigger]
                conv_rules::bias_rule(p, b, g) && given(n, b, g, Ok(after)),
        };
    lemma_given_only(m, inputs, 0, i, n);
    lemma_only_twice(before, m, n, inputs);
    if bias is Some {
        let b = bias->0;
        let g = choose|g: Result<Tensor<B>>| #[trigger]
            conv_rules::bias_rule(p, b, g) && given(n, b, g, Ok(after));
        assert(inputs[2] == b);
        lemma_given_only(n, inputs, 2, g, after);
        lemma_only_twice(before, n, after, inputs);
    }
}

/// The chain rule loses no gradient, and adds to those of the operation's
/// inputs only: those that are no constants.
pub proof fn law_chain_rule_inputs_only<B: Backend>(
    op: Op<B>,
    grad: Tensor<B>,
    before: Map<u64, Tensor<B>>,
    after: Map<u64, Tensor<B>>,
)
    requires
        chain_rule(op, grad, before, Ok(after)),
    ensures
        only_for(before, after, op.input_list()),
{
    let inputs = op.input_list();
    match op {
        Op::Leaf => {},
        Op::Binary { lhs, rhs, op: o } => {
            lemma_binary_only(o, grad, lhs, rhs, before, after);
        },
        Op::Matmul { lhs, rhs } => {
            assert(inputs[0] == lhs && inputs[1] == rhs);
            let (a, m, b) = choose|
                a: Result<Tensor<B>>,
                m: Map<u64, Tensor<B>>,
                b: Result<Tensor<B>>,
            |
                #[trigger] given(before, lhs, a, Ok(m)) && #[trigger] given(m, rhs, b, Ok(after));
            lemma_given_only(before, inputs, 0, a, m);
            lemma_given_only(m, inputs, 1, b, after);
            lemma_only_twice(before, m, after, inputs);
        },
        Op::Conv2d { input, weight, bias, stride, padding } => {
            let p = choose|p: Result<ConvParts<B::Scalar>>| #[trigger]
                conv_rules::conv2d_parts_result(grad, input, weight, stride, padding, p)
                    && conv_rule(p, input, weight, bias, before, Ok(after));
            lemma_conv_only(p, input, weight, bias, before, after, inputs);
        },
        Op::Conv1d { input, weight, bias, stride, padding } => {
            let p = choose|p: Result<ConvParts<B::Scalar>>| #[trigger]
                conv_rules::conv1d_parts_result(grad, input, weight, stride, padding, p)
                    && conv_rule(p, input, weight, bias, before, Ok(after));
            lemma_conv_only(p, input, weight, bias, before, after, inputs);
        },
        Op::Cat { inputs: ts, dim, sizes } => {
            lemma_cat_only(grad, ts@, sizes@, dim, 0, 0, before, after);
        },
        Op::WhereCond { mask, on_true, on_false } => {
            assert(inputs[1] == on_true && inputs[2] == on_false);
            let (a, b) = choose|a: Tensor<B>, b: Tensor<B>| #[trigger]
                both_given(before, on_true, a, on_false, b, Ok(after));
            lemma_both_only(before, inputs, 1, a, 2, b, after);
        },
        _ => {
            let input = inputs[0];
            if after != before {
                let g = choose|g: Result<Tensor<B>>| #[trigger]
                    given(before, input, g, Ok(after));
                lemma_given_only(before, inputs, 0, g, after);
            }
        },
    }
}

/// A step back loses no gradient, and adds to those of the tensor's inputs
/// only.
proof fn lemma_step_only<B: Backend>(
    t: Tensor<B>,
    before: Map<u64, Tensor<B>>,
    after: Map<u64, Tensor<B>>,
)
    requires
        step(t, before, Ok(after)),
    ensures
        only_for(before, after, graph::inputs_of(t)),
{
    if before.dom().contains(graph::number_of(t)) {
        law_chain_rule_inputs_only(t@.op, before[graph::number_of(t)], before, after);
    }
}

/// Each input of the tensors of an order is below the root.
spec fn inputs_below<B: Backend>(order: Seq<Tensor<B>>, n: nat, root: Tensor<B>) -> bool {
    forall|k: int, i: int|
        0 <= k < n && 0 <= i < graph::inputs_of(order[k]).len() ==> graph::below(
            root,
            graph::number_of(#[trigger] graph::inputs_of(#[trigger] order[k])[i]),
        )
}

proof fn lemma_steps_below<B: Backend>(
    order: Seq<Tensor<B>>,
    n: nat,
    root: Tensor<B>,
    before: Map<u64, Tensor<B>>,
    after: Map<u64, Tensor<B>>,
)
    requires
        n <= order.len(),
        inputs_below(order, n, root),
        steps_back(order, n, before, Ok(after)),
    ensures
        forall|id: u64| before.dom().contains(id) ==> #[trigger] after.dom().contains(id),
        forall|id: u64| #[trigger]
            after.dom().contains(id) && !graph::below(root, id) ==> before.dom().contains(id)
                && after[id] == before[id],
    decreases n,
{
    if n > 0 {
        let t = order[n - 1];
        let m = choose|m: Map<u64, Tensor<B>>| #[trigger]
            step(t, before, Ok(m)) && steps_back(order, (n - 1) as nat, m, Ok(after));
        lemma_step_only(t, before, m);
        lemma_steps_below(order, (n - 1) as nat, root, m, after);
        assert forall|id: u64| #[trigger]
            after.dom().contains(id) && !graph::below(root, id) implies before.dom().contains(id)
            && after[id] == before[id] by {
            assert(m.dom().contains(id));
            if named(graph::inputs_of(t), id) {
                let i = choose|i: int|
                    0 <= i < graph::inputs_of(t).len() && graph::number_of(
                        #[trigger] graph::inputs_of(t)[i],
                    ) == id;
                assert(graph::below(root, graph::number_of(graph::inputs_of(order[n - 1])[i])));
            }
        }
    }
}

/// Backpropagation gives gradients to the root and to the tensors that it was
/// computed from, directly or not, and to no others.
pub proof fn law_gradients_of_graph<B: Backend>(root: Tensor<B>, grads: Map<u64, Tensor<B>>)
    requires
        backward_result(root, Ok(grads)),
    ensures
        grads.dom().contains(graph::number_of(root)),
        forall|id: u64| #[trigger]
            grads.dom().contains(id) ==> id == graph::number_of(root) || graph::below(root, id),
{
    let order = graph::topo_order(root);
    graph::law_topo_below_root(root);
    let one = choose|one: Tensor<B>|
        #[trigger] steps_back(
            order,
            order.len(),
            Map::empty().insert(graph::number_of(root), one),
            Ok(grads),
        );
    let start = Map::<u64, Tensor<B>>::empty().insert(graph::number_of(root), one);
    lemma_steps_below(order, order.len(), root, start, grads);
    assert(start.dom().contains(graph::number_of(root)));
}

/// All tensors of a graph with this number that are used in it are constants.
pub open spec fn only_constants<B: Backend>(order: Seq<Tensor<B>>, n: nat, id: u64) -> bool {
    forall|k: int, i: int|
        0 <= k < n && 0 <= i < graph::inputs_of(order[k]).len() && graph::number_of(
            #[trigger] graph::inputs_of(#[trigger] order[k])[i],
        ) == id ==> constant(graph::inputs_of(order[k])[i])
}

proof fn lemma_steps_skip_constants<B: Backend>(
    order: Seq<Tensor<B>>,
    n: nat,
    id: u64,
    before: Map<u64, Tensor<B>>,
    after: Map<u64, Tensor<B>>,
)
    requires
        n <= order.len(),
        only_constants(order, n, id),
        !before.dom().contains(id),
        steps_back(order, n, before, Ok(after)),
    ensures
        !after.dom().contains(id),
    decreases n,
{
    if n > 0 {
        let t = order[n - 1];
        let m = choose|m: Map<u64, Tensor<B>>| #[trigger]
            step(t, before, Ok(m)) && steps_back(order, (n - 1) as nat, m, Ok(after));
        lemma_step_only(t, before, m);
        if named(graph::inputs_of(t), id) {
            let i = choose|i: int|
                0 <= i < graph::inputs_of(t).len() && graph::number_of(
                    #[trigger] graph::inputs_of(t)[i],
                ) == id && !constant(graph::inputs_of(t)[i]);
            assert(constant(graph::inputs_of(order[n - 1])[i]));
        }
        lemma_steps_skip_constants(order, (n - 1) as nat, id, m, after);
    }
}

/// A leaf that is not a variable, such as a frozen parameter, has no gradient
/// after backpropagation, whatever was computed from it. (It may have one if
/// it is the root itself, or if a tensor with its number that is no constant
/// is used as well.)
pub proof fn law_constants_have_no_gradient<B: Backend>(
    root: Tensor<B>,
    leaf: Tensor<B>,
    grads: Map<u64, Tensor<B>>,
)
    requires
        backward_result(root, Ok(grads)),
        graph::number_of(leaf) != graph::number_of(root),
        only_constants(
            graph::topo_order(root),
            graph::topo_order(root).len(),
            graph::number_of(leaf),
        ),
    ensures
        !grads.dom().contains(graph::number_of(leaf)),
{
    let order = graph::topo_order(root);
    let one = choose|one: Tensor<B>|
        #[trigger] steps_back(
            order,
            order.len(),
            Map::empty().insert(graph::number_of(root), one),
            Ok(grads),
        );
    let start = Map::<u64, Tensor<B>>::empty().insert(graph::number_of(root), one);
    lemma_steps_skip_constants(order, order.len(), graph::number_of(leaf), start, grads);
}

/// In a graph without cycles the gradient of the root is the ones that it
/// started with.
pub proof fn law_root_gradient_is_one<B: Backend>(root: Tensor<B>, grads: Map<u64, Tensor<B>>)
    requires
        backward_result(root, Ok(grads)),
        graph::acyclic(root),
    ensures
        call_ensures(
            Tensor::ones_like,
            (&root,),
            Ok::<Tensor<B>, Error>(grads[graph::number_of(root)]),
        ),
{
    let order = graph::topo_order(root);
    graph::law_topo_below_root(root);
    let one = choose|one: Tensor<B>|
        #[trigger] call_ensures(Tensor::ones_like, (&root,), Ok::<Tensor<B>, Error>(one))
            && steps_back(
            order,
            order.len(),
            Map::empty().insert(graph::number_of(root), one),
            Ok(grads),
        );
    let start = Map::<u64, Tensor<B>>::empty().insert(graph::number_of(root), one);
    lemma_steps_below(order, order.len(), root, start, grads);
    assert(start.dom().contains(graph::number_of(root)));
    assert(grads.dom().contains(graph::number_of(root)));
}

/// Two stores agree on a gradient.
pub open spec fn same_at<B: Backend>(
    a: Map<u64, Tensor<B>>,
    b: Map<u64, Tensor<B>>,
    id: u64,
) -> bool {
    &&& a.dom().contains(id) <==> b.dom().contains(id)
    &&& a.dom().contains(id) ==> a[id] == b[id]
}

/// No two tensors of an order have the same number.
pub open spec fn all_different<B: Backend>(order: Seq<Tensor<B>>) -> bool {
    forall|j: int, k: int|
        0 <= j < k < order.len() ==> graph::number_of(#[trigger] order[j]) != graph::number_of(
            #[trigger] order[k],
        )
}

/// A step back at a tensor of the order does not touch that tensor, nor those
/// after it.
pub proof fn lemma_step_keeps_later<B: Backend>(
    order: Seq<Tensor<B>>,
    j: int,
    k: int,
    before: Map<u64, Tensor<B>>,
    after: Map<u64, Tensor<B>>,
)
    requires
        0 <= j <= k < order.len(),
        all_different(order),
        graph::inputs_first(order),
        step(order[j], before, Ok(after)),
    ensures
        same_at(before, after, graph::number_of(order[k])),
{
    lemma_step_only(order[j], before, after);
    let id = graph::number_of(order[k]);
    if named(graph::inputs_of(order[j]), id) {
        let i = choose|i: int|
            0 <= i < graph::inputs_of(order[j]).len() && graph::number_of(
                #[trigger] graph::inputs_of(order[j])[i],
            ) == id;
        assert(graph::stands_before(
            order,
            j,
            graph::number_of(graph::inputs_of(order[j])[i]),
        ));
        let p = choose|p: int| 0 <= p < j && graph::number_of(#[trigger] order[p]) == id;
        assert(graph::number_of(order[p]) != graph::number_of(order[k]));
    }
}

pub proof fn lemma_steps_keep_later<B: Backend>(
    order: Seq<Tensor<B>>,
    n: nat,
    k: int,
    before: Map<u64, Tensor<B>>,
    after: Map<u64, Tensor<B>>,
)
    requires
        n <= k < order.len(),
        all_different(order),
        graph::inputs_first(order),
        steps_back(order, n, before, Ok(after)),
    ensures
        same_at(before, after, graph::number_of(order[k])),
    decreases n,
{
    if n > 0 {
        let m = choose|m: Map<u64, Tensor<B>>| #[trigger]
            step(order[n - 1], before, Ok(m)) && steps_back(order, (n - 1) as nat, m, Ok(after));
        lemma_step_keeps_later(order, n - 1, k, before, m);
        lemma_steps_keep_later(order, (n - 1) as nat, k, m, after);
    }
}

/// The chain rule was applied at a tensor with the gradient that it has in
/// the end.
pub open spec fn stepped_with_final<B: Backend>(t: Tensor<B>, grads: Map<u64, Tensor<B>>) -> bool {
    exists|before: Map<u64, Tensor<B>>, after: Map<u64, Tensor<B>>| #[trigger]
        step(t, before, Ok(after)) && same_at(before, grads, graph::number_of(t))
}

proof fn lemma_steps_final<B: Backend>(
    order: Seq<Tensor<B>>,
    n: nat,
    k: int,
    before: Map<u64, Tensor<B>>,
    after: Map<u64, Tensor<B>>,
)
    requires
        0 <= k < n <= order.len(),
        all_different(order),
        graph::inputs_first(order),
        steps_back(order, n, before, Ok(after)),
    ensures
        stepped_with_final(order[k], after),
    decreases n,
{
    let m = choose|m: Map<u64, Tensor<B>>| #[trigger]
        step(order[n - 1], before, Ok(m)) && steps_back(order, (n - 1) as nat, m, Ok(after));
    if k == n - 1 {
        lemma_step_keeps_later(order, k, k, before, m);
        lemma_steps_keep_later(order, (n - 1) as nat, k, m, after);
        assert(step(order[k], before, Ok(m)));
    } else {
        lemma_steps_final(order, (n - 1) as nat, k, m, after);
    }
}

/// In a graph without cycles the chain rule is applied at each tensor once
/// its gradient is complete: with the gradient that it has in the end.
pub proof fn law_gradient_complete<B: Backend>(
    root: Tensor<B>,
    grads: Map<u64, Tensor<B>>,
    k: int,
)
    requires
        backward_result(root, Ok(grads)),
        graph::acyclic(root),
        0 <= k < graph::topo_order(root).len(),
    ensures
        stepped_with_final(graph::topo_order(root)[k], grads),
{
    let order = graph::topo_order(root);
    graph::law_topo_inputs_first(root);
    graph::law_topo_root_last(root);
    let one = choose|one: Tensor<B>|
        #[trigger] steps_back(
            order,
            order.len(),
            Map::empty().insert(graph::number_of(root), one),
            Ok(grads),
        );
    lemma_steps_final(
        order,
        order.len(),
        k,
        Map::<u64, Tensor<B>>::empty().insert(graph::number_of(root), one),
        grads,
    );
}

} // verus!
