//! The gradient of a weighted sum of a permuted tensor.
use crate::backend::{Backend, BinaryOp, ReduceOp};
use crate::backprop;
use crate::contributions;
use crate::elementwise;
use crate::elements;
use crate::error::Error;
use crate::grad_shapes;
use crate::graph::{self, Walk};
use crate::host;
use crate::layout::{self, LayoutView};
use crate::nd;
use crate::op::Op;
use crate::rules;
use crate::scalar::Scalar;
use crate::shape::{self, Shape};
use crate::shaping;
use crate::tensor::{self, Tensor};
use crate::views;
use vstd::prelude::*;

verus! {

proof fn lemma_visit_one<B: Backend>(t: Tensor<B>, u: Tensor<B>, w: Walk<B>)
    requires
        graph::inputs_of(t) == seq![u],
        !w.seen.contains(graph::number_of(t)),
    ensures
        ({
            let start = Walk { seen: w.seen.insert(graph::number_of(t)), order: w.order };
            let v = graph::visit(u, start);
            graph::visit(t, w) == (Walk { seen: v.seen, order: v.order.push(t) })
        }),
{
    let start = Walk { seen: w.seen.insert(graph::number_of(t)), order: w.order };
    assert(graph::visit_inputs(t, 0, start) == start);
    assert(graph::inputs_of(t)[0] == u);
    assert(graph::visit_inputs(t, 1, start) == graph::visit(u, start));
}

proof fn lemma_visit_two<B: Backend>(t: Tensor<B>, a: Tensor<B>, b: Tensor<B>, w: Walk<B>)
    requires
        graph::inputs_of(t) == seq![a, b],
        !w.seen.contains(graph::number_of(t)),
    ensures
        ({
            let start = Walk { seen: w.seen.insert(graph::number_of(t)), order: w.order };
            let v = graph::visit(b, graph::visit(a, start));
            graph::visit(t, w) == (Walk { seen: v.seen, order: v.order.push(t) })
        }),
{
    let start = Walk { seen: w.seen.insert(graph::number_of(t)), order: w.order };
    assert(graph::visit_inputs(t, 0, start) == start);
    assert(graph::inputs_of(t)[0] == a && graph::inputs_of(t)[1] == b);
    assert(graph::visit_inputs(t, 1, start) == graph::visit(a, start));
    assert(graph::visit_inputs(t, 2, start) == graph::visit(b, graph::visit(a, start)));
}

/// The sum of the products of a permuted tensor with weights, in a graph
/// without cycles. The tensor is no constant, and the weights were not made
/// from it: it is used nowhere else.
pub open spec fn weighted_sum<B: Backend>(
    x: Tensor<B>,
    order: Seq<usize>,
    y: Tensor<B>,
    w: Tensor<B>,
    p: Tensor<B>,
    root: Tensor<B>,
) -> bool {
    &&& !backprop::constant(x)
    &&& w@.dims() == y@.dims()
    &&& shaping::permute_result(x, order, Ok(y))
    &&& elementwise::binary_result(y, w, BinaryOp::Mul, Ok(p))
    &&& elementwise::reduction_result(p, ReduceOp::Sum, seq![], false, Ok(root))
    &&& graph::acyclic(root)
    &&& apart(w, graph::number_of(x))
    &&& apart(w, graph::number_of(y))
}

/// A tensor does not have the number, and neither has a tensor below it.
pub open spec fn apart<B: Backend>(t: Tensor<B>, number: u64) -> bool {
    graph::number_of(t) != number && !graph::below(t, number)
}

/// No tensor with the number is an input of the tensor.
spec fn unused_by<B: Backend>(t: Tensor<B>, number: u64) -> bool {
    forall|i: int|
        0 <= i < graph::inputs_of(t).len() ==> graph::number_of(
            #[trigger] graph::inputs_of(t)[i],
        ) != number
}

/// An operation passes gradients to inputs only.
proof fn lemma_used_is_input<B: Backend>(t: Tensor<B>, i: int)
    requires
        0 <= i < contributions::used(t@.op).len(),
    ensures
        exists|j: int|
            0 <= j < graph::inputs_of(t).len() && #[trigger] graph::inputs_of(t)[j]
                == contributions::used(t@.op)[i],
{
    let u = contributions::used(t@.op);
    let list = graph::inputs_of(t);
    match t@.op {
        Op::Conv2d { .. } | Op::Conv1d { .. } => {
            if i < 2 {
                assert(list[1 - i] == u[i]);
            } else {
                assert(list[i] == u[i]);
            }
        },
        Op::WhereCond { .. } => {
            assert(list[i + 1] == u[i]);
        },
        _ => {
            assert(list[i] == u[i]);
        },
    }
}

/// Nothing goes to a tensor that is not used.
proof fn lemma_toward_nothing<B: Backend>(
    inputs: Seq<Tensor<B>>,
    gs: Seq<Tensor<B>>,
    k: nat,
    id: u64,
)
    requires
        forall|i: int| k <= i < inputs.len() ==> graph::number_of(#[trigger] inputs[i]) != id,
    ensures
        contributions::toward(inputs, gs, k, id) =~= seq![],
    decreases inputs.len() - k,
{
    if k < inputs.len() {
        lemma_toward_nothing(inputs, gs, k + 1, id);
    }
}

/// What a tensor receives, if at most one tensor of the order uses it.
proof fn lemma_received_from<B: Backend>(
    order: Seq<Tensor<B>>,
    parts: Seq<Seq<Tensor<B>>>,
    n: nat,
    id: u64,
    at: int,
)
    requires
        n <= order.len(),
        forall|k: int| 0 <= k < n && k != at ==> unused_by(#[trigger] order[k], id),
    ensures
        contributions::received(order, parts, n, id) =~= if 0 <= at < n && parts[at].len() > 0 {
            contributions::toward(contributions::used(order[at]@.op), parts[at], 0, id)
        } else {
            seq![]
        },
    decreases n,
{
    if n > 0 {
        lemma_received_from(order, parts, (n - 1) as nat, id, at);
        if n - 1 != at {
            let t = order[n - 1];
            let u = contributions::used(t@.op);
            assert forall|i: int| 0 <= i < u.len() implies graph::number_of(#[trigger] u[i])
                != id by {
                lemma_used_is_input(t, i);
            }
            lemma_toward_nothing(u, parts[n - 1], 0, id);
        }
    }
}

/// The order of the computation: what is below the tensor, the tensor, the
/// permuted one, what is below the weights and was not met before, the product
/// and the root. Each of the tensor, the permuted one, the product and the root
/// is used by the next of them only.
proof fn lemma_order<B: Backend>(
    x: Tensor<B>,
    order: Seq<usize>,
    y: Tensor<B>,
    w: Tensor<B>,
    p: Tensor<B>,
    root: Tensor<B>,
) -> (at: int)
    requires
        weighted_sum(x, order, y, w, p, root),
    ensures
        0 <= at < graph::topo_order(root).len() - 2,
        ({
            let list = graph::topo_order(root);
            let last = list.len() - 1;
            &&& list[at] == y
            &&& list[last - 1] == p
            &&& list[last] == root
            &&& forall|k: int|
                0 <= k < list.len() ==> {
                    &&& unused_by(#[trigger] list[k], graph::number_of(root))
                    &&& k != last ==> unused_by(list[k], graph::number_of(p))
                    &&& k != last - 1 ==> unused_by(list[k], graph::number_of(y))
                    &&& k != at ==> unused_by(list[k], graph::number_of(x))
                }
        }),
{
    assert(graph::inputs_of(root) =~= seq![p]);
    assert(graph::inputs_of(p) =~= seq![y, w]);
    assert(graph::inputs_of(y) =~= seq![x]);
    assert(graph::inputs_of(root)[0] == p);
    assert(graph::inputs_of(p)[0] == y && graph::inputs_of(p)[1] == w);
    assert(graph::inputs_of(y)[0] == x);
    let n = |t: Tensor<B>| graph::number_of(t);
    // What has which number below it.
    assert(graph::acyclic_upto(p, 2) && !graph::below(p, n(p)));
    assert(graph::acyclic_upto(p, 1));
    assert(graph::acyclic_upto(y, 1) && !graph::below(y, n(y)));
    assert(!graph::below(x, n(x)));
    assert forall|number: u64| number == n(x) || graph::below(x, number) implies #[trigger]
        graph::below(y, number) by {}
    assert forall|number: u64| number == n(y) || graph::below(y, number) implies #[trigger]
        graph::below(p, number) by {
        assert(graph::below_upto(p, 1, number));
    }
    assert forall|number: u64| number == n(w) || graph::below(w, number) implies #[trigger]
        graph::below(p, number) by {}
    assert forall|number: u64| number == n(p) || graph::below(p, number) implies #[trigger]
        graph::below(root, number) by {}
    // The walk.
    let w0 = Walk::<B> { seen: Set::empty(), order: seq![] };
    let w1 = Walk::<B> { seen: w0.seen.insert(n(root)), order: w0.order };
    let w2 = Walk::<B> { seen: w1.seen.insert(n(p)), order: w1.order };
    let w3 = Walk::<B> { seen: w2.seen.insert(n(y)), order: w2.order };
    let vx = graph::visit(x, w3);
    let vy = Walk::<B> { seen: vx.seen, order: vx.order.push(y) };
    let vw = graph::visit(w, vy);
    let vp = Walk::<B> { seen: vw.seen, order: vw.order.push(p) };
    assert(!w1.seen.contains(n(p))) by {
        assert(graph::below(root, n(p)));
    }
    assert(!w2.seen.contains(n(y))) by {
        assert(graph::below(p, n(y)));
        assert(graph::below(root, n(y)));
    }
    lemma_visit_one(root, p, w0);
    lemma_visit_two(p, y, w, w1);
    lemma_visit_one(y, x, w2);
    assert(graph::visit(y, w2) == vy);
    assert(graph::visit(p, w1) == vp);
    let list = graph::topo_order(root);
    assert(list == vp.order.push(root));
    graph::lemma_visit_keeps(w, vy);
    graph::lemma_visit_below(root, w0);
    graph::lemma_visit_below(p, w1);
    graph::lemma_visit_below(y, w2);
    graph::lemma_visit_below(x, w3);
    graph::lemma_visit_below(w, vy);
    let at = vx.order.len() as int;
    let last = list.len() - 1;
    assert forall|k: int| 0 <= k < list.len() implies {
        &&& unused_by(#[trigger] list[k], n(root))
        &&& k != last ==> unused_by(list[k], n(p))
        &&& k != last - 1 ==> unused_by(list[k], n(y))
        &&& k != at ==> unused_by(list[k], n(x))
    } by {
        let t = list[k];
        assert(t == graph::visit(root, w0).order[k]);
        assert forall|i: int| 0 <= i < graph::inputs_of(t).len() implies {
            let number = graph::number_of(#[trigger] graph::inputs_of(t)[i]);
            &&& number != n(root)
            &&& k != last ==> number != n(p)
            &&& k != last - 1 ==> number != n(y)
            &&& k != at ==> number != n(x)
        } by {
            let number = graph::number_of(graph::inputs_of(t)[i]);
            assert(graph::below(root, number));
            if k < last {
                assert(t == vp.order[k]);
                assert(graph::below(p, number));
            }
            if k == last {
                assert(number == n(p));
                assert(graph::below(p, n(y)));
                assert(graph::below(y, n(x)));
                assert(graph::below(p, n(x)));
            } else if k == last - 1 {
                assert(number == n(y) || number == n(w));
                assert(graph::below(y, n(x)));
            } else if k < at {
                assert(t == vw.order[k]);
                assert(t == vy.order[k]);
                assert(t == vx.order[k]);
                assert(graph::below(x, number));
                assert(graph::below(y, number));
            } else if k == at {
                assert(t == vw.order[k]);
                assert(t == y);
                assert(graph::below(y, number));
            } else {
                assert(t == vw.order[k]);
                assert(graph::below(w, number));
            }
        }
    }
    assert(vw.order[at] == vy.order[at]);
    at
}

/// A store that holds the sum of one contribution holds it.
proof fn lemma_only_contribution<B: Backend>(
    grads: Map<u64, Tensor<B>>,
    id: u64,
    cs: Seq<Tensor<B>>,
    g: Tensor<B>,
)
    requires
        contributions::holds_sum(grads, id, cs),
        cs =~= seq![g],
    ensures
        grads.dom().contains(id),
        grads[id] == g,
{
}

/// The gradients of the tensors of the computation: of the product, of the
/// permuted tensor and of the tensor itself.
proof fn lemma_gradients<B: Backend>(
    x: Tensor<B>,
    order: Seq<usize>,
    y: Tensor<B>,
    w: Tensor<B>,
    p: Tensor<B>,
    root: Tensor<B>,
    grads: Map<u64, Tensor<B>>,
) -> (r: (Tensor<B>, Tensor<B>, Tensor<B>))
    requires
        weighted_sum(x, order, y, w, p, root),
        backprop::backward_result(root, Ok(grads)),
    ensures
        call_ensures(Tensor::ones_like, (&root,), Ok::<Tensor<B>, Error>(r.0)),
        rules::sum_all_rule(r.0, p, Ok(r.1)),
        elementwise::binary_result(r.1, w, BinaryOp::Mul, Ok(r.2)),
        p@.dims() == y@.dims(),
        nd::product(root@.dims()) == 1,
        r.2@.dims() == y@.dims(),
        grads.dom().contains(graph::number_of(x)),
        shaping::permute_result(r.2, views::inverse(order), Ok(grads[graph::number_of(x)])),
{
    let n = |t: Tensor<B>| graph::number_of(t);
    let list = graph::topo_order(root);
    let len = list.len();
    let last = len - 1;
    let at = lemma_order(x, order, y, w, p, root);
    let (one, parts) = contributions::law_gradient_is_sum_of_uses(root, grads);
    shape::law_broadcast_with_itself(y@.dims());
    let sum = |id: u64|
        contributions::started(root, one, id) + contributions::received(list, parts, len, id);
    assert(contributions::holds_sum(grads, n(root), sum(n(root))));
    assert(contributions::holds_sum(grads, n(p), sum(n(p))));
    assert(contributions::holds_sum(grads, n(y), sum(n(y))));
    assert(contributions::holds_sum(grads, n(x), sum(n(x))));
    // The root.
    lemma_received_from(list, parts, len, n(root), -1);
    lemma_only_contribution(grads, n(root), sum(n(root)), one);
    // The product.
    assert(contributions::contributes(root@.op, one, parts[last]));
    assert(contributions::used(root@.op) =~= seq![p]);
    let gp = parts[last][0];
    assert(contributions::contribution(root@.op, one, 0, gp));
    lemma_received_from(list, parts, len, n(p), last);
    reveal_with_fuel(contributions::toward, 3);
    assert(graph::inputs_of(root) =~= seq![p]);
    assert(graph::number_of(graph::inputs_of(root)[0]) == n(p));
    lemma_only_contribution(grads, n(p), sum(n(p)), gp);
    // The permuted tensor.
    assert(contributions::contributes(p@.op, gp, parts[last - 1]));
    assert(contributions::used(p@.op) =~= seq![y, w]);
    let gy = parts[last - 1][0];
    assert(contributions::contribution(p@.op, gp, 0, gy));
    let raw = choose|raw: Tensor<B>| #[trigger]
        contributions::binary_part(BinaryOp::Mul, gp, y, w, 0, raw) && rules::unbroadcast(
            raw,
            y@.dims(),
            Ok(gy),
        );
    assert(gp@.dims() == y@.dims());
    assert(raw@.dims() == y@.dims());
    assert(gy == raw);
    lemma_received_from(list, parts, len, n(y), last - 1);
    lemma_only_contribution(grads, n(y), sum(n(y)), gy);
    // The tensor itself.
    assert(contributions::contributes(y@.op, gy, parts[at]));
    assert(contributions::used(y@.op) =~= seq![x]);
    let gx = parts[at][0];
    assert(contributions::contribution(y@.op, gy, 0, gx));
    lemma_received_from(list, parts, len, n(x), at);
    lemma_only_contribution(grads, n(x), sum(n(x)), gx);
    (one, gp, gy)
}

/// A tensor around storage holds what the storage holds.
proof fn lemma_stored_element<B: Backend>(
    at: spec_fn(B::Storage, nat) -> B::Scalar,
    t: Tensor<B>,
    made: B::Storage,
    index: Seq<usize>,
    v: B::Scalar,
)
    requires
        elements::steady::<B>(at),
        t@.storage.starts_with(made),
        at(made, t@.layout@.address(index)) == v,
    ensures
        elements::element_is(at, t, index, v),
{
    assert forall|s: B::Storage| #[trigger] t@.storage.can_hold(s) implies at(
        s,
        t@.layout@.address(index),
    ) == v by {
        assert(elements::same_numbers::<B>(at, made, s));
    }
}

/// The gradient of a sum of all elements is 1 for each, if it is 1 for the
/// sum.
proof fn lemma_sum_gradient<B: Backend>(
    at: spec_fn(B::Storage, nat) -> B::Scalar,
    root: Tensor<B>,
    one: Tensor<B>,
    p: Tensor<B>,
    g: Tensor<B>,
    index: Seq<usize>,
)
    requires
        elements::steady::<B>(at),
        elements::fills::<B>(at),
        elements::fills_ones::<B>(at),
        elements::reads::<B>(at),
        nd::product(root@.dims()) == 1,
        call_ensures(Tensor::ones_like, (&root,), Ok::<Tensor<B>, Error>(one)),
        rules::sum_all_rule(one, p, Ok(g)),
        nd::in_bounds(index, p@.dims()),
    ensures
        g@.dims() == p@.dims(),
        elements::element_is(at, g, index, <B::Scalar as Scalar>::one_val()),
{
    let unit = <B::Scalar as Scalar>::one_val();
    // The gradient of the sum holds 1.
    let s = choose|s: Shape|
        s@ == root@.dims() && #[trigger] tensor::ones_result(
            s,
            root@.dtype,
            root@.device,
            Ok(one),
        );
    let device = root@.device;
    let made = choose|made: B::Storage|
        #[trigger] call_ensures(
            B::ones,
            (&s, root@.dtype, &device),
            Ok::<B::Storage, Error>(made),
        ) && tensor::leaf_result(Ok(made), s@, root@.dtype, device, Ok(one));
    assert(elements::filled_with::<B>(at, made, s@, unit));
    let first = nd::unravel(0, one@.dims());
    nd::lemma_count_fits(one@.dims());
    nd::lemma_ravel_of_unravel(0, one@.dims());
    lemma_stored_element(at, one, made, first, unit);
    // It is read as 1.
    let v = choose|v: B::Scalar|
        #[trigger] call_ensures(Tensor::to_scalar_f64, (&one,), Ok::<B::Scalar, Error>(v))
            && call_ensures(Tensor::full_like, (&p, v), Ok::<Tensor<B>, Error>(g));
    let list = choose|list: Vec<B::Scalar>| #[trigger]
        host::values_result(one, Ok(list)) && list@.len() == 1 && v == list@[0];
    assert(call_ensures(
        Tensor::to_f64_vec,
        (&one,),
        Ok::<Vec<B::Scalar>, Error>(list),
    ));
    let held = choose|held: B::Storage|
        one@.storage.can_hold(held) && #[trigger] call_ensures(
            B::to_f64_vec,
            (&held, &one@.layout),
            Ok::<Vec<B::Scalar>, Error>(list),
        );
    assert(elements::are_read::<B>(at, held, one@.layout@, list@));
    assert(v == unit);
    // The elements are filled with it.
    let t = choose|t: Shape|
        t@ == p@.dims() && #[trigger] tensor::full_result(t, v, p@.dtype, p@.device, Ok(g));
    let own = p@.device;
    let full = choose|full: B::Storage|
        #[trigger] call_ensures(
            B::full,
            (&t, v, p@.dtype, &own),
            Ok::<B::Storage, Error>(full),
        ) && tensor::leaf_result(Ok(full), t@, p@.dtype, own, Ok(g));
    assert(elements::filled_with::<B>(at, full, t@, v));
    lemma_stored_element(at, g, full, index, unit);
}

/// The gradient of a generalized transpose: if a tensor is permuted, multiplied
/// by weights and summed, its gradient holds the weights, permuted by the
/// inverse order. (They stand there times 1: a number type for which 1 is not
/// neutral gets the products.)
pub proof fn law_permuted_gradient<B: Backend>(
    at: spec_fn(B::Storage, nat) -> B::Scalar,
    x: Tensor<B>,
    order: Seq<usize>,
    y: Tensor<B>,
    w: Tensor<B>,
    p: Tensor<B>,
    root: Tensor<B>,
    grads: Map<u64, Tensor<B>>,
    index: Seq<usize>,
    v: B::Scalar,
)
    requires
        elements::steady::<B>(at),
        elements::fills::<B>(at),
        elements::fills_ones::<B>(at),
        elements::reads::<B>(at),
        elements::multiplies::<B>(at),
        weighted_sum(x, order, y, w, p, root),
        backprop::backward_result(root, Ok(grads)),
        nd::in_bounds(index, x@.dims()),
        elements::element_is(at, w, views::selected(index, order), v),
    ensures
        grads.dom().contains(graph::number_of(x)),
        grads[graph::number_of(x)]@.dims() == x@.dims(),
        elements::element_is(
            at,
            grads[graph::number_of(x)],
            index,
            <B::Scalar as Scalar>::one_val().times(v),
        ),
        <B::Scalar as Scalar>::one_val().times(v) == v ==> elements::element_is(
            at,
            grads[graph::number_of(x)],
            index,
            v,
        ),
{
    let (one, gp, gy) = lemma_gradients(x, order, y, w, p, root, grads);
    let gx = grads[graph::number_of(x)];
    let to = views::selected(index, order);
    let unit = <B::Scalar as Scalar>::one_val();
    assert forall|d: int| 0 <= d < y@.dims().len() implies #[trigger] to[d] < y@.dims()[d] by {
        assert(order[d] < order.len());
        assert(index[order[d] as int] < x@.dims()[order[d] as int]);
    }
    assert(nd::in_bounds(to, y@.dims()));
    lemma_sum_gradient(at, root, one, p, gp, to);
    // The product of the ones with the weights.
    let (s, t, made) = choose|s: B::Storage, t: B::Storage, made: B::Storage|
        {
            &&& gp@.storage.can_hold(s)
            &&& w@.storage.can_hold(t)
            &&& #[trigger] call_ensures(
                B::binary_op,
                (BinaryOp::Mul, &s, &gp@.layout, &t, &w@.layout),
                Ok::<B::Storage, Error>(made),
            )
            &&& elementwise::joined_result(
                Ok(made),
                gp,
                w,
                gp@.dtype,
                Op::Binary { lhs: gp, rhs: w, op: BinaryOp::Mul },
                Ok(gy),
            )
        };
    shape::law_broadcast_with_itself(y@.dims());
    assert(elements::holds_products::<B>(at, s, gp@.layout@, t, w@.layout@, made));
    assert(gy@.layout@ == LayoutView::contiguous(y@.dims()));
    lemma_stored_element(at, gy, made, to, unit.times(v));
    // Permuted back.
    layout::lemma_contiguous_valid(y@.dims());
    grad_shapes::law_permute_grad(gy, order, gx);
    grad_shapes::lemma_permuted_back(x@.dims(), order);
    assert(gx@.layout@.address(index) == gy@.layout@.address(to));
}

} // verus!
