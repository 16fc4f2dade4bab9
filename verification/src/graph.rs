//! The order in which gradients flow: a walk over the computation graph.
use crate::backend::Backend;
use crate::tensor::Tensor;
use std::collections::HashSet;
use vstd::prelude::*;

verus! {

/// How far a walk has come: the IDs it has met, and the tensors it is done
/// with, in order.
#[verifier::reject_recursive_types(B)]
#[verifier::ext_equal]
pub struct Walk<B: Backend> {
    pub seen: Set<u64>,
    pub order: Seq<Tensor<B>>,
}

/// The number of a tensor.
pub open spec fn number_of<B: Backend>(t: Tensor<B>) -> u64 {
    t@.id.number()
}

/// The tensors that a tensor was made from.
pub open spec fn inputs_of<B: Backend>(t: Tensor<B>) -> Seq<Tensor<B>> {
    t@.op.input_list()
}

/// A depth-first walk from a tensor: first its inputs, then the tensor
/// itself. A tensor whose ID was met is passed over.
pub open spec fn visit<B: Backend>(t: Tensor<B>, w: Walk<B>) -> Walk<B>
    decreases t, inputs_of(t).len() + 1,
{
    if w.seen.contains(number_of(t)) {
        w
    } else {
        let inner = visit_inputs(
            t,
            inputs_of(t).len(),
            Walk { seen: w.seen.insert(number_of(t)), order: w.order },
        );
        Walk { seen: inner.seen, order: inner.order.push(t) }
    }
}

/// A walk from the first `n` inputs of a tensor.
pub open spec fn visit_inputs<B: Backend>(t: Tensor<B>, n: nat, w: Walk<B>) -> Walk<B>
    decreases t, n,
{
    if n == 0 || n > inputs_of(t).len() {
        w
    } else {
        proof {
            t.lemma_input_smaller(n - 1);
        }
        visit(inputs_of(t)[n - 1], visit_inputs(t, (n - 1) as nat, w))
    }
}

/// The topological order of the graph below a tensor.
pub open spec fn topo_order<B: Backend>(root: Tensor<B>) -> Seq<Tensor<B>> {
    visit(root, Walk { seen: Set::empty(), order: seq![] }).order
}

/// A depth-first walk from a tensor.
fn visit_tensor<B: Backend>(
    t: &Tensor<B>,
    seen: &mut HashSet<u64>,
    order: &mut Vec<Tensor<B>>,
)
    ensures
        (Walk { seen: final(seen)@, order: final(order)@ }) == visit(
            *t,
            Walk { seen: old(seen)@, order: old(order)@ },
        ),
    decreases t,
{
    broadcast use vstd::std_specs::hash::group_hash_axioms;

    let key: u64 = t.id().key();
    if seen.contains(&key) {
        return ;
    }
    seen.insert(key);
    let ghost start = Walk { seen: seen@, order: order@ };
    let inputs = t.op().inputs();
    let n: usize = inputs.len();
    let mut i: usize = 0;
    proof {
        assert(Seq::new(inputs@.len(), |k: int| *inputs@[k]) == inputs_of(*t));
        assert(inputs_of(*t).len() == n);
    }
    while i < n
        invariant
            n == inputs@.len(),
            n == inputs_of(*t).len(),
            Seq::new(inputs@.len(), |k: int| *inputs@[k]) == inputs_of(*t),
            i <= n,
            (Walk { seen: seen@, order: order@ }) == visit_inputs(*t, i as nat, start),
        decreases n - i,
    {
        let input = inputs[i];
        proof {
            assert(*input == Seq::new(inputs@.len(), |k: int| *inputs@[k])[i as int]);
            t.lemma_input_smaller(i as int);
        }
        visit_tensor(input, seen, order);
        i += 1;
    }
    order.push(t.clone());
}

/// A topological ordering of the computation graph: every tensor stands
/// after its inputs, the root last.
pub fn build_topo<B: Backend>(root: &Tensor<B>) -> (r: Vec<Tensor<B>>)
    ensures
        r@ == topo_order(*root),
{
    broadcast use vstd::std_specs::hash::group_hash_axioms;

    let mut seen: HashSet<u64> = HashSet::new();
    let mut order: Vec<Tensor<B>> = Vec::new();
    visit_tensor(root, &mut seen, &mut order);
    order
}

/// What a walk adds: new tensors with new IDs, all different.
spec fn grown<B: Backend>(w: Walk<B>, v: Walk<B>) -> bool {
    &&& w.order.len() <= v.order.len()
    &&& w.order =~= v.order.take(w.order.len() as int)
    &&& w.seen.subset_of(v.seen)
    &&& forall|k: int|
        w.order.len() <= k < v.order.len() ==> !w.seen.contains(number_of(#[trigger] v.order[k]))
            && v.seen.contains(number_of(v.order[k]))
    &&& forall|j: int, k: int|
        w.order.len() <= j < k < v.order.len() ==> number_of(#[trigger] v.order[j]) != number_of(
            #[trigger] v.order[k],
        )
}

proof fn lemma_grown_twice<B: Backend>(a: Walk<B>, b: Walk<B>, c: Walk<B>)
    requires
        grown(a, b),
        grown(b, c),
    ensures
        grown(a, c),
{
    let n = a.order.len() as int;
    let m = b.order.len() as int;
    assert(a.order =~= c.order.take(n)) by {
        assert forall|k: int| 0 <= k < n implies a.order[k] == c.order.take(n)[k] by {
            assert(a.order[k] == b.order.take(n)[k]);
            assert(b.order[k] == c.order.take(m)[k]);
        }
    }
    assert forall|k: int| n <= k < c.order.len() implies !a.seen.contains(
        number_of(#[trigger] c.order[k]),
    ) && c.seen.contains(number_of(c.order[k])) by {
        if k < m {
            assert(b.order[k] == c.order.take(m)[k]);
            assert(b.seen.contains(number_of(b.order[k])));
        }
    }
    assert forall|j: int, k: int| n <= j < k < c.order.len() implies number_of(
        #[trigger] c.order[j],
    ) != number_of(#[trigger] c.order[k]) by {
        if j < m {
            assert(b.order[j] == c.order.take(m)[j]);
            if k < m {
                assert(b.order[k] == c.order.take(m)[k]);
            } else {
                assert(b.seen.contains(number_of(b.order[j])));
            }
        }
    }
}

proof fn lemma_visit_grows<B: Backend>(t: Tensor<B>, w: Walk<B>)
    ensures
        grown(w, visit(t, w)),
        visit(t, w).seen.contains(number_of(t)),
    decreases t, inputs_of(t).len() + 1,
{
    if w.seen.contains(number_of(t)) {
        assert(w.order =~= w.order.take(w.order.len() as int));
    } else {
        let start = Walk { seen: w.seen.insert(number_of(t)), order: w.order };
        lemma_inputs_grow(t, inputs_of(t).len(), start);
        let inner = visit_inputs(t, inputs_of(t).len(), start);
        let v = visit(t, w);
        assert(w.order =~= v.order.take(w.order.len() as int)) by {
            assert(v.order.take(w.order.len() as int) =~= inner.order.take(
                w.order.len() as int,
            ));
        }
        assert forall|k: int| w.order.len() <= k < v.order.len() implies !w.seen.contains(
            number_of(#[trigger] v.order[k]),
        ) && v.seen.contains(number_of(v.order[k])) by {
            if k < inner.order.len() {
                assert(v.order[k] == inner.order[k]);
            } else {
                assert(start.seen.contains(number_of(t)));
            }
        }
        assert forall|j: int, k: int| w.order.len() <= j < k < v.order.len() implies number_of(
            #[trigger] v.order[j],
        ) != number_of(#[trigger] v.order[k]) by {
            assert(v.order[j] == inner.order[j]);
            if k < inner.order.len() {
                assert(v.order[k] == inner.order[k]);
            } else {
                assert(!start.seen.contains(number_of(inner.order[j])));
            }
        }
    }
}

/// A walk from a tensor keeps the order that it starts with.
pub proof fn lemma_visit_keeps<B: Backend>(t: Tensor<B>, w: Walk<B>)
    ensures
        w.order.len() <= visit(t, w).order.len(),
        forall|k: int| 0 <= k < w.order.len() ==> #[trigger] visit(t, w).order[k] == w.order[k],
{
    lemma_visit_grows(t, w);
    let v = visit(t, w);
    assert forall|k: int| 0 <= k < w.order.len() implies #[trigger] v.order[k] == w.order[k] by {
        assert(v.order.take(w.order.len() as int)[k] == v.order[k]);
    }
}

proof fn lemma_inputs_grow<B: Backend>(t: Tensor<B>, n: nat, w: Walk<B>)
    ensures
        grown(w, visit_inputs(t, n, w)),
    decreases t, n,
{
    if n == 0 || n > inputs_of(t).len() {
        assert(w.order =~= w.order.take(w.order.len() as int));
    } else {
        lemma_inputs_grow(t, (n - 1) as nat, w);
        let mid = visit_inputs(t, (n - 1) as nat, w);
        t.lemma_input_smaller(n - 1);
        lemma_visit_grows(inputs_of(t)[n - 1], mid);
        lemma_grown_twice(w, mid, visit(inputs_of(t)[n - 1], mid));
    }
}

/// The order ends with the root, and no ID stands in it twice.
pub proof fn law_topo_root_last<B: Backend>(root: Tensor<B>)
    ensures
        topo_order(root).len() > 0,
        topo_order(root).last() == root,
        forall|j: int, k: int|
            0 <= j < k < topo_order(root).len() ==> number_of(#[trigger] topo_order(root)[j])
                != number_of(#[trigger] topo_order(root)[k]),
{
    let w = Walk { seen: Set::empty(), order: seq![] };
    lemma_visit_grows(root, w);
}

/// One of the first `n` inputs of a tensor, or a tensor below one of them,
/// has the number.
pub open spec fn below_upto<B: Backend>(t: Tensor<B>, n: nat, number: u64) -> bool
    decreases t, n,
{
    if n == 0 || n > inputs_of(t).len() {
        false
    } else {
        proof {
            t.lemma_input_smaller(n - 1);
        }
        let u = inputs_of(t)[n - 1];
        ||| below_upto(t, (n - 1) as nat, number)
        ||| number_of(u) == number
        ||| below_upto(u, inputs_of(u).len(), number)
    }
}

/// A tensor that a tensor was made from, directly or not, has the number.
pub open spec fn below<B: Backend>(t: Tensor<B>, number: u64) -> bool {
    below_upto(t, inputs_of(t).len(), number)
}

/// The graphs below the first `n` inputs of a tensor have no cycle.
pub open spec fn acyclic_upto<B: Backend>(t: Tensor<B>, n: nat) -> bool
    decreases t, n,
{
    if n == 0 || n > inputs_of(t).len() {
        true
    } else {
        proof {
            t.lemma_input_smaller(n - 1);
        }
        let u = inputs_of(t)[n - 1];
        &&& acyclic_upto(t, (n - 1) as nat)
        &&& !below(u, number_of(u))
        &&& acyclic_upto(u, inputs_of(u).len())
    }
}

/// In the graph of a tensor no tensor was made from one with its own ID.
pub open spec fn acyclic<B: Backend>(t: Tensor<B>) -> bool {
    !below(t, number_of(t)) && acyclic_upto(t, inputs_of(t).len())
}

/// A tensor with the number stands before position `k`.
pub open spec fn stands_before<B: Backend>(order: Seq<Tensor<B>>, k: int, number: u64) -> bool {
    exists|j: int| 0 <= j < k && number_of(#[trigger] order[j]) == number
}

/// Every tensor stands after its inputs.
pub open spec fn inputs_first<B: Backend>(order: Seq<Tensor<B>>) -> bool {
    forall|k: int, i: int|
        0 <= k < order.len() && 0 <= i < inputs_of(order[k]).len() ==> stands_before(
            order,
            k,
            number_of(#[trigger] inputs_of(#[trigger] order[k])[i]),
        )
}

/// Every ID that was met stands in the order, or is being worked on.
spec fn accounted<B: Backend>(w: Walk<B>, active: Set<u64>) -> bool {
    forall|number: u64| #[trigger]
        w.seen.contains(number) ==> active.contains(number) || stands_before(
            w.order,
            w.order.len() as int,
            number,
        )
}

/// Nothing below a tensor is being worked on.
spec fn clear_below<B: Backend>(t: Tensor<B>, n: nat, active: Set<u64>) -> bool {
    forall|number: u64| #[trigger] below_upto(t, n, number) ==> !active.contains(number)
}

proof fn lemma_stands_longer<B: Backend>(a: Seq<Tensor<B>>, b: Seq<Tensor<B>>, k: int, number: u64)
    requires
        stands_before(a, k, number),
        k <= a.len() <= b.len(),
        a =~= b.take(a.len() as int),
    ensures
        stands_before(b, k, number),
{
    let j = choose|j: int| 0 <= j < k && number_of(#[trigger] a[j]) == number;
    assert(b.take(a.len() as int)[j] == b[j]);
    assert(number_of(b[j]) == number);
}

proof fn lemma_visit_orders<B: Backend>(t: Tensor<B>, w: Walk<B>, active: Set<u64>)
    requires
        acyclic(t),
        inputs_first(w.order),
        accounted(w, active),
        !active.contains(number_of(t)),
        clear_below(t, inputs_of(t).len(), active),
    ensures
        inputs_first(visit(t, w).order),
        accounted(visit(t, w), active),
        stands_before(visit(t, w).order, visit(t, w).order.len() as int, number_of(t)),
    decreases t, inputs_of(t).len() + 1,
{
    let number = number_of(t);
    if !w.seen.contains(number) {
        let n = inputs_of(t).len();
        let start = Walk { seen: w.seen.insert(number), order: w.order };
        let more = active.insert(number);
        assert forall|x: u64| #[trigger] start.seen.contains(x) implies more.contains(x)
            || stands_before(start.order, start.order.len() as int, x) by {
            if x != number {
                assert(w.seen.contains(x));
            }
        }
        assert forall|x: u64| #[trigger] below_upto(t, n, x) implies !more.contains(x) by {
            if x == number {
                assert(below(t, number));
            }
        }
        lemma_inputs_order(t, n, start, more);
        let inner = visit_inputs(t, n, start);
        let v = visit(t, w);
        let len = inner.order.len() as int;
        assert(v.order.take(len) =~= inner.order);
        assert forall|k: int, i: int|
            0 <= k < v.order.len() && 0 <= i < inputs_of(v.order[k]).len() implies stands_before(
            v.order,
            k,
            number_of(#[trigger] inputs_of(#[trigger] v.order[k])[i]),
        ) by {
            if k < len {
                assert(v.order[k] == inner.order[k]);
                lemma_stands_longer(
                    inner.order,
                    v.order,
                    k,
                    number_of(inputs_of(inner.order[k])[i]),
                );
            } else {
                lemma_stands_longer(inner.order, v.order, len, number_of(inputs_of(t)[i]));
            }
        }
        assert(number_of(v.order[len]) == number);
        assert forall|x: u64| #[trigger] v.seen.contains(x) implies active.contains(x)
            || stands_before(v.order, v.order.len() as int, x) by {
            if x != number && !active.contains(x) {
                assert(inner.seen.contains(x));
                assert(stands_before(inner.order, len, x));
                lemma_stands_longer(inner.order, v.order, len, x);
            }
        }
    }
}

proof fn lemma_inputs_order<B: Backend>(t: Tensor<B>, n: nat, w: Walk<B>, active: Set<u64>)
    requires
        n <= inputs_of(t).len(),
        acyclic_upto(t, n),
        inputs_first(w.order),
        accounted(w, active),
        clear_below(t, n, active),
    ensures
        inputs_first(visit_inputs(t, n, w).order),
        accounted(visit_inputs(t, n, w), active),
        forall|i: int|
            0 <= i < n ==> stands_before(
                visit_inputs(t, n, w).order,
                visit_inputs(t, n, w).order.len() as int,
                number_of(#[trigger] inputs_of(t)[i]),
            ),
    decreases t, n,
{
    if n > 0 {
        let m = (n - 1) as nat;
        let u = inputs_of(t)[n - 1];
        assert forall|x: u64| #[trigger] below_upto(t, m, x) implies !active.contains(x) by {
            assert(below_upto(t, n, x));
        }
        lemma_inputs_order(t, m, w, active);
        let mid = visit_inputs(t, m, w);
        t.lemma_input_smaller(n - 1);
        assert(below_upto(t, n, number_of(u)));
        assert forall|x: u64| #[trigger] below_upto(u, inputs_of(u).len(), x) implies
            !active.contains(x) by {
            assert(below_upto(t, n, x));
        }
        lemma_visit_orders(u, mid, active);
        lemma_visit_grows(u, mid);
        let v = visit(u, mid);
        assert forall|i: int| 0 <= i < n implies stands_before(
            v.order,
            v.order.len() as int,
            number_of(#[trigger] inputs_of(t)[i]),
        ) by {
            if i < m {
                lemma_stands_longer(
                    mid.order,
                    v.order,
                    mid.order.len() as int,
                    number_of(inputs_of(t)[i]),
                );
                let j = choose|j: int|
                    0 <= j < mid.order.len() && number_of(#[trigger] v.order[j]) == number_of(
                        inputs_of(t)[i],
                    );
                assert(number_of(v.order[j]) == number_of(inputs_of(t)[i]));
            }
        }
    }
}

/// In a graph without cycles every tensor of the order stands after all its
/// inputs.
pub proof fn law_topo_inputs_first<B: Backend>(root: Tensor<B>)
    requires
        acyclic(root),
    ensures
        inputs_first(topo_order(root)),
{
    let w = Walk { seen: Set::<u64>::empty(), order: Seq::<Tensor<B>>::empty() };
    lemma_visit_orders(root, w, Set::empty());
    assert(w.order =~= seq![]);
}

/// A walk from a tensor adds to the order only tensors whose inputs are below
/// the tensor.
pub proof fn lemma_visit_below<B: Backend>(t: Tensor<B>, w: Walk<B>)
    ensures
        forall|k: int, i: int|
            w.order.len() <= k < visit(t, w).order.len() && 0 <= i < inputs_of(
                visit(t, w).order[k],
            ).len() ==> below(
                t,
                number_of(#[trigger] inputs_of(#[trigger] visit(t, w).order[k])[i]),
            ),
    decreases t, inputs_of(t).len() + 1,
{
    if !w.seen.contains(number_of(t)) {
        let n = inputs_of(t).len();
        let start = Walk { seen: w.seen.insert(number_of(t)), order: w.order };
        lemma_inputs_below(t, n, start);
        let inner = visit_inputs(t, n, start);
        let v = visit(t, w);
        assert forall|k: int, i: int|
            w.order.len() <= k < v.order.len() && 0 <= i < inputs_of(v.order[k]).len() implies below(
            t,
            number_of(#[trigger] inputs_of(#[trigger] v.order[k])[i]),
        ) by {
            if k < inner.order.len() {
                assert(v.order[k] == inner.order[k]);
            } else {
                lemma_input_below(t, n, i);
            }
        }
    }
}

/// An input of a tensor is below it.
proof fn lemma_input_below<B: Backend>(t: Tensor<B>, n: nat, i: int)
    requires
        0 <= i < n <= inputs_of(t).len(),
    ensures
        below_upto(t, n, number_of(inputs_of(t)[i])),
    decreases n,
{
    if i < n - 1 {
        lemma_input_below(t, (n - 1) as nat, i);
    }
}

proof fn lemma_inputs_below<B: Backend>(t: Tensor<B>, n: nat, w: Walk<B>)
    requires
        n <= inputs_of(t).len(),
    ensures
        forall|k: int, i: int|
            w.order.len() <= k < visit_inputs(t, n, w).order.len() && 0 <= i < inputs_of(
                visit_inputs(t, n, w).order[k],
            ).len() ==> below_upto(
                t,
                n,
                number_of(#[trigger] inputs_of(#[trigger] visit_inputs(t, n, w).order[k])[i]),
            ),
    decreases t, n,
{
    if n > 0 {
        let m = (n - 1) as nat;
        let u = inputs_of(t)[n - 1];
        t.lemma_input_smaller(n - 1);
        lemma_inputs_below(t, m, w);
        let mid = visit_inputs(t, m, w);
        lemma_visit_below(u, mid);
        lemma_visit_grows(u, mid);
        let v = visit(u, mid);
        assert forall|k: int, i: int|
            w.order.len() <= k < v.order.len() && 0 <= i < inputs_of(
                v.order[k],
            ).len() implies below_upto(
            t,
            n,
            number_of(#[trigger] inputs_of(#[trigger] v.order[k])[i]),
        ) by {
            let x = number_of(inputs_of(v.order[k])[i]);
            if k < mid.order.len() {
                assert(v.order[k] == v.order.take(mid.order.len() as int)[k]);
                assert(v.order[k] == mid.order[k]);
                assert(below_upto(t, m, x));
            } else {
                assert(below(u, x));
            }
        }
    }
}

/// Every input of a tensor of the order is below the root.
pub proof fn law_topo_below_root<B: Backend>(root: Tensor<B>)
    ensures
        forall|k: int, i: int|
            0 <= k < topo_order(root).len() && 0 <= i < inputs_of(
                topo_order(root)[k],
            ).len() ==> below(
                root,
                number_of(#[trigger] inputs_of(#[trigger] topo_order(root)[k])[i]),
            ),
{
    let w = Walk { seen: Set::<u64>::empty(), order: Seq::<Tensor<B>>::empty() };
    lemma_visit_below(root, w);
    assert(w.order =~= seq![]);
}

} // verus!
