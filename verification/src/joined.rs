//! What joined, stacked and padded tensors hold, and how gradients flow back
//! through padding.
use crate::backend::Backend;
use crate::contributions;
use crate::elements;
use crate::error::Error;
use crate::flows;
use crate::joining;
use crate::nd;
use crate::op::Op;
use crate::reshaped;
use crate::rules;
use crate::tensor::Tensor;
use vstd::prelude::*;

verus! {

/// The sum of sizes is the one that the join has.
proof fn lemma_joined_offset<B: Backend>(ts: Seq<Tensor<B>>, dim: int, k: nat, offset: nat)
    requires
        k <= ts.len(),
        flows::is_offset(ts, dim, k, offset),
    ensures
        joining::joined_size(ts, dim, k) == offset,
    decreases k,
{
    if k > 0 {
        lemma_joined_offset(
            ts,
            dim,
            (k - 1) as nat,
            (offset - ts[k - 1]@.dims()[dim]) as nat,
        );
    }
}

/// A join has along the dimension the sum of the sizes, in the others the sizes
/// of each tensor; every element of a tensor stands in it, further along the
/// dimension by the sizes of the tensors before.
pub proof fn law_join_elements<B: Backend>(
    at: spec_fn(B::Storage, nat) -> B::Scalar,
    ts: &[Tensor<B>],
    dim: usize,
    t: Tensor<B>,
    k: int,
    offset: nat,
    whole: nat,
    i: Seq<usize>,
    j: Seq<usize>,
    v: B::Scalar,
)
    requires
        elements::steady::<B>(at),
        elements::concatenates::<B>(at),
        call_ensures(Tensor::cat, (ts, dim), Ok::<Tensor<B>, Error>(t)),
        dim < ts@[0]@.dims().len(),
        0 <= k < ts@.len(),
        flows::is_offset(ts@, dim as int, k as nat, offset),
        flows::is_offset(ts@, dim as int, ts@.len(), whole),
        nd::in_bounds(i, ts@[k]@.dims()),
        j.len() == i.len(),
        j[dim as int] == i[dim as int] + offset,
        forall|c: int| 0 <= c < i.len() && c != dim ==> #[trigger] j[c] == i[c],
        elements::element_is(at, ts@[k], i, v),
    ensures
        t@.dims().len() == ts@[k]@.dims().len(),
        t@.dims()[dim as int] == whole,
        forall|c: int|
            0 <= c < t@.dims().len() && c != dim ==> #[trigger] t@.dims()[c]
                == ts@[k]@.dims()[c],
        elements::element_is(at, t, j, v),
{
    lemma_joined_offset(ts@, dim as int, k as nat, offset);
    lemma_joined_offset(ts@, dim as int, ts@.len(), whole);
    if ts@.len() == 1 {
        assert(joining::joined_size(ts@, dim as int, 0) == 0);
        assert(joining::joined_size(ts@, dim as int, 1) == ts@[0]@.dims()[dim as int]);
        assert(j =~= i);
    } else {
        elements::lemma_all_join(ts@, dim, t);
        assert(joining::joins(ts@[0], ts@[k], dim as int));
        elements::law_cat_elements(at, ts@, dim, t, k, i, v);
        assert(j =~= elements::moved(i, dim as int, offset));
    }
}

proof fn lemma_ones_along<B: Backend>(us: Seq<Tensor<B>>, dim: int, n: nat)
    requires
        n <= us.len(),
        forall|i: int| 0 <= i < n ==> (#[trigger] us[i])@.dims()[dim] == 1,
    ensures
        joining::joined_size(us, dim, n) == n,
    decreases n,
{
    if n > 0 {
        lemma_ones_along(us, dim, (n - 1) as nat);
        assert(us[n - 1]@.dims()[dim] == 1);
    }
}

/// A stack has a new dimension of the number of tensors; the elements of tensor
/// `k` stand at coordinate `k` of it.
pub proof fn law_stack_elements<B: Backend>(
    at: spec_fn(B::Storage, nat) -> B::Scalar,
    ts: &[Tensor<B>],
    dim: usize,
    t: Tensor<B>,
    k: usize,
    i: Seq<usize>,
    v: B::Scalar,
)
    requires
        elements::steady::<B>(at),
        elements::concatenates::<B>(at),
        call_ensures(Tensor::stack, (ts, dim), Ok::<Tensor<B>, Error>(t)),
        k < ts@.len() <= usize::MAX,
        ts@[k as int]@.layout@.valid(),
        nd::in_bounds(i, ts@[k as int]@.dims()),
        elements::element_is(at, ts@[k as int], i, v),
    ensures
        dim <= ts@[k as int]@.dims().len(),
        t@.dims() == ts@[k as int]@.dims().insert(dim as int, ts@.len() as usize),
        elements::element_is(at, t, i.insert(dim as int, k), v),
{
    assert(joining::stack_result(ts@, dim, Ok(t)));
    assert(ts@[k as int]@.dims() == ts@[0]@.dims()) by {
        if ts@[k as int]@.dims() != ts@[0]@.dims() {
            lemma_first_other(ts@, k as int);
        }
    }
    let us = choose|us: Seq<Tensor<B>>| #[trigger]
        joining::all_unsqueezed(ts@, dim, us) && joining::cat_result(us, dim, Ok(t));
    let d = dim as int;
    let own = ts@[k as int]@.dims();
    assert(call_ensures(
        Tensor::unsqueeze,
        (&ts@[k as int], dim),
        Ok::<Tensor<B>, Error>(us[k as int]),
    ));
    assert(call_ensures(Tensor::unsqueeze, (&ts@[0], dim), Ok::<Tensor<B>, Error>(us[0])));
    reshaped::law_unsqueeze_elements(at, ts@[k as int], dim, us[k as int], i, v);
    assert forall|m: int| 0 <= m < us.len() implies (#[trigger] us[m])@.dims()[d] == 1 by {
        assert(call_ensures(Tensor::unsqueeze, (&ts@[m], dim), Ok::<Tensor<B>, Error>(us[m])));
        if ts@[m]@.dims() != ts@[0]@.dims() {
            lemma_first_other(ts@, m);
        }
    }
    lemma_ones_along(us, d, k as nat);
    lemma_ones_along(us, d, us.len());
    let e = i.insert(d, 0);
    if us.len() == 1 {
        assert(e =~= i.insert(d, k));
        assert(own.insert(d, 1) =~= own.insert(d, ts@.len() as usize));
    } else {
        elements::lemma_all_join(us, dim, t);
        elements::law_cat_elements(at, us, dim, t, k as int, e, v);
        assert(elements::moved(e, d, k as nat) =~= i.insert(d, k));
        assert(t@.dims() =~= own.insert(d, ts@.len() as usize));
    }
}

/// If a tensor has another shape than the first, some tensor is the first that
/// has.
proof fn lemma_first_other<B: Backend>(ts: Seq<Tensor<B>>, k: int)
    requires
        0 <= k < ts.len(),
        ts[k]@.dims() != ts[0]@.dims(),
    ensures
        exists|i: int| joining::stack_stops_at(ts, i),
    decreases k,
{
    if exists|m: int| 1 <= m < k && (#[trigger] ts[m])@.dims() != ts[0]@.dims() {
        let m = choose|m: int| 1 <= m < k && (#[trigger] ts[m])@.dims() != ts[0]@.dims();
        lemma_first_other(ts, m);
    } else {
        assert(joining::stack_stops_at(ts, k));
    }
}

/// The padding before dimension `d`: the pairs are those of the last dimensions.
pub open spec fn padded_before(padding: Seq<[usize; 2]>, rank: nat, d: int) -> usize {
    if d < rank - padding.len() {
        0
    } else {
        padding[d - (rank - padding.len())]@[0]
    }
}

/// The padding after dimension `d`.
pub open spec fn padded_after(padding: Seq<[usize; 2]>, rank: nat, d: int) -> usize {
    if d < rank - padding.len() {
        0
    } else {
        padding[d - (rank - padding.len())]@[1]
    }
}

/// A padded tensor: each size grows by the padding before and after it. An
/// element that stands in the block of the old ones is the old one, every other
/// is the pad value.
pub proof fn law_padding_elements<B: Backend>(
    at: spec_fn(B::Storage, nat) -> B::Scalar,
    a: Tensor<B>,
    padding: &[[usize; 2]],
    value: B::Scalar,
    t: Tensor<B>,
    j: Seq<usize>,
    i: Seq<usize>,
    v: B::Scalar,
)
    requires
        elements::steady::<B>(at),
        elements::concatenates::<B>(at),
        elements::fills::<B>(at),
        elements::clones::<B>(at),
        a@.dims().len() <= usize::MAX,
        call_ensures(Tensor::pad, (&a, padding, value), Ok::<Tensor<B>, Error>(t)),
        nd::in_bounds(j, t@.dims()),
    ensures
        padding@.len() <= a@.dims().len(),
        t@.dims().len() == a@.dims().len(),
        forall|d: int|
            0 <= d < a@.dims().len() ==> #[trigger] t@.dims()[d] == a@.dims()[d] + padded_before(
                padding@,
                a@.dims().len(),
                d,
            ) + padded_after(padding@, a@.dims().len(), d),
        (nd::in_bounds(i, a@.dims()) && (forall|d: int|
            0 <= d < i.len() ==> #[trigger] j[d] == i[d] + padded_before(
                padding@,
                a@.dims().len(),
                d,
            )) && elements::element_is(at, a, i, v)) ==> elements::element_is(at, t, j, v),
        (exists|d: int|
            0 <= d < j.len() && {
                ||| #[trigger] j[d] < padded_before(padding@, a@.dims().len(), d)
                ||| j[d] >= padded_before(padding@, a@.dims().len(), d) + a@.dims()[d]
            }) ==> elements::element_is(at, t, j, value),
{
    let rank = a@.dims().len();
    let full = joining::full_padding(padding@, rank);
    elements::law_pad_elements(at, a, padding@, value, t);
    assert forall|d: int| 0 <= d < rank implies {
        &&& (#[trigger] full[d])@[0] == padded_before(padding@, rank, d)
        &&& full[d]@[1] == padded_after(padding@, rank, d)
        &&& t@.dims()[d] == a@.dims()[d] + full[d]@[0] + full[d]@[1]
    } by {
        assert(joining::padded_fit(a@.dims(), full));
        assert(joining::padded_size(a@.dims()[d], full[d]) <= usize::MAX);
    }
    if nd::in_bounds(i, a@.dims()) && (forall|d: int|
        0 <= d < i.len() ==> #[trigger] j[d] == i[d] + padded_before(padding@, rank, d))
        && elements::element_is(at, a, i, v) {
        assert forall|d: int| 0 <= d < rank implies full[d]@[0] <= #[trigger] j[d] < full[d]@[0]
            + a@.dims()[d] by {
            assert(i[d] < a@.dims()[d]);
        }
        assert(elements::inside_from(j, a@.dims(), full, 0));
        assert(elements::unpadded_from(j, full, 0) =~= i);
    }
    if exists|d: int|
        0 <= d < j.len() && {
            ||| #[trigger] j[d] < padded_before(padding@, rank, d)
            ||| j[d] >= padded_before(padding@, rank, d) + a@.dims()[d]
        } {
        let d = choose|d: int|
            0 <= d < j.len() && {
                ||| #[trigger] j[d] < padded_before(padding@, rank, d)
                ||| j[d] >= padded_before(padding@, rank, d) + a@.dims()[d]
            };
        assert(!(full[d]@[0] <= j[d] < full[d]@[0] + a@.dims()[d]));
        assert(!elements::inside_from(j, a@.dims(), full, 0));
    }
}

/// The index in a gradient whose dimensions from `d` on still have their padding.
spec fn shifted_from(i: Seq<usize>, padding: Seq<[usize; 2]>, d: nat) -> Seq<usize> {
    Seq::new(
        i.len(),
        |k: int|
            if k >= d {
                (i[k] + padding[k]@[0]) as usize
            } else {
                i[k]
            },
    )
}

proof fn lemma_trimmed<B: Backend>(
    at: spec_fn(B::Storage, nat) -> B::Scalar,
    dims: Seq<usize>,
    padding: Seq<[usize; 2]>,
    d: nat,
    cur: Tensor<B>,
    g: Tensor<B>,
    i: Seq<usize>,
    v: B::Scalar,
)
    requires
        cur@.layout@.valid(),
        d <= dims.len() <= usize::MAX,
        padding.len() >= dims.len(),
        cur@.dims().len() == dims.len(),
        forall|k: int|
            0 <= k < dims.len() ==> #[trigger] cur@.dims()[k] == if k >= d {
                dims[k] + padding[k]@[0] + padding[k]@[1]
            } else {
                dims[k] as int
            },
        rules::trimmed(dims, padding, d, cur, Ok(g)),
        nd::in_bounds(i, dims),
        elements::element_is(at, cur, shifted_from(i, padding, d), v),
    ensures
        g@.dims() == dims,
        elements::element_is(at, g, i, v),
    decreases dims.len() - d,
{
    let e = shifted_from(i, padding, d);
    if d >= dims.len() {
        assert(e =~= i);
        assert(g@.dims() =~= dims);
    } else {
        let p = padding[d as int];
        let next_e = shifted_from(i, padding, d + 1);
        assert(i[d as int] < dims[d as int]);
        assert(cur@.dims()[d as int] == dims[d as int] + p@[0] + p@[1]);
        if p@[0] == 0 && p@[1] == 0 {
            assert(e =~= next_e);
            assert forall|k: int| 0 <= k < dims.len() implies #[trigger] cur@.dims()[k] == if k
                >= d + 1 {
                dims[k] + padding[k]@[0] + padding[k]@[1]
            } else {
                dims[k] as int
            } by {}
            lemma_trimmed(at, dims, padding, d + 1, cur, g, i, v);
        } else {
            let s = choose|s: Tensor<B>|
                #[trigger] call_ensures(
                    Tensor::narrow,
                    (&cur, d as usize, p@[0], dims[d as int]),
                    Ok::<Tensor<B>, Error>(s),
                ) && rules::trimmed(dims, padding, d + 1, s, Ok(g));
            assert forall|k: int| 0 <= k < dims.len() implies #[trigger] e[k] < cur@.dims()[k] by {
                assert(i[k] < dims[k]);
            }
            assert forall|k: int| 0 <= k < e.len() && k != d as usize implies #[trigger] next_e[k]
                == e[k] by {}
            reshaped::law_narrow_elements(
                at,
                cur,
                d as usize,
                p@[0],
                dims[d as int],
                s,
                e,
                next_e,
                v,
            );
            lemma_trimmed(at, dims, padding, d + 1, s, g, i, v);
        }
    }
}

/// The gradient of a padding: each element of the tensor gets that of the place
/// where it stands in the padded one; the padding itself has none.
pub proof fn law_padding_gradient<B: Backend>(
    at: spec_fn(B::Storage, nat) -> B::Scalar,
    a: Tensor<B>,
    padding: &[[usize; 2]],
    value: B::Scalar,
    t: Tensor<B>,
    grad: Tensor<B>,
    g: Tensor<B>,
    i: Seq<usize>,
    j: Seq<usize>,
    v: B::Scalar,
)
    requires
        a@.dims().len() <= usize::MAX,
        grad@.layout@.valid(),
        call_ensures(Tensor::pad, (&a, padding, value), Ok::<Tensor<B>, Error>(t)),
        t != a,
        grad@.dims() == t@.dims(),
        contributions::contribution(t@.op, grad, 0, g),
        nd::in_bounds(i, a@.dims()),
        j.len() == i.len(),
        forall|d: int|
            0 <= d < i.len() ==> #[trigger] j[d] == i[d] + padded_before(
                padding@,
                a@.dims().len(),
                d,
            ),
        elements::element_is(at, grad, j, v),
    ensures
        contributions::used(t@.op) == seq![a],
        g@.dims() == a@.dims(),
        elements::element_is(at, g, i, v),
{
    let rank = a@.dims().len();
    let full = joining::full_padding(padding@, rank);
    assert(t@.op matches Op::Pad { input, padding: p } && input == a && p@ == full);
    assert(contributions::used(t@.op) =~= seq![a]);
    assert(joining::padded_fit(a@.dims(), full));
    assert forall|k: int| 0 <= k < rank implies #[trigger] grad@.dims()[k] == a@.dims()[k]
        + full[k]@[0] + full[k]@[1] by {
        assert(joining::padded_size(a@.dims()[k], full[k]) <= usize::MAX);
    }
    assert forall|k: int| 0 <= k < rank implies #[trigger] j[k] == i[k] + full[k]@[0] by {}
    assert(j =~= shifted_from(i, full, 0));
    lemma_trimmed(at, a@.dims(), full, 0, grad, g, i, v);
}

} // verus!
