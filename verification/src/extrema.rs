//! The gradients of the largest and the smallest element.
use crate::backend::{Backend, ReduceOp};
use crate::contributions;
use crate::elements;
use crate::elementwise;
use crate::error::Error;
use crate::flows;
use crate::gradients;
use crate::host;
use crate::model;
use crate::nd;
use crate::rules;
use crate::scalar::{self, Scalar};
use crate::selection;
use crate::tensor::Tensor;
use vstd::prelude::*;

verus! {

/// Numbers are ordered, with a lowest and a highest one, and those are equal of
/// which neither is below the other.
pub open spec fn ranks<S: Scalar>() -> bool {
    &&& scalar::orders::<S>()
    &&& scalar::bounded::<S>()
    &&& forall|a: S, b: S| #[trigger] a.same(b) <==> !a.below(b) && !b.below(a)
}

/// Whole numbers are ranked.
pub proof fn law_integers_ranked()
    ensures
        ranks::<i64>(),
{
    scalar::law_integers_ordered();
}

/// A number is not smaller than another, or not larger.
pub open spec fn leads<S: Scalar>(a: S, b: S, largest: bool) -> bool {
    if largest {
        !a.below(b)
    } else {
        !b.below(a)
    }
}

/// The elements that differ from `i` at most in the coordinate along a dimension.
pub open spec fn beside(i: Seq<usize>, j: Seq<usize>, dim: int) -> bool {
    forall|c: int| 0 <= c < i.len() && c != dim ==> #[trigger] j[c] == i[c]
}

/// Two elements are reduced to one position if and only if they stand beside each
/// other.
proof fn lemma_beside(i: Seq<usize>, j: Seq<usize>, dims: Seq<usize>, dim: usize, keep_dim: bool)
    requires
        nd::in_bounds(i, dims),
        nd::in_bounds(j, dims),
        dim < dims.len() <= usize::MAX,
        nd::product(dims) <= usize::MAX,
    ensures
        gradients::reduced_position(dims, seq![dim], model::place(i, dims))
            == gradients::reduced_position(dims, seq![dim], model::place(j, dims)) <==> beside(
            i,
            j,
            dim as int,
        ),
        gradients::reduced_position(dims, seq![dim], model::place(i, dims)) <= usize::MAX,
{
    flows::lemma_reduced_one(dims, dim, keep_dim, i);
    flows::lemma_reduced_one(dims, dim, keep_dim, j);
    let small = flows::reduced_sizes(dims, dim as int, keep_dim);
    let a = flows::reduced_index(i, dim as int, keep_dim);
    let b = flows::reduced_index(j, dim as int, keep_dim);
    nd::lemma_unravel_of_ravel(a, small);
    nd::lemma_unravel_of_ravel(b, small);
    if beside(i, j, dim as int) {
        assert(a =~= b);
    }
    if a == b {
        assert forall|c: int| 0 <= c < i.len() && c != dim implies #[trigger] j[c] == i[c] by {
            if keep_dim || c < dim {
                assert(a[c] == b[c]);
            } else {
                assert(a[c - 1] == b[c - 1]);
            }
        }
    }
}

/// The ties of an extremum, counted over those values that are chosen.
proof fn lemma_ties<S: Scalar>(
    vals: Seq<S>,
    positions: Seq<usize>,
    extremum: S,
    q: int,
    n: nat,
    tied: spec_fn(int) -> bool,
)
    requires
        forall|k: int|
            0 <= k < n ==> (#[trigger] tied(k) <==> positions[k] == q && vals[k].same(extremum)),
    ensures
        gradients::ties_at(vals, positions, extremum, q, n) == selection::sum_where(
            tied,
            |k: int| S::one_val(),
            n,
        ),
    decreases n,
{
    if n > 0 {
        lemma_ties(vals, positions, extremum, q, (n - 1) as nat, tied);
        assert(tied(n - 1) == tied(n - 1));
    }
}

/// The share of one value in the gradient of an extremum.
proof fn lemma_share<S: Scalar>(
    vals: Seq<S>,
    grad: Seq<S>,
    positions: Seq<usize>,
    largest: bool,
    k: int,
    tied: spec_fn(int) -> bool,
)
    requires
        ranks::<S>(),
        0 <= k < vals.len(),
        positions.len() == vals.len(),
        forall|l: int|
            0 <= l < vals.len() ==> (#[trigger] tied(l) <==> positions[l] == positions[k]
                && vals[l].same(vals[k])),
    ensures
        gradients::extremum_share(vals, grad, positions, largest, k) == if (forall|l: int|
            0 <= l < vals.len() && #[trigger] positions[l] == positions[k] ==> leads(
                vals[k],
                vals[l],
                largest,
            )) {
            grad[k].over(selection::sum_where(tied, |l: int| S::one_val(), vals.len()))
        } else {
            S::zero_val()
        },
{
    let q = positions[k] as int;
    let n = vals.len();
    let m = gradients::extremum_at(vals, positions, largest, q, n);
    gradients::law_extremum(vals, positions, largest, q, n);
    let ahead = forall|l: int|
        0 <= l < n && #[trigger] positions[l] == positions[k] ==> leads(vals[k], vals[l], largest);
    assert(positions[k] == q);
    assert(!gradients::exceeds(vals[k], m, largest));
    if vals[k].same(m) {
        assert forall|l: int| 0 <= l < n && #[trigger] positions[l] == positions[k] implies leads(
            vals[k],
            vals[l],
            largest,
        ) by {
            assert(!gradients::exceeds(vals[l], m, largest));
        }
        assert forall|l: int| 0 <= l < n implies (#[trigger] tied(l) <==> positions[l] == q
            && vals[l].same(m)) by {
            assert(vals[l].same(m) <==> !vals[l].below(m) && !m.below(vals[l]));
            assert(vals[l].same(vals[k]) <==> !vals[l].below(vals[k]) && !vals[k].below(vals[l]));
            assert(!vals[k].below(m) && !m.below(vals[k]));
        }
        lemma_ties(vals, positions, m, q, n, tied);
    } else if ahead {
        if m != gradients::extremum_start::<S>(largest) {
            let l = choose|l: int| 0 <= l < n && #[trigger] positions[l] == q && vals[l] == m;
            assert(leads(vals[k], vals[l], largest));
        }
        assert(vals[k].same(m));
    }
}

/// The call of a reduction to the largest or the smallest element along a
/// dimension.
pub open spec fn extremum_call<B: Backend>(
    x: Tensor<B>,
    dim: usize,
    keep_dim: bool,
    largest: bool,
    t: Tensor<B>,
) -> bool {
    if largest {
        call_ensures(Tensor::max, (&x, dim, keep_dim), Ok::<Tensor<B>, Error>(t))
    } else {
        call_ensures(Tensor::min, (&x, dim, keep_dim), Ok::<Tensor<B>, Error>(t))
    }
}

/// The gradient of the largest (or smallest) element along a dimension flows to
/// the elements that no element along the dimension exceeds, to each the same
/// share: the gradient over the number of elements that are equal to it. All other
/// elements get zero.
#[verifier::rlimit(40)]
pub proof fn law_extremum_gradient<B: Backend>(
    at: spec_fn(B::Storage, nat) -> B::Scalar,
    x: Tensor<B>,
    dim: usize,
    keep_dim: bool,
    largest: bool,
    t: Tensor<B>,
    grad: Tensor<B>,
    g: Tensor<B>,
    xs: spec_fn(Seq<usize>) -> B::Scalar,
    gs: spec_fn(Seq<usize>) -> B::Scalar,
    i: Seq<usize>,
)
    requires
        model::stores::<B>(at),
        ranks::<B::Scalar>(),
        nd::product(x@.dims()) <= usize::MAX,
        x@.dims().len() <= usize::MAX,
        extremum_call(x, dim, keep_dim, largest, t),
        grad@.dims() == t@.dims(),
        contributions::contribution(t@.op, grad, 0, g),
        model::has(at, x, xs),
        model::has(at, grad, gs),
        nd::in_bounds(i, x@.dims()),
    ensures
        contributions::used(t@.op) == seq![x],
        dim < x@.dims().len(),
        t@.dims() == flows::reduced_sizes(x@.dims(), dim as int, keep_dim),
        g@.dims() == x@.dims(),
        elements::element_is(
            at,
            g,
            i,
            if (forall|j: Seq<usize>| #[trigger]
                nd::in_bounds(j, x@.dims()) && beside(i, j, dim as int) ==> leads(
                    xs(i),
                    xs(j),
                    largest,
                )) {
                gs(flows::reduced_index(i, dim as int, keep_dim)).over(
                    selection::sum_where(
                        |p: int|
                            {
                                let j = nd::unravel(p as nat, x@.dims());
                                beside(i, j, dim as int) && xs(j).same(xs(i))
                            },
                        |p: int| <B::Scalar as Scalar>::one_val(),
                        nd::product(x@.dims()),
                    ),
                )
            } else {
                <B::Scalar as Scalar>::zero_val()
            },
        ),
{
    let dims = x@.dims();
    let op = if largest {
        ReduceOp::Max
    } else {
        ReduceOp::Min
    };
    assert(elementwise::reduction_result(x, op, seq![dim], keep_dim, Ok(t)));
    flows::lemma_reduction_shape(x, op, dim, keep_dim, t, i);
    let one = seq![dim];
    assert(rules::extremum_rule(grad, x, one, largest, Ok(g)));
    let positions = gradients::reduced_positions(dims, one);
    let v = choose|v: Vec<B::Scalar>| #[trigger]
        host::values_result(x, Ok(v)) && exists|s: Tensor<B>, w: Vec<B::Scalar>|
            {
                &&& #[trigger] rules::spread(grad, x, one, Ok(s))
                &&& #[trigger] host::values_result(s, Ok(w))
                &&& rules::uploaded_like(
                    gradients::extremum_grad_result(v@, w@, positions, largest),
                    x,
                    Ok(g),
                )
            };
    let (s, w) = choose|s: Tensor<B>, w: Vec<B::Scalar>|
        {
            &&& #[trigger] rules::spread(grad, x, one, Ok(s))
            &&& #[trigger] host::values_result(s, Ok(w))
            &&& rules::uploaded_like(
                gradients::extremum_grad_result(v@, w@, positions, largest),
                x,
                Ok(g),
            )
        };
    let data = gradients::extremum_grad_result(v@, w@, positions, largest);
    model::lemma_uploaded(at, data, dims, x@.dtype, x@.device, g, i);
    let k = model::place(i, dims) as int;
    model::lemma_place(i, dims);
    let r = flows::reduced_index(i, dim as int, keep_dim);
    flows::lemma_reduced_one(dims, dim, keep_dim, i);
    assert(elements::element_is(at, grad, r, gs(r)));
    flows::lemma_spread(at, grad, x, dim, keep_dim, s, i, gs(r));
    model::lemma_values(at, s, w, i, gs(r));
    assert(elements::element_is(at, x, i, xs(i)));
    model::lemma_values(at, x, v, i, xs(i));
    let n = nd::product(dims);
    let tied = |p: int|
        {
            let j = nd::unravel(p as nat, dims);
            beside(i, j, dim as int) && xs(j).same(xs(i))
        };
    assert forall|p: int| 0 <= p < n implies {
        let j = nd::unravel(p as nat, dims);
        &&& nd::in_bounds(j, dims)
        &&& v@[p] == xs(j)
        &&& (#[trigger] positions[p] == positions[k] <==> beside(i, j, dim as int))
    } by {
        let j = nd::unravel(p as nat, dims);
        selection::lemma_unravelled(p as nat, dims);
        assert(elements::element_is(at, x, j, xs(j)));
        model::lemma_values(at, x, v, j, xs(j));
        lemma_beside(i, j, dims, dim, keep_dim);
        lemma_beside(j, i, dims, dim, keep_dim);
    }
    assert forall|p: int| 0 <= p < n implies (#[trigger] tied(p) <==> positions[p] == positions[k]
        && v@[p].same(v@[k])) by {
        let j = nd::unravel(p as nat, dims);
        assert(positions[p] == positions[k] <==> beside(i, j, dim as int));
        assert(v@[p] == xs(j));
    }
    lemma_share(v@, w@, positions, largest, k, tied);
    let ahead = forall|j: Seq<usize>| #[trigger]
        nd::in_bounds(j, dims) && beside(i, j, dim as int) ==> leads(xs(i), xs(j), largest);
    let ahead_list = forall|l: int|
        0 <= l < n && #[trigger] positions[l] == positions[k] ==> leads(v@[k], v@[l], largest);
    if ahead {
        assert forall|l: int| 0 <= l < n && #[trigger] positions[l] == positions[k] implies leads(
            v@[k],
            v@[l],
            largest,
        ) by {
            let j = nd::unravel(l as nat, dims);
            assert(nd::in_bounds(j, dims) && beside(i, j, dim as int));
        }
    }
    if ahead_list {
        assert forall|j: Seq<usize>| #[trigger]
            nd::in_bounds(j, dims) && beside(i, j, dim as int) implies leads(
            xs(i),
            xs(j),
            largest,
        ) by {
            model::lemma_place(j, dims);
            let l = model::place(j, dims) as int;
            assert(positions[l] == positions[k]);
        }
    }
}

/// The gradient of the largest (or smallest) number of a list flows to the numbers
/// that no number exceeds, to each the same share: the gradient over the count of
/// numbers that are equal to it. All others get zero.
pub proof fn law_whole_extremum_gradient<S: Scalar>(
    vals: &[S],
    grad: S,
    largest: bool,
    r: Vec<S>,
    k: int,
)
    requires
        ranks::<S>(),
        call_ensures(gradients::whole_extremum_grad::<S>, (vals, grad, largest), r),
        0 <= k < vals@.len(),
    ensures
        r@.len() == vals@.len(),
        r@[k] == if (forall|l: int|
            0 <= l < vals@.len() ==> leads(vals@[k], #[trigger] vals@[l], largest)) {
            grad.over(S::of_count(vals@.filter(|v: S| v.same(vals@[k])).len() as usize))
        } else {
            S::zero_val()
        },
{
    let list = vals@;
    let n = list.len();
    let m = gradients::extremum_of(list, largest, n);
    lemma_whole_extremum(list, largest, n);
    let ahead = forall|l: int| 0 <= l < n ==> leads(list[k], #[trigger] list[l], largest);
    assert(!gradients::exceeds(list[k], m, largest));
    if list[k].same(m) {
        assert forall|l: int| 0 <= l < n implies leads(list[k], #[trigger] list[l], largest) by {
            assert(!gradients::exceeds(list[l], m, largest));
        }
        lemma_count_equal(list, m, list[k], n);
        assert(list.take(n as int) =~= list);
    } else if ahead {
        if m != gradients::extremum_start::<S>(largest) {
            let l = choose|l: int| 0 <= l < n && #[trigger] list[l] == m;
            assert(leads(list[k], list[l], largest));
        }
        assert(list[k].same(m));
    }
}

proof fn lemma_whole_extremum<S: Scalar>(vals: Seq<S>, largest: bool, n: nat)
    requires
        ranks::<S>(),
        n <= vals.len(),
    ensures
        forall|l: int|
            0 <= l < n ==> !gradients::exceeds(
                #[trigger] vals[l],
                gradients::extremum_of(vals, largest, n),
                largest,
            ),
        gradients::extremum_of(vals, largest, n) == gradients::extremum_start::<S>(largest)
            || exists|l: int|
            0 <= l < n && #[trigger] vals[l] == gradients::extremum_of(vals, largest, n),
    decreases n,
{
    if n > 0 {
        let m = (n - 1) as nat;
        lemma_whole_extremum(vals, largest, m);
        let old = gradients::extremum_of(vals, largest, m);
        let new = gradients::extremum_of(vals, largest, n);
        assert forall|l: int| 0 <= l < n implies !gradients::exceeds(
            #[trigger] vals[l],
            new,
            largest,
        ) by {
            assert(!vals[l].below(vals[l]));
            if l < m {
                assert(!gradients::exceeds(vals[l], old, largest));
                if gradients::exceeds(vals[n - 1], old, largest) && gradients::exceeds(
                    vals[l],
                    vals[n - 1],
                    largest,
                ) {
                    assert(gradients::exceeds(vals[l], old, largest));
                }
            }
        }
    }
}

proof fn lemma_count_equal<S: Scalar>(vals: Seq<S>, m: S, v: S, n: nat)
    requires
        ranks::<S>(),
        n <= vals.len(),
        v.same(m),
    ensures
        gradients::count_equal(vals, m, n) == vals.take(n as int).filter(
            |x: S| x.same(v),
        ).len(),
    decreases n,
{
    let test = |x: S| x.same(v);
    reveal(Seq::filter);
    if n > 0 {
        lemma_count_equal(vals, m, v, (n - 1) as nat);
        let part = vals.take(n as int);
        assert(part.drop_last() =~= vals.take(n - 1));
        let last = vals[n - 1];
        assert(last.same(m) <==> !last.below(m) && !m.below(last));
        assert(last.same(v) <==> !last.below(v) && !v.below(last));
        assert(!v.below(m) && !m.below(v));
        assert(test(last) == last.same(m));
    }
}

} // verus!
