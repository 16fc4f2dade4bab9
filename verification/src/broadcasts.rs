//! Gradients of tensors that were repeated to a larger shape: they are summed
//! over the repetitions.
use crate::backend::{Backend, BinaryOp, ReduceOp, UnaryOp};
use crate::backprop;
use crate::contributions;
use crate::elements;
use crate::elementwise;
use crate::error::Error;
use crate::flows;
use crate::layout::LayoutView;
use crate::model;
use crate::nd;
use crate::reductions;
use crate::rules;
use crate::scalar::Scalar;
use crate::shape;
use crate::shaping;
use crate::slopes;
use crate::sums;
use crate::tensor::{self, Tensor};
use vstd::prelude::*;

verus! {

/// Reductions to sums add up the elements.
pub open spec fn adds<S: Scalar>(fold: spec_fn(ReduceOp, Seq<S>) -> S) -> bool {
    forall|v: Seq<S>| #[trigger]
        fold(ReduceOp::Sum, v) == sums::total(|k: int| v[k], v.len())
}

/// A tensor of shape `own`, filled up with leading dimensions of size 1, was
/// repeated along dimension `d` of `dims`.
pub open spec fn is_repeated(dims: Seq<usize>, own: Seq<usize>, d: int) -> bool {
    dims[d] > 1 && shape::from_right(own, dims.len() - 1 - d) == 1
}

/// What a function gives along a dimension through an index.
pub open spec fn along<S: Scalar>(
    f: spec_fn(Seq<usize>) -> S,
    j: Seq<usize>,
    d: int,
) -> spec_fn(int) -> S {
    |k: int| f(j.update(d, k as usize))
}

/// The sums of a function along a dimension of a given size.
pub open spec fn summing<S: Scalar>(
    f: spec_fn(Seq<usize>) -> S,
    d: int,
    size: usize,
) -> spec_fn(Seq<usize>) -> S {
    |j: Seq<usize>| sums::total(along(f, j, d), size as nat)
}

/// The sums of `ds` over all coordinates along those of the dimensions from `d`
/// on that were repeated.
pub open spec fn over_repeats<S: Scalar>(
    ds: spec_fn(Seq<usize>) -> S,
    dims: Seq<usize>,
    own: Seq<usize>,
    d: nat,
) -> spec_fn(Seq<usize>) -> S
    decreases dims.len() - d,
{
    if d >= dims.len() {
        ds
    } else if is_repeated(dims, own, d as int) {
        summing(over_repeats(ds, dims, own, d + 1), d as int, dims[d as int])
    } else {
        over_repeats(ds, dims, own, d + 1)
    }
}

/// Sizes with 1 along those of the dimensions from `d` on that were repeated.
spec fn shrunk(dims: Seq<usize>, own: Seq<usize>, d: int) -> Seq<usize> {
    Seq::new(
        dims.len(),
        |k: int|
            if k >= d && is_repeated(dims, own, k) {
                1
            } else {
                dims[k]
            },
    )
}

proof fn lemma_repeated_same(dims: Seq<usize>, own: Seq<usize>, d: int)
    requires
        own.len() <= dims.len(),
        0 <= d < dims.len(),
    ensures
        rules::was_repeated(dims, own, d) == is_repeated(dims, own, d),
{
}

/// What a gradient that is summed step by step holds.
proof fn lemma_summed<B: Backend>(
    at: spec_fn(B::Storage, nat) -> B::Scalar,
    fold: spec_fn(ReduceOp, Seq<B::Scalar>) -> B::Scalar,
    dims: Seq<usize>,
    own: Seq<usize>,
    n: nat,
    cur: Tensor<B>,
    r: Tensor<B>,
    ds: spec_fn(Seq<usize>) -> B::Scalar,
    e: Seq<usize>,
)
    requires
        model::stores::<B>(at),
        reductions::reduces::<B>(at, fold),
        adds::<B::Scalar>(fold),
        own.len() <= dims.len() <= usize::MAX,
        n <= dims.len(),
        0 < nd::product(cur@.dims()) <= usize::MAX,
        cur@.dims() == shrunk(dims, own, n as int),
        model::has(at, cur, over_repeats(ds, dims, own, n)),
        rules::sums(dims, own, n, cur, Ok(r)),
        nd::in_bounds(e, shrunk(dims, own, 0)),
    ensures
        r@.dims() == shrunk(dims, own, 0),
        elements::element_is(at, r, e, over_repeats(ds, dims, own, 0)(e)),
    decreases n,
{
    let ys = over_repeats(ds, dims, own, n);
    if n == 0 {
        assert(nd::in_bounds(e, cur@.dims()));
        assert(elements::element_is(at, cur, e, ys(e)));
    } else {
        let d = n - 1;
        let m = d as nat;
        lemma_repeated_same(dims, own, d);
        let next_dims = shrunk(dims, own, d);
        let zs = over_repeats(ds, dims, own, m);
        if is_repeated(dims, own, d) {
            let next = choose|next: Tensor<B>|
                #[trigger] elementwise::reduction_result(
                    cur,
                    ReduceOp::Sum,
                    seq![(n - 1) as usize],
                    true,
                    Ok(next),
                ) && rules::sums(dims, own, (n - 1) as nat, next, Ok(r));
            let dim = d as usize;
            assert(next_dims =~= cur@.dims().update(d, 1));
            nd::lemma_product_zero(cur@.dims());
            nd::lemma_product_zero(next_dims);
            assert forall|k: int| 0 <= k < next_dims.len() implies #[trigger] next_dims[k] > 0 by {
                assert(cur@.dims()[k] > 0);
            }
            // Some index, to know the shape of the sum.
            let zero = Seq::new(dims.len(), |k: int| 0usize);
            assert(nd::in_bounds(zero, cur@.dims())) by {
                assert forall|k: int| 0 <= k < dims.len() implies #[trigger] zero[k]
                    < cur@.dims()[k] by {
                    assert(cur@.dims()[k] > 0);
                }
            }
            reductions::lemma_reduced(
                at,
                fold,
                ReduceOp::Sum,
                cur,
                dim,
                true,
                next,
                ys,
                zero,
            );
            assert forall|j: Seq<usize>| #[trigger] nd::in_bounds(
                j,
                next@.dims(),
            ) implies elements::element_is(at, next, j, zs(j)) by {
                assert(j[d] < next_dims[d]);
                assert(nd::in_bounds(j, cur@.dims())) by {
                    assert forall|k: int| 0 <= k < dims.len() implies #[trigger] j[k]
                        < cur@.dims()[k] by {
                        assert(j[k] < next_dims[k]);
                        assert(cur@.dims()[k] > 0);
                    }
                }
                reductions::lemma_reduced(
                    at,
                    fold,
                    ReduceOp::Sum,
                    cur,
                    dim,
                    true,
                    next,
                    ys,
                    j,
                );
                assert(j.update(d, 0) =~= j);
                let size = cur@.dims()[d];
                assert(size == dims[d]);
                let v = reductions::lane(ys, j, d, size);
                assert(fold(ReduceOp::Sum, v) == sums::total(|k: int| v[k], v.len()));
                let f = |k: int| v[k];
                let h = along(ys, j, d);
                assert forall|k: int| 0 <= k < size implies #[trigger] f(k) == h(k) by {}
                sums::lemma_same(f, h, size as nat);
                assert(m + 1 == n);
            }
            assert(model::has(at, next, zs));
            flows::lemma_sum_shrinks(cur@.dims(), d);
            lemma_summed(at, fold, dims, own, m, next, r, ds, e);
        } else {
            assert(next_dims =~= cur@.dims());
            assert forall|j: Seq<usize>| #[trigger] nd::in_bounds(
                j,
                cur@.dims(),
            ) implies elements::element_is(at, cur, j, zs(j)) by {
                assert(elements::element_is(at, cur, j, ys(j)));
                assert(m + 1 == n);
            }
            assert(model::has(at, cur, zs));
            lemma_summed(at, fold, dims, own, m, cur, r, ds, e);
        }
    }
}

/// An index with leading zeros.
pub open spec fn filled_up(i: Seq<usize>, rank: nat) -> Seq<usize> {
    Seq::new(
        rank,
        |k: int|
            if k < rank - i.len() {
                0
            } else {
                i[k - (rank - i.len())]
            },
    )
}

/// Leading dimensions of size 1 do not change positions.
proof fn lemma_leading_place(i: Seq<usize>, own: Seq<usize>, e: Seq<usize>, more: Seq<usize>)
    requires
        i.len() == own.len(),
        e.len() == more.len(),
        own.len() <= more.len(),
        forall|k: int|
            0 <= k < more.len() ==> #[trigger] more[k] == rules::padded_dim(own, more.len(), k),
        e == filled_up(i, more.len()),
    ensures
        model::place(e, more) == model::place(i, own),
    decreases more.len(),
{
    if more.len() == own.len() {
        assert(more =~= own);
        assert(e =~= i);
    } else {
        let m1 = more.skip(1);
        let e1 = e.skip(1);
        assert forall|k: int| 0 <= k < m1.len() implies #[trigger] m1[k] == rules::padded_dim(
            own,
            m1.len(),
            k,
        ) by {
            assert(m1[k] == more[k + 1]);
        }
        assert(e1 =~= filled_up(i, m1.len()));
        lemma_leading_place(i, own, e1, m1);
        flows::lemma_place_with_one(e1, m1, 0);
        assert(more[0] == 1);
        assert(m1.insert(0, 1) =~= more);
        assert(e1.insert(0, 0) =~= e);
    }
}

/// A gradient of the shape that two tensors broadcast to, brought back to one of
/// them: each element is the sum over all positions that the element was
/// repeated to.
pub proof fn law_reduced_broadcast<B: Backend>(
    at: spec_fn(B::Storage, nat) -> B::Scalar,
    fold: spec_fn(ReduceOp, Seq<B::Scalar>) -> B::Scalar,
    grad: Tensor<B>,
    own: Seq<usize>,
    other: Seq<usize>,
    r: Tensor<B>,
    ds: spec_fn(Seq<usize>) -> B::Scalar,
    i: Seq<usize>,
)
    requires
        model::stores::<B>(at),
        reductions::reduces::<B>(at, fold),
        adds::<B::Scalar>(fold),
        shape::broadcastable(own, other),
        grad@.dims() == shape::broadcast(own, other),
        grad@.dims().len() <= usize::MAX,
        0 < nd::product(grad@.dims()) <= usize::MAX,
        rules::unbroadcast(grad, own, Ok(r)),
        model::has(at, grad, ds),
        nd::in_bounds(i, own),
    ensures
        r@.dims() == own,
        elements::element_is(
            at,
            r,
            i,
            over_repeats(ds, grad@.dims(), own, 0)(filled_up(i, grad@.dims().len())),
        ),
{
    let dims = grad@.dims();
    let rank = dims.len();
    let e = filled_up(i, rank);
    if dims == own {
        assert(e =~= i);
        lemma_nothing_repeated(ds, dims, own, 0);
        assert(elements::element_is(at, grad, i, ds(i)));
    } else {
        let s = choose|s: Tensor<B>|
            #[trigger] rules::sums(dims, own, dims.len(), grad, Ok(s)) && shaping::reshape_result(
                s,
                own,
                Ok(r),
            );
        let ys = over_repeats(ds, dims, own, rank);
        assert(shrunk(dims, own, rank as int) =~= dims);
        assert forall|j: Seq<usize>| #[trigger] nd::in_bounds(
            j,
            grad@.dims(),
        ) implies elements::element_is(at, grad, j, ys(j)) by {
            assert(elements::element_is(at, grad, j, ds(j)));
        }
        assert(model::has(at, grad, ys));
        let small = shrunk(dims, own, 0);
        nd::lemma_product_zero(dims);
        assert forall|k: int| 0 <= k < rank implies #[trigger] small[k] == rules::padded_dim(
            own,
            rank,
            k,
        ) by {
            let m = rank - 1 - k;
            assert(!shape::clash_at(own, other, m));
            assert(dims[k] == shape::joint_size(
                shape::from_right(own, m),
                shape::from_right(other, m),
            ));
            assert(dims[k] > 0);
        }
        assert forall|k: int| 0 <= k < rank implies #[trigger] e[k] < small[k] by {
            if k >= rank - i.len() {
                assert(i[k - (rank - i.len())] < own[k - (rank - i.len())]);
            }
        }
        assert(nd::in_bounds(e, small));
        lemma_summed(at, fold, dims, own, rank, grad, s, ds, e);
        lemma_leading_place(i, own, e, small);
        let c = choose|c: Tensor<B>|
            #[trigger] call_ensures(Tensor::contiguous, (&s,), Ok::<Tensor<B>, Error>(c))
                && tensor::viewed(r, c, LayoutView::contiguous(own));
        let v = over_repeats(ds, dims, own, 0)(e);
        model::lemma_contiguous(at, s, c, e, v);
        model::lemma_place(e, small);
        model::lemma_place(i, own);
    }
}

proof fn lemma_nothing_repeated<S: Scalar>(
    ds: spec_fn(Seq<usize>) -> S,
    dims: Seq<usize>,
    own: Seq<usize>,
    d: nat,
)
    requires
        dims == own,
        d <= dims.len(),
    ensures
        over_repeats(ds, dims, own, d) == ds,
    decreases dims.len() - d,
{
    if d < dims.len() {
        assert(shape::from_right(own, dims.len() - 1 - d) == dims[d as int]);
        lemma_nothing_repeated(ds, dims, own, d + 1);
    }
}

/// A broadcast absorbs the shapes that it is made of.
proof fn lemma_absorbs(a: Seq<usize>, b: Seq<usize>)
    requires
        shape::broadcastable(a, b),
    ensures
        shape::broadcastable(shape::broadcast(a, b), a),
        shape::broadcast(shape::broadcast(a, b), a) == shape::broadcast(a, b),
        shape::broadcastable(shape::broadcast(a, b), b),
        shape::broadcast(shape::broadcast(a, b), b) == shape::broadcast(a, b),
{
    shape::law_broadcast_with_itself(a);
    shape::law_broadcast_with_itself(b);
    shape::law_broadcast_associates(a, b, b);
    shape::law_broadcast_commutes(a, b);
    shape::law_broadcast_associates(b, a, a);
}

/// The gradient of one of two tensors that are added, subtracted, multiplied or
/// divided with broadcasting: each of its elements is the sum, over all positions
/// that the element was repeated to, of what the operation passes back there.
/// `first` says which of the two it is.
pub proof fn law_broadcast_gradient<B: Backend>(
    at: spec_fn(B::Storage, nat) -> B::Scalar,
    f: spec_fn(UnaryOp, B::Scalar) -> B::Scalar,
    fold: spec_fn(ReduceOp, Seq<B::Scalar>) -> B::Scalar,
    op: BinaryOp,
    a: Tensor<B>,
    b: Tensor<B>,
    t: Tensor<B>,
    grad: Tensor<B>,
    first: bool,
    g: Tensor<B>,
    xs: spec_fn(Seq<usize>) -> B::Scalar,
    ys: spec_fn(Seq<usize>) -> B::Scalar,
    ds: spec_fn(Seq<usize>) -> B::Scalar,
    parts: spec_fn(Seq<usize>) -> B::Scalar,
    i: Seq<usize>,
)
    requires
        model::stores::<B>(at),
        model::combines::<B>(at),
        model::maps::<B>(at, f),
        reductions::reduces::<B>(at, fold),
        adds::<B::Scalar>(fold),
        slopes::binary_call(op, a, b, t),
        grad@.dims() == t@.dims(),
        t@.dims().len() <= usize::MAX,
        nd::product(t@.dims()) > 0,
        contributions::contribution(
            t@.op,
            grad,
            if first {
                0
            } else {
                1
            },
            g,
        ),
        model::has(at, a, xs),
        model::has(at, b, ys),
        model::has(at, grad, ds),
        nd::in_bounds(
            i,
            if first {
                a@.dims()
            } else {
                b@.dims()
            },
        ),
        forall|j: Seq<usize>| #[trigger]
            nd::in_bounds(j, t@.dims()) ==> {
                let x = xs(shape::repeated_index(j, a@.dims(), t@.dims()));
                let y = ys(shape::repeated_index(j, b@.dims(), t@.dims()));
                let d = ds(j);
                parts(j) == match op {
                    BinaryOp::Add => d,
                    BinaryOp::Sub => if first {
                        d
                    } else {
                        f(UnaryOp::Neg, d)
                    },
                    BinaryOp::Mul => if first {
                        d.times(y)
                    } else {
                        d.times(x)
                    },
                    BinaryOp::Div => if first {
                        d.over(y)
                    } else {
                        f(UnaryOp::Neg, d).times(x).over(y.times(y))
                    },
                }
            },
    ensures
        contributions::used(t@.op) == seq![a, b],
        t@.dims() == shape::broadcast(a@.dims(), b@.dims()),
        ({
            let own = if first {
                a@.dims()
            } else {
                b@.dims()
            };
            &&& g@.dims() == own
            &&& elements::element_is(
                at,
                g,
                i,
                over_repeats(parts, t@.dims(), own, 0)(filled_up(i, t@.dims().len())),
            )
        }),
{
    assert(elementwise::binary_result(a, b, op, Ok(t)));
    assert(contributions::used(t@.op) =~= seq![a, b]);
    let (own, other, side) = if first {
        (a@.dims(), b@.dims(), 0int)
    } else {
        (b@.dims(), a@.dims(), 1int)
    };
    assert(shape::broadcastable(a@.dims(), b@.dims()));
    shape::law_broadcast_commutes(a@.dims(), b@.dims());
    let dims = t@.dims();
    assert(nd::fits(dims));
    assert(contributions::binary_contribution(op, grad, a, b, side, g));
    let raw = choose|raw: Tensor<B>| #[trigger]
        contributions::binary_part(op, grad, a, b, side, raw) && rules::unbroadcast(
            raw,
            own,
            Ok(g),
        );
    lemma_absorbs(a@.dims(), b@.dims());
    assert forall|j: Seq<usize>| #[trigger] nd::in_bounds(j, dims) implies elements::element_is(
        at,
        raw,
        j,
        parts(j),
    ) && raw@.dims() == dims by {
        lemma_part(at, f, op, a, b, dims, grad, first, raw, xs, ys, ds, j);
    }
    nd::lemma_product_zero(dims);
    let zero = Seq::new(dims.len(), |k: int| 0usize);
    assert(nd::in_bounds(zero, dims));
    assert(model::has(at, raw, parts));
    law_reduced_broadcast(at, fold, raw, own, other, g, parts, i);
}

/// What a binary operation passes back at one position of its result.
proof fn lemma_part<B: Backend>(
    at: spec_fn(B::Storage, nat) -> B::Scalar,
    f: spec_fn(UnaryOp, B::Scalar) -> B::Scalar,
    op: BinaryOp,
    a: Tensor<B>,
    b: Tensor<B>,
    dims: Seq<usize>,
    grad: Tensor<B>,
    first: bool,
    raw: Tensor<B>,
    xs: spec_fn(Seq<usize>) -> B::Scalar,
    ys: spec_fn(Seq<usize>) -> B::Scalar,
    ds: spec_fn(Seq<usize>) -> B::Scalar,
    j: Seq<usize>,
)
    requires
        model::stores::<B>(at),
        model::combines::<B>(at),
        model::maps::<B>(at, f),
        shape::broadcastable(a@.dims(), b@.dims()),
        dims == shape::broadcast(a@.dims(), b@.dims()),
        grad@.dims() == dims,
        model::has(at, a, xs),
        model::has(at, b, ys),
        model::has(at, grad, ds),
        nd::in_bounds(j, dims),
        contributions::binary_part(
            op,
            grad,
            a,
            b,
            if first {
                0
            } else {
                1
            },
            raw,
        ),
    ensures
        raw@.dims() == dims,
        ({
            let x = xs(shape::repeated_index(j, a@.dims(), dims));
            let y = ys(shape::repeated_index(j, b@.dims(), dims));
            let d = ds(j);
            elements::element_is(
                at,
                raw,
                j,
                match op {
                    BinaryOp::Add => d,
                    BinaryOp::Sub => if first {
                        d
                    } else {
                        f(UnaryOp::Neg, d)
                    },
                    BinaryOp::Mul => if first {
                        d.times(y)
                    } else {
                        d.times(x)
                    },
                    BinaryOp::Div => if first {
                        d.over(y)
                    } else {
                        f(UnaryOp::Neg, d).times(x).over(y.times(y))
                    },
                },
            )
        }),
{
    let da = a@.dims();
    let db = b@.dims();
    let ja = shape::repeated_index(j, da, dims);
    let jb = shape::repeated_index(j, db, dims);
    let x = xs(ja);
    let y = ys(jb);
    let d = ds(j);
    lemma_absorbs(da, db);
    shape::law_broadcast_commutes(da, db);
    shape::law_broadcast_index_in_bounds(da, db, j);
    shape::law_broadcast_index_in_bounds(db, da, j);
    assert(elements::element_is(at, a, ja, x));
    assert(elements::element_is(at, b, jb, y));
    assert(elements::element_is(at, grad, j, d));
    assert(shape::repeated_index(j, dims, dims) =~= j);
    match op {
        BinaryOp::Add => {},
        BinaryOp::Sub => {
            if !first {
                model::lemma_unary(at, f, grad, UnaryOp::Neg, raw, j, d);
            }
        },
        BinaryOp::Mul => {
            if first {
                model::lemma_binary(at, grad, b, BinaryOp::Mul, raw, j, d, y);
            } else {
                model::lemma_binary(at, grad, a, BinaryOp::Mul, raw, j, d, x);
            }
        },
        BinaryOp::Div => {
            if first {
                model::lemma_binary(at, grad, b, BinaryOp::Div, raw, j, d, y);
            } else {
                assert(backprop::divisor_grad(grad, a, b, Ok(raw)));
                let (n, s, m) = choose|n: Tensor<B>, s: Tensor<B>, m: Tensor<B>|
                    {
                        &&& #[trigger] call_ensures(
                            Tensor::neg,
                            (&grad,),
                            Ok::<Tensor<B>, Error>(n),
                        )
                        &&& #[trigger] elementwise::binary_result(b, b, BinaryOp::Mul, Ok(s))
                        &&& #[trigger] elementwise::binary_result(n, a, BinaryOp::Mul, Ok(m))
                        &&& elementwise::binary_result(m, s, BinaryOp::Div, Ok(raw))
                    };
                let e = f(UnaryOp::Neg, d);
                model::lemma_unary(at, f, grad, UnaryOp::Neg, n, j, d);
                model::lemma_binary_same(at, b, b, BinaryOp::Mul, s, jb, y, y);
                model::lemma_binary(at, n, a, BinaryOp::Mul, m, j, e, x);
                model::lemma_binary(
                    at,
                    m,
                    s,
                    BinaryOp::Div,
                    raw,
                    j,
                    e.times(x),
                    y.times(y),
                );
            }
        },
    }
}

} // verus!
