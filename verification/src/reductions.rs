//! What reductions along a dimension hold, and what is composed of them.
use crate::backend::{Backend, BinaryOp, ReduceOp, UnaryOp};
use crate::dtype::DType;
use crate::elements;
use crate::elementwise;
use crate::error::{Error, Result};
use crate::flows;
use crate::layout::{self, Layout, LayoutView};
use crate::model;
use crate::nd;
use crate::reshaped;
use crate::shape;
use crate::tensor::Tensor;
use vstd::prelude::*;

verus! {

/// The elements along a dimension through an index.
pub open spec fn lane<S>(
    xs: spec_fn(Seq<usize>) -> S,
    i: Seq<usize>,
    dim: int,
    size: usize,
) -> Seq<S> {
    Seq::new(size as nat, |k: int| xs(i.update(dim, k as usize)))
}

/// What a layout finds in a storage, by index.
pub open spec fn found<B: Backend>(
    at: spec_fn(B::Storage, nat) -> B::Scalar,
    s: B::Storage,
    l: LayoutView,
) -> spec_fn(Seq<usize>) -> B::Scalar {
    |i: Seq<usize>| at(s, l.address(i))
}

/// The backend reduces the elements along a dimension to what `fold` makes of
/// them.
pub open spec fn reduces<B: Backend>(
    at: spec_fn(B::Storage, nat) -> B::Scalar,
    fold: spec_fn(ReduceOp, Seq<B::Scalar>) -> B::Scalar,
) -> bool {
    forall|
        op: ReduceOp,
        s: B::Storage,
        l: Layout,
        d: &[usize],
        keep_dim: bool,
        made: B::Storage,
        i: Seq<usize>,
    |
        #[trigger] call_ensures(
            B::reduce_op,
            (op, &s, &l, d, keep_dim),
            Ok::<B::Storage, Error>(made),
        ) && #[trigger] nd::in_bounds(i, l@.dims) && d@.len() == 1 && d@[0] < l@.dims.len() ==> at(
            made,
            LayoutView::contiguous(
                flows::reduced_sizes(l@.dims, d@[0] as int, keep_dim),
            ).address(flows::reduced_index(i, d@[0] as int, keep_dim)),
        ) == fold(op, lane(found::<B>(at, s, l@), i, d@[0] as int, l@.dims[d@[0] as int]))
}

/// The backend reduces all elements, in row-major order, to what `fold` makes of
/// them.
pub open spec fn reduces_all<B: Backend>(
    at: spec_fn(B::Storage, nat) -> B::Scalar,
    fold: spec_fn(ReduceOp, Seq<B::Scalar>) -> B::Scalar,
) -> bool {
    forall|
        op: ReduceOp,
        s: B::Storage,
        l: Layout,
        d: &[usize],
        keep_dim: bool,
        made: B::Storage,
    |
        #[trigger] call_ensures(
            B::reduce_op,
            (op, &s, &l, d, keep_dim),
            Ok::<B::Storage, Error>(made),
        ) && d@.len() == 0 ==> at(made, 0) == fold(
            op,
            Seq::new(nd::product(l@.dims), |k: int| at(s, l@.position_of(k as nat))),
        )
}

/// A tensor is the result of the method for a reduction along a dimension.
pub open spec fn reduction_call<B: Backend>(
    op: ReduceOp,
    x: Tensor<B>,
    dim: usize,
    keep_dim: bool,
    t: Tensor<B>,
) -> bool {
    let r = Ok::<Tensor<B>, Error>(t);
    match op {
        ReduceOp::Sum => call_ensures(Tensor::sum, (&x, dim, keep_dim), r),
        ReduceOp::Mean => call_ensures(Tensor::mean, (&x, dim, keep_dim), r),
        ReduceOp::Max => call_ensures(Tensor::max, (&x, dim, keep_dim), r),
        ReduceOp::Min => call_ensures(Tensor::min, (&x, dim, keep_dim), r),
        ReduceOp::ArgMax => call_ensures(Tensor::argmax, (&x, dim, keep_dim), r),
        ReduceOp::ArgMin => call_ensures(Tensor::argmin, (&x, dim, keep_dim), r),
    }
}

pub proof fn lemma_reduced<B: Backend>(
    at: spec_fn(B::Storage, nat) -> B::Scalar,
    fold: spec_fn(ReduceOp, Seq<B::Scalar>) -> B::Scalar,
    op: ReduceOp,
    x: Tensor<B>,
    dim: usize,
    keep_dim: bool,
    t: Tensor<B>,
    xs: spec_fn(Seq<usize>) -> B::Scalar,
    i: Seq<usize>,
)
    requires
        model::stores::<B>(at),
        reduces::<B>(at, fold),
        x@.dims().len() <= usize::MAX,
        nd::product(x@.dims()) <= usize::MAX,
        elementwise::reduction_result(x, op, seq![dim], keep_dim, Ok(t)),
        model::has(at, x, xs),
        nd::in_bounds(i, x@.dims()),
    ensures
        dim < x@.dims().len(),
        t@.dims() == flows::reduced_sizes(x@.dims(), dim as int, keep_dim),
        t@.dtype == elementwise::reduced_dtype(op, x@.dtype),
        elements::element_is(
            at,
            t,
            flows::reduced_index(i, dim as int, keep_dim),
            fold(op, lane(xs, i, dim as int, x@.dims()[dim as int])),
        ),
{
    flows::lemma_reduction_shape(x, op, dim, keep_dim, t, i);
    let one = seq![dim];
    assert(one[0] == dim);
    assert(!(exists|k: int| elementwise::first_missing(one, x@.dims().len(), k)));
    let (s, d, made) = choose|s: B::Storage, d: &[usize], made: Result<B::Storage>|
        {
            &&& x@.storage.can_hold(s)
            &&& d@ == one
            &&& #[trigger] call_ensures(B::reduce_op, (op, &s, &x@.layout, d, keep_dim), made)
            &&& elementwise::reduction_of(made, x, op, one, keep_dim, Ok(t))
        };
    let m = made->Ok_0;
    let j = flows::reduced_index(i, dim as int, keep_dim);
    model::lemma_around_storage(at, t, m, j);
    let size = x@.dims()[dim as int];
    let a = lane(found::<B>(at, s, x@.layout@), i, dim as int, size);
    let b = lane(xs, i, dim as int, size);
    assert forall|k: int| 0 <= k < size implies #[trigger] a[k] == b[k] by {
        let e = i.update(dim as int, k as usize);
        assert forall|c: int| 0 <= c < x@.dims().len() implies #[trigger] e[c] < x@.dims()[c] by {
            assert(i[c] < x@.dims()[c]);
        }
        assert(nd::in_bounds(e, x@.dims()));
        assert(elements::element_is(at, x, e, xs(e)));
    }
    assert(a =~= b);
}

/// A reduction along a dimension removes it, or keeps it with size 1; each
/// element is made of those along the dimension. Positions are whole numbers.
pub proof fn law_reduction_elements<B: Backend>(
    at: spec_fn(B::Storage, nat) -> B::Scalar,
    fold: spec_fn(ReduceOp, Seq<B::Scalar>) -> B::Scalar,
    op: ReduceOp,
    x: Tensor<B>,
    dim: usize,
    keep_dim: bool,
    t: Tensor<B>,
    xs: spec_fn(Seq<usize>) -> B::Scalar,
    i: Seq<usize>,
)
    requires
        model::stores::<B>(at),
        reduces::<B>(at, fold),
        x@.dims().len() <= usize::MAX,
        nd::product(x@.dims()) <= usize::MAX,
        reduction_call(op, x, dim, keep_dim, t),
        model::has(at, x, xs),
        nd::in_bounds(i, x@.dims()),
    ensures
        dim < x@.dims().len(),
        keep_dim ==> t@.dims() == x@.dims().update(dim as int, 1),
        !keep_dim ==> t@.dims() == x@.dims().remove(dim as int),
        op is ArgMax || op is ArgMin ==> t@.dtype == DType::I64,
        !(op is ArgMax || op is ArgMin) ==> t@.dtype == x@.dtype,
        keep_dim ==> elements::element_is(
            at,
            t,
            i.update(dim as int, 0),
            fold(op, lane(xs, i, dim as int, x@.dims()[dim as int])),
        ),
        !keep_dim ==> elements::element_is(
            at,
            t,
            i.remove(dim as int),
            fold(op, lane(xs, i, dim as int, x@.dims()[dim as int])),
        ),
{
    assert(elementwise::reduction_result(x, op, seq![dim], keep_dim, Ok(t)));
    lemma_reduced(at, fold, op, x, dim, keep_dim, t, xs, i);
}

/// The sum and the mean of all elements are scalars, made of all elements.
pub proof fn law_whole_reduction_elements<B: Backend>(
    at: spec_fn(B::Storage, nat) -> B::Scalar,
    fold: spec_fn(ReduceOp, Seq<B::Scalar>) -> B::Scalar,
    op: ReduceOp,
    x: Tensor<B>,
    t: Tensor<B>,
    xs: spec_fn(Seq<usize>) -> B::Scalar,
)
    requires
        model::stores::<B>(at),
        reduces_all::<B>(at, fold),
        nd::product(x@.dims()) <= usize::MAX,
        op is Sum && call_ensures(Tensor::sum_all, (&x,), Ok::<Tensor<B>, Error>(t)) || op is Mean
            && call_ensures(Tensor::mean_all, (&x,), Ok::<Tensor<B>, Error>(t)),
        model::has(at, x, xs),
    ensures
        t@.dims() == Seq::<usize>::empty(),
        t@.dtype == x@.dtype,
        elements::element_is(
            at,
            t,
            seq![],
            fold(
                op,
                Seq::new(
                    nd::product(x@.dims()),
                    |k: int| xs(nd::unravel(k as nat, x@.dims())),
                ),
            ),
        ),
{
    let none: Seq<usize> = seq![];
    assert(elementwise::reduction_result(x, op, none, false, Ok(t)));
    let (s, d, made) = choose|s: B::Storage, d: &[usize], made: Result<B::Storage>|
        {
            &&& x@.storage.can_hold(s)
            &&& d@ == none
            &&& #[trigger] call_ensures(B::reduce_op, (op, &s, &x@.layout, d, false), made)
            &&& elementwise::reduction_of(made, x, op, none, false, Ok(t))
        };
    model::lemma_around_storage(at, t, made->Ok_0, none);
    let n = nd::product(x@.dims());
    let a = Seq::new(n, |k: int| at(s, x@.layout@.position_of(k as nat)));
    let b = Seq::new(n, |k: int| xs(nd::unravel(k as nat, x@.dims())));
    assert forall|k: int| 0 <= k < n implies #[trigger] a[k] == b[k] by {
        let e = nd::unravel(k as nat, x@.dims());
        nd::lemma_count_fits(x@.dims());
        nd::lemma_ravel_of_unravel(k as nat, x@.dims());
        assert(nd::in_bounds(e, x@.dims()));
        assert(elements::element_is(at, x, e, xs(e)));
    }
    assert(a =~= b);
}

/// A tensor that was reduced along a dimension and kept it with size 1
/// broadcasts back along the dimension.
proof fn lemma_back<B: Backend>(
    at: spec_fn(B::Storage, nat) -> B::Scalar,
    a: Tensor<B>,
    b: Tensor<B>,
    op: BinaryOp,
    r: Tensor<B>,
    dim: int,
    i: Seq<usize>,
    x: B::Scalar,
    y: B::Scalar,
)
    requires
        model::stores::<B>(at),
        model::combines::<B>(at),
        elementwise::binary_result(a, b, op, Ok(r)),
        0 <= dim < a@.dims().len(),
        b@.dims() == a@.dims().update(dim, 1),
        nd::in_bounds(i, a@.dims()),
        elements::element_is(at, a, i, x),
        elements::element_is(at, b, i.update(dim, 0), y),
    ensures
        r@.dims() == a@.dims(),
        nd::fits(r@.dims()),
        elements::element_is(at, r, i, model::combined(op, x, y)),
{
    let d = a@.dims();
    let e = b@.dims();
    assert(i[dim] < d[dim]);
    assert(shape::broadcast(d, e) =~= d) by {
        assert forall|j: int| 0 <= j < d.len() implies #[trigger] shape::broadcast(d, e)[j]
            == d[j] by {
            if j == dim {
                assert(e[j] == 1);
            } else {
                assert(e[j] == d[j]);
            }
        }
    }
    assert(shape::broadcastable(d, e)) by {
        assert forall|k: int| 0 <= k < shape::joint_rank(d, e) implies !#[trigger] shape::clash_at(
            d,
            e,
            k,
        ) by {
            let j = d.len() - 1 - k;
            assert(e[j] == 1 || e[j] == d[j]);
        }
    }
    assert(shape::repeated_index(i, d, d) =~= i);
    assert(shape::repeated_index(i, e, d) =~= i.update(dim, 0)) by {
        assert forall|j: int| 0 <= j < e.len() implies #[trigger] shape::repeated_index(i, e, d)[j]
            == i.update(dim, 0)[j] by {
            if j == dim {
                assert(e[j] == 1);
            } else {
                assert(e[j] == d[j]);
            }
        }
    }
    model::lemma_binary(at, a, b, op, r, i, x, y);
}

/// The parts that softmax and its relatives are made of, at an index.
proof fn lemma_powers<B: Backend>(
    at: spec_fn(B::Storage, nat) -> B::Scalar,
    f: spec_fn(UnaryOp, B::Scalar) -> B::Scalar,
    fold: spec_fn(ReduceOp, Seq<B::Scalar>) -> B::Scalar,
    x: Tensor<B>,
    dim: usize,
    p: elementwise::Powers<B>,
    xs: spec_fn(Seq<usize>) -> B::Scalar,
    i: Seq<usize>,
)
    requires
        model::stores::<B>(at),
        model::combines::<B>(at),
        model::maps::<B>(at, f),
        reduces::<B>(at, fold),
        x@.dims().len() <= usize::MAX,
        nd::product(x@.dims()) <= usize::MAX,
        elementwise::powers_result(x, dim, Ok(p)),
        model::has(at, x, xs),
        nd::in_bounds(i, x@.dims()),
    ensures
        dim < x@.dims().len(),
        p.top@.dims() == x@.dims().update(dim as int, 1),
        p.shifted@.dims() == x@.dims(),
        p.powers@.dims() == x@.dims(),
        p.total@.dims() == x@.dims().update(dim as int, 1),
        ({
            let d = dim as int;
            let size = x@.dims()[d];
            let top = fold(ReduceOp::Max, lane(xs, i, d, size));
            let sum = fold(
                ReduceOp::Sum,
                Seq::new(
                    size as nat,
                    |k: int|
                        f(UnaryOp::Exp, model::combined(
                            BinaryOp::Sub,
                            xs(i.update(d, k as usize)),
                            top,
                        )),
                ),
            );
            let shifted = model::combined(BinaryOp::Sub, xs(i), top);
            &&& elements::element_is(at, p.top, i.update(d, 0), top)
            &&& elements::element_is(at, p.shifted, i, shifted)
            &&& elements::element_is(at, p.powers, i, f(UnaryOp::Exp, shifted))
            &&& elements::element_is(at, p.total, i.update(d, 0), sum)
        }),
{
    let max = choose|max: Tensor<B>|
        #[trigger] elementwise::reduction_result(x, ReduceOp::Max, seq![dim], true, Ok(max))
            && exists|top: Tensor<B>| #[trigger]
            call_ensures(Tensor::detach, (&max,), top) && elementwise::powers_below(
                x,
                dim,
                top,
                Ok(p),
            );
    let d = dim as int;
    let dims = x@.dims();
    let size = dims[d];
    // At any index: the maximum along the dimension, the difference, its
    // exponential.
    let parts = |j: Seq<usize>|
        {
            let top = fold(ReduceOp::Max, lane(xs, j, d, size));
            let shifted = model::combined(BinaryOp::Sub, xs(j), top);
            &&& elements::element_is(at, p.top, j.update(d, 0), top)
            &&& elements::element_is(at, p.shifted, j, shifted)
            &&& elements::element_is(at, p.powers, j, f(UnaryOp::Exp, shifted))
        };
    assert forall|j: Seq<usize>| #[trigger] nd::in_bounds(j, dims) implies parts(j)
        && p.powers@.dims() == dims && p.shifted@.dims() == dims && p.top@.dims() == dims.update(
        d,
        1,
    ) && dim < dims.len() by {
        lemma_reduced(at, fold, ReduceOp::Max, x, dim, true, max, xs, j);
        let top = fold(ReduceOp::Max, lane(xs, j, d, size));
        assert(elements::element_is(at, p.top, j.update(d, 0), top));
        assert(elements::element_is(at, x, j, xs(j)));
        lemma_back(at, x, p.top, BinaryOp::Sub, p.shifted, d, j, xs(j), top);
        model::lemma_unary(
            at,
            f,
            p.shifted,
            UnaryOp::Exp,
            p.powers,
            j,
            model::combined(BinaryOp::Sub, xs(j), top),
        );
    }
    assert(parts(i));
    let es = |j: Seq<usize>|
        f(
            UnaryOp::Exp,
            model::combined(
                BinaryOp::Sub,
                xs(j),
                fold(ReduceOp::Max, lane(xs, j, d, size)),
            ),
        );
    assert forall|j: Seq<usize>| #[trigger] nd::in_bounds(
        j,
        p.powers@.dims(),
    ) implies elements::element_is(at, p.powers, j, es(j)) by {
        assert(parts(j));
    }
    assert(model::has(at, p.powers, es));
    lemma_reduced(at, fold, ReduceOp::Sum, p.powers, dim, true, p.total, es, i);
    let top = fold(ReduceOp::Max, lane(xs, i, d, size));
    let want = Seq::new(
        size as nat,
        |k: int|
            f(UnaryOp::Exp, model::combined(BinaryOp::Sub, xs(i.update(d, k as usize)), top)),
    );
    let have = lane(es, i, d, size);
    assert forall|k: int| 0 <= k < size implies #[trigger] have[k] == want[k] by {
        let j = i.update(d, k as usize);
        assert(lane(xs, j, d, size) =~= lane(xs, i, d, size)) by {
            assert forall|m: int| 0 <= m < size implies #[trigger] lane(xs, j, d, size)[m] == lane(
                xs,
                i,
                d,
                size,
            )[m] by {
                assert(j.update(d, m as usize) =~= i.update(d, m as usize));
            }
        }
    }
    assert(have =~= want);
}

/// Softmax: the exponential of each element, relative to the maximum along the
/// dimension, over the sum of these exponentials along the dimension.
pub proof fn law_softmax_elements<B: Backend>(
    at: spec_fn(B::Storage, nat) -> B::Scalar,
    f: spec_fn(UnaryOp, B::Scalar) -> B::Scalar,
    fold: spec_fn(ReduceOp, Seq<B::Scalar>) -> B::Scalar,
    x: Tensor<B>,
    dim: usize,
    t: Tensor<B>,
    xs: spec_fn(Seq<usize>) -> B::Scalar,
    i: Seq<usize>,
    top: B::Scalar,
    sum: B::Scalar,
)
    requires
        model::stores::<B>(at),
        model::combines::<B>(at),
        model::maps::<B>(at, f),
        reduces::<B>(at, fold),
        x@.dims().len() <= usize::MAX,
        nd::product(x@.dims()) <= usize::MAX,
        call_ensures(Tensor::softmax, (&x, dim), Ok::<Tensor<B>, Error>(t)),
        model::has(at, x, xs),
        nd::in_bounds(i, x@.dims()),
        top == fold(ReduceOp::Max, lane(xs, i, dim as int, x@.dims()[dim as int])),
        sum == fold(
            ReduceOp::Sum,
            Seq::new(
                x@.dims()[dim as int] as nat,
                |k: int|
                    f(UnaryOp::Exp, model::combined(
                        BinaryOp::Sub,
                        xs(i.update(dim as int, k as usize)),
                        top,
                    )),
            ),
        ),
    ensures
        t@.dims() == x@.dims(),
        elements::element_is(
            at,
            t,
            i,
            model::combined(
                BinaryOp::Div,
                f(UnaryOp::Exp, model::combined(BinaryOp::Sub, xs(i), top)),
                sum,
            ),
        ),
{
    let p = choose|p: elementwise::Powers<B>|
        #[trigger] elementwise::powers_result(x, dim, Ok(p)) && elementwise::binary_result(
            p.powers,
            p.total,
            BinaryOp::Div,
            Ok(t),
        );
    lemma_powers(at, f, fold, x, dim, p, xs, i);
    lemma_back(
        at,
        p.powers,
        p.total,
        BinaryOp::Div,
        t,
        dim as int,
        i,
        f(UnaryOp::Exp, model::combined(BinaryOp::Sub, xs(i), top)),
        sum,
    );
}

/// Log-softmax: each element relative to the maximum, minus the logarithm of the
/// sum of the exponentials.
pub proof fn law_log_softmax_elements<B: Backend>(
    at: spec_fn(B::Storage, nat) -> B::Scalar,
    f: spec_fn(UnaryOp, B::Scalar) -> B::Scalar,
    fold: spec_fn(ReduceOp, Seq<B::Scalar>) -> B::Scalar,
    x: Tensor<B>,
    dim: usize,
    t: Tensor<B>,
    xs: spec_fn(Seq<usize>) -> B::Scalar,
    i: Seq<usize>,
    top: B::Scalar,
    sum: B::Scalar,
)
    requires
        model::stores::<B>(at),
        model::combines::<B>(at),
        model::maps::<B>(at, f),
        reduces::<B>(at, fold),
        x@.dims().len() <= usize::MAX,
        nd::product(x@.dims()) <= usize::MAX,
        call_ensures(Tensor::log_softmax, (&x, dim), Ok::<Tensor<B>, Error>(t)),
        model::has(at, x, xs),
        nd::in_bounds(i, x@.dims()),
        top == fold(ReduceOp::Max, lane(xs, i, dim as int, x@.dims()[dim as int])),
        sum == fold(
            ReduceOp::Sum,
            Seq::new(
                x@.dims()[dim as int] as nat,
                |k: int|
                    f(UnaryOp::Exp, model::combined(
                        BinaryOp::Sub,
                        xs(i.update(dim as int, k as usize)),
                        top,
                    )),
            ),
        ),
    ensures
        t@.dims() == x@.dims(),
        elements::element_is(
            at,
            t,
            i,
            model::combined(
                BinaryOp::Sub,
                model::combined(BinaryOp::Sub, xs(i), top),
                f(UnaryOp::Log, sum),
            ),
        ),
{
    let d = dim as int;
    let (p, logged) = choose|p: elementwise::Powers<B>, logged: Tensor<B>|
        {
            &&& #[trigger] elementwise::powers_result(x, dim, Ok(p))
            &&& #[trigger] elementwise::unary_result(p.total, UnaryOp::Log, Ok(logged))
            &&& elementwise::binary_result(p.shifted, logged, BinaryOp::Sub, Ok(t))
        };
    lemma_powers(at, f, fold, x, dim, p, xs, i);
    lemma_zeroed(i, x@.dims(), d);
    model::lemma_unary(at, f, p.total, UnaryOp::Log, logged, i.update(d, 0), sum);
    lemma_back(
        at,
        p.shifted,
        logged,
        BinaryOp::Sub,
        t,
        d,
        i,
        model::combined(BinaryOp::Sub, xs(i), top),
        f(UnaryOp::Log, sum),
    );
}

proof fn lemma_zeroed(i: Seq<usize>, dims: Seq<usize>, d: int)
    requires
        nd::in_bounds(i, dims),
        0 <= d < dims.len(),
    ensures
        nd::in_bounds(i.update(d, 0), dims.update(d, 1)),
{
    assert forall|k: int| 0 <= k < dims.len() implies #[trigger] i.update(d, 0)[k]
        < dims.update(d, 1)[k] by {
        assert(i[k] < dims[k]);
    }
}

/// Log-sum-exp: the maximum along the dimension plus the logarithm of the sum of
/// the exponentials relative to it.
pub proof fn law_logsumexp_elements<B: Backend>(
    at: spec_fn(B::Storage, nat) -> B::Scalar,
    f: spec_fn(UnaryOp, B::Scalar) -> B::Scalar,
    fold: spec_fn(ReduceOp, Seq<B::Scalar>) -> B::Scalar,
    x: Tensor<B>,
    dim: usize,
    keep_dim: bool,
    t: Tensor<B>,
    xs: spec_fn(Seq<usize>) -> B::Scalar,
    i: Seq<usize>,
    top: B::Scalar,
    sum: B::Scalar,
)
    requires
        model::stores::<B>(at),
        model::combines::<B>(at),
        model::maps::<B>(at, f),
        reduces::<B>(at, fold),
        x@.dims().len() <= usize::MAX,
        nd::product(x@.dims()) <= usize::MAX,
        call_ensures(Tensor::logsumexp, (&x, dim, keep_dim), Ok::<Tensor<B>, Error>(t)),
        model::has(at, x, xs),
        nd::in_bounds(i, x@.dims()),
        top == fold(ReduceOp::Max, lane(xs, i, dim as int, x@.dims()[dim as int])),
        sum == fold(
            ReduceOp::Sum,
            Seq::new(
                x@.dims()[dim as int] as nat,
                |k: int|
                    f(UnaryOp::Exp, model::combined(
                        BinaryOp::Sub,
                        xs(i.update(dim as int, k as usize)),
                        top,
                    )),
            ),
        ),
    ensures
        dim < x@.dims().len(),
        keep_dim ==> t@.dims() == x@.dims().update(dim as int, 1) && elements::element_is(
            at,
            t,
            i.update(dim as int, 0),
            model::combined(BinaryOp::Add, top, f(UnaryOp::Log, sum)),
        ),
        !keep_dim ==> t@.dims() == x@.dims().remove(dim as int) && elements::element_is(
            at,
            t,
            i.remove(dim as int),
            model::combined(BinaryOp::Add, top, f(UnaryOp::Log, sum)),
        ),
{
    let d = dim as int;
    let (p, logged, result) = choose|
        p: elementwise::Powers<B>,
        logged: Tensor<B>,
        result: Tensor<B>,
    |
        {
            &&& #[trigger] elementwise::powers_result(x, dim, Ok(p))
            &&& #[trigger] elementwise::unary_result(p.total, UnaryOp::Log, Ok(logged))
            &&& #[trigger] elementwise::binary_result(
                p.top,
                logged,
                BinaryOp::Add,
                Ok(result),
            )
            &&& if keep_dim {
                t == result
            } else {
                call_ensures(Tensor::squeeze, (&result, dim), Ok::<Tensor<B>, Error>(t))
            }
        };
    let j = i.update(d, 0);
    let v = model::combined(BinaryOp::Add, top, f(UnaryOp::Log, sum));
    lemma_powers(at, f, fold, x, dim, p, xs, i);
    lemma_zeroed(i, x@.dims(), d);
    model::lemma_unary(at, f, p.total, UnaryOp::Log, logged, j, sum);
    model::lemma_binary_same(
        at,
        p.top,
        logged,
        BinaryOp::Add,
        result,
        j,
        top,
        f(UnaryOp::Log, sum),
    );
    if !keep_dim {
        assert(result@.layout@ == LayoutView::contiguous(result@.dims()));
        layout::lemma_contiguous_valid(result@.dims());
        reshaped::law_squeeze_elements(at, result, dim, t, j, v);
        assert(j.remove(d) =~= i.remove(d));
        assert(x@.dims().update(d, 1).remove(d) =~= x@.dims().remove(d));
    }
}

/// The variance along a dimension: the mean of the squares of the differences to
/// the mean. `square` is the function of the backend.
pub proof fn law_var_elements<B: Backend>(
    at: spec_fn(B::Storage, nat) -> B::Scalar,
    f: spec_fn(UnaryOp, B::Scalar) -> B::Scalar,
    fold: spec_fn(ReduceOp, Seq<B::Scalar>) -> B::Scalar,
    x: Tensor<B>,
    dim: usize,
    keep_dim: bool,
    t: Tensor<B>,
    xs: spec_fn(Seq<usize>) -> B::Scalar,
    i: Seq<usize>,
    mean: B::Scalar,
)
    requires
        model::stores::<B>(at),
        model::combines::<B>(at),
        model::maps::<B>(at, f),
        reduces::<B>(at, fold),
        x@.dims().len() <= usize::MAX,
        nd::product(x@.dims()) <= usize::MAX,
        call_ensures(Tensor::var, (&x, dim, keep_dim), Ok::<Tensor<B>, Error>(t)),
        model::has(at, x, xs),
        nd::in_bounds(i, x@.dims()),
        mean == fold(ReduceOp::Mean, lane(xs, i, dim as int, x@.dims()[dim as int])),
    ensures
        dim < x@.dims().len(),
        t@.dims() == flows::reduced_sizes(x@.dims(), dim as int, keep_dim),
        elements::element_is(
            at,
            t,
            flows::reduced_index(i, dim as int, keep_dim),
            fold(
                ReduceOp::Mean,
                Seq::new(
                    x@.dims()[dim as int] as nat,
                    |k: int|
                        f(UnaryOp::Square, model::combined(
                            BinaryOp::Sub,
                            xs(i.update(dim as int, k as usize)),
                            mean,
                        )),
                ),
            ),
        ),
{
    let (center, shifted, squares) = choose|
        center: Tensor<B>,
        shifted: Tensor<B>,
        squares: Tensor<B>,
    |
        {
            &&& #[trigger] call_ensures(
                Tensor::mean,
                (&x, dim, true),
                Ok::<Tensor<B>, Error>(center),
            )
            &&& #[trigger] call_ensures(
                Tensor::sub,
                (&x, &center),
                Ok::<Tensor<B>, Error>(shifted),
            )
            &&& #[trigger] call_ensures(
                Tensor::square,
                (&shifted,),
                Ok::<Tensor<B>, Error>(squares),
            )
            &&& call_ensures(
                Tensor::mean,
                (&squares, dim, keep_dim),
                Ok::<Tensor<B>, Error>(t),
            )
        };
    let d = dim as int;
    let dims = x@.dims();
    let size = dims[d];
    let es = |j: Seq<usize>|
        f(
            UnaryOp::Square,
            model::combined(
                BinaryOp::Sub,
                xs(j),
                fold(ReduceOp::Mean, lane(xs, j, d, size)),
            ),
        );
    assert forall|j: Seq<usize>| #[trigger] nd::in_bounds(j, dims) implies elements::element_is(
        at,
        squares,
        j,
        es(j),
    ) && squares@.dims() == dims && dim < dims.len() by {
        lemma_reduced(at, fold, ReduceOp::Mean, x, dim, true, center, xs, j);
        let m = fold(ReduceOp::Mean, lane(xs, j, d, size));
        assert(elements::element_is(at, x, j, xs(j)));
        lemma_back(at, x, center, BinaryOp::Sub, shifted, d, j, xs(j), m);
        model::lemma_unary(
            at,
            f,
            shifted,
            UnaryOp::Square,
            squares,
            j,
            model::combined(BinaryOp::Sub, xs(j), m),
        );
    }
    assert(model::has(at, squares, es));
    lemma_reduced(at, fold, ReduceOp::Mean, squares, dim, keep_dim, t, es, i);
    let want = Seq::new(
        size as nat,
        |k: int|
            f(UnaryOp::Square, model::combined(
                BinaryOp::Sub,
                xs(i.update(d, k as usize)),
                mean,
            )),
    );
    let have = lane(es, i, d, size);
    assert forall|k: int| 0 <= k < size implies #[trigger] have[k] == want[k] by {
        let j = i.update(d, k as usize);
        assert(lane(xs, j, d, size) =~= lane(xs, i, d, size)) by {
            assert forall|m: int| 0 <= m < size implies #[trigger] lane(xs, j, d, size)[m] == lane(
                xs,
                i,
                d,
                size,
            )[m] by {
                assert(j.update(d, m as usize) =~= i.update(d, m as usize));
            }
        }
    }
    assert(have =~= want);
}

/// The standard deviation along a dimension is the square root of the variance.
pub proof fn law_std_is_root_of_var<B: Backend>(
    at: spec_fn(B::Storage, nat) -> B::Scalar,
    f: spec_fn(UnaryOp, B::Scalar) -> B::Scalar,
    x: Tensor<B>,
    dim: usize,
    keep_dim: bool,
    t: Tensor<B>,
) -> (v: Tensor<B>)
    requires
        model::stores::<B>(at),
        model::maps::<B>(at, f),
        call_ensures(Tensor::std_dev, (&x, dim, keep_dim), Ok::<Tensor<B>, Error>(t)),
    ensures
        call_ensures(Tensor::var, (&x, dim, keep_dim), Ok::<Tensor<B>, Error>(v)),
        forall|j: Seq<usize>, y: B::Scalar| #[trigger]
            nd::in_bounds(j, v@.dims()) && #[trigger] elements::element_is(at, v, j, y)
                ==> elements::element_is(at, t, j, f(UnaryOp::Sqrt, y)) && t@.dims() == v@.dims(),
{
    let v = choose|v: Tensor<B>|
        #[trigger] call_ensures(Tensor::var, (&x, dim, keep_dim), Ok::<Tensor<B>, Error>(v))
            && call_ensures(Tensor::sqrt, (&v,), Ok::<Tensor<B>, Error>(t));
    assert forall|j: Seq<usize>, y: B::Scalar| #[trigger]
        nd::in_bounds(j, v@.dims()) && #[trigger] elements::element_is(
            at,
            v,
            j,
            y,
        ) implies elements::element_is(at, t, j, f(UnaryOp::Sqrt, y)) && t@.dims()
        == v@.dims() by {
        model::lemma_unary(at, f, v, UnaryOp::Sqrt, t, j, y);
    }
    v
}

} // verus!
