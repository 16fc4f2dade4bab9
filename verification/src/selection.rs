//! What selecting elements gives, and where gradients of selected elements go.
use crate::backend::Backend;
use crate::contributions;
use crate::elements;
use crate::error::{Error, Result};
use crate::gradients;
use crate::host;
use crate::kernels;
use crate::layout::{Layout, LayoutView};
use crate::model;
use crate::nd;
use crate::rules;
use crate::scalar::Scalar;
use crate::tensor::Tensor;
use vstd::prelude::*;

verus! {

/// The sum of those of `f(0)`, ..., `f(n - 1)` that are chosen, added one by one
/// to 0.
pub open spec fn sum_where<S: Scalar>(
    chosen: spec_fn(int) -> bool,
    f: spec_fn(int) -> S,
    n: nat,
) -> S
    decreases n,
{
    if n == 0 {
        S::zero_val()
    } else if chosen(n - 1) {
        sum_where(chosen, f, (n - 1) as nat).plus(f(n - 1))
    } else {
        sum_where(chosen, f, (n - 1) as nat)
    }
}

/// What is added up at a position is the sum of the values that go there.
pub proof fn lemma_scattered<S: Scalar>(
    size: nat,
    to: spec_fn(int) -> Option<int>,
    val: spec_fn(int) -> S,
    chosen: spec_fn(int) -> bool,
    f: spec_fn(int) -> S,
    n: nat,
    p: int,
)
    requires
        0 <= p < size,
        forall|k: int| 0 <= k < n ==> (#[trigger] chosen(k) <==> to(k) == Some(p)),
        forall|k: int| 0 <= k < n && #[trigger] chosen(k) ==> val(k) == f(k),
    ensures
        kernels::scatter_add(kernels::zeros_of::<S>(size), to, val, n).len() == size,
        kernels::scatter_add(kernels::zeros_of::<S>(size), to, val, n)[p] == sum_where(
            chosen,
            f,
            n,
        ),
    decreases n,
{
    if n > 0 {
        lemma_scattered(size, to, val, chosen, f, (n - 1) as nat, p);
        assert(chosen(n - 1) <==> to(n - 1) == Some(p));
    }
}

/// Two indices of a shape have one position only if they are the same.
pub proof fn lemma_one_place(i: Seq<usize>, j: Seq<usize>, dims: Seq<usize>)
    requires
        nd::in_bounds(i, dims),
        nd::in_bounds(j, dims),
        nd::product(dims) <= usize::MAX,
    ensures
        model::place(i, dims) == model::place(j, dims) <==> i == j,
{
    model::lemma_place(i, dims);
    model::lemma_place(j, dims);
}

/// The index of the `k`-th element of a shape.
pub proof fn lemma_unravelled(k: nat, dims: Seq<usize>)
    requires
        k < nd::product(dims) <= usize::MAX,
    ensures
        nd::in_bounds(nd::unravel(k, dims), dims),
        model::place(nd::unravel(k, dims), dims) == k,
{
    nd::lemma_count_fits(dims);
    nd::lemma_ravel_of_unravel(k, dims);
}

/// The gradient of an element of the input of a gather is the sum of the
/// gradients at exactly those positions of the index tensor whose coordinates
/// are those of the element, but for the one along the dimension, and whose
/// entry is the coordinate of the element along the dimension.
pub proof fn law_gather_gradient<B: Backend>(
    at: spec_fn(B::Storage, nat) -> B::Scalar,
    x: Tensor<B>,
    dim: usize,
    index: Tensor<B>,
    t: Tensor<B>,
    grad: Tensor<B>,
    g: Tensor<B>,
    gs: spec_fn(Seq<usize>) -> B::Scalar,
    entries: spec_fn(Seq<usize>) -> B::Scalar,
    e: Seq<usize>,
    hits: spec_fn(int) -> bool,
)
    requires
        model::stores::<B>(at),
        call_ensures(Tensor::gather, (&x, dim, &index), Ok::<Tensor<B>, Error>(t)),
        grad@.dims() == t@.dims(),
        contributions::contribution(t@.op, grad, 0, g),
        nd::in_bounds(e, x@.dims()),
        nd::product(t@.dims()) <= usize::MAX,
        model::has(at, grad, gs),
        model::has(at, index, entries),
        // The index tensor is no larger than the input, but for the dimension,
        // and its entries are there.
        forall|d: int|
            0 <= d < x@.dims().len() && d != dim ==> #[trigger] index@.dims()[d]
                <= x@.dims()[d],
        forall|p: Seq<usize>| #[trigger]
            nd::in_bounds(p, index@.dims()) ==> entries(p).as_count() < x@.dims()[dim as int],
        forall|k: int|
            0 <= k < nd::product(t@.dims()) ==> (#[trigger] hits(k) <==> {
                let p = nd::unravel(k as nat, t@.dims());
                &&& entries(p).as_count() == e[dim as int]
                &&& forall|d: int| 0 <= d < e.len() && d != dim ==> #[trigger] p[d] == e[d]
            }),
    ensures
        contributions::used(t@.op) == seq![x],
        t@.dims() == index@.dims(),
        g@.dims() == x@.dims(),
        elements::element_is(
            at,
            g,
            e,
            sum_where(
                hits,
                |k: int| gs(nd::unravel(k as nat, t@.dims())),
                nd::product(t@.dims()),
            ),
        ),
{
    let dims = x@.dims();
    let own = index@.dims();
    assert(rules::gather_rule(grad, x, index, dim, Ok(g)));
    let (gv, iv) = choose|gv: Vec<B::Scalar>, iv: Vec<B::Scalar>|
        {
            &&& #[trigger] call_ensures(
                Tensor::to_f64_vec,
                (&grad,),
                Ok::<Vec<B::Scalar>, Error>(gv),
            )
            &&& #[trigger] host::values_result(index, Ok(iv))
            &&& gv@.len() >= iv@.len()
            &&& rules::gather_in_range(dims, own, iv@, dim as int)
            &&& rules::uploaded_like(
                gradients::collected(
                    nd::product(dims),
                    |k: int| gradients::gather_source(dims, own, iv@, dim as int, k),
                    gv@,
                    iv@.len(),
                ),
                x,
                Ok(g),
            )
        };
    let source = |k: int| gradients::gather_source(dims, own, iv@, dim as int, k);
    let data = gradients::collected(nd::product(dims), source, gv@, iv@.len());
    model::lemma_uploaded(at, data, dims, x@.dtype, x@.device, g, e);
    let to = |k: int| Some(source(k) as int);
    let val = |k: int| gv@[k];
    let f = |k: int| gs(nd::unravel(k as nat, own));
    let n = nd::product(own);
    let place = model::place(e, dims) as int;
    assert(iv@.len() == n);
    assert forall|k: int| 0 <= k < n implies {
        &&& (#[trigger] hits(k) <==> to(k) == Some(place))
        &&& val(k) == f(k)
    } by {
        let p = nd::unravel(k as nat, own);
        lemma_unravelled(k as nat, own);
        model::lemma_values(at, index, iv, p, entries(p));
        model::lemma_read(at, grad, gv, p, gs(p));
        let q = p.update(dim as int, iv@[k].as_count());
        assert forall|d: int| 0 <= d < dims.len() implies #[trigger] q[d] < dims[d] by {
            assert(p[d] < own[d]);
        }
        lemma_one_place(q, e, dims);
        if q == e {
            assert(q[dim as int] == e[dim as int]);
            assert forall|d: int| 0 <= d < e.len() && d != dim implies #[trigger] p[d] == e[d] by {
                assert(q[d] == p[d]);
            }
        }
        if iv@[k].as_count() == e[dim as int] && (forall|d: int|
            0 <= d < e.len() && d != dim ==> #[trigger] p[d] == e[d]) {
            assert(q =~= e);
        }
    }
    lemma_scattered(nd::product(dims), to, val, hits, f, n, place);
    assert(data =~= kernels::scatter_add(
        kernels::zeros_of::<B::Scalar>(nd::product(dims)),
        to,
        val,
        n,
    ));
}

/// The gradient of an element of the input of a selection along a dimension is
/// the sum of the gradients at exactly those positions of the output whose
/// coordinates are those of the element, but for the one along the dimension,
/// and whose coordinate along it is the place of an index that names the
/// coordinate of the element.
pub proof fn law_index_select_gradient<B: Backend>(
    at: spec_fn(B::Storage, nat) -> B::Scalar,
    x: Tensor<B>,
    dim: usize,
    indices: Tensor<B>,
    t: Tensor<B>,
    grad: Tensor<B>,
    g: Tensor<B>,
    gs: spec_fn(Seq<usize>) -> B::Scalar,
    entries: spec_fn(Seq<usize>) -> B::Scalar,
    e: Seq<usize>,
    hits: spec_fn(int) -> bool,
)
    requires
        model::stores::<B>(at),
        call_ensures(Tensor::index_select, (&x, dim, &indices), Ok::<Tensor<B>, Error>(t)),
        grad@.dims() == t@.dims(),
        contributions::contribution(t@.op, grad, 0, g),
        nd::in_bounds(e, x@.dims()),
        nd::product(t@.dims()) <= usize::MAX,
        nd::product(indices@.dims()) <= usize::MAX,
        model::has(at, grad, gs),
        model::has(at, indices, entries),
        forall|p: Seq<usize>| #[trigger]
            nd::in_bounds(p, indices@.dims()) ==> entries(p).as_count() < x@.dims()[dim as int],
        forall|k: int|
            0 <= k < nd::product(t@.dims()) ==> (#[trigger] hits(k) <==> {
                let p = nd::unravel(k as nat, t@.dims());
                &&& entries(nd::unravel(p[dim as int] as nat, indices@.dims())).as_count()
                    == e[dim as int]
                &&& forall|d: int| 0 <= d < e.len() && d != dim ==> #[trigger] p[d] == e[d]
            }),
    ensures
        contributions::used(t@.op) == seq![x],
        t@.dims() == x@.dims().update(dim as int, nd::product(indices@.dims()) as usize),
        g@.dims() == x@.dims(),
        elements::element_is(
            at,
            g,
            e,
            sum_where(
                hits,
                |k: int| gs(nd::unravel(k as nat, t@.dims())),
                nd::product(t@.dims()),
            ),
        ),
{
    let dims = x@.dims();
    let own = grad@.dims();
    assert(rules::select_rule(grad, x, indices, dim, Ok(g)));
    let (gv, iv) = choose|gv: Vec<B::Scalar>, iv: Vec<B::Scalar>|
        {
            &&& #[trigger] host::values_result(grad, Ok(gv))
            &&& #[trigger] call_ensures(
                Tensor::to_f64_vec,
                (&indices,),
                Ok::<Vec<B::Scalar>, Error>(iv),
            )
            &&& rules::all_selected(dims, own, iv@, dim as int, gv@.len())
            &&& rules::uploaded_like(
                gradients::collected(
                    nd::product(dims),
                    |k: int| gradients::select_source(dims, own, iv@, dim as int, k),
                    gv@,
                    gv@.len(),
                ),
                x,
                Ok(g),
            )
        };
    let source = |k: int| gradients::select_source(dims, own, iv@, dim as int, k);
    let data = gradients::collected(nd::product(dims), source, gv@, gv@.len());
    model::lemma_uploaded(at, data, dims, x@.dtype, x@.device, g, e);
    let to = |k: int| Some(source(k) as int);
    let val = |k: int| gv@[k];
    let f = |k: int| gs(nd::unravel(k as nat, own));
    let n = nd::product(own);
    let place = model::place(e, dims) as int;
    assert(gv@.len() == n);
    assert forall|k: int| 0 <= k < n implies {
        &&& (#[trigger] hits(k) <==> to(k) == Some(place))
        &&& val(k) == f(k)
    } by {
        let p = nd::unravel(k as nat, own);
        lemma_unravelled(k as nat, own);
        model::lemma_values(at, grad, gv, p, gs(p));
        assert(p[dim as int] < own[dim as int]);
        let m = nd::unravel(p[dim as int] as nat, indices@.dims());
        lemma_unravelled(p[dim as int] as nat, indices@.dims());
        model::lemma_read(at, indices, iv, m, entries(m));
        let q = p.update(dim as int, iv@[p[dim as int] as int].as_count());
        assert forall|d: int| 0 <= d < dims.len() implies #[trigger] q[d] < dims[d] by {
            assert(p[d] < own[d]);
        }
        lemma_one_place(q, e, dims);
        if q == e {
            assert(q[dim as int] == e[dim as int]);
            assert forall|d: int| 0 <= d < e.len() && d != dim implies #[trigger] p[d] == e[d] by {
                assert(q[d] == p[d]);
            }
        }
        if iv@[p[dim as int] as int].as_count() == e[dim as int] && (forall|d: int|
            0 <= d < e.len() && d != dim ==> #[trigger] p[d] == e[d]) {
            assert(q =~= e);
        }
    }
    lemma_scattered(nd::product(dims), to, val, hits, f, n, place);
    assert(data =~= kernels::scatter_add(
        kernels::zeros_of::<B::Scalar>(nd::product(dims)),
        to,
        val,
        n,
    ));
}

/// The gradient of a selection by a mask goes, element by element, to the first
/// branch where the mask is not 0 and to the second where it is; the other
/// branch gets 0 there.
pub proof fn law_where_gradient<B: Backend>(
    at: spec_fn(B::Storage, nat) -> B::Scalar,
    mask: Tensor<B>,
    on_true: Tensor<B>,
    on_false: Tensor<B>,
    t: Tensor<B>,
    grad: Tensor<B>,
    g: Tensor<B>,
    h: Tensor<B>,
    e: Seq<usize>,
    m: B::Scalar,
    x: B::Scalar,
)
    requires
        model::stores::<B>(at),
        call_ensures(
            Tensor::where_cond,
            (&mask, &on_true, &on_false),
            Ok::<Tensor<B>, Error>(t),
        ),
        grad@.dims() == t@.dims(),
        mask@.dims() == t@.dims(),
        on_false@.dims() == t@.dims(),
        contributions::contribution(t@.op, grad, 0, g),
        contributions::contribution(t@.op, grad, 1, h),
        nd::in_bounds(e, t@.dims()),
        elements::element_is(at, mask, e, m),
        elements::element_is(at, grad, e, x),
    ensures
        contributions::used(t@.op) == seq![on_true, on_false],
        g@.dims() == on_true@.dims() && h@.dims() == on_false@.dims(),
        m.same(<B::Scalar as Scalar>::zero_val()) ==> elements::element_is(at, h, e, x)
            && elements::element_is(at, g, e, <B::Scalar as Scalar>::zero_val()),
        !m.same(<B::Scalar as Scalar>::zero_val()) ==> elements::element_is(at, g, e, x)
            && elements::element_is(at, h, e, <B::Scalar as Scalar>::zero_val()),
{
    lemma_branch(at, mask, on_true, on_false, grad, g, true, e, m, x);
    lemma_branch(at, mask, on_true, on_false, grad, h, false, e, m, x);
}

proof fn lemma_branch<B: Backend>(
    at: spec_fn(B::Storage, nat) -> B::Scalar,
    mask: Tensor<B>,
    on_true: Tensor<B>,
    on_false: Tensor<B>,
    grad: Tensor<B>,
    g: Tensor<B>,
    first: bool,
    e: Seq<usize>,
    m: B::Scalar,
    x: B::Scalar,
)
    requires
        model::stores::<B>(at),
        grad@.dims() == on_true@.dims(),
        mask@.dims() == on_true@.dims(),
        on_false@.dims() == on_true@.dims(),
        nd::in_bounds(e, on_true@.dims()),
        elements::element_is(at, mask, e, m),
        elements::element_is(at, grad, e, x),
        exists|a: Tensor<B>, b: Tensor<B>|
            #[trigger] rules::branches_rule(grad, mask, on_true, on_false, Ok((a, b))) && g
                == if first {
                a
            } else {
                b
            },
    ensures
        g@.dims() == on_true@.dims(),
        elements::element_is(
            at,
            g,
            e,
            if m.same(<B::Scalar as Scalar>::zero_val()) != first {
                x
            } else {
                <B::Scalar as Scalar>::zero_val()
            },
        ),
{
    let (a, b) = choose|a: Tensor<B>, b: Tensor<B>|
        #[trigger] rules::branches_rule(grad, mask, on_true, on_false, Ok((a, b))) && g == if first {
            a
        } else {
            b
        };
    let (mv, gv) = choose|mv: Vec<B::Scalar>, gv: Vec<B::Scalar>|
        {
            &&& #[trigger] call_ensures(
                Tensor::to_f64_vec,
                (&mask,),
                Ok::<Vec<B::Scalar>, Error>(mv),
            )
            &&& #[trigger] call_ensures(
                Tensor::to_f64_vec,
                (&grad,),
                Ok::<Vec<B::Scalar>, Error>(gv),
            )
            &&& gv@.len() >= mv@.len()
            &&& rules::both_branches(mv@, gv@, on_true, on_false, Ok((a, b)))
        };
    let d = on_true@.dims();
    let data = gradients::masked(mv@, gv@, first);
    if first {
        assert(rules::uploaded_like(data, on_true, Ok(g)));
        model::lemma_uploaded(at, data, d, on_true@.dtype, on_true@.device, g, e);
    } else {
        assert(rules::uploaded_like(data, on_false, Ok(g)));
        model::lemma_uploaded(at, data, d, on_false@.dtype, on_false@.device, g, e);
    }
    model::lemma_read(at, mask, mv, e, m);
    model::lemma_read(at, grad, gv, e, x);
}

/// The backend gathers: the element at an index is the one of the input whose
/// coordinate along the dimension is the entry of the index tensor.
pub open spec fn gathers<B: Backend>(at: spec_fn(B::Storage, nat) -> B::Scalar) -> bool {
    forall|
        s: B::Storage,
        l: Layout,
        t: B::Storage,
        m: Layout,
        dim: usize,
        made: B::Storage,
        p: Seq<usize>,
    |
        #[trigger] call_ensures(
            B::gather,
            (&s, &l, &t, &m, dim),
            Ok::<B::Storage, Error>(made),
        ) && #[trigger] nd::in_bounds(p, m@.dims) ==> at(
            made,
            LayoutView::contiguous(m@.dims).address(p),
        ) == at(s, l@.address(p.update(dim as int, at(t, m@.address(p)).as_count())))
}

/// The elements of a gather.
pub proof fn law_gather_elements<B: Backend>(
    at: spec_fn(B::Storage, nat) -> B::Scalar,
    x: Tensor<B>,
    dim: usize,
    index: Tensor<B>,
    t: Tensor<B>,
    p: Seq<usize>,
    entry: B::Scalar,
    v: B::Scalar,
)
    requires
        model::stores::<B>(at),
        gathers::<B>(at),
        call_ensures(Tensor::gather, (&x, dim, &index), Ok::<Tensor<B>, Error>(t)),
        nd::in_bounds(p, index@.dims()),
        elements::element_is(at, index, p, entry),
        elements::element_is(at, x, p.update(dim as int, entry.as_count()), v),
    ensures
        t@.dims() == index@.dims(),
        t@.dtype == x@.dtype,
        elements::element_is(at, t, p, v),
{
    let (s, i, made) = choose|s: B::Storage, i: B::Storage, made: Result<B::Storage>|
        {
            &&& x@.storage.can_hold(s)
            &&& index@.storage.can_hold(i)
            &&& #[trigger] call_ensures(
                B::gather,
                (&s, &x@.layout, &i, &index@.layout, dim),
                made,
            )
            &&& made is Ok && t@.storage.starts_with(made->Ok_0)
        };
    model::lemma_around_storage(at, t, made->Ok_0, p);
}

/// The backend selects along a dimension by the entries of a list.
pub open spec fn selects<B: Backend>(at: spec_fn(B::Storage, nat) -> B::Scalar) -> bool {
    forall|
        s: B::Storage,
        l: Layout,
        t: B::Storage,
        m: Layout,
        dim: usize,
        made: B::Storage,
        p: Seq<usize>,
    |
        #[trigger] call_ensures(
            B::index_select,
            (&s, &l, &t, &m, dim),
            Ok::<B::Storage, Error>(made),
        ) && #[trigger] nd::in_bounds(
            p,
            l@.dims.update(dim as int, nd::product(m@.dims) as usize),
        ) ==> at(
            made,
            LayoutView::contiguous(
                l@.dims.update(dim as int, nd::product(m@.dims) as usize),
            ).address(p),
        ) == at(
            s,
            l@.address(
                p.update(
                    dim as int,
                    at(
                        t,
                        m@.address(nd::unravel(p[dim as int] as nat, m@.dims)),
                    ).as_count(),
                ),
            ),
        )
}

/// The elements of a selection along a dimension.
pub proof fn law_index_select_elements<B: Backend>(
    at: spec_fn(B::Storage, nat) -> B::Scalar,
    x: Tensor<B>,
    dim: usize,
    indices: Tensor<B>,
    t: Tensor<B>,
    p: Seq<usize>,
    entry: B::Scalar,
    v: B::Scalar,
)
    requires
        model::stores::<B>(at),
        selects::<B>(at),
        call_ensures(Tensor::index_select, (&x, dim, &indices), Ok::<Tensor<B>, Error>(t)),
        nd::in_bounds(p, t@.dims()),
        elements::element_is(
            at,
            indices,
            nd::unravel(p[dim as int] as nat, indices@.dims()),
            entry,
        ),
        elements::element_is(at, x, p.update(dim as int, entry.as_count()), v),
    ensures
        dim < x@.dims().len(),
        t@.dims() == x@.dims().update(dim as int, nd::product(indices@.dims()) as usize),
        t@.dtype == x@.dtype,
        elements::element_is(at, t, p, v),
{
    let (s, i, made) = choose|s: B::Storage, i: B::Storage, made: Result<B::Storage>|
        {
            &&& x@.storage.can_hold(s)
            &&& indices@.storage.can_hold(i)
            &&& #[trigger] call_ensures(
                B::index_select,
                (&s, &x@.layout, &i, &indices@.layout, dim),
                made,
            )
            &&& made is Ok && t@.storage.starts_with(made->Ok_0)
        };
    model::lemma_around_storage(at, t, made->Ok_0, p);
}

/// The backend chooses between two storages by a mask.
pub open spec fn chooses<B: Backend>(at: spec_fn(B::Storage, nat) -> B::Scalar) -> bool {
    forall|
        m: B::Storage,
        lm: Layout,
        s: B::Storage,
        ls: Layout,
        t: B::Storage,
        lt: Layout,
        made: B::Storage,
        p: Seq<usize>,
    |
        #[trigger] call_ensures(
            B::where_cond,
            (&m, &lm, &s, &ls, &t, &lt),
            Ok::<B::Storage, Error>(made),
        ) && #[trigger] nd::in_bounds(p, ls@.dims) ==> at(
            made,
            LayoutView::contiguous(ls@.dims).address(p),
        ) == if at(m, lm@.address(p)).same(<B::Scalar as Scalar>::zero_val()) {
            at(t, lt@.address(p))
        } else {
            at(s, ls@.address(p))
        }
}

/// The elements of a selection by a mask: those of the first tensor where the
/// mask is not 0, else those of the second.
pub proof fn law_where_elements<B: Backend>(
    at: spec_fn(B::Storage, nat) -> B::Scalar,
    mask: Tensor<B>,
    on_true: Tensor<B>,
    on_false: Tensor<B>,
    t: Tensor<B>,
    p: Seq<usize>,
    m: B::Scalar,
    x: B::Scalar,
    y: B::Scalar,
)
    requires
        model::stores::<B>(at),
        chooses::<B>(at),
        call_ensures(
            Tensor::where_cond,
            (&mask, &on_true, &on_false),
            Ok::<Tensor<B>, Error>(t),
        ),
        nd::in_bounds(p, on_true@.dims()),
        elements::element_is(at, mask, p, m),
        elements::element_is(at, on_true, p, x),
        elements::element_is(at, on_false, p, y),
    ensures
        t@.dims() == on_true@.dims(),
        t@.dtype == on_true@.dtype,
        elements::element_is(
            at,
            t,
            p,
            if m.same(<B::Scalar as Scalar>::zero_val()) {
                y
            } else {
                x
            },
        ),
{
    let (k, s, u, made) = choose|k: B::Storage, s: B::Storage, u: B::Storage, made: Result<B::Storage>|
        {
            &&& mask@.storage.can_hold(k)
            &&& on_true@.storage.can_hold(s)
            &&& on_false@.storage.can_hold(u)
            &&& #[trigger] call_ensures(
                B::where_cond,
                (
                    &k,
                    &mask@.layout,
                    &s,
                    &on_true@.layout,
                    &u,
                    &on_false@.layout,
                ),
                made,
            )
            &&& made is Ok && t@.storage.starts_with(made->Ok_0)
        };
    model::lemma_around_storage(at, t, made->Ok_0, p);
}

/// A masked fill: the value where the mask is not 0, elsewhere the elements of
/// the tensor.
pub proof fn law_masked_fill_elements<B: Backend>(
    at: spec_fn(B::Storage, nat) -> B::Scalar,
    a: Tensor<B>,
    mask: Tensor<B>,
    value: B::Scalar,
    t: Tensor<B>,
    p: Seq<usize>,
    m: B::Scalar,
    x: B::Scalar,
)
    requires
        model::stores::<B>(at),
        chooses::<B>(at),
        call_ensures(Tensor::masked_fill, (&a, &mask, value), Ok::<Tensor<B>, Error>(t)),
        nd::in_bounds(p, a@.dims()),
        elements::element_is(at, mask, p, m),
        elements::element_is(at, a, p, x),
    ensures
        t@.dims() == a@.dims(),
        elements::element_is(
            at,
            t,
            p,
            if m.same(<B::Scalar as Scalar>::zero_val()) {
                x
            } else {
                value
            },
        ),
{
    let fill = choose|fill: Tensor<B>|
        #[trigger] call_ensures(Tensor::full_like, (&a, value), Ok::<Tensor<B>, Error>(fill))
            && call_ensures(
            Tensor::where_cond,
            (&mask, &fill, &a),
            Ok::<Tensor<B>, Error>(t),
        );
    model::lemma_full_like(at, a, value, fill, p);
    law_where_elements(at, mask, fill, a, t, p, m, value, x);
}

} // verus!
