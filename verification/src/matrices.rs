//! Matrix products and their gradients, element by element.
use crate::backend::Backend;
use crate::contributions;
use crate::elements;
use crate::elementwise;
use crate::error::{Error, Result};
use crate::layout::{Layout, LayoutView};
use crate::model;
use crate::nd;
use crate::op::Op;
use crate::reshaped;
use crate::rules;
use crate::scalar::Scalar;
use crate::sums;
use crate::tensor::Tensor;
use vstd::prelude::*;

verus! {

/// The products that make up one element of a matrix product, batched over the
/// leading dimensions: those along the row of the left factor and the column of
/// the right one.
pub open spec fn row_by_column<S: Scalar>(
    xs: spec_fn(Seq<usize>) -> S,
    ys: spec_fn(Seq<usize>) -> S,
    i: Seq<usize>,
) -> spec_fn(int) -> S {
    |k: int|
        xs(i.update(i.len() - 1, k as usize)).times(ys(i.update(i.len() - 2, k as usize)))
}

/// Two shapes of matrices that can be multiplied, with the same leading
/// dimensions.
pub open spec fn conformable(a: Seq<usize>, b: Seq<usize>) -> bool {
    &&& a.len() == b.len() && a.len() >= 2
    &&& a[a.len() - 1] == b[b.len() - 2]
    &&& forall|k: int| 0 <= k < a.len() - 2 ==> #[trigger] a[k] == b[k]
}

/// What a layout finds in a storage, by index.
pub open spec fn found<B: Backend>(
    at: spec_fn(B::Storage, nat) -> B::Scalar,
    s: B::Storage,
    l: LayoutView,
) -> spec_fn(Seq<usize>) -> B::Scalar {
    |i: Seq<usize>| at(s, l.address(i))
}

/// The backend multiplies matrices.
pub open spec fn multiplies<B: Backend>(at: spec_fn(B::Storage, nat) -> B::Scalar) -> bool {
    forall|s: B::Storage, l: Layout, t: B::Storage, m: Layout, made: B::Storage, i: Seq<usize>|
        #[trigger] call_ensures(
            B::matmul,
            (&s, &l, &t, &m),
            Ok::<B::Storage, Error>(made),
        ) && #[trigger] nd::in_bounds(
            i,
            l@.dims.update(l@.dims.len() - 1, m@.dims[m@.dims.len() - 1]),
        ) && conformable(l@.dims, m@.dims) ==> at(
            made,
            LayoutView::contiguous(
                l@.dims.update(l@.dims.len() - 1, m@.dims[m@.dims.len() - 1]),
            ).address(i),
        ) == sums::total(
            row_by_column(found::<B>(at, s, l@), found::<B>(at, t, m@), i),
            l@.dims[l@.dims.len() - 1] as nat,
        )
}

/// A matrix product has the rows of the left factor and the columns of the right
/// one; each element is the sum of the products along its row and column.
pub proof fn law_matmul_elements<B: Backend>(
    at: spec_fn(B::Storage, nat) -> B::Scalar,
    a: Tensor<B>,
    b: Tensor<B>,
    t: Tensor<B>,
    xs: spec_fn(Seq<usize>) -> B::Scalar,
    ys: spec_fn(Seq<usize>) -> B::Scalar,
    i: Seq<usize>,
)
    requires
        model::stores::<B>(at),
        multiplies::<B>(at),
        call_ensures(Tensor::matmul, (&a, &b), Ok::<Tensor<B>, Error>(t)),
        conformable(a@.dims(), b@.dims()),
        model::has(at, a, xs),
        model::has(at, b, ys),
        nd::in_bounds(i, t@.dims()),
    ensures
        t@.dims() == a@.dims().update(a@.dims().len() - 1, b@.dims()[b@.dims().len() - 1]),
        t@.dtype == a@.dtype,
        elements::element_is(
            at,
            t,
            i,
            sums::total(row_by_column(xs, ys, i), a@.dims()[a@.dims().len() - 1] as nat),
        ),
{
    lemma_product(at, a, b, t, xs, ys, i);
}

proof fn lemma_product<B: Backend>(
    at: spec_fn(B::Storage, nat) -> B::Scalar,
    a: Tensor<B>,
    b: Tensor<B>,
    t: Tensor<B>,
    xs: spec_fn(Seq<usize>) -> B::Scalar,
    ys: spec_fn(Seq<usize>) -> B::Scalar,
    i: Seq<usize>,
)
    requires
        model::stores::<B>(at),
        multiplies::<B>(at),
        elementwise::matmul_result(a, b, Ok(t)),
        conformable(a@.dims(), b@.dims()),
        model::has(at, a, xs),
        model::has(at, b, ys),
        nd::in_bounds(i, t@.dims()),
    ensures
        t@.dims() == a@.dims().update(a@.dims().len() - 1, b@.dims()[b@.dims().len() - 1]),
        t@.dtype == a@.dtype,
        elements::element_is(
            at,
            t,
            i,
            sums::total(row_by_column(xs, ys, i), a@.dims()[a@.dims().len() - 1] as nat),
        ),
{
    let da = a@.dims();
    let db = b@.dims();
    let r = da.len() as int;
    let dims = da.update(r - 1, db[r - 1]);
    assert(elementwise::matmul_dims(da, db) =~= dims);
    let (s, u, made) = choose|s: B::Storage, u: B::Storage, made: Result<B::Storage>|
        {
            &&& a@.storage.can_hold(s)
            &&& b@.storage.can_hold(u)
            &&& #[trigger] call_ensures(B::matmul, (&s, &a@.layout, &u, &b@.layout), made)
            &&& elementwise::stored_result(
                made,
                elementwise::matmul_dims(da, db),
                a@.dtype,
                a@.device,
                Op::Matmul { lhs: a, rhs: b },
                Ok(t),
            )
        };
    let m = made->Ok_0;
    model::lemma_around_storage(at, t, m, i);
    let n = da[r - 1] as nat;
    let f = row_by_column(found::<B>(at, s, a@.layout@), found::<B>(at, u, b@.layout@), i);
    let h = row_by_column(xs, ys, i);
    assert forall|k: int| 0 <= k < n implies #[trigger] f(k) == h(k) by {
        let ia = i.update(r - 1, k as usize);
        let ib = i.update(r - 2, k as usize);
        assert forall|c: int| 0 <= c < r implies #[trigger] ia[c] < da[c] by {
            assert(i[c] < dims[c]);
        }
        assert forall|c: int| 0 <= c < r implies #[trigger] ib[c] < db[c] by {
            assert(i[c] < dims[c]);
            if c < r - 2 {
                assert(da[c] == db[c]);
            }
        }
        assert(nd::in_bounds(ia, da) && nd::in_bounds(ib, db));
        assert(elements::element_is(at, a, ia, xs(ia)));
        assert(elements::element_is(at, b, ib, ys(ib)));
    }
    sums::lemma_same(f, h, n);
    assert(nd::in_bounds(i, dims));
}

/// An index with its last two coordinates exchanged.
pub open spec fn turned(i: Seq<usize>) -> Seq<usize> {
    i.update(i.len() - 2, i[i.len() - 1]).update(i.len() - 1, i[i.len() - 2])
}

/// What a matrix with its last two dimensions exchanged holds.
proof fn lemma_flipped<B: Backend>(
    at: spec_fn(B::Storage, nat) -> B::Scalar,
    a: Tensor<B>,
    r: Tensor<B>,
    xs: spec_fn(Seq<usize>) -> B::Scalar,
    i: Seq<usize>,
)
    requires
        model::stores::<B>(at),
        a@.layout@.valid(),
        a@.dims().len() <= usize::MAX,
        rules::flipped(a, Ok(r)),
        model::has(at, a, xs),
        nd::in_bounds(i, turned(a@.dims())),
    ensures
        a@.dims().len() >= 2,
        r@.dims() == turned(a@.dims()),
        elements::element_is(at, r, i, xs(turned(i))),
{
    let d = a@.dims();
    let n = d.len() as int;
    let t = choose|t: Tensor<B>|
        #[trigger] call_ensures(
            Tensor::transpose,
            (&a, (n - 2) as usize, (n - 1) as usize),
            Ok::<Tensor<B>, Error>(t),
        ) && call_ensures(Tensor::contiguous, (&t,), Ok::<Tensor<B>, Error>(r));
    let j = turned(i);
    assert(nd::in_bounds(j, d)) by {
        assert forall|k: int| 0 <= k < n implies #[trigger] j[k] < d[k] by {
            assert(i[k] < turned(d)[k]);
            assert(i[n - 1] < turned(d)[n - 1]);
            assert(i[n - 2] < turned(d)[n - 2]);
        }
    }
    assert(elements::element_is(at, a, j, xs(j)));
    reshaped::law_transpose_elements(
        at,
        a,
        (n - 2) as usize,
        (n - 1) as usize,
        t,
        j,
        i,
        xs(j),
    );
    assert(t@.dims() =~= turned(d));
    model::lemma_contiguous(at, t, r, i, xs(j));
}

/// The gradient of the left factor of a matrix product: each element is the sum
/// of the products of the gradient along its row with the right factor along the
/// row of its column.
pub proof fn law_left_factor_gradient<B: Backend>(
    at: spec_fn(B::Storage, nat) -> B::Scalar,
    a: Tensor<B>,
    b: Tensor<B>,
    t: Tensor<B>,
    grad: Tensor<B>,
    g: Tensor<B>,
    ys: spec_fn(Seq<usize>) -> B::Scalar,
    ds: spec_fn(Seq<usize>) -> B::Scalar,
    i: Seq<usize>,
    terms: spec_fn(int) -> B::Scalar,
)
    requires
        model::stores::<B>(at),
        multiplies::<B>(at),
        b@.layout@.valid(),
        b@.dims().len() <= usize::MAX,
        call_ensures(Tensor::matmul, (&a, &b), Ok::<Tensor<B>, Error>(t)),
        conformable(a@.dims(), b@.dims()),
        grad@.dims() == t@.dims(),
        contributions::contribution(t@.op, grad, 0, g),
        model::has(at, b, ys),
        model::has(at, grad, ds),
        nd::in_bounds(i, a@.dims()),
        b@.dims()[b@.dims().len() - 1] > 0,
        // Element (.., r, c) gets the sum over k of grad(.., r, k) b(.., c, k).
        forall|k: int|
            0 <= k < b@.dims()[b@.dims().len() - 1] ==> #[trigger] terms(k) == ds(
                i.update(i.len() - 1, k as usize),
            ).times(
                ys(
                    i.update(i.len() - 2, i[i.len() - 1]).update(i.len() - 1, k as usize),
                ),
            ),
    ensures
        contributions::used(t@.op) == seq![a, b],
        g@.dims() == a@.dims(),
        elements::element_is(
            at,
            g,
            i,
            sums::total(terms, b@.dims()[b@.dims().len() - 1] as nat),
        ),
{
    let da = a@.dims();
    let db = b@.dims();
    let n = da.len() as int;
    assert(elementwise::matmul_dims(da, db) =~= da.update(n - 1, db[n - 1]));
    assert(contributions::used(t@.op) =~= seq![a, b]);
    let u = choose|u: Tensor<B>|
        #[trigger] rules::flipped(b, Ok(u)) && elementwise::matmul_result(grad, u, Ok(g));
    let zs = |j: Seq<usize>| ys(turned(j));
    let du = turned(db);
    // An index of the factor, to know the shape of the flipped one.
    let some = i.update(n - 2, 0).update(n - 1, i[n - 1]);
    assert(nd::in_bounds(some, du)) by {
        assert forall|k: int| 0 <= k < n implies #[trigger] some[k] < du[k] by {
            assert(i[k] < da[k]);
            if k < n - 2 {
                assert(da[k] == db[k]);
            }
        }
    }
    lemma_flipped(at, b, u, ys, some);
    assert forall|j: Seq<usize>| #[trigger] nd::in_bounds(j, u@.dims()) implies elements::element_is(
        at,
        u,
        j,
        zs(j),
    ) by {
        lemma_flipped(at, b, u, ys, j);
    }
    assert(model::has(at, u, zs));
    assert(conformable(grad@.dims(), u@.dims()));
    assert(elementwise::matmul_dims(grad@.dims(), du) =~= da);
    assert(nd::in_bounds(i, g@.dims()));
    lemma_product(at, grad, u, g, ds, zs, i);
    let h = row_by_column(ds, zs, i);
    assert forall|k: int| 0 <= k < db[n - 1] implies #[trigger] h(k) == terms(k) by {
        let e = i.update(n - 2, k as usize);
        assert(turned(e) =~= i.update(n - 2, i[n - 1]).update(n - 1, k as usize));
    }
    sums::lemma_same(h, terms, db[n - 1] as nat);
}

/// The gradient of the right factor of a matrix product: each element is the sum
/// of the products of the left factor along the column of its row with the
/// gradient along its column.
pub proof fn law_right_factor_gradient<B: Backend>(
    at: spec_fn(B::Storage, nat) -> B::Scalar,
    a: Tensor<B>,
    b: Tensor<B>,
    t: Tensor<B>,
    grad: Tensor<B>,
    g: Tensor<B>,
    xs: spec_fn(Seq<usize>) -> B::Scalar,
    ds: spec_fn(Seq<usize>) -> B::Scalar,
    i: Seq<usize>,
    terms: spec_fn(int) -> B::Scalar,
)
    requires
        model::stores::<B>(at),
        multiplies::<B>(at),
        a@.layout@.valid(),
        a@.dims().len() <= usize::MAX,
        call_ensures(Tensor::matmul, (&a, &b), Ok::<Tensor<B>, Error>(t)),
        conformable(a@.dims(), b@.dims()),
        grad@.dims() == t@.dims(),
        contributions::contribution(t@.op, grad, 1, g),
        model::has(at, a, xs),
        model::has(at, grad, ds),
        nd::in_bounds(i, b@.dims()),
        a@.dims()[a@.dims().len() - 2] > 0,
        // Element (.., r, c) gets the sum over k of a(.., k, r) grad(.., k, c).
        forall|k: int|
            0 <= k < a@.dims()[a@.dims().len() - 2] ==> #[trigger] terms(k) == xs(
                i.update(i.len() - 1, i[i.len() - 2]).update(i.len() - 2, k as usize),
            ).times(ds(i.update(i.len() - 2, k as usize))),
    ensures
        contributions::used(t@.op) == seq![a, b],
        g@.dims() == b@.dims(),
        elements::element_is(
            at,
            g,
            i,
            sums::total(terms, a@.dims()[a@.dims().len() - 2] as nat),
        ),
{
    let da = a@.dims();
    let db = b@.dims();
    let n = da.len() as int;
    assert(elementwise::matmul_dims(da, db) =~= da.update(n - 1, db[n - 1]));
    assert(contributions::used(t@.op) =~= seq![a, b]);
    let u = choose|u: Tensor<B>|
        #[trigger] rules::flipped(a, Ok(u)) && elementwise::matmul_result(u, grad, Ok(g));
    let zs = |j: Seq<usize>| xs(turned(j));
    let du = turned(da);
    let some = i.update(n - 1, 0);
    assert(nd::in_bounds(some, du)) by {
        assert forall|k: int| 0 <= k < n implies #[trigger] some[k] < du[k] by {
            assert(i[k] < db[k]);
            if k < n - 2 {
                assert(da[k] == db[k]);
            }
        }
    }
    lemma_flipped(at, a, u, xs, some);
    assert forall|j: Seq<usize>| #[trigger] nd::in_bounds(j, u@.dims()) implies elements::element_is(
        at,
        u,
        j,
        zs(j),
    ) by {
        lemma_flipped(at, a, u, xs, j);
    }
    assert(model::has(at, u, zs));
    assert(conformable(u@.dims(), grad@.dims())) by {
        assert forall|k: int| 0 <= k < n - 2 implies #[trigger] u@.dims()[k] == grad@.dims()[k] by {
            assert(da[k] == db[k]);
        }
    }
    assert(elementwise::matmul_dims(du, grad@.dims()) =~= db) by {
        assert forall|k: int| 0 <= k < n implies #[trigger] elementwise::matmul_dims(
            du,
            grad@.dims(),
        )[k] == db[k] by {
            if k < n - 2 {
                assert(da[k] == db[k]);
            }
        }
    }
    assert(nd::in_bounds(i, g@.dims()));
    lemma_product(at, u, grad, g, zs, ds, i);
    let h = row_by_column(zs, ds, i);
    assert forall|k: int| 0 <= k < da[n - 2] implies #[trigger] h(k) == terms(k) by {
        let e = i.update(n - 1, k as usize);
        assert(turned(e) =~= i.update(n - 1, i[n - 2]).update(n - 2, k as usize));
    }
    sums::lemma_same(h, terms, da[n - 2] as nat);
}

} // verus!
