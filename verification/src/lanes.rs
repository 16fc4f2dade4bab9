//! Running sums and sorting along a dimension, element by element.
use crate::backend::Backend;
use crate::elements;
use crate::error::{Error, Result};
use crate::host;
use crate::kernels;
use crate::model;
use crate::nd;
use crate::numeric;
use crate::scalar::{self, Scalar};
use crate::sorting;
use crate::tensor::{self, Tensor};
use vstd::arithmetic::mul::*;
use vstd::prelude::*;

verus! {

/// The position of an index in row-major order, as a number of any size.
pub open spec fn ravel(i: Seq<usize>, dims: Seq<usize>) -> nat
    decreases dims.len(),
{
    if dims.len() == 0 {
        0
    } else {
        i[0] as nat * nd::product(dims.skip(1)) + ravel(i.skip(1), dims.skip(1))
    }
}

pub proof fn lemma_place_is_ravel(i: Seq<usize>, dims: Seq<usize>)
    requires
        i.len() == dims.len(),
        nd::strides_fit(dims),
    ensures
        model::place(i, dims) == ravel(i, dims),
    decreases dims.len(),
{
    if dims.len() > 0 {
        nd::lemma_row_major_step(dims);
        nd::lemma_strides_fit_step(dims);
        lemma_place_is_ravel(i.skip(1), dims.skip(1));
    }
}

proof fn lemma_ravel_bound(i: Seq<usize>, dims: Seq<usize>)
    requires
        nd::in_bounds(i, dims),
    ensures
        ravel(i, dims) < nd::product(dims),
    decreases dims.len(),
{
    if dims.len() > 0 {
        let i1 = i.skip(1);
        let d1 = dims.skip(1);
        assert(i[0] < dims[0]);
        assert forall|k: int| 0 <= k < d1.len() implies #[trigger] i1[k] < d1[k] by {
            assert(i[k + 1] < dims[k + 1]);
        }
        lemma_ravel_bound(i1, d1);
        let p = nd::product(d1) as int;
        let r = ravel(i1, d1) as int;
        assert(i[0] * p + r < dims[0] * p) by (nonlinear_arith)
            requires
                i[0] < dims[0],
                0 <= r < p,
        ;
    }
}

proof fn lemma_ravel_split(i: Seq<usize>, dims: Seq<usize>, k: int)
    requires
        i.len() == dims.len(),
        0 <= k <= dims.len(),
    ensures
        ravel(i, dims) == ravel(i.take(k), dims.take(k)) * nd::product(dims.skip(k)) + ravel(
            i.skip(k),
            dims.skip(k),
        ),
    decreases k,
{
    if k == 0 {
        assert(i.skip(0) =~= i && dims.skip(0) =~= dims);
        assert(ravel(i.take(0), dims.take(0)) == 0);
        lemma_mul_basics(nd::product(dims.skip(0)) as int);
    } else {
        let i1 = i.skip(1);
        let d1 = dims.skip(1);
        lemma_ravel_split(i1, d1, k - 1);
        assert(i1.skip(k - 1) =~= i.skip(k) && d1.skip(k - 1) =~= dims.skip(k));
        let it = i.take(k);
        let dt = dims.take(k);
        assert(it.skip(1) =~= i1.take(k - 1) && dt.skip(1) =~= d1.take(k - 1));
        nd::lemma_product_add(dt.skip(1), dims.skip(k));
        assert(dt.skip(1) + dims.skip(k) =~= d1);
        let a = i[0] as int;
        let b = nd::product(dt.skip(1)) as int;
        let c = nd::product(dims.skip(k)) as int;
        let r = ravel(it.skip(1), dt.skip(1)) as int;
        assert(a * (b * c) + r * c == (a * b + r) * c) by (nonlinear_arith);
    }
}

/// The block, the coordinate and the rest that make up a position around a
/// dimension.
pub proof fn lemma_around(i: Seq<usize>, dims: Seq<usize>, dim: int) -> (r: (int, int))
    requires
        nd::in_bounds(i, dims),
        0 <= dim < dims.len(),
        nd::product(dims) <= usize::MAX,
    ensures
        ({
            let inner = numeric::inner_count(dims, dim);
            let outer = numeric::outer_count(dims, dim);
            let size = dims[dim] as int;
            let x = model::place(i, dims) as int;
            &&& 0 <= r.0 < outer
            &&& 0 <= r.1 < inner
            &&& x == (r.0 * size + i[dim]) * inner + r.1
            &&& x / inner == r.0 * size + i[dim]
            &&& x % inner == r.1
            &&& (x / inner) / size == r.0
            &&& (x / inner) % size == i[dim] as int
            &&& r.0 == ravel(i.take(dim), dims.take(dim))
            &&& r.1 == ravel(i.skip(dim + 1), dims.skip(dim + 1))
        }),
{
    let inner = numeric::inner_count(dims, dim);
    let outer = numeric::outer_count(dims, dim);
    let size = dims[dim] as int;
    model::lemma_place(i, dims);
    lemma_place_is_ravel(i, dims);
    lemma_ravel_split(i, dims, dim + 1);
    let it = i.take(dim + 1);
    let dt = dims.take(dim + 1);
    lemma_ravel_split(it, dt, dim);
    assert(it.take(dim) =~= i.take(dim) && dt.take(dim) =~= dims.take(dim));
    assert(it.skip(dim) =~= seq![i[dim]] && dt.skip(dim) =~= seq![dims[dim]]);
    let one_i = seq![i[dim]];
    let one_d = seq![dims[dim]];
    assert(one_d.skip(1) =~= seq![] && one_i.skip(1) =~= seq![]);
    assert(nd::product(one_d.skip(1)) == 1);
    lemma_mul_basics(size);
    lemma_mul_basics(i[dim] as int);
    assert(ravel(one_i.skip(1), one_d.skip(1)) == 0);
    assert(nd::product(one_d) == size);
    assert(ravel(one_i, one_d) == i[dim]);
    let head = i.take(dim);
    let tail = i.skip(dim + 1);
    assert(nd::in_bounds(head, dims.take(dim))) by {
        assert forall|k: int| 0 <= k < dim implies #[trigger] head[k] < dims.take(dim)[k] by {
            assert(i[k] < dims[k]);
        }
    }
    assert(nd::in_bounds(tail, dims.skip(dim + 1))) by {
        assert forall|k: int| 0 <= k < tail.len() implies #[trigger] tail[k] < dims.skip(
            dim + 1,
        )[k] by {
            assert(i[k + dim + 1] < dims[k + dim + 1]);
        }
    }
    lemma_ravel_bound(head, dims.take(dim));
    lemma_ravel_bound(tail, dims.skip(dim + 1));
    let o = ravel(head, dims.take(dim)) as int;
    let n = ravel(tail, dims.skip(dim + 1)) as int;
    assert(i[dim] < dims[dim]);
    kernels::lemma_table_index(o, outer, i[dim] as int, size);
    kernels::lemma_table_index(o * size + i[dim], outer * size, n, inner);
    (o, n)
}

/// Running sums along a dimension: the first is the element itself, each further
/// one is its element plus the running sum before it.
pub proof fn law_cumsum_elements<B: Backend>(
    at: spec_fn(B::Storage, nat) -> B::Scalar,
    a: Tensor<B>,
    dim: usize,
    t: Tensor<B>,
    xs: spec_fn(Seq<usize>) -> B::Scalar,
) -> (ts: spec_fn(Seq<usize>) -> B::Scalar)
    requires
        model::stores::<B>(at),
        call_ensures(Tensor::cumsum, (&a, dim), Ok::<Tensor<B>, Error>(t)),
        model::has(at, a, xs),
        nd::product(a@.dims()) <= usize::MAX,
    ensures
        dim < a@.dims().len(),
        t@.dims() == a@.dims(),
        model::has(at, t, ts),
        forall|i: Seq<usize>| #[trigger]
            nd::in_bounds(i, a@.dims()) ==> ts(i) == if i[dim as int] == 0 {
                xs(i)
            } else {
                xs(i).plus(ts(i.update(dim as int, (i[dim as int] - 1) as usize)))
            },
{
    let d = dim as int;
    let dims = a@.dims();
    let c = choose|c: Tensor<B>|
        #[trigger] call_ensures(Tensor::contiguous, (&a,), Ok::<Tensor<B>, Error>(c))
            && exists|v: Vec<B::Scalar>| #[trigger]
            host::values_result(c, Ok(v)) && tensor::uploaded(
                numeric::running_sum(v@, dims[d] as int, numeric::inner_count(dims, d)),
                dims,
                c@.dtype,
                c@.device,
                Ok(t),
            );
    let v = choose|v: Vec<B::Scalar>| #[trigger]
        host::values_result(c, Ok(v)) && tensor::uploaded(
            numeric::running_sum(v@, dims[d] as int, numeric::inner_count(dims, d)),
            dims,
            c@.dtype,
            c@.device,
            Ok(t),
        );
    let inner = numeric::inner_count(dims, d);
    let size = dims[d] as int;
    let data = numeric::running_sum(v@, size, inner);
    let ts = |i: Seq<usize>| data[model::place(i, dims) as int];
    assert forall|i: Seq<usize>| #[trigger] nd::in_bounds(i, dims) implies elements::element_is(
        at,
        t,
        i,
        ts(i),
    ) && ts(i) == (if i[d] == 0 {
        xs(i)
    } else {
        xs(i).plus(ts(i.update(d, (i[d] - 1) as usize)))
    }) by {
        model::lemma_uploaded(at, data, dims, c@.dtype, c@.device, t, i);
        assert(elements::element_is(at, a, i, xs(i)));
        model::lemma_contiguous(at, a, c, i, xs(i));
        model::lemma_values(at, c, v, i, xs(i));
        let x = model::place(i, dims) as int;
        let (o, n) = lemma_around(i, dims, d);
        if i[d] > 0 {
            let before = i.update(d, (i[d] - 1) as usize);
            assert(nd::in_bounds(before, dims)) by {
                assert forall|k: int| 0 <= k < dims.len() implies #[trigger] before[k]
                    < dims[k] by {
                    assert(i[k] < dims[k]);
                }
            }
            let (p, m) = lemma_around(before, dims, d);
            assert(before.take(d) =~= i.take(d) && before.skip(d + 1) =~= i.skip(d + 1));
            assert((o * size + i[d]) * inner == (o * size + (i[d] - 1)) * inner + inner)
                by (nonlinear_arith);
            assert(model::place(before, dims) == x - inner);
            assert(x >= inner);
        }
    }
    ts
}

/// The sorted lane through an index, by the places of its elements before.
proof fn lemma_sorted_lane<S: Scalar>(
    data: Seq<S>,
    dims: Seq<usize>,
    d: int,
    descending: bool,
    lanes: Seq<Seq<sorting::Item<S>>>,
    xs: spec_fn(Seq<usize>) -> S,
    i: Seq<usize>,
) -> (perm: Seq<usize>)
    requires
        nd::in_bounds(i, dims),
        0 <= d < dims.len(),
        nd::product(dims) <= usize::MAX,
        sorting::lanes_sorted(
            data,
            numeric::outer_count(dims, d),
            dims[d] as int,
            numeric::inner_count(dims, d),
            descending,
            lanes,
        ),
        forall|j: Seq<usize>| #[trigger]
            nd::in_bounds(j, dims) ==> data[model::place(j, dims) as int] == xs(j),
    ensures
        ({
            let inner = numeric::inner_count(dims, d);
            let o = ravel(i.take(d), dims.take(d)) as int;
            let n = ravel(i.skip(d + 1), dims.skip(d + 1)) as int;
            let list = lanes[o * inner + n];
            &&& is_reordering(perm, dims[d])
            &&& list.len() == dims[d]
            &&& forall|k: int|
                0 <= k < dims[d] ==> (#[trigger] list[k]).1 == perm[k] && list[k].0 == xs(
                    i.update(d, perm[k]),
                )
            &&& scalar::orders::<S>() ==> forall|a: int, b: int|
                0 <= a < b < dims[d] ==> sorted_pair(
                    xs(i.update(d, #[trigger] perm[a])),
                    perm[a],
                    xs(i.update(d, #[trigger] perm[b])),
                    perm[b],
                    descending,
                )
        }),
{
    let inner = numeric::inner_count(dims, d);
    let outer = numeric::outer_count(dims, d);
    let size = dims[d] as int;
    let (o, n) = lemma_around(i, dims, d);
    kernels::lemma_table_index(o, outer, n, inner);
    let l = o * inner + n;
    let list = lanes[l];
    let items = sorting::lane(data, size, inner, l);
    assert(sorting::is_sorting(items, list, descending));
    let perm = Seq::new(size as nat, |k: int| list[k].1);
    // The items of the lane are the elements along the dimension.
    assert forall|k: int| 0 <= k < size implies #[trigger] items[k] == (
        xs(i.update(d, k as usize)),
        k as usize,
    ) by {
        let j = i.update(d, k as usize);
        assert(nd::in_bounds(j, dims)) by {
            assert forall|c: int| 0 <= c < dims.len() implies #[trigger] j[c] < dims[c] by {
                assert(i[c] < dims[c]);
            }
        }
        let (p, m) = lemma_around(j, dims, d);
        assert(j.take(d) =~= i.take(d) && j.skip(d + 1) =~= i.skip(d + 1));
    }
    items.to_multiset_ensures();
    list.to_multiset_ensures();
    assert forall|k: int| 0 <= k < size implies (#[trigger] list[k]).1 < size && list[k].0 == xs(
        i.update(d, list[k].1),
    ) by {
        assert(list.contains(list[k]));
        assert(items.to_multiset().count(list[k]) > 0);
        assert(items.contains(list[k]));
        let m = choose|m: int| 0 <= m < items.len() && items[m] == list[k];
        assert(items[m] == (xs(i.update(d, m as usize)), m as usize));
    }
    assert(items.no_duplicates()) by {
        assert forall|a: int, b: int|
            0 <= a < items.len() && 0 <= b < items.len() && a != b implies items[a]
            != items[b] by {
            assert(items[a].1 == a as usize && items[b].1 == b as usize);
        }
    }
    items.lemma_multiset_has_no_duplicates();
    list.lemma_multiset_has_no_duplicates_conv();
    assert forall|a: int, b: int| 0 <= a < size && 0 <= b < size && a != b implies perm[a]
        != perm[b] by {
        assert(list[a] != list[b]);
        assert(list[a].1 < size && list[b].1 < size);
    }
    if scalar::orders::<S>() {
        assert forall|a: int, b: int| 0 <= a < b < size implies sorted_pair(
            xs(i.update(d, #[trigger] perm[a])),
            perm[a],
            xs(i.update(d, #[trigger] perm[b])),
            perm[b],
            descending,
        ) by {
            assert(sorting::item_before(list[a], list[b], descending));
            assert(list[a].0 == xs(i.update(d, list[a].1)));
            assert(list[b].0 == xs(i.update(d, list[b].1)));
        }
    }
    perm
}

/// Each of the numbers below `size` stands in the list once.
pub open spec fn is_reordering(perm: Seq<usize>, size: usize) -> bool {
    &&& perm.len() == size
    &&& forall|k: int| 0 <= k < perm.len() ==> #[trigger] perm[k] < size
    &&& perm.no_duplicates()
}

/// Two elements may stand one after the other: the first is smaller (larger, if
/// the order is descending), or neither is and the first stood before the second
/// already.
pub open spec fn sorted_pair<S: Scalar>(
    x: S,
    p: usize,
    y: S,
    q: usize,
    descending: bool,
) -> bool {
    if descending {
        y.below(x) || (!x.below(y) && p < q)
    } else {
        x.below(y) || (!y.below(x) && p < q)
    }
}

/// The position of an item that is laid out along the dimension.
proof fn lemma_laid<S: Scalar>(
    lanes: Seq<Seq<sorting::Item<S>>>,
    dims: Seq<usize>,
    d: int,
    k: usize,
    i: Seq<usize>,
    a: usize,
)
    requires
        nd::in_bounds(i, dims),
        0 <= d < dims.len(),
        0 < nd::product(dims.update(d, k)) <= usize::MAX,
        a < k,
    ensures
        ({
            let inner = numeric::inner_count(dims, d);
            let o = ravel(i.take(d), dims.take(d)) as int;
            let n = ravel(i.skip(d + 1), dims.skip(d + 1)) as int;
            let x = model::place(i.update(d, a), dims.update(d, k)) as int;
            sorting::laid_out(lanes, k as int, inner, x) == lanes[o * inner + n][a as int]
        }),
{
    let small = dims.update(d, k);
    let j = i.update(d, a);
    assert(nd::in_bounds(j, small)) by {
        assert forall|c: int| 0 <= c < dims.len() implies #[trigger] j[c] < small[c] by {
            assert(i[c] < dims[c]);
        }
    }
    let (o, n) = lemma_around(j, small, d);
    assert(j.take(d) =~= i.take(d) && j.skip(d + 1) =~= i.skip(d + 1));
    assert(small.take(d) =~= dims.take(d) && small.skip(d + 1) =~= dims.skip(d + 1));
}

/// Sorting along a dimension: there is an order of the places along the dimension
/// such that the sorted values are the elements at these places, the positions
/// are the places, and neighbours stand in order; values of the same rank keep
/// theirs.
pub proof fn law_sort_elements<B: Backend>(
    at: spec_fn(B::Storage, nat) -> B::Scalar,
    a: Tensor<B>,
    dim: usize,
    descending: bool,
    values: Tensor<B>,
    places: Tensor<B>,
    xs: spec_fn(Seq<usize>) -> B::Scalar,
    i: Seq<usize>,
) -> (perm: Seq<usize>)
    requires
        model::stores::<B>(at),
        call_ensures(
            Tensor::sort,
            (&a, dim, descending),
            Ok::<(Tensor<B>, Tensor<B>), Error>((values, places)),
        ),
        model::has(at, a, xs),
        nd::product(a@.dims()) <= usize::MAX,
        nd::in_bounds(i, a@.dims()),
    ensures
        dim < a@.dims().len(),
        values@.dims() == a@.dims() && places@.dims() == a@.dims(),
        is_reordering(perm, a@.dims()[dim as int]),
        forall|k: int|
            0 <= k < perm.len() ==> {
                let p = #[trigger] perm[k];
                let e = i.update(dim as int, k as usize);
                &&& elements::element_is(at, values, e, xs(i.update(dim as int, p)))
                &&& elements::element_is(at, places, e, <B::Scalar as Scalar>::of_count(p))
            },
        scalar::orders::<B::Scalar>() ==> forall|k: int, l: int|
            0 <= k < l < perm.len() ==> sorted_pair(
                xs(i.update(dim as int, #[trigger] perm[k])),
                perm[k],
                xs(i.update(dim as int, #[trigger] perm[l])),
                perm[l],
                descending,
            ),
{
    let d = dim as int;
    let dims = a@.dims();
    let c = choose|c: Result<Tensor<B>>| #[trigger]
        call_ensures(Tensor::contiguous, (&a,), c) && match c {
            Err(e) => false,
            Ok(c) => exists|v: Result<Vec<B::Scalar>>| #[trigger]
                host::values_result(c, v) && match v {
                    Err(e) => false,
                    Ok(v) => numeric::sorted_result(
                        c,
                        dims,
                        d,
                        v@,
                        descending,
                        Ok((values, places)),
                    ),
                },
        };
    let c = c->Ok_0;
    let v = choose|v: Result<Vec<B::Scalar>>| #[trigger]
        host::values_result(c, v) && match v {
            Err(e) => false,
            Ok(v) => numeric::sorted_result(
                c,
                dims,
                d,
                v@,
                descending,
                Ok((values, places)),
            ),
        };
    let v = v->Ok_0;
    let inner = numeric::inner_count(dims, d);
    let outer = numeric::outer_count(dims, d);
    let size = dims[d] as int;
    let lanes = choose|lanes: Seq<Seq<sorting::Item<B::Scalar>>>|
        {
            &&& #[trigger] sorting::lanes_sorted(v@, outer, size, inner, descending, lanes)
            &&& tensor::uploaded(
                sorting::laid_values(lanes, size, inner, v@.len()),
                dims,
                c@.dtype,
                c@.device,
                Ok(values),
            )
            &&& tensor::uploaded(
                numeric::as_numbers(sorting::laid_places(lanes, size, inner, v@.len())),
                dims,
                c@.dtype,
                c@.device,
                Ok(places),
            )
        };
    assert forall|j: Seq<usize>| #[trigger] nd::in_bounds(j, dims) implies v@[model::place(
        j,
        dims,
    ) as int] == xs(j) by {
        assert(elements::element_is(at, a, j, xs(j)));
        model::lemma_contiguous(at, a, c, j, xs(j));
        model::lemma_values(at, c, v, j, xs(j));
    }
    let perm = lemma_sorted_lane(v@, dims, d, descending, lanes, xs, i);
    let data0 = sorting::laid_values(lanes, size, inner, v@.len());
    let data1: Seq<B::Scalar> = numeric::as_numbers(
        sorting::laid_places(lanes, size, inner, v@.len()),
    );
    let o = ravel(i.take(d), dims.take(d)) as int;
    let n = ravel(i.skip(d + 1), dims.skip(d + 1)) as int;
    let list = lanes[o * inner + n];
    assert forall|k: int| 0 <= k < perm.len() implies {
        let p = #[trigger] perm[k];
        let e = i.update(d, k as usize);
        &&& elements::element_is(at, values, e, xs(i.update(d, p)))
        &&& elements::element_is(at, places, e, <B::Scalar as Scalar>::of_count(p))
    } by {
        let e = i.update(d, k as usize);
        assert(nd::in_bounds(e, dims)) by {
            assert forall|m: int| 0 <= m < dims.len() implies #[trigger] e[m] < dims[m] by {
                assert(i[m] < dims[m]);
            }
        }
        model::lemma_uploaded(at, data0, dims, c@.dtype, c@.device, values, e);
        model::lemma_uploaded(at, data1, dims, c@.dtype, c@.device, places, e);
        assert(dims.update(d, dims[d]) =~= dims);
        lemma_laid(lanes, dims, d, dims[d], i, k as usize);
        assert(list[k].1 == perm[k]);
    }
    perm
}

/// The positions that sort a tensor are those that come with the sorted values.
pub proof fn law_argsort_is_sort<B: Backend>(
    a: Tensor<B>,
    dim: usize,
    descending: bool,
    t: Tensor<B>,
) -> (values: Tensor<B>)
    requires
        call_ensures(Tensor::argsort, (&a, dim, descending), Ok::<Tensor<B>, Error>(t)),
    ensures
        numeric::sort_result(a, dim, descending, Ok((values, t))),
{
    let s = choose|s: (Tensor<B>, Tensor<B>)| #[trigger]
        numeric::sort_result(a, dim, descending, Ok(s)) && t == s.1;
    s.0
}

/// The largest elements along a dimension: the first ones of a descending order,
/// and the places they come from.
pub proof fn law_topk_elements<B: Backend>(
    at: spec_fn(B::Storage, nat) -> B::Scalar,
    a: Tensor<B>,
    k: usize,
    dim: usize,
    values: Tensor<B>,
    places: Vec<usize>,
    xs: spec_fn(Seq<usize>) -> B::Scalar,
    i: Seq<usize>,
) -> (perm: Seq<usize>)
    requires
        model::stores::<B>(at),
        k > 0,
        call_ensures(
            Tensor::topk,
            (&a, k, dim),
            Ok::<(Tensor<B>, Vec<usize>), Error>((values, places)),
        ),
        model::has(at, a, xs),
        nd::in_bounds(i, a@.dims()),
    ensures
        dim < a@.dims().len(),
        k <= a@.dims()[dim as int],
        values@.dims() == a@.dims().update(dim as int, k),
        is_reordering(perm, a@.dims()[dim as int]),
        forall|m: int|
            0 <= m < k ==> {
                let p = #[trigger] perm[m];
                let e = i.update(dim as int, m as usize);
                &&& elements::element_is(at, values, e, xs(i.update(dim as int, p)))
                &&& places@[model::place(e, values@.dims()) as int] == p
            },
        scalar::orders::<B::Scalar>() ==> forall|m: int, l: int|
            0 <= m < l < perm.len() ==> sorted_pair(
                xs(i.update(dim as int, #[trigger] perm[m])),
                perm[m],
                xs(i.update(dim as int, #[trigger] perm[l])),
                perm[l],
                true,
            ),
{
    let d = dim as int;
    let dims = a@.dims();
    assert(numeric::topk_result(a, k, dim, Ok((values, places))));
    let v = choose|v: Vec<B::Scalar>| #[trigger]
        host::dense_values_result(a, Ok(v)) && numeric::top_result(
            a,
            k as int,
            d,
            v@,
            Ok((values, places)),
        );
    let inner = numeric::inner_count(dims, d);
    let outer = numeric::outer_count(dims, d);
    let count = (outer * k as int * inner) as nat;
    let small = dims.update(d, k);
    let lanes = choose|lanes: Seq<Seq<sorting::Item<B::Scalar>>>|
        {
            &&& #[trigger] sorting::lanes_sorted(v@, outer, dims[d] as int, inner, true, lanes)
            &&& tensor::uploaded(
                sorting::laid_values(lanes, k as int, inner, count),
                dims.update(d, (k as int) as usize),
                a@.dtype,
                a@.device,
                Ok(values),
            )
            &&& places@ == sorting::laid_places(lanes, k as int, inner, count)
        };
    assert(elements::element_is(at, a, i, xs(i)));
    model::lemma_dense_values(at, a, v, i, xs(i));
    assert forall|j: Seq<usize>| #[trigger] nd::in_bounds(j, dims) implies v@[model::place(
        j,
        dims,
    ) as int] == xs(j) by {
        assert(elements::element_is(at, a, j, xs(j)));
        model::lemma_dense_values(at, a, v, j, xs(j));
    }
    let perm = lemma_sorted_lane(v@, dims, d, true, lanes, xs, i);
    let data = sorting::laid_values(lanes, k as int, inner, count);
    let o = ravel(i.take(d), dims.take(d)) as int;
    let n = ravel(i.skip(d + 1), dims.skip(d + 1)) as int;
    let list = lanes[o * inner + n];
    assert forall|m: int| 0 <= m < k implies {
        let p = #[trigger] perm[m];
        let e = i.update(d, m as usize);
        &&& elements::element_is(at, values, e, xs(i.update(d, p)))
        &&& places@[model::place(e, values@.dims()) as int] == p
    } by {
        let e = i.update(d, m as usize);
        assert(nd::in_bounds(e, small)) by {
            assert forall|c: int| 0 <= c < dims.len() implies #[trigger] e[c] < small[c] by {
                assert(i[c] < dims[c]);
            }
        }
        model::lemma_uploaded(at, data, small, a@.dtype, a@.device, values, e);
        lemma_laid(lanes, dims, d, k, i, m as usize);
        assert(list[m].1 == perm[m]);
    }
    perm
}

} // verus!
