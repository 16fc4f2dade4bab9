//! What a change of shape does to sizes and elements.
use crate::backend::Backend;
use crate::elements;
use crate::error::Error;
use crate::layout::{self, LayoutView};
use crate::model;
use crate::nd;
use crate::shape::Shape;
use crate::shaping;
use crate::tensor::{self, Tensor};
use crate::views;
use vstd::arithmetic::mul::*;
use vstd::prelude::*;

verus! {

/// Flattening merges the sizes of a range of dimensions into their product, in
/// their place; the sizes before and after it stay in their order.
pub proof fn law_flatten_sizes<B: Backend>(a: Tensor<B>, start: usize, end: usize, r: Tensor<B>)
    requires
        call_ensures(Tensor::flatten, (&a, start, end), Ok::<Tensor<B>, Error>(r)),
    ensures
        start <= end < a@.dims().len(),
        r@.dims().len() == a@.dims().len() - (end - start),
        forall|i: int| 0 <= i < start ==> #[trigger] r@.dims()[i] == a@.dims()[i],
        r@.dims()[start as int] == nd::product(a@.dims().subrange(start as int, end + 1)),
        forall|i: int|
            start < i < r@.dims().len() ==> #[trigger] r@.dims()[i] == a@.dims()[i + (end
                - start)],
{
}

/// Dimensions of which flattening merges just one stay as they are.
pub proof fn law_flatten_one<B: Backend>(a: Tensor<B>, dim: usize, r: Tensor<B>)
    requires
        call_ensures(Tensor::flatten, (&a, dim, dim), Ok::<Tensor<B>, Error>(r)),
    ensures
        r@.dims() == a@.dims(),
{
    law_flatten_sizes(a, dim, dim, r);
    let d = a@.dims();
    let one = d.subrange(dim as int, dim + 1);
    assert(one.skip(1) =~= seq![]);
    assert(nd::product(one.skip(1)) == 1);
    lemma_mul_basics(d[dim as int] as int);
    assert(r@.dims() =~= d);
}

/// A reshape keeps the elements in their row-major order: what stands at a
/// position among all elements stands there in the new shape.
proof fn lemma_reshaped<B: Backend>(
    at: spec_fn(B::Storage, nat) -> B::Scalar,
    a: Tensor<B>,
    dims: Seq<usize>,
    r: Tensor<B>,
    i: Seq<usize>,
    j: Seq<usize>,
    x: B::Scalar,
)
    requires
        model::stores::<B>(at),
        shaping::reshape_result(a, dims, Ok(r)),
        nd::in_bounds(i, a@.dims()),
        nd::in_bounds(j, dims),
        model::place(i, a@.dims()) == model::place(j, dims),
        elements::element_is(at, a, i, x),
    ensures
        r@.dims() == dims,
        elements::element_is(at, r, j, x),
{
    let c = choose|c: Tensor<B>|
        #[trigger] call_ensures(Tensor::contiguous, (&a,), Ok::<Tensor<B>, Error>(c))
            && tensor::viewed(r, c, LayoutView::contiguous(dims));
    model::lemma_contiguous(at, a, c, i, x);
    model::lemma_place(i, a@.dims());
    model::lemma_place(j, dims);
}

/// A reshape gives the shape that is asked for and keeps the elements in their
/// row-major order.
pub proof fn law_reshape_elements<B: Backend, S: Into<Shape>>(
    at: spec_fn(B::Storage, nat) -> B::Scalar,
    a: Tensor<B>,
    asked: S,
    r: Tensor<B>,
    i: Seq<usize>,
    j: Seq<usize>,
    x: B::Scalar,
) -> (s: Shape)
    requires
        model::stores::<B>(at),
        call_ensures(Tensor::reshape::<S>, (&a, asked), Ok::<Tensor<B>, Error>(r)),
    ensures
        call_ensures(<S as Into<Shape>>::into, (asked,), s),
        r@.dims() == s@,
        nd::product(r@.dims()) == nd::product(a@.dims()),
        nd::in_bounds(i, a@.dims()) && nd::in_bounds(j, s@) && model::place(i, a@.dims())
            == model::place(j, s@) && elements::element_is(at, a, i, x) ==> elements::element_is(
            at,
            r,
            j,
            x,
        ),
{
    let s = choose|s: Shape| #[trigger]
        call_ensures(<S as Into<Shape>>::into, (asked,), s) && shaping::reshape_result(
            a,
            s@,
            Ok(r),
        );
    if nd::in_bounds(i, a@.dims()) && nd::in_bounds(j, s@) && model::place(i, a@.dims())
        == model::place(j, s@) && elements::element_is(at, a, i, x) {
        lemma_reshaped(at, a, s@, r, i, j, x);
    }
    s
}

/// Flattening keeps the elements in their row-major order.
pub proof fn law_flatten_elements<B: Backend>(
    at: spec_fn(B::Storage, nat) -> B::Scalar,
    a: Tensor<B>,
    start: usize,
    end: usize,
    r: Tensor<B>,
    i: Seq<usize>,
    j: Seq<usize>,
    x: B::Scalar,
)
    requires
        model::stores::<B>(at),
        call_ensures(Tensor::flatten, (&a, start, end), Ok::<Tensor<B>, Error>(r)),
        nd::in_bounds(i, a@.dims()),
        nd::in_bounds(j, r@.dims()),
        model::place(i, a@.dims()) == model::place(j, r@.dims()),
        elements::element_is(at, a, i, x),
    ensures
        elements::element_is(at, r, j, x),
{
    lemma_reshaped(at, a, r@.dims(), r, i, j, x);
}

/// The contiguous form has the shape and the elements of the tensor.
pub proof fn law_contiguous_elements<B: Backend>(
    at: spec_fn(B::Storage, nat) -> B::Scalar,
    a: Tensor<B>,
    r: Tensor<B>,
    index: Seq<usize>,
    x: B::Scalar,
)
    requires
        model::stores::<B>(at),
        call_ensures(Tensor::contiguous, (&a,), Ok::<Tensor<B>, Error>(r)),
        nd::in_bounds(index, a@.dims()),
        elements::element_is(at, a, index, x),
    ensures
        r@.dims() == a@.dims(),
        r@.layout@ == LayoutView::contiguous(a@.dims()),
        elements::element_is(at, r, index, x),
{
    model::lemma_contiguous(at, a, r, index, x);
}

/// A transpose exchanges two sizes, and the two coordinates of each element.
pub proof fn law_transpose_elements<B: Backend>(
    at: spec_fn(B::Storage, nat) -> B::Scalar,
    a: Tensor<B>,
    dim0: usize,
    dim1: usize,
    r: Tensor<B>,
    i: Seq<usize>,
    j: Seq<usize>,
    x: B::Scalar,
)
    requires
        a@.layout@.valid(),
        call_ensures(Tensor::transpose, (&a, dim0, dim1), Ok::<Tensor<B>, Error>(r)),
        nd::in_bounds(i, a@.dims()),
        j.len() == i.len(),
        j[dim0 as int] == i[dim1 as int],
        j[dim1 as int] == i[dim0 as int],
        forall|k: int|
            0 <= k < i.len() && k != dim0 && k != dim1 ==> #[trigger] j[k] == i[k],
        elements::element_is(at, a, i, x),
    ensures
        dim0 < a@.dims().len() && dim1 < a@.dims().len(),
        r@.dims().len() == a@.dims().len(),
        r@.dims()[dim0 as int] == a@.dims()[dim1 as int],
        r@.dims()[dim1 as int] == a@.dims()[dim0 as int],
        forall|k: int|
            0 <= k < a@.dims().len() && k != dim0 && k != dim1 ==> #[trigger] r@.dims()[k]
                == a@.dims()[k],
        nd::in_bounds(j, r@.dims()),
        elements::element_is(at, r, j, x),
{
    layout::law_transpose_addresses(a@.layout@, dim0 as int, dim1 as int, i);
    assert(j =~= nd::swapped(i, dim0 as int, dim1 as int));
}

/// The transpose of a matrix: rows become columns.
pub proof fn law_t_elements<B: Backend>(
    at: spec_fn(B::Storage, nat) -> B::Scalar,
    a: Tensor<B>,
    r: Tensor<B>,
    i: usize,
    j: usize,
    x: B::Scalar,
)
    requires
        a@.layout@.valid(),
        call_ensures(Tensor::t, (&a,), Ok::<Tensor<B>, Error>(r)),
        nd::in_bounds(seq![i, j], a@.dims()),
        elements::element_is(at, a, seq![i, j], x),
    ensures
        a@.dims().len() == 2,
        r@.dims() == seq![a@.dims()[1], a@.dims()[0]],
        elements::element_is(at, r, seq![j, i], x),
{
    law_transpose_elements(at, a, 0, 1, r, seq![i, j], seq![j, i], x);
    assert(r@.dims() =~= seq![a@.dims()[1], a@.dims()[0]]);
}

/// A permutation: dimension `k` of the result is dimension `order[k]` of the
/// tensor, in its sizes and in the coordinates of each element.
pub proof fn law_permute_elements<B: Backend>(
    at: spec_fn(B::Storage, nat) -> B::Scalar,
    a: Tensor<B>,
    order: &[usize],
    r: Tensor<B>,
    i: Seq<usize>,
    j: Seq<usize>,
    x: B::Scalar,
)
    requires
        a@.layout@.valid(),
        call_ensures(Tensor::permute, (&a, order), Ok::<Tensor<B>, Error>(r)),
        nd::in_bounds(i, a@.dims()),
        j.len() == i.len(),
        forall|k: int| 0 <= k < j.len() ==> #[trigger] j[k] == i[order@[k] as int],
        elements::element_is(at, a, i, x),
    ensures
        r@.dims().len() == a@.dims().len(),
        forall|k: int|
            0 <= k < a@.dims().len() ==> #[trigger] r@.dims()[k] == a@.dims()[order@[k] as int],
        nd::in_bounds(j, r@.dims()),
        elements::element_is(at, r, j, x),
{
    views::law_permute_addresses(a@.layout@, order@, i);
    assert(j =~= views::selected(i, order@));
}

/// A start within a dimension lies within the positions that a layout finds.
proof fn lemma_start_fits(l: LayoutView, dim: int, start: usize, i: Seq<usize>)
    requires
        l.valid(),
        nd::in_bounds(i, l.dims),
        0 <= dim < l.dims.len(),
        start <= i[dim],
    ensures
        l.offset + start * l.strides[dim] <= usize::MAX,
{
    let d = l.dims;
    let s = l.strides[dim] as int;
    nd::lemma_product_zero(d);
    assert forall|k: int| 0 <= k < d.len() implies #[trigger] d[k] > 0 by {
        assert(i[k] < d[k]);
    }
    let last = layout::last_index(d);
    let zeros = Seq::new(d.len(), |k: int| 0usize);
    let only = zeros.update(dim, start);
    assert(i[dim] < d[dim]);
    nd::lemma_dot_mono(only, last, l.strides);
    nd::lemma_dot_update(zeros, l.strides, dim, start);
    lemma_mul_basics(s);
}

/// A slice: the size along the dimension is the length, and each element stands
/// `start` further along it in the tensor.
pub proof fn law_narrow_elements<B: Backend>(
    at: spec_fn(B::Storage, nat) -> B::Scalar,
    a: Tensor<B>,
    dim: usize,
    start: usize,
    len: usize,
    r: Tensor<B>,
    i: Seq<usize>,
    j: Seq<usize>,
    x: B::Scalar,
)
    requires
        a@.layout@.valid(),
        call_ensures(Tensor::narrow, (&a, dim, start, len), Ok::<Tensor<B>, Error>(r)),
        nd::in_bounds(i, a@.dims()),
        start <= i[dim as int] < start + len,
        j.len() == i.len(),
        j[dim as int] == i[dim as int] - start,
        forall|k: int| 0 <= k < i.len() && k != dim ==> #[trigger] j[k] == i[k],
        elements::element_is(at, a, i, x),
    ensures
        dim < a@.dims().len(),
        r@.dims() == a@.dims().update(dim as int, len),
        r@.layout@.valid(),
        nd::in_bounds(j, r@.dims()),
        elements::element_is(at, r, j, x),
{
    let d = a@.dims();
    let l = a@.layout@;
    lemma_start_fits(l, dim as int, start, i);
    assert forall|k: int| 0 <= k < d.len() implies #[trigger] j[k] < d.update(
        dim as int,
        len,
    )[k] by {
        assert(i[k] < d[k]);
    }
    layout::law_narrow_addresses(l, dim as int, start, len, j);
    views::lemma_narrowed_valid(l, dim as int, start, len);
    assert(j.update(dim as int, (j[dim as int] + start) as usize) =~= i);
}

/// An added dimension has size 1; the coordinate 0 is added to each element.
pub proof fn law_unsqueeze_elements<B: Backend>(
    at: spec_fn(B::Storage, nat) -> B::Scalar,
    a: Tensor<B>,
    dim: usize,
    r: Tensor<B>,
    i: Seq<usize>,
    x: B::Scalar,
)
    requires
        a@.layout@.valid(),
        call_ensures(Tensor::unsqueeze, (&a, dim), Ok::<Tensor<B>, Error>(r)),
        nd::in_bounds(i, a@.dims()),
        elements::element_is(at, a, i, x),
    ensures
        dim <= a@.dims().len(),
        r@.dims() == a@.dims().insert(dim as int, 1),
        nd::in_bounds(i.insert(dim as int, 0), r@.dims()),
        elements::element_is(at, r, i.insert(dim as int, 0), x),
{
    views::law_unsqueeze_addresses(a@.layout@, dim as int, i);
}

/// A dimension of size 1 is removed, and its coordinate from each element.
pub proof fn law_squeeze_elements<B: Backend>(
    at: spec_fn(B::Storage, nat) -> B::Scalar,
    a: Tensor<B>,
    dim: usize,
    r: Tensor<B>,
    i: Seq<usize>,
    x: B::Scalar,
)
    requires
        a@.layout@.valid(),
        call_ensures(Tensor::squeeze, (&a, dim), Ok::<Tensor<B>, Error>(r)),
        nd::in_bounds(i, a@.dims()),
        elements::element_is(at, a, i, x),
    ensures
        dim < a@.dims().len() && a@.dims()[dim as int] == 1,
        r@.dims() == a@.dims().remove(dim as int),
        elements::element_is(at, r, i.remove(dim as int), x),
{
    let j = i.remove(dim as int);
    assert(i[dim as int] < 1);
    assert(j.insert(dim as int, 0) =~= i);
    views::law_squeeze_addresses(a@.layout@, dim as int, j);
}

/// The entries at the positions in `ps` are those whose size is not 1.
proof fn lemma_without_ones(dims: Seq<usize>, vals: Seq<usize>, ps: Seq<int>)
    requires
        vals.len() == dims.len(),
        forall|k: int| 0 <= k < ps.len() ==> 0 <= #[trigger] ps[k] < dims.len(),
        forall|k: int, l: int| 0 <= k < l < ps.len() ==> #[trigger] ps[k] < #[trigger] ps[l],
        forall|d: int| 0 <= d < dims.len() ==> (#[trigger] dims[d] != 1 <==> ps.contains(d)),
    ensures
        views::without_ones(dims, vals) == Seq::new(ps.len(), |k: int| vals[ps[k]]),
    decreases dims.len(),
{
    let want = Seq::new(ps.len(), |k: int| vals[ps[k]]);
    if dims.len() == 0 {
        if ps.len() > 0 {
            assert(0 <= ps[0] < dims.len());
        }
        assert(want =~= seq![]);
    } else {
        let last = dims.len() - 1;
        let d1 = dims.drop_last();
        let v1 = vals.drop_last();
        if dims.last() == 1 {
            assert(!ps.contains(last));
            assert forall|k: int| 0 <= k < ps.len() implies 0 <= #[trigger] ps[k] < d1.len() by {
                assert(ps.contains(ps[k]));
            }
            assert forall|d: int| 0 <= d < d1.len() implies (#[trigger] d1[d] != 1
                <==> ps.contains(d)) by {
                assert(dims[d] == d1[d]);
            }
            lemma_without_ones(d1, v1, ps);
            assert(want =~= Seq::new(ps.len(), |k: int| v1[ps[k]]));
        } else {
            assert(dims[last] != 1);
            let m = choose|m: int| 0 <= m < ps.len() && ps[m] == last;
            if m < ps.len() - 1 {
                assert(ps[m] < ps[ps.len() - 1]);
            }
            let p1 = ps.drop_last();
            assert forall|k: int| 0 <= k < p1.len() implies 0 <= #[trigger] p1[k] < d1.len() by {
                assert(ps[k] < ps[ps.len() - 1]);
            }
            assert forall|d: int| 0 <= d < d1.len() implies (#[trigger] d1[d] != 1
                <==> p1.contains(d)) by {
                assert(dims[d] == d1[d]);
                if ps.contains(d) {
                    let k = choose|k: int| 0 <= k < ps.len() && ps[k] == d;
                    assert(p1[k] == d);
                }
                if p1.contains(d) {
                    let k = choose|k: int| 0 <= k < p1.len() && p1[k] == d;
                    assert(ps[k] == d);
                }
            }
            lemma_without_ones(d1, v1, p1);
            assert(want =~= Seq::new(p1.len(), |k: int| v1[p1[k]]).push(vals.last()));
        }
    }
}

proof fn lemma_dot_without_ones(dims: Seq<usize>, index: Seq<usize>, strides: Seq<usize>)
    requires
        nd::in_bounds(index, dims),
        strides.len() == dims.len(),
    ensures
        nd::dot(views::without_ones(dims, index), views::without_ones(dims, strides)) == nd::dot(
            index,
            strides,
        ),
        views::without_ones(dims, index).len() == views::without_ones(dims, strides).len(),
    decreases dims.len(),
{
    if dims.len() > 0 {
        let d1 = dims.drop_last();
        let i1 = index.drop_last();
        let s1 = strides.drop_last();
        assert forall|k: int| 0 <= k < d1.len() implies #[trigger] i1[k] < d1[k] by {
            assert(index[k] < dims[k]);
        }
        lemma_dot_without_ones(d1, i1, s1);
        assert(index =~= i1.push(index.last()) && strides =~= s1.push(strides.last()));
        nd::lemma_dot_push(i1, s1, index.last(), strides.last());
        assert(index[dims.len() - 1] < dims[dims.len() - 1]);
        if dims.last() == 1 {
            lemma_mul_basics(strides.last() as int);
        } else {
            nd::lemma_dot_push(
                views::without_ones(d1, i1),
                views::without_ones(d1, s1),
                index.last(),
                strides.last(),
            );
        }
    }
}

/// All dimensions of size 1 are removed, and their coordinates from each
/// element. `ps` lists the others in order.
pub proof fn law_squeeze_all_elements<B: Backend>(
    at: spec_fn(B::Storage, nat) -> B::Scalar,
    a: Tensor<B>,
    r: Tensor<B>,
    ps: Seq<int>,
    i: Seq<usize>,
    x: B::Scalar,
)
    requires
        a@.layout@.valid(),
        call_ensures(Tensor::squeeze_all, (&a,), r),
        forall|k: int| 0 <= k < ps.len() ==> 0 <= #[trigger] ps[k] < a@.dims().len(),
        forall|k: int, l: int| 0 <= k < l < ps.len() ==> #[trigger] ps[k] < #[trigger] ps[l],
        forall|d: int|
            0 <= d < a@.dims().len() ==> (#[trigger] a@.dims()[d] != 1 <==> ps.contains(d)),
        nd::in_bounds(i, a@.dims()),
        elements::element_is(at, a, i, x),
    ensures
        r@.dims() == Seq::new(ps.len(), |k: int| a@.dims()[ps[k]]),
        elements::element_is(at, r, Seq::new(ps.len(), |k: int| i[ps[k]]), x),
{
    lemma_without_ones(a@.dims(), a@.dims(), ps);
    lemma_without_ones(a@.dims(), i, ps);
    lemma_dot_without_ones(a@.dims(), i, a@.layout@.strides);
}

/// An expansion has the sizes that are asked for (the largest number asks for
/// the size that is there), and repeats the elements along the dimensions of
/// size 1.
pub proof fn law_expand_elements<B: Backend, S: Into<Shape>>(
    at: spec_fn(B::Storage, nat) -> B::Scalar,
    a: Tensor<B>,
    asked: S,
    r: Tensor<B>,
    i: Seq<usize>,
    j: Seq<usize>,
    x: B::Scalar,
) -> (s: Shape)
    requires
        a@.layout@.valid(),
        call_ensures(Tensor::expand::<S>, (&a, asked), Ok::<Tensor<B>, Error>(r)),
        nd::in_bounds(j, r@.dims()),
        i.len() == j.len(),
        forall|k: int|
            0 <= k < i.len() ==> #[trigger] i[k] == if a@.dims()[k] == 1 {
                0
            } else {
                j[k]
            },
        elements::element_is(at, a, i, x),
    ensures
        call_ensures(<S as Into<Shape>>::into, (asked,), s),
        r@.dims().len() == a@.dims().len() && a@.dims().len() == s@.len(),
        forall|k: int|
            0 <= k < s@.len() ==> #[trigger] r@.dims()[k] == if s@[k] == usize::MAX {
                a@.dims()[k]
            } else {
                s@[k]
            },
        nd::in_bounds(i, a@.dims()),
        elements::element_is(at, r, j, x),
{
    let s = choose|s: Shape| #[trigger]
        call_ensures(<S as Into<Shape>>::into, (asked,), s) && shaping::expand_result(
            a,
            s@,
            Ok(r),
        );
    let target = shaping::expand_sizes(a@.dims(), s@);
    views::law_expand_addresses(a@.layout@, target, j);
    assert(i =~= views::unrepeated(j, a@.dims(), target)) by {
        assert forall|k: int| 0 <= k < i.len() implies i[k] == views::unrepeated(
            j,
            a@.dims(),
            target,
        )[k] by {
            assert(j[k] < target[k]);
        }
    }
    s
}

/// Pieces of a given size along a dimension: piece `k` starts at `k` times the
/// size, all but the last have the size, and the last ends with the dimension.
pub proof fn law_split_pieces<B: Backend>(
    a: Tensor<B>,
    size: usize,
    dim: usize,
    r: Vec<Tensor<B>>,
    k: int,
)
    requires
        call_ensures(Tensor::split, (&a, size, dim), Ok::<Vec<Tensor<B>>, Error>(r)),
    ensures
        dim < a@.dims().len(),
        size > 0,
        (r@.len() - 1) * size < a@.dims()[dim as int] <= r@.len() * size || (r@.len() == 0
            && a@.dims()[dim as int] == 0),
        0 <= k < r@.len() - 1 ==> call_ensures(
            Tensor::narrow,
            (&a, dim, (k * size) as usize, size),
            Ok::<Tensor<B>, Error>(r@[k]),
        ),
        0 <= k == r@.len() - 1 ==> call_ensures(
            Tensor::narrow,
            (&a, dim, (k * size) as usize, (a@.dims()[dim as int] - k * size) as usize),
            Ok::<Tensor<B>, Error>(r@[k]),
        ),
{
    lemma_pieces(a, dim, size as nat, r, k);
}

proof fn lemma_pieces<B: Backend>(
    a: Tensor<B>,
    dim: usize,
    size: nat,
    r: Vec<Tensor<B>>,
    k: int,
)
    requires
        shaping::pieces_result(a, dim, size, Ok(r)),
        size > 0,
        size <= usize::MAX,
    ensures
        (r@.len() - 1) * size < a@.dims()[dim as int] <= r@.len() * size || (r@.len() == 0
            && a@.dims()[dim as int] == 0),
        0 <= k < r@.len() - 1 ==> call_ensures(
            Tensor::narrow,
            (&a, dim, (k * size) as usize, size as usize),
            Ok::<Tensor<B>, Error>(r@[k]),
        ),
        0 <= k == r@.len() - 1 ==> call_ensures(
            Tensor::narrow,
            (&a, dim, (k * size) as usize, (a@.dims()[dim as int] - k * size) as usize),
            Ok::<Tensor<B>, Error>(r@[k]),
        ),
{
    let total = a@.dims()[dim as int] as int;
    let s = size as int;
    let n = r@.len() as int;
    if total > 0 {
        vstd::arithmetic::div_mod::lemma_fundamental_div_mod(total - 1, s);
        vstd::arithmetic::div_mod::lemma_mod_bound(total - 1, s);
        let q = (total - 1) / s;
        assert(n == q + 1);
        lemma_mul_is_commutative(s, q);
        lemma_mul_is_distributive_add_other_way(s, q, 1);
        if 0 <= k < n {
            assert(shaping::piece(a, dim, size, k, Ok(r@[k])));
            if k < q {
                lemma_mul_inequality(k + 1, q, s);
                lemma_mul_is_distributive_add_other_way(s, k, 1);
            }
        }
    }
}

/// Chunks: at most the number that is asked for, all of one size but for the
/// last, which may be shorter; together they are the dimension.
pub proof fn law_chunk_pieces<B: Backend>(
    a: Tensor<B>,
    n: usize,
    dim: usize,
    r: Vec<Tensor<B>>,
    k: int,
) -> (size: nat)
    requires
        n > 0,
        call_ensures(Tensor::chunk, (&a, n, dim), Ok::<Vec<Tensor<B>>, Error>(r)),
    ensures
        dim < a@.dims().len(),
        r@.len() <= n,
        a@.dims()[dim as int] == 0 <==> r@.len() == 0,
        a@.dims()[dim as int] > 0 ==> (size - 1) * n < a@.dims()[dim as int] <= size * n,
        a@.dims()[dim as int] > 0 ==> (r@.len() - 1) * size < a@.dims()[dim as int] <= r@.len()
            * size,
        0 <= k < r@.len() - 1 ==> call_ensures(
            Tensor::narrow,
            (&a, dim, (k * size) as usize, size as usize),
            Ok::<Tensor<B>, Error>(r@[k]),
        ),
        0 <= k == r@.len() - 1 ==> call_ensures(
            Tensor::narrow,
            (&a, dim, (k * size) as usize, (a@.dims()[dim as int] - k * size) as usize),
            Ok::<Tensor<B>, Error>(r@[k]),
        ),
{
    let total = a@.dims()[dim as int] as int;
    let size = shaping::piece_count(total as nat, n as nat);
    if total > 0 {
        let m = n as int;
        shaping::law_chunks_at_most(total as nat, n as nat);
        vstd::arithmetic::div_mod::lemma_fundamental_div_mod(total - 1, m);
        vstd::arithmetic::div_mod::lemma_mod_bound(total - 1, m);
        let q = (total - 1) / m;
        vstd::arithmetic::div_mod::lemma_div_is_ordered_by_denominator(total - 1, 1, m);
        vstd::arithmetic::div_mod::lemma_div_basics(total - 1);
        lemma_mul_is_commutative(m, q);
        lemma_mul_is_distributive_add_other_way(m, q, 1);
        lemma_pieces(a, dim, size, r, k);
    }
    size
}

} // verus!
