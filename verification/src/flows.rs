//! Where gradients flow through changes of shape, slices, joins and reductions.
use crate::axes;
use crate::backend::{Backend, ReduceOp};
use crate::contributions;
use crate::dtype::DType;
use crate::elements;
use crate::elementwise;
use crate::error::Error;
use crate::grad_shapes;
use crate::gradients;
use crate::host;
use crate::joining;
use crate::layout::LayoutView;
use crate::model;
use crate::nd;
use crate::op::Op;
use crate::reshaped;
use crate::rules;
use crate::scalar::Scalar;
use crate::shape::Shape;
use crate::shaping;
use crate::tensor::{self, Tensor};
use crate::views;
use vstd::arithmetic::mul::*;
use vstd::prelude::*;

verus! {

/// A copy passes its gradient back as it is.
pub proof fn law_contiguous_gradient<B: Backend>(
    a: Tensor<B>,
    t: Tensor<B>,
    grad: Tensor<B>,
    g: Tensor<B>,
)
    requires
        call_ensures(Tensor::contiguous, (&a,), Ok::<Tensor<B>, Error>(t)),
        t != a,
        contributions::contribution(t@.op, grad, 0, g),
    ensures
        contributions::used(t@.op) == seq![a],
        g == grad,
{
    assert(contributions::used(t@.op) =~= seq![a]);
}

/// The gradient of a tensor that was given another shape has the shape of the
/// tensor, and its elements in the same row-major order.
proof fn lemma_reshape_gradient<B: Backend>(
    at: spec_fn(B::Storage, nat) -> B::Scalar,
    c: Tensor<B>,
    t: Tensor<B>,
    grad: Tensor<B>,
    g: Tensor<B>,
    i: Seq<usize>,
    j: Seq<usize>,
    d: B::Scalar,
)
    requires
        model::stores::<B>(at),
        shaping::is_reshape_of(t@.op, c),
        contributions::contribution(t@.op, grad, 0, g),
        nd::in_bounds(i, c@.dims()),
        nd::in_bounds(j, grad@.dims()),
        model::place(i, c@.dims()) == model::place(j, grad@.dims()),
        elements::element_is(at, grad, j, d),
    ensures
        contributions::used(t@.op) == seq![c],
        g@.dims() == c@.dims(),
        elements::element_is(at, g, i, d),
{
    assert(contributions::used(t@.op) =~= seq![c]);
    assert(shaping::reshape_result(grad, c@.dims(), Ok(g)));
    let k = choose|k: Tensor<B>|
        #[trigger] call_ensures(Tensor::contiguous, (&grad,), Ok::<Tensor<B>, Error>(k))
            && tensor::viewed(g, k, LayoutView::contiguous(c@.dims()));
    model::lemma_contiguous(at, grad, k, j, d);
    model::lemma_place(i, c@.dims());
    model::lemma_place(j, grad@.dims());
}

/// The gradient of a reshape goes back in row-major order to the tensor, or to
/// its contiguous copy if one had to be made.
pub proof fn law_reshape_gradient<B: Backend, S: Into<Shape>>(
    at: spec_fn(B::Storage, nat) -> B::Scalar,
    a: Tensor<B>,
    asked: S,
    t: Tensor<B>,
    grad: Tensor<B>,
    g: Tensor<B>,
    i: Seq<usize>,
    j: Seq<usize>,
    d: B::Scalar,
) -> (c: Tensor<B>)
    requires
        model::stores::<B>(at),
        call_ensures(Tensor::reshape::<S>, (&a, asked), Ok::<Tensor<B>, Error>(t)),
        grad@.dims() == t@.dims(),
        contributions::contribution(t@.op, grad, 0, g),
        nd::in_bounds(i, a@.dims()),
        nd::in_bounds(j, t@.dims()),
        model::place(i, a@.dims()) == model::place(j, t@.dims()),
        elements::element_is(at, grad, j, d),
    ensures
        call_ensures(Tensor::contiguous, (&a,), Ok::<Tensor<B>, Error>(c)),
        contributions::used(t@.op) == seq![c],
        g@.dims() == a@.dims(),
        elements::element_is(at, g, i, d),
{
    let s = choose|s: Shape| #[trigger]
        call_ensures(<S as Into<Shape>>::into, (asked,), s) && shaping::reshape_result(
            a,
            s@,
            Ok(t),
        );
    let c = choose|c: Tensor<B>|
        #[trigger] call_ensures(Tensor::contiguous, (&a,), Ok::<Tensor<B>, Error>(c))
            && shaping::is_reshape_of(t@.op, c);
    lemma_reshape_gradient(at, c, t, grad, g, i, j, d);
    c
}

/// The same for flattening.
pub proof fn law_flatten_gradient<B: Backend>(
    at: spec_fn(B::Storage, nat) -> B::Scalar,
    a: Tensor<B>,
    start: usize,
    end: usize,
    t: Tensor<B>,
    grad: Tensor<B>,
    g: Tensor<B>,
    i: Seq<usize>,
    j: Seq<usize>,
    d: B::Scalar,
) -> (c: Tensor<B>)
    requires
        model::stores::<B>(at),
        call_ensures(Tensor::flatten, (&a, start, end), Ok::<Tensor<B>, Error>(t)),
        grad@.dims() == t@.dims(),
        contributions::contribution(t@.op, grad, 0, g),
        nd::in_bounds(i, a@.dims()),
        nd::in_bounds(j, t@.dims()),
        model::place(i, a@.dims()) == model::place(j, t@.dims()),
        elements::element_is(at, grad, j, d),
    ensures
        call_ensures(Tensor::contiguous, (&a,), Ok::<Tensor<B>, Error>(c)),
        contributions::used(t@.op) == seq![c],
        g@.dims() == a@.dims(),
        elements::element_is(at, g, i, d),
{
    let c = choose|c: Tensor<B>|
        #[trigger] call_ensures(Tensor::contiguous, (&a,), Ok::<Tensor<B>, Error>(c))
            && shaping::is_reshape_of(t@.op, c);
    lemma_reshape_gradient(at, c, t, grad, g, i, j, d);
    c
}

/// A size 1 does not change the element count.
pub proof fn lemma_one_more(dims: Seq<usize>, dim: int)
    requires
        0 <= dim <= dims.len(),
    ensures
        nd::product(dims.insert(dim, 1)) == nd::product(dims),
    decreases dim,
{
    let more = dims.insert(dim, 1);
    if dim == 0 {
        assert(more.skip(1) =~= dims);
        lemma_mul_basics(nd::product(dims) as int);
    } else {
        lemma_one_more(dims.skip(1), dim - 1);
        assert(more.skip(1) =~= dims.skip(1).insert(dim - 1, 1));
        assert(more[0] == dims[0]);
    }
}

/// An added dimension of size 1 does not change positions.
pub proof fn lemma_place_with_one(i: Seq<usize>, dims: Seq<usize>, dim: int)
    requires
        i.len() == dims.len(),
        0 <= dim <= dims.len(),
    ensures
        model::place(i.insert(dim, 0), dims.insert(dim, 1)) == model::place(i, dims),
{
    let more = dims.insert(dim, 1);
    let s = nd::row_major(dims);
    let y = nd::product(dims.skip(dim)) as usize;
    assert forall|k: int| 0 <= k < more.len() implies nd::row_major(more)[k] == s.insert(
        dim,
        y,
    )[k] by {
        if k < dim {
            assert(more.skip(k + 1) =~= dims.skip(k + 1).insert(dim - k - 1, 1));
            lemma_one_more(dims.skip(k + 1), dim - k - 1);
        } else if k == dim {
            assert(more.skip(k + 1) =~= dims.skip(dim));
        } else {
            assert(more.skip(k + 1) =~= dims.skip(k));
        }
    }
    assert(nd::row_major(more) =~= s.insert(dim, y));
    nd::lemma_dot_insert(i, s, dim, 0, y);
    lemma_mul_basics(y as int);
}

/// The gradient of an added dimension: each element flows back without it.
pub proof fn law_unsqueeze_gradient<B: Backend>(
    at: spec_fn(B::Storage, nat) -> B::Scalar,
    a: Tensor<B>,
    dim: usize,
    t: Tensor<B>,
    grad: Tensor<B>,
    g: Tensor<B>,
    i: Seq<usize>,
    d: B::Scalar,
)
    requires
        model::stores::<B>(at),
        call_ensures(Tensor::unsqueeze, (&a, dim), Ok::<Tensor<B>, Error>(t)),
        grad@.dims() == t@.dims(),
        contributions::contribution(t@.op, grad, 0, g),
        nd::in_bounds(i, a@.dims()),
        elements::element_is(at, grad, i.insert(dim as int, 0), d),
    ensures
        contributions::used(t@.op) == seq![a],
        g@.dims() == a@.dims(),
        elements::element_is(at, g, i, d),
{
    let j = i.insert(dim as int, 0);
    lemma_place_with_one(i, a@.dims(), dim as int);
    assert(nd::in_bounds(j, t@.dims())) by {
        assert forall|k: int| 0 <= k < t@.dims().len() implies #[trigger] j[k] < t@.dims()[k] by {
            if k < dim {
                assert(i[k] < a@.dims()[k]);
            } else if k > dim {
                assert(i[k - 1] < a@.dims()[k - 1]);
            }
        }
    }
    lemma_reshape_gradient(at, a, t, grad, g, i, j, d);
}

/// The gradient of a removed dimension: each element flows back to coordinate 0
/// of it.
pub proof fn law_squeeze_gradient<B: Backend>(
    at: spec_fn(B::Storage, nat) -> B::Scalar,
    a: Tensor<B>,
    dim: usize,
    t: Tensor<B>,
    grad: Tensor<B>,
    g: Tensor<B>,
    i: Seq<usize>,
    d: B::Scalar,
)
    requires
        model::stores::<B>(at),
        call_ensures(Tensor::squeeze, (&a, dim), Ok::<Tensor<B>, Error>(t)),
        grad@.dims() == t@.dims(),
        contributions::contribution(t@.op, grad, 0, g),
        nd::in_bounds(i, a@.dims()),
        elements::element_is(at, grad, i.remove(dim as int), d),
    ensures
        contributions::used(t@.op) == seq![a],
        g@.dims() == a@.dims(),
        elements::element_is(at, g, i, d),
{
    let j = i.remove(dim as int);
    let small = a@.dims().remove(dim as int);
    assert(i[dim as int] < a@.dims()[dim as int]);
    assert(j.insert(dim as int, 0) =~= i);
    assert(small.insert(dim as int, 1) =~= a@.dims());
    lemma_place_with_one(j, small, dim as int);
    assert(nd::in_bounds(j, small)) by {
        assert forall|k: int| 0 <= k < small.len() implies #[trigger] j[k] < small[k] by {
            if k < dim {
                assert(i[k] < a@.dims()[k]);
            } else {
                assert(i[k + 1] < a@.dims()[k + 1]);
            }
        }
    }
    lemma_reshape_gradient(at, a, t, grad, g, i, j, d);
}

/// The gradient of a tensor without its dimensions of size 1: each element gets
/// that of the element in the same place of the row-major order.
pub proof fn law_squeeze_all_gradient<B: Backend>(
    at: spec_fn(B::Storage, nat) -> B::Scalar,
    a: Tensor<B>,
    t: Tensor<B>,
    grad: Tensor<B>,
    g: Tensor<B>,
    i: Seq<usize>,
    j: Seq<usize>,
    d: B::Scalar,
)
    requires
        model::stores::<B>(at),
        call_ensures(Tensor::squeeze_all, (&a,), t),
        grad@.dims() == t@.dims(),
        contributions::contribution(t@.op, grad, 0, g),
        nd::in_bounds(i, a@.dims()),
        nd::in_bounds(j, t@.dims()),
        model::place(i, a@.dims()) == model::place(j, t@.dims()),
        elements::element_is(at, grad, j, d),
    ensures
        contributions::used(t@.op) == seq![a],
        g@.dims() == a@.dims(),
        elements::element_is(at, g, i, d),
{
    lemma_reshape_gradient(at, a, t, grad, g, i, j, d);
}

/// The gradient of a transpose is transposed back.
pub proof fn law_transpose_gradient<B: Backend>(
    at: spec_fn(B::Storage, nat) -> B::Scalar,
    a: Tensor<B>,
    dim0: usize,
    dim1: usize,
    t: Tensor<B>,
    grad: Tensor<B>,
    g: Tensor<B>,
    i: Seq<usize>,
    j: Seq<usize>,
    d: B::Scalar,
)
    requires
        grad@.layout@.valid(),
        call_ensures(Tensor::transpose, (&a, dim0, dim1), Ok::<Tensor<B>, Error>(t)),
        grad@.dims() == t@.dims(),
        contributions::contribution(t@.op, grad, 0, g),
        nd::in_bounds(i, a@.dims()),
        j.len() == i.len(),
        j[dim0 as int] == i[dim1 as int],
        j[dim1 as int] == i[dim0 as int],
        forall|k: int|
            0 <= k < i.len() && k != dim0 && k != dim1 ==> #[trigger] j[k] == i[k],
        elements::element_is(at, grad, j, d),
    ensures
        contributions::used(t@.op) == seq![a],
        g@.dims() == a@.dims(),
        elements::element_is(at, g, i, d),
{
    assert(contributions::used(t@.op) =~= seq![a]);
    let dims = a@.dims();
    assert forall|k: int| 0 <= k < dims.len() implies #[trigger] j[k] < t@.dims()[k] by {
        assert(i[k] < dims[k]);
        assert(i[dim0 as int] < dims[dim0 as int]);
        assert(i[dim1 as int] < dims[dim1 as int]);
    }
    reshaped::law_transpose_elements(at, grad, dim0, dim1, g, j, i, d);
    assert(g@.dims() =~= dims);
}

/// The gradient of a permutation is permuted back.
pub proof fn law_permute_gradient<B: Backend>(
    at: spec_fn(B::Storage, nat) -> B::Scalar,
    a: Tensor<B>,
    order: &[usize],
    t: Tensor<B>,
    grad: Tensor<B>,
    g: Tensor<B>,
    i: Seq<usize>,
    j: Seq<usize>,
    d: B::Scalar,
)
    requires
        grad@.layout@.valid(),
        call_ensures(Tensor::permute, (&a, order), Ok::<Tensor<B>, Error>(t)),
        grad@.dims() == t@.dims(),
        contributions::contribution(t@.op, grad, 0, g),
        nd::in_bounds(i, a@.dims()),
        j.len() == i.len(),
        forall|k: int| 0 <= k < j.len() ==> #[trigger] j[k] == i[order@[k] as int],
        elements::element_is(at, grad, j, d),
    ensures
        contributions::used(t@.op) == seq![a],
        g@.dims() == a@.dims(),
        elements::element_is(at, g, i, d),
{
    assert(contributions::used(t@.op) =~= seq![a]);
    grad_shapes::law_permute_grad(grad, order@, g);
    grad_shapes::lemma_permuted_back(a@.dims(), order@);
    assert(j =~= views::selected(i, order@));
    assert(g@.layout@.address(i) == grad@.layout@.address(j));
}

/// The gradient of a slice: within the slice it is that of the slice, elsewhere
/// it is 0.
pub proof fn law_narrow_gradient<B: Backend>(
    at: spec_fn(B::Storage, nat) -> B::Scalar,
    a: Tensor<B>,
    dim: usize,
    start: usize,
    len: usize,
    t: Tensor<B>,
    grad: Tensor<B>,
    g: Tensor<B>,
    ds: spec_fn(Seq<usize>) -> B::Scalar,
    i: Seq<usize>,
)
    requires
        model::stores::<B>(at),
        call_ensures(Tensor::narrow, (&a, dim, start, len), Ok::<Tensor<B>, Error>(t)),
        grad@.dims() == t@.dims(),
        contributions::contribution(t@.op, grad, 0, g),
        nd::in_bounds(i, a@.dims()),
        model::has(at, grad, ds),
    ensures
        contributions::used(t@.op) == seq![a],
        g@.dims() == a@.dims(),
        start <= i[dim as int] < start + len ==> elements::element_is(
            at,
            g,
            i,
            ds(i.update(dim as int, (i[dim as int] - start) as usize)),
        ),
        !(start <= i[dim as int] < start + len) ==> elements::element_is(
            at,
            g,
            i,
            <B::Scalar as Scalar>::zero_val(),
        ),
{
    assert(contributions::used(t@.op) =~= seq![a]);
    let dims = a@.dims();
    let own = dims.update(dim as int, len);
    assert(rules::narrow_rule(grad, a, dim, start, Ok(g)));
    let v = choose|v: Vec<B::Scalar>| #[trigger]
        host::values_result(grad, Ok(v)) && rules::uploaded_like(
            gradients::narrow_grad_result(v@, dims, own, dim as int, start),
            a,
            Ok(g),
        );
    let data = gradients::narrow_grad_result(v@, dims, own, dim as int, start);
    model::lemma_uploaded(at, data, dims, a@.dtype, a@.device, g, i);
    gradients::law_narrow_grad(v@, dims, dim as int, start, len, i);
    if start <= i[dim as int] < start + len {
        let j = i.update(dim as int, (i[dim as int] - start) as usize);
        assert forall|k: int| 0 <= k < own.len() implies #[trigger] j[k] < own[k] by {
            assert(i[k] < dims[k]);
        }
        lemma_smaller_count(dims, dim as int, len);
        assert(nd::in_bounds(j, grad@.dims()));
        model::lemma_values(at, grad, v, j, ds(j));
    }
}

/// A slice has no more elements than the tensor.
proof fn lemma_smaller_count(dims: Seq<usize>, dim: int, len: usize)
    requires
        0 <= dim < dims.len(),
        len <= dims[dim],
    ensures
        nd::product(dims.update(dim, len)) <= nd::product(dims),
    decreases dim,
{
    let own = dims.update(dim, len);
    let rest = nd::product(dims.skip(1)) as int;
    if dim == 0 {
        assert(own.skip(1) =~= dims.skip(1));
        lemma_mul_inequality(len as int, dims[0] as int, rest);
    } else {
        lemma_smaller_count(dims.skip(1), dim - 1, len);
        assert(own.skip(1) =~= dims.skip(1).update(dim - 1, len));
        lemma_mul_inequality(nd::product(own.skip(1)) as int, rest, dims[0] as int);
        lemma_mul_is_commutative(dims[0] as int, rest);
        lemma_mul_is_commutative(dims[0] as int, nd::product(own.skip(1)) as int);
    }
}

/// Reducing a dimension to size 1 leaves no more elements.
pub proof fn lemma_sum_shrinks(dims: Seq<usize>, dim: int)
    requires
        0 <= dim < dims.len(),
        nd::product(dims) > 0,
    ensures
        0 < nd::product(dims.update(dim, 1)) <= nd::product(dims),
{
    nd::lemma_product_zero(dims);
    nd::lemma_product_zero(dims.update(dim, 1));
    assert(dims[dim] > 0);
    assert forall|k: int| 0 <= k < dims.len() implies #[trigger] dims.update(dim, 1)[k] > 0 by {
        assert(dims[k] > 0);
    }
    lemma_smaller_count(dims, dim, 1);
}

/// A list without the entry at one position.
pub proof fn lemma_kept_one(vals: Seq<usize>, dim: usize, n: nat)
    requires
        n <= vals.len() <= usize::MAX,
    ensures
        axes::kept_upto(vals, seq![dim], n) == if dim < n {
            vals.take(n as int).remove(dim as int)
        } else {
            vals.take(n as int)
        },
    decreases n,
{
    let one = seq![dim];
    assert(one[0] == dim);
    assert(forall|x: usize| #[trigger] one.contains(x) <==> x == dim);
    let r = axes::kept_upto(vals, one, n);
    if n == 0 {
        assert(r =~= vals.take(0));
    } else {
        lemma_kept_one(vals, dim, (n - 1) as nat);
        assert(vals.take(n as int) =~= vals.take(n - 1).push(vals[n - 1]));
        if dim < n {
            if dim == n - 1 {
                assert(r =~= vals.take(n as int).remove(dim as int));
            } else {
                assert(r =~= vals.take(n as int).remove(dim as int));
            }
        } else {
            assert(n - 1 < dim);
            assert(r =~= vals.take(n as int));
        }
    }
}

/// Where an element is reduced to along one dimension: its index without the
/// coordinate, or with coordinate 0 if the dimension is kept.
pub open spec fn reduced_index(i: Seq<usize>, dim: int, keep_dim: bool) -> Seq<usize> {
    if keep_dim {
        i.update(dim, 0)
    } else {
        i.remove(dim)
    }
}

/// The sizes of a reduction along one dimension.
pub open spec fn reduced_sizes(dims: Seq<usize>, dim: int, keep_dim: bool) -> Seq<usize> {
    if keep_dim {
        dims.update(dim, 1)
    } else {
        dims.remove(dim)
    }
}

/// The sizes and positions of a reduction along one dimension.
pub proof fn lemma_reduced_one(dims: Seq<usize>, dim: usize, keep_dim: bool, i: Seq<usize>)
    requires
        dim < dims.len() <= usize::MAX,
        nd::in_bounds(i, dims),
        nd::product(dims) <= usize::MAX,
    ensures
        axes::reduced(dims, seq![dim], keep_dim) == reduced_sizes(dims, dim as int, keep_dim),
        nd::in_bounds(
            reduced_index(i, dim as int, keep_dim),
            reduced_sizes(dims, dim as int, keep_dim),
        ),
        nd::fits(reduced_sizes(dims, dim as int, keep_dim)),
        nd::product(reduced_sizes(dims, dim as int, keep_dim)) <= usize::MAX,
        gradients::reduced_position(dims, seq![dim], model::place(i, dims)) == model::place(
            reduced_index(i, dim as int, keep_dim),
            reduced_sizes(dims, dim as int, keep_dim),
        ),
{
    let one = seq![dim];
    let at = dim as int;
    assert(one[0] == dim);
    assert(forall|x: usize| #[trigger] one.contains(x) <==> x == dim);
    lemma_kept_one(dims, dim, dims.len());
    lemma_kept_one(i, dim, i.len());
    assert(dims.take(dims.len() as int) =~= dims);
    assert(i.take(i.len() as int) =~= i);
    model::lemma_place(i, dims);
    let small = dims.remove(at);
    let j = i.remove(at);
    lemma_place_with_one(j, small, at);
    assert(j.insert(at, 0) =~= i.update(at, 0));
    assert(small.insert(at, 1) =~= dims.update(at, 1));
    assert(axes::flattened(dims, one) =~= dims.update(at, 1));
    assert forall|k: int| 0 <= k < small.len() implies #[trigger] j[k] < small[k] by {
        if k < at {
            assert(i[k] < dims[k]);
        } else {
            assert(i[k + 1] < dims[k + 1]);
        }
    }
    assert forall|k: int| 0 <= k < dims.len() implies #[trigger] i.update(at, 0)[k]
        < dims.update(at, 1)[k] by {
        assert(i[k] < dims[k]);
    }
    axes::lemma_kept_fits(dims, one);
    lemma_one_more(small, at);
    nd::lemma_product_zero(small);
    assert forall|k: int| 0 <= k < small.len() implies #[trigger] small[k] > 0 by {
        assert(j[k] < small[k]);
    }
    nd::lemma_count_fits(dims.update(at, 1));
}

/// What is spread along a reduced dimension.
pub proof fn lemma_spread<B: Backend>(
    at: spec_fn(B::Storage, nat) -> B::Scalar,
    grad: Tensor<B>,
    x: Tensor<B>,
    dim: usize,
    keep_dim: bool,
    g: Tensor<B>,
    i: Seq<usize>,
    d: B::Scalar,
)
    requires
        model::stores::<B>(at),
        rules::spread(grad, x, seq![dim], Ok(g)),
        dim < x@.dims().len() <= usize::MAX,
        grad@.dims() == reduced_sizes(x@.dims(), dim as int, keep_dim),
        nd::in_bounds(i, x@.dims()),
        elements::element_is(at, grad, reduced_index(i, dim as int, keep_dim), d),
    ensures
        g@.dims() == x@.dims(),
        nd::fits(x@.dims()),
        elements::element_is(at, g, i, d),
{
    let dims = x@.dims();
    let v = choose|v: Vec<B::Scalar>|
        #[trigger] call_ensures(Tensor::to_f64_vec, (&grad,), Ok::<Vec<B::Scalar>, Error>(v))
            && rules::uploaded_like(
            gradients::repeated(v@, gradients::reduced_positions(dims, seq![dim])),
            x,
            Ok(g),
        );
    let data = gradients::repeated(v@, gradients::reduced_positions(dims, seq![dim]));
    model::lemma_uploaded(at, data, dims, x@.dtype, x@.device, g, i);
    lemma_reduced_one(dims, dim, keep_dim, i);
    model::lemma_read(at, grad, v, reduced_index(i, dim as int, keep_dim), d);
}

/// The sum along a dimension has the sizes of the tensor without the dimension,
/// or with size 1 there; its gradient flows to each element that was added.
pub proof fn law_sum_gradient<B: Backend>(
    at: spec_fn(B::Storage, nat) -> B::Scalar,
    x: Tensor<B>,
    dim: usize,
    keep_dim: bool,
    t: Tensor<B>,
    grad: Tensor<B>,
    g: Tensor<B>,
    i: Seq<usize>,
    d: B::Scalar,
)
    requires
        model::stores::<B>(at),
        nd::product(x@.dims()) <= usize::MAX,
        x@.dims().len() <= usize::MAX,
        call_ensures(Tensor::sum, (&x, dim, keep_dim), Ok::<Tensor<B>, Error>(t)),
        grad@.dims() == t@.dims(),
        contributions::contribution(t@.op, grad, 0, g),
        nd::in_bounds(i, x@.dims()),
        elements::element_is(at, grad, reduced_index(i, dim as int, keep_dim), d),
    ensures
        contributions::used(t@.op) == seq![x],
        dim < x@.dims().len(),
        t@.dims() == reduced_sizes(x@.dims(), dim as int, keep_dim),
        g@.dims() == x@.dims(),
        elements::element_is(at, g, i, d),
{
    lemma_reduction_shape(x, ReduceOp::Sum, dim, keep_dim, t, i);
    lemma_spread(at, grad, x, dim, keep_dim, g, i, d);
}

/// The record and the sizes of a reduction along one dimension.
pub proof fn lemma_reduction_shape<B: Backend>(
    x: Tensor<B>,
    op: ReduceOp,
    dim: usize,
    keep_dim: bool,
    t: Tensor<B>,
    i: Seq<usize>,
)
    requires
        nd::product(x@.dims()) <= usize::MAX,
        x@.dims().len() <= usize::MAX,
        nd::in_bounds(i, x@.dims()),
        elementwise::reduction_result(x, op, seq![dim], keep_dim, Ok(t)),
    ensures
        dim < x@.dims().len(),
        t@.dims() == reduced_sizes(x@.dims(), dim as int, keep_dim),
        t@.layout@ == LayoutView::contiguous(t@.dims()),
        t@.op matches Op::Reduce { input, op: o, dims, .. } && input == x && o == op && dims@
            == seq![dim],
        !(op is ArgMax) && !(op is ArgMin) ==> contributions::used(t@.op) == seq![x],
        op is ArgMax || op is ArgMin ==> contributions::used(t@.op) == Seq::<Tensor<B>>::empty(),
{
    let one = seq![dim];
    assert(one[0] == dim);
    if dim >= x@.dims().len() {
        assert(elementwise::first_missing(one, x@.dims().len(), 0));
    }
    lemma_reduced_one(x@.dims(), dim, keep_dim, i);
}

/// The mean along a dimension: its gradient, times 1 over the size of the
/// dimension, flows to each element.
pub proof fn law_mean_gradient<B: Backend>(
    at: spec_fn(B::Storage, nat) -> B::Scalar,
    x: Tensor<B>,
    dim: usize,
    keep_dim: bool,
    t: Tensor<B>,
    grad: Tensor<B>,
    g: Tensor<B>,
    i: Seq<usize>,
    d: B::Scalar,
)
    requires
        model::stores::<B>(at),
        model::scales::<B>(at),
        nd::product(x@.dims()) <= usize::MAX,
        x@.dims().len() <= usize::MAX,
        call_ensures(Tensor::mean, (&x, dim, keep_dim), Ok::<Tensor<B>, Error>(t)),
        grad@.dims() == t@.dims(),
        contributions::contribution(t@.op, grad, 0, g),
        nd::in_bounds(i, x@.dims()),
        elements::element_is(at, grad, reduced_index(i, dim as int, keep_dim), d),
    ensures
        contributions::used(t@.op) == seq![x],
        dim < x@.dims().len(),
        t@.dims() == reduced_sizes(x@.dims(), dim as int, keep_dim),
        g@.dims() == x@.dims(),
        ({
            let one = <B::Scalar as Scalar>::one_val();
            let size = <B::Scalar as Scalar>::of_count(x@.dims()[dim as int]);
            elements::element_is(
                at,
                g,
                i,
                d.times(one.over(one.times(size))).plus(<B::Scalar as Scalar>::zero_val()),
            )
        }),
{
    let one = <B::Scalar as Scalar>::one_val();
    let zero = <B::Scalar as Scalar>::zero_val();
    lemma_reduction_shape(x, ReduceOp::Mean, dim, keep_dim, t, i);
    let count = gradients::size_product::<B::Scalar>(x@.dims(), seq![dim], 1);
    assert(seq![dim][0] == dim);
    assert(gradients::size_product::<B::Scalar>(x@.dims(), seq![dim], 0) == one);
    let s = choose|s: Tensor<B>|
        #[trigger] rules::spread(grad, x, seq![dim], Ok(s)) && call_ensures(
            Tensor::affine,
            (&s, one.over(count), zero),
            Ok::<Tensor<B>, Error>(g),
        );
    lemma_spread(at, grad, x, dim, keep_dim, s, i, d);
    model::lemma_affine(at, s, one.over(count), zero, g, i, d);
}

/// The sum of all elements: its gradient flows to each of them.
pub proof fn law_sum_all_gradient<B: Backend>(
    at: spec_fn(B::Storage, nat) -> B::Scalar,
    x: Tensor<B>,
    t: Tensor<B>,
    grad: Tensor<B>,
    g: Tensor<B>,
    i: Seq<usize>,
    d: B::Scalar,
)
    requires
        model::stores::<B>(at),
        call_ensures(Tensor::sum_all, (&x,), Ok::<Tensor<B>, Error>(t)),
        grad@.dims() == t@.dims(),
        contributions::contribution(t@.op, grad, 0, g),
        nd::in_bounds(i, x@.dims()),
        elements::element_is(at, grad, seq![], d),
    ensures
        contributions::used(t@.op) == seq![x],
        t@.dims() == Seq::<usize>::empty(),
        g@.dims() == x@.dims(),
        elements::element_is(at, g, i, d),
{
    assert(contributions::used(t@.op) =~= seq![x]);
    let v = choose|v: B::Scalar|
        #[trigger] call_ensures(Tensor::to_scalar_f64, (&grad,), Ok::<B::Scalar, Error>(v))
            && call_ensures(Tensor::full_like, (&x, v), Ok::<Tensor<B>, Error>(g));
    lemma_only_value(at, grad, v, d);
    model::lemma_full_like(at, x, v, g, i);
}

/// The value of a tensor with one element and no dimensions.
proof fn lemma_only_value<B: Backend>(
    at: spec_fn(B::Storage, nat) -> B::Scalar,
    grad: Tensor<B>,
    v: B::Scalar,
    d: B::Scalar,
)
    requires
        model::stores::<B>(at),
        call_ensures(Tensor::to_scalar_f64, (&grad,), Ok::<B::Scalar, Error>(v)),
        grad@.dims() == Seq::<usize>::empty(),
        elements::element_is(at, grad, seq![], d),
    ensures
        v == d,
{
    assert(nd::product(grad@.dims()) == 1);
    let list = choose|list: Vec<B::Scalar>| #[trigger]
        host::values_result(grad, Ok(list)) && list@.len() == 1 && v == list@[0];
    let none: Seq<usize> = seq![];
    assert(nd::in_bounds(none, grad@.dims()));
    model::lemma_values(at, grad, list, none, d);
}

/// The mean of all elements: its gradient over the number of elements flows to
/// each of them.
pub proof fn law_mean_all_gradient<B: Backend>(
    at: spec_fn(B::Storage, nat) -> B::Scalar,
    x: Tensor<B>,
    t: Tensor<B>,
    grad: Tensor<B>,
    g: Tensor<B>,
    i: Seq<usize>,
    d: B::Scalar,
)
    requires
        model::stores::<B>(at),
        call_ensures(Tensor::mean_all, (&x,), Ok::<Tensor<B>, Error>(t)),
        grad@.dims() == t@.dims(),
        contributions::contribution(t@.op, grad, 0, g),
        nd::in_bounds(i, x@.dims()),
        elements::element_is(at, grad, seq![], d),
    ensures
        contributions::used(t@.op) == seq![x],
        t@.dims() == Seq::<usize>::empty(),
        g@.dims() == x@.dims(),
        elements::element_is(
            at,
            g,
            i,
            d.over(<B::Scalar as Scalar>::of_count(nd::product(x@.dims()) as usize)),
        ),
{
    assert(contributions::used(t@.op) =~= seq![x]);
    let n = <B::Scalar as Scalar>::of_count(nd::product(x@.dims()) as usize);
    let v = choose|v: B::Scalar|
        #[trigger] call_ensures(Tensor::to_scalar_f64, (&grad,), Ok::<B::Scalar, Error>(v))
            && call_ensures(Tensor::full_like, (&x, v.over(n)), Ok::<Tensor<B>, Error>(g));
    lemma_only_value(at, grad, v, d);
    model::lemma_full_like(at, x, v.over(n), g, i);
}

/// Positions of extrema have no gradient.
pub proof fn law_positions_have_no_gradient<B: Backend>(
    x: Tensor<B>,
    dim: usize,
    keep_dim: bool,
    t: Tensor<B>,
    i: Seq<usize>,
)
    requires
        nd::product(x@.dims()) <= usize::MAX,
        x@.dims().len() <= usize::MAX,
        nd::in_bounds(i, x@.dims()),
        call_ensures(Tensor::argmax, (&x, dim, keep_dim), Ok::<Tensor<B>, Error>(t))
            || call_ensures(Tensor::argmin, (&x, dim, keep_dim), Ok::<Tensor<B>, Error>(t)),
    ensures
        contributions::used(t@.op) == Seq::<Tensor<B>>::empty(),
        t@.dims() == reduced_sizes(x@.dims(), dim as int, keep_dim),
        t@.dtype == DType::I64,
{
    if call_ensures(Tensor::argmax, (&x, dim, keep_dim), Ok::<Tensor<B>, Error>(t)) {
        lemma_reduction_shape(x, ReduceOp::ArgMax, dim, keep_dim, t, i);
    } else {
        lemma_reduction_shape(x, ReduceOp::ArgMin, dim, keep_dim, t, i);
    }
}

/// The gradient of a join: each tensor gets the part of the gradient that stands
/// where the tensor stands, after those before it.
pub proof fn law_cat_gradient<B: Backend>(
    at: spec_fn(B::Storage, nat) -> B::Scalar,
    ts: &[Tensor<B>],
    dim: usize,
    t: Tensor<B>,
    grad: Tensor<B>,
    k: int,
    g: Tensor<B>,
    offset: nat,
    i: Seq<usize>,
    j: Seq<usize>,
    d: B::Scalar,
)
    requires
        ts@.len() >= 2,
        grad@.layout@.valid(),
        call_ensures(Tensor::cat, (ts, dim), Ok::<Tensor<B>, Error>(t)),
        grad@.dims() == t@.dims(),
        0 <= k < ts@.len(),
        contributions::contribution(t@.op, grad, k, g),
        is_offset(ts@, dim as int, k as nat, offset),
        nd::in_bounds(i, ts@[k]@.dims()),
        nd::in_bounds(j, grad@.dims()),
        j.len() == i.len(),
        j[dim as int] == i[dim as int] + offset,
        forall|c: int| 0 <= c < i.len() && c != dim ==> #[trigger] j[c] == i[c],
        elements::element_is(at, grad, j, d),
    ensures
        contributions::used(t@.op) == ts@,
        g@.dims() == ts@[k]@.dims(),
        elements::element_is(at, g, i, d),
{
    elements::lemma_all_join(ts@, dim, t);
    let sizes = joining::sizes_along(ts@, dim as int);
    assert(t@.op matches Op::Cat { inputs, dim: e, sizes: s } && inputs@ == ts@ && e == dim && s@
        == sizes);
    assert(contributions::used(t@.op) =~= ts@);
    lemma_offsets(ts@, dim as int, k as nat, offset);
    assert(joining::joins(ts@[0], ts@[k], dim as int));
    assert(joining::joins(ts@[0], ts@[0], dim as int));
    let own = ts@[k]@.dims();
    assert(i[dim as int] < own[dim as int]);
    assert(offset <= usize::MAX);
    assert(call_ensures(
        Tensor::narrow,
        (&grad, dim, offset as usize, own[dim as int]),
        Ok::<Tensor<B>, Error>(g),
    ));
    reshaped::law_narrow_elements(
        at,
        grad,
        dim,
        offset as usize,
        own[dim as int],
        g,
        j,
        i,
        d,
    );
    assert(g@.dims() =~= own);
}

/// The sum of the sizes of the first `k` tensors along a dimension.
pub open spec fn is_offset<B: Backend>(
    ts: Seq<Tensor<B>>,
    dim: int,
    k: nat,
    offset: nat,
) -> bool
    decreases k,
{
    if k == 0 {
        offset == 0
    } else {
        offset >= ts[k - 1]@.dims()[dim] && is_offset(
            ts,
            dim,
            (k - 1) as nat,
            (offset - ts[k - 1]@.dims()[dim]) as nat,
        )
    }
}

proof fn lemma_offsets<B: Backend>(ts: Seq<Tensor<B>>, dim: int, k: nat, offset: nat)
    requires
        k <= ts.len(),
        is_offset(ts, dim, k, offset),
    ensures
        contributions::offset_of(joining::sizes_along(ts, dim), k) == offset,
    decreases k,
{
    if k > 0 {
        lemma_offsets(
            ts,
            dim,
            (k - 1) as nat,
            (offset - ts[k - 1]@.dims()[dim]) as nat,
        );
    }
}

} // verus!
