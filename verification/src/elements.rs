//! The elements of joined and padded tensors, for backends that compute what
//! they are asked for.
//!
//! The library does not look into the storage of a backend. The laws here
//! name what a storage holds: `at(s, p)` is the number at position `p` of the
//! storage `s`. They suppose of a backend only what its documentation asks for,
//! and that nobody writes into the storages meanwhile.
use crate::backend::{Backend, BinaryOp};
use crate::dtype::DType;
use crate::error::Error;
use crate::grad_shapes;
use crate::joining;
use crate::layout::{self, Layout, LayoutView};
use crate::nd;
use crate::scalar::Scalar;
use crate::shape::Shape;
use crate::shared::Shared;
use crate::tensor::{self, Tensor};
use vstd::arithmetic::mul::*;
use vstd::prelude::*;

verus! {

/// Two storages hold the same numbers.
pub open spec fn same_numbers<B: Backend>(
    at: spec_fn(B::Storage, nat) -> B::Scalar,
    s: B::Storage,
    t: B::Storage,
) -> bool {
    forall|p: nat| #[trigger] at(s, p) == at(t, p)
}

/// Nobody writes into storages: a reader finds the numbers that a storage was
/// made with.
pub open spec fn steady<B: Backend>(at: spec_fn(B::Storage, nat) -> B::Scalar) -> bool {
    forall|lock: Shared<B::Storage>, s: B::Storage, t: B::Storage| #[trigger]
        lock.starts_with(s) && #[trigger] lock.can_hold(t) ==> same_numbers::<B>(at, s, t)
}

/// What is read of a tensor at an index is this number.
pub open spec fn element_is<B: Backend>(
    at: spec_fn(B::Storage, nat) -> B::Scalar,
    t: Tensor<B>,
    index: Seq<usize>,
    v: B::Scalar,
) -> bool {
    forall|s: B::Storage| #[trigger]
        t@.storage.can_hold(s) ==> at(s, t@.layout@.address(index)) == v
}

/// A storage holds at each index of a shape, in row-major order, this number.
pub open spec fn filled_with<B: Backend>(
    at: spec_fn(B::Storage, nat) -> B::Scalar,
    s: B::Storage,
    dims: Seq<usize>,
    v: B::Scalar,
) -> bool {
    forall|index: Seq<usize>| #[trigger]
        nd::in_bounds(index, dims) ==> at(s, LayoutView::contiguous(dims).address(index)) == v
}

/// The backend fills storage with the value that is asked for.
pub open spec fn fills<B: Backend>(at: spec_fn(B::Storage, nat) -> B::Scalar) -> bool {
    forall|
        shape: Shape,
        v: B::Scalar,
        dtype: DType,
        device: B::Device,
        made: B::Storage,
    | #[trigger]
        call_ensures(
            B::full,
            (&shape, v, dtype, &device),
            Ok::<B::Storage, Error>(made),
        ) ==> filled_with::<B>(at, made, shape@, v)
}

/// The backend fills storage with ones.
pub open spec fn fills_ones<B: Backend>(at: spec_fn(B::Storage, nat) -> B::Scalar) -> bool {
    forall|shape: Shape, dtype: DType, device: B::Device, made: B::Storage| #[trigger]
        call_ensures(
            B::ones,
            (&shape, dtype, &device),
            Ok::<B::Storage, Error>(made),
        ) ==> filled_with::<B>(at, made, shape@, <B::Scalar as Scalar>::one_val())
}

/// The numbers of a list are those that a layout finds, in row-major order.
pub open spec fn are_read<B: Backend>(
    at: spec_fn(B::Storage, nat) -> B::Scalar,
    s: B::Storage,
    l: LayoutView,
    v: Seq<B::Scalar>,
) -> bool {
    &&& v.len() == nd::product(l.dims)
    &&& forall|k: int| 0 <= k < v.len() ==> #[trigger] v[k] == at(s, l.position_of(k as nat))
}

/// The backend reads the numbers that a layout finds.
pub open spec fn reads<B: Backend>(at: spec_fn(B::Storage, nat) -> B::Scalar) -> bool {
    forall|s: B::Storage, l: Layout, v: Vec<B::Scalar>| #[trigger]
        call_ensures(
            B::to_f64_vec,
            (&s, &l),
            Ok::<Vec<B::Scalar>, Error>(v),
        ) ==> are_read::<B>(at, s, l@, v@)
}

/// A storage holds the products of what two layouts of one shape find.
pub open spec fn holds_products<B: Backend>(
    at: spec_fn(B::Storage, nat) -> B::Scalar,
    s: B::Storage,
    l: LayoutView,
    t: B::Storage,
    m: LayoutView,
    made: B::Storage,
) -> bool {
    forall|index: Seq<usize>| #[trigger]
        nd::in_bounds(index, l.dims) ==> at(made, LayoutView::contiguous(l.dims).address(index))
            == at(s, l.address(index)).times(at(t, m.address(index)))
}

/// The backend multiplies tensors of one shape element by element.
pub open spec fn multiplies<B: Backend>(at: spec_fn(B::Storage, nat) -> B::Scalar) -> bool {
    forall|s: B::Storage, l: Layout, t: B::Storage, m: Layout, made: B::Storage|
        #[trigger] call_ensures(
            B::binary_op,
            (BinaryOp::Mul, &s, &l, &t, &m),
            Ok::<B::Storage, Error>(made),
        ) && l@.dims == m@.dims ==> holds_products::<B>(at, s, l@, t, m@, made)
}

/// A clone of a storage holds the same numbers.
pub open spec fn clones<B: Backend>(at: spec_fn(B::Storage, nat) -> B::Scalar) -> bool {
    forall|s: B::Storage, c: B::Storage| #[trigger]
        call_ensures(B::Storage::clone, (&s,), c) ==> same_numbers::<B>(at, s, c)
}

/// The sum of the sizes of the first `n` inputs along a dimension.
pub open spec fn paired_size<B: Backend>(
    pairs: Seq<(&B::Storage, &Layout)>,
    dim: int,
    n: nat,
) -> nat
    decreases n,
{
    if n == 0 {
        0
    } else {
        paired_size::<B>(pairs, dim, (n - 1) as nat) + pairs[n - 1].1@.dims[dim] as nat
    }
}

/// The inputs fill the shape along a dimension, and agree with it in the
/// others.
pub open spec fn fill_shape<B: Backend>(
    pairs: Seq<(&B::Storage, &Layout)>,
    dims: Seq<usize>,
    dim: int,
) -> bool {
    &&& 0 <= dim < dims.len()
    &&& paired_size::<B>(pairs, dim, pairs.len()) == dims[dim]
    &&& forall|i: int|
        0 <= i < pairs.len() ==> {
            let own = (#[trigger] pairs[i]).1@.dims;
            own.len() == dims.len() && joining::agree_but(dims, own, dim)
        }
}

/// An index, `offset` further along a dimension.
pub open spec fn moved(index: Seq<usize>, dim: int, offset: nat) -> Seq<usize> {
    index.update(dim, (index[dim] + offset) as usize)
}

/// A storage holds the inputs of a concatenation one after the other.
pub open spec fn holds_joined<B: Backend>(
    at: spec_fn(B::Storage, nat) -> B::Scalar,
    pairs: Seq<(&B::Storage, &Layout)>,
    dims: Seq<usize>,
    dim: int,
    made: B::Storage,
) -> bool {
    forall|i: int, index: Seq<usize>|
        0 <= i < pairs.len() && #[trigger] nd::in_bounds(index, (#[trigger] pairs[i]).1@.dims)
            ==> at(
            made,
            LayoutView::contiguous(dims).address(
                moved(index, dim, paired_size::<B>(pairs, dim, i as nat)),
            ),
        ) == at(*pairs[i].0, pairs[i].1@.address(index))
}

/// The backend writes the inputs of a concatenation one after the other.
pub open spec fn concatenates<B: Backend>(at: spec_fn(B::Storage, nat) -> B::Scalar) -> bool {
    forall|pairs: &[(&B::Storage, &Layout)], shape: Shape, dim: usize, made: B::Storage|
        #[trigger] call_ensures(B::cat, (pairs, &shape, dim), Ok::<B::Storage, Error>(made))
            && fill_shape::<B>(pairs@, shape@, dim as int) ==> holds_joined::<B>(
            at,
            pairs@,
            shape@,
            dim as int,
            made,
        )
}

/// All tensors can be joined to the first.
pub proof fn lemma_all_join<B: Backend>(ts: Seq<Tensor<B>>, dim: usize, t: Tensor<B>)
    requires
        joining::cat_result(ts, dim, Ok(t)),
        ts.len() >= 2,
    ensures
        dim < ts[0]@.dims().len(),
        forall|i: int| 0 <= i < ts.len() ==> joining::joins(ts[0], #[trigger] ts[i], dim as int),
        joining::joined_size(ts, dim as int, ts.len()) <= usize::MAX,
        t@.dims() == ts[0]@.dims().update(
            dim as int,
            joining::joined_size(ts, dim as int, ts.len()) as usize,
        ),
        t@.layout@ == LayoutView::contiguous(t@.dims()),
        nd::fits(t@.dims()),
{
    assert forall|i: int| 0 <= i < ts.len() implies joining::joins(
        ts[0],
        #[trigger] ts[i],
        dim as int,
    ) by {
        if i > 0 && !joining::joins(ts[0], ts[i], dim as int) {
            grad_shapes::lemma_first_misfit(ts, dim as int, i);
        }
    }
}

proof fn lemma_paired_size<B: Backend>(
    ts: Seq<Tensor<B>>,
    pairs: Seq<(&B::Storage, &Layout)>,
    dim: int,
    n: nat,
)
    requires
        joining::paired(ts, pairs),
        n <= ts.len(),
    ensures
        paired_size::<B>(pairs, dim, n) == joining::joined_size(ts, dim, n),
    decreases n,
{
    if n > 0 {
        lemma_paired_size(ts, pairs, dim, (n - 1) as nat);
        assert(*pairs[n - 1].1 == ts[n - 1]@.layout);
    }
}

/// Each element of a tensor stands in the concatenation, further along the
/// dimension by the sizes of the tensors before.
pub proof fn law_cat_elements<B: Backend>(
    at: spec_fn(B::Storage, nat) -> B::Scalar,
    ts: Seq<Tensor<B>>,
    dim: usize,
    t: Tensor<B>,
    i: int,
    index: Seq<usize>,
    v: B::Scalar,
)
    requires
        steady::<B>(at),
        concatenates::<B>(at),
        joining::cat_result(ts, dim, Ok(t)),
        ts.len() >= 2,
        0 <= i < ts.len(),
        nd::in_bounds(index, ts[i]@.dims()),
        element_is(at, ts[i], index, v),
    ensures
        element_is(
            at,
            t,
            moved(index, dim as int, joining::joined_size(ts, dim as int, i as nat)),
            v,
        ),
{
    lemma_all_join(ts, dim, t);
    let d = dim as int;
    let (pairs, shape, made) = choose|
        pairs: &[(&B::Storage, &Layout)],
        shape: Shape,
        made: B::Storage,
    |
        {
            &&& joining::paired(ts, pairs@)
            &&& shape@ == t@.dims()
            &&& #[trigger] call_ensures(
                B::cat,
                (pairs, &shape, dim),
                Ok::<B::Storage, Error>(made),
            )
            &&& joining::join_of(Ok(made), ts, dim, t@.dims(), Ok(t))
        };
    lemma_paired_size(ts, pairs@, d, ts.len());
    lemma_paired_size(ts, pairs@, d, i as nat);
    assert forall|k: int| 0 <= k < pairs@.len() implies {
        let own = (#[trigger] pairs@[k]).1@.dims;
        own.len() == t@.dims().len() && joining::agree_but(t@.dims(), own, d)
    } by {
        assert(*pairs@[k].1 == ts[k]@.layout);
        assert(joining::joins(ts[0], ts[k], d));
        assert forall|c: int| 0 <= c < t@.dims().len() && c != d implies #[trigger] t@.dims()[c]
            == ts[k]@.dims()[c] by {
            assert(ts[0]@.dims()[c] == ts[k]@.dims()[c]);
        }
    }
    assert(holds_joined::<B>(at, pairs@, t@.dims(), d, made));
    assert(*pairs@[i].1 == ts[i]@.layout && ts[i]@.storage.can_hold(*pairs@[i].0));
    assert(nd::in_bounds(index, pairs@[i].1@.dims));
    let to = moved(index, d, joining::joined_size(ts, d, i as nat));
    assert(at(made, t@.layout@.address(to)) == v);
    assert forall|s: B::Storage| #[trigger] t@.storage.can_hold(s) implies at(
        s,
        t@.layout@.address(to),
    ) == v by {
        assert(t@.storage.starts_with(made));
        assert(same_numbers::<B>(at, made, s));
    }
}

/// A slice finds at an index the element that the tensor has further along the
/// dimension.
proof fn lemma_narrow_element<B: Backend>(
    at: spec_fn(B::Storage, nat) -> B::Scalar,
    t: Tensor<B>,
    dim: usize,
    start: usize,
    len: usize,
    n: Tensor<B>,
    index: Seq<usize>,
    v: B::Scalar,
)
    requires
        t@.layout@ == LayoutView::contiguous(t@.dims()),
        nd::fits(t@.dims()),
        call_ensures(Tensor::narrow, (&t, dim, start, len), Ok::<Tensor<B>, Error>(n)),
        nd::in_bounds(index, t@.dims().update(dim as int, len)),
        element_is(at, t, moved(index, dim as int, start as nat), v),
    ensures
        element_is(at, n, index, v),
{
    let d = dim as int;
    let l = t@.layout@;
    let small = t@.dims().update(d, len);
    assert(index[d] < small[d]);
    let to = moved(index, d, start as nat);
    assert forall|c: int| 0 <= c < t@.dims().len() implies #[trigger] to[c] < t@.dims()[c] by {
        assert(index[c] < small[c]);
    }
    nd::lemma_unravel_of_ravel(to, t@.dims());
    nd::lemma_dot_update(index, l.strides, d, to[d]);
    lemma_mul_is_distributive_add_other_way(
        l.strides[d] as int,
        index[d] as int,
        start as int,
    );
    assert(l.narrowed(d, start, len).dims == small);
    layout::law_narrow_addresses(l, d, start, len, index);
}

/// Narrowing a concatenation at the sum of the sizes of the tensors before
/// gives each tensor's elements back.
pub proof fn law_cat_narrow<B: Backend>(
    at: spec_fn(B::Storage, nat) -> B::Scalar,
    ts: Seq<Tensor<B>>,
    dim: usize,
    t: Tensor<B>,
    i: int,
    n: Tensor<B>,
)
    requires
        steady::<B>(at),
        concatenates::<B>(at),
        joining::cat_result(ts, dim, Ok(t)),
        ts.len() >= 2,
        0 <= i < ts.len(),
        call_ensures(
            Tensor::narrow,
            (
                &t,
                dim,
                joining::joined_size(ts, dim as int, i as nat) as usize,
                ts[i]@.dims()[dim as int],
            ),
            Ok::<Tensor<B>, Error>(n),
        ),
    ensures
        n@.dims() == ts[i]@.dims(),
        forall|index: Seq<usize>, v: B::Scalar|
            nd::in_bounds(index, ts[i]@.dims()) && #[trigger] element_is(at, ts[i], index, v)
                ==> element_is(at, n, index, v),
{
    lemma_all_join(ts, dim, t);
    let d = dim as int;
    let offset = joining::joined_size(ts, d, i as nat);
    lemma_size_grows(ts, d, i as nat, ts.len());
    assert(joining::joins(ts[0], ts[i], d));
    assert(t@.dims().update(d, ts[i]@.dims()[d]) =~= ts[i]@.dims());
    assert forall|index: Seq<usize>, v: B::Scalar|
        nd::in_bounds(index, ts[i]@.dims()) && #[trigger] element_is(
            at,
            ts[i],
            index,
            v,
        ) implies element_is(at, n, index, v) by {
        law_cat_elements(at, ts, dim, t, i, index, v);
        lemma_narrow_element(at, t, dim, offset as usize, ts[i]@.dims()[d], n, index, v);
    }
}

proof fn lemma_size_grows<B: Backend>(ts: Seq<Tensor<B>>, dim: int, i: nat, n: nat)
    requires
        i <= n,
    ensures
        joining::joined_size(ts, dim, i) <= joining::joined_size(ts, dim, n),
    decreases n,
{
    if i < n {
        lemma_size_grows(ts, dim, i, (n - 1) as nat);
    }
}

/// An index of a tensor padded in the dimensions from `n` on lies in the block
/// of the old elements.
pub open spec fn inside_from(
    index: Seq<usize>,
    dims: Seq<usize>,
    padding: Seq<[usize; 2]>,
    n: int,
) -> bool {
    forall|d: int|
        n <= d < dims.len() ==> padding[d]@[0] <= #[trigger] index[d] < padding[d]@[0] + dims[d]
}

/// The index of the old element.
pub open spec fn unpadded_from(
    index: Seq<usize>,
    padding: Seq<[usize; 2]>,
    n: int,
) -> Seq<usize> {
    Seq::new(
        index.len(),
        |d: int|
            if d >= n {
                (index[d] - padding[d]@[0]) as usize
            } else {
                index[d]
            },
    )
}

/// The sizes of a tensor padded in the dimensions from `n` on.
pub open spec fn padded_from(
    dims: Seq<usize>,
    padding: Seq<[usize; 2]>,
    n: int,
) -> Seq<usize> {
    Seq::new(
        dims.len(),
        |d: int|
            if d >= n {
                joining::padded_size(dims[d], padding[d]) as usize
            } else {
                dims[d]
            },
    )
}

/// A tensor holds the elements of another one in a block, and the value
/// everywhere else.
pub open spec fn pads_from<B: Backend>(
    at: spec_fn(B::Storage, nat) -> B::Scalar,
    a: Tensor<B>,
    padding: Seq<[usize; 2]>,
    value: B::Scalar,
    n: int,
    t: Tensor<B>,
) -> bool {
    &&& t@.dims() == padded_from(a@.dims(), padding, n)
    &&& forall|index: Seq<usize>| #[trigger]
        nd::in_bounds(index, t@.dims()) ==> if inside_from(index, a@.dims(), padding, n) {
            forall|v: B::Scalar| #[trigger]
                element_is(at, a, unpadded_from(index, padding, n), v) ==> element_is(
                    at,
                    t,
                    index,
                    v,
                )
        } else {
            element_is(at, t, index, value)
        }
}

/// A block of padding holds the value.
proof fn lemma_block_elements<B: Backend>(
    at: spec_fn(B::Storage, nat) -> B::Scalar,
    a: Tensor<B>,
    cur: Tensor<B>,
    d: int,
    size: usize,
    value: B::Scalar,
    b: Tensor<B>,
)
    requires
        steady::<B>(at),
        fills::<B>(at),
        joining::pad_block(a, cur, d, size, value, Ok(b)),
    ensures
        b@.dims() == cur@.dims().update(d, size),
        forall|index: Seq<usize>| #[trigger]
            nd::in_bounds(index, b@.dims()) ==> element_is(at, b, index, value),
{
    let s = choose|s: Shape|
        s@ == cur@.dims().update(d, size) && #[trigger] tensor::full_result(
            s,
            value,
            a@.dtype,
            a@.device,
            Ok(b),
        );
    let device = a@.device;
    let made = choose|made: B::Storage|
        #[trigger] call_ensures(
            B::full,
            (&s, value, a@.dtype, &device),
            Ok::<B::Storage, Error>(made),
        ) && tensor::leaf_result(Ok(made), s@, a@.dtype, device, Ok(b));
    assert(filled_with::<B>(at, made, s@, value));
    assert forall|index: Seq<usize>| #[trigger] nd::in_bounds(index, b@.dims()) implies element_is(
        at,
        b,
        index,
        value,
    ) by {
        assert forall|w: B::Storage| #[trigger] b@.storage.can_hold(w) implies at(
            w,
            b@.layout@.address(index),
        ) == value by {
            assert(b@.storage.starts_with(made));
            assert(same_numbers::<B>(at, made, w));
        }
    }
}

/// Padding one dimension more.
proof fn lemma_pad_step<B: Backend>(
    at: spec_fn(B::Storage, nat) -> B::Scalar,
    a: Tensor<B>,
    padding: Seq<[usize; 2]>,
    value: B::Scalar,
    d: int,
    cur: Tensor<B>,
    next: Tensor<B>,
)
    requires
        steady::<B>(at),
        concatenates::<B>(at),
        fills::<B>(at),
        0 <= d < a@.dims().len() <= usize::MAX,
        padding.len() == a@.dims().len(),
        !joining::no_padding(padding[d]),
        joining::padded_size(a@.dims()[d], padding[d]) <= usize::MAX,
        pads_from(at, a, padding, value, d + 1, cur),
        joining::pad_step(a, cur, d, padding[d], value, Ok(next)),
    ensures
        pads_from(at, a, padding, value, d, next),
        next@.layout@ == LayoutView::contiguous(next@.dims()),
{
    let dims = a@.dims();
    let p = padding[d];
    let lead = p@[0];
    let trail = p@[1];
    let (before, after) = choose|before: Seq<Tensor<B>>, after: Seq<Tensor<B>>|
        {
            &&& #[trigger] joining::pad_part(a, cur, d, lead, value, Ok(before))
            &&& #[trigger] joining::pad_part(a, cur, d, trail, value, Ok(after))
            &&& joining::cat_result(before.push(cur) + after, d as usize, Ok(next))
        };
    let ts = before.push(cur) + after;
    let middle = before.len() as int;
    assert(lead == 0 ==> before =~= seq![]);
    assert(trail == 0 ==> after =~= seq![]);
    if lead > 0 {
        let b = choose|b: Tensor<B>| #[trigger]
            joining::pad_block(a, cur, d, lead, value, Ok(b)) && before == seq![b];
        lemma_block_elements(at, a, cur, d, lead, value, b);
        assert(ts[0] == b);
    }
    if trail > 0 {
        let c = choose|c: Tensor<B>| #[trigger]
            joining::pad_block(a, cur, d, trail, value, Ok(c)) && after == seq![c];
        lemma_block_elements(at, a, cur, d, trail, value, c);
        assert(ts[middle + 1] == c);
    }
    assert(ts[middle] == cur);
    lemma_all_join(ts, d as usize, next);
    reveal_with_fuel(joining::joined_size, 4);
    assert(joining::joined_size(ts, d, middle as nat) == lead);
    assert(cur@.dims()[d] == dims[d]);
    assert(joining::joined_size(ts, d, (middle + 1) as nat) == lead + dims[d]);
    assert(joining::joined_size(ts, d, ts.len()) == lead + dims[d] + trail);
    assert(next@.dims() =~= padded_from(dims, padding, d));
    assert forall|index: Seq<usize>| #[trigger] nd::in_bounds(index, next@.dims()) implies (
    if inside_from(index, dims, padding, d) {
        forall|v: B::Scalar| #[trigger]
            element_is(at, a, unpadded_from(index, padding, d), v) ==> element_is(
                at,
                next,
                index,
                v,
            )
    } else {
        element_is(at, next, index, value)
    }) by {
        assert(index[d] < next@.dims()[d]);
        if index[d] < lead {
            assert(!(lead <= index[d] < lead + dims[d]));
            assert(!inside_from(index, dims, padding, d));
            assert forall|c: int| 0 <= c < dims.len() implies #[trigger] index[c]
                < ts[0]@.dims()[c] by {
                assert(index[c] < next@.dims()[c]);
            }
            assert(nd::in_bounds(index, ts[0]@.dims()));
            law_cat_elements(at, ts, d as usize, next, 0, index, value);
            assert(moved(index, d, 0) =~= index);
        } else if index[d] < lead + dims[d] {
            let own = index.update(d, (index[d] - lead) as usize);
            assert forall|c: int| 0 <= c < dims.len() implies #[trigger] own[c]
                < cur@.dims()[c] by {
                assert(index[c] < next@.dims()[c]);
            }
            assert(nd::in_bounds(own, cur@.dims()));
            assert(moved(own, d, lead as nat) =~= index);
            assert(inside_from(index, dims, padding, d) <==> inside_from(
                own,
                dims,
                padding,
                d + 1,
            )) by {
                if inside_from(index, dims, padding, d) {
                    assert forall|c: int| d + 1 <= c < dims.len() implies padding[c]@[0]
                        <= #[trigger] own[c] < padding[c]@[0] + dims[c] by {
                        assert(own[c] == index[c]);
                    }
                }
                if inside_from(own, dims, padding, d + 1) {
                    assert forall|c: int| d <= c < dims.len() implies padding[c]@[0]
                        <= #[trigger] index[c] < padding[c]@[0] + dims[c] by {
                        if c > d {
                            assert(own[c] == index[c]);
                        }
                    }
                }
            }
            assert(unpadded_from(own, padding, d + 1) =~= unpadded_from(index, padding, d));
            if inside_from(index, dims, padding, d) {
                assert forall|v: B::Scalar| #[trigger]
                    element_is(at, a, unpadded_from(index, padding, d), v) implies element_is(
                    at,
                    next,
                    index,
                    v,
                ) by {
                    assert(element_is(at, a, unpadded_from(own, padding, d + 1), v));
                    law_cat_elements(at, ts, d as usize, next, middle, own, v);
                }
            } else {
                law_cat_elements(at, ts, d as usize, next, middle, own, value);
            }
        } else {
            assert(!(lead <= index[d] < lead + dims[d]));
            assert(!inside_from(index, dims, padding, d));
            assert(trail > 0);
            let own = index.update(d, (index[d] - lead - dims[d]) as usize);
            let c = ts[middle + 1];
            assert forall|e: int| 0 <= e < dims.len() implies #[trigger] own[e]
                < c@.dims()[e] by {
                assert(index[e] < next@.dims()[e]);
            }
            assert(nd::in_bounds(own, c@.dims()));
            assert(moved(own, d, (lead + dims[d]) as nat) =~= index);
            law_cat_elements(at, ts, d as usize, next, middle + 1, own, value);
        }
    }
}

proof fn lemma_pad_chain<B: Backend>(
    at: spec_fn(B::Storage, nat) -> B::Scalar,
    a: Tensor<B>,
    padding: Seq<[usize; 2]>,
    value: B::Scalar,
    n: nat,
    cur: Tensor<B>,
    r: Tensor<B>,
)
    requires
        steady::<B>(at),
        concatenates::<B>(at),
        fills::<B>(at),
        n <= a@.dims().len() <= usize::MAX,
        padding.len() == a@.dims().len(),
        joining::padded_fit(a@.dims(), padding),
        pads_from(at, a, padding, value, n as int, cur),
        joining::pad_chain(a, padding, value, n, cur, Ok(r)),
    ensures
        pads_from(at, a, padding, value, 0, r),
        cur@.layout@ == LayoutView::contiguous(cur@.dims()) || (exists|d: int|
            0 <= d < n && !joining::no_padding(#[trigger] padding[d])) ==> r@.layout@
            == LayoutView::contiguous(r@.dims()),
    decreases n,
{
    if n > 0 {
        let d = n - 1;
        let dims = a@.dims();
        assert(joining::padded_size(dims[d], padding[d]) <= usize::MAX);
        if joining::no_padding(padding[d]) {
            assert(padded_from(dims, padding, n as int) =~= padded_from(dims, padding, d));
            assert forall|index: Seq<usize>| #[trigger]
                nd::in_bounds(index, cur@.dims()) implies (if inside_from(
                index,
                dims,
                padding,
                d,
            ) {
                forall|v: B::Scalar| #[trigger]
                    element_is(at, a, unpadded_from(index, padding, d), v) ==> element_is(
                        at,
                        cur,
                        index,
                        v,
                    )
            } else {
                element_is(at, cur, index, value)
            }) by {
                assert(index[d] < cur@.dims()[d]);
                assert(unpadded_from(index, padding, d) =~= unpadded_from(
                    index,
                    padding,
                    n as int,
                ));
                if inside_from(index, dims, padding, n as int) {
                    assert(inside_from(index, dims, padding, d));
                } else {
                    let c = choose|c: int|
                        n <= c < dims.len() && !(padding[c]@[0] <= #[trigger] index[c]
                            < padding[c]@[0] + dims[c]);
                    assert(!(padding[c]@[0] <= index[c] < padding[c]@[0] + dims[c]));
                    assert(!inside_from(index, dims, padding, d));
                }
            }
            lemma_pad_chain(at, a, padding, value, d as nat, cur, r);
        } else {
            let next = choose|next: Tensor<B>| #[trigger]
                joining::pad_step(a, cur, d, padding[d], value, Ok(next)) && joining::pad_chain(
                    a,
                    padding,
                    value,
                    d as nat,
                    next,
                    Ok(r),
                );
            lemma_pad_step(at, a, padding, value, d, cur, next);
            lemma_pad_chain(at, a, padding, value, d as nat, next, r);
        }
    }
}

/// A padded tensor holds the old elements in a block, as far from the start of
/// each dimension as the padding before it, and the pad value everywhere else.
/// The given padding is that of the last dimensions.
pub proof fn law_pad_elements<B: Backend>(
    at: spec_fn(B::Storage, nat) -> B::Scalar,
    a: Tensor<B>,
    padding: Seq<[usize; 2]>,
    value: B::Scalar,
    t: Tensor<B>,
)
    requires
        steady::<B>(at),
        concatenates::<B>(at),
        fills::<B>(at),
        clones::<B>(at),
        a@.dims().len() <= usize::MAX,
        joining::pad_result(a, padding, value, Ok(t)),
    ensures
        t@.dims() == joining::padded_dims(
            a@.dims(),
            joining::full_padding(padding, a@.dims().len()),
        ),
        pads_from(at, a, joining::full_padding(padding, a@.dims().len()), value, 0, t),
{
    let dims = a@.dims();
    let rank = dims.len();
    let full = joining::full_padding(padding, rank);
    assert(padded_from(dims, full, rank as int) =~= dims);
    assert forall|index: Seq<usize>| #[trigger] nd::in_bounds(index, dims) implies (
    if inside_from(index, dims, full, rank as int) {
        forall|v: B::Scalar| #[trigger]
            element_is(at, a, unpadded_from(index, full, rank as int), v) ==> element_is(
                at,
                a,
                index,
                v,
            )
    } else {
        element_is(at, a, index, value)
    }) by {
        assert(unpadded_from(index, full, rank as int) =~= index);
    }
    assert(pads_from(at, a, full, value, rank as int, a));
    assert(padded_from(dims, full, 0) =~= joining::padded_dims(dims, full));
    if forall|i: int| 0 <= i < rank ==> joining::no_padding(#[trigger] full[i]) {
        lemma_unpadded_chain(a, full, value, rank);
        lemma_pad_chain(at, a, full, value, rank, a, a);
    } else {
        let g = choose|g: Tensor<B>| #[trigger]
            joining::pad_chain(a, full, value, rank, a, Ok(g)) && exists|
                s: B::Storage,
                c: B::Storage,
            |
                {
                    &&& g@.storage.can_hold(s)
                    &&& #[trigger] call_ensures(B::Storage::clone, (&s,), c)
                    &&& tensor::stored(
                        t,
                        c,
                        joining::padded_dims(dims, full),
                        a@.dtype,
                        a@.device,
                    )
                };
        let (s, c) = choose|s: B::Storage, c: B::Storage|
            {
                &&& g@.storage.can_hold(s)
                &&& #[trigger] call_ensures(B::Storage::clone, (&s,), c)
                &&& tensor::stored(
                    t,
                    c,
                    joining::padded_dims(dims, full),
                    a@.dtype,
                    a@.device,
                )
            };
        lemma_pad_chain(at, a, full, value, rank, a, g);
        assert(t@.layout@ == g@.layout@);
        assert forall|index: Seq<usize>, v: B::Scalar| #[trigger]
            element_is(at, g, index, v) implies element_is(at, t, index, v) by {
            assert(same_numbers::<B>(at, s, c));
            assert forall|w: B::Storage| #[trigger] t@.storage.can_hold(w) implies at(
                w,
                t@.layout@.address(index),
            ) == v by {
                assert(t@.storage.starts_with(c));
                assert(same_numbers::<B>(at, c, w));
                assert(at(s, g@.layout@.address(index)) == v);
            }
        }
        assert forall|index: Seq<usize>| #[trigger] nd::in_bounds(index, t@.dims()) implies (
        if inside_from(index, dims, full, 0) {
            forall|v: B::Scalar| #[trigger]
                element_is(at, a, unpadded_from(index, full, 0), v) ==> element_is(
                    at,
                    t,
                    index,
                    v,
                )
        } else {
            element_is(at, t, index, value)
        }) by {
            assert(nd::in_bounds(index, g@.dims()));
        }
    }
}

proof fn lemma_unpadded_chain<B: Backend>(
    a: Tensor<B>,
    padding: Seq<[usize; 2]>,
    value: B::Scalar,
    n: nat,
)
    requires
        forall|i: int| 0 <= i < n ==> joining::no_padding(#[trigger] padding[i]),
    ensures
        joining::pad_chain(a, padding, value, n, a, Ok(a)),
    decreases n,
{
    if n > 0 {
        lemma_unpadded_chain(a, padding, value, (n - 1) as nat);
    }
}

} // verus!
