//! Backends that store numbers and compute what they are asked for.
//!
//! The library leaves it to a backend what its storage holds. The predicates
//! here say what a backend that does as it is documented does with numbers, and
//! the lemmas what that makes of the elements of tensors. As everywhere,
//! `at(s, p)` is the number at position `p` of the storage `s`, and nobody
//! writes into storages meanwhile.
use crate::backend::{Backend, BinaryOp, UnaryOp};
use crate::dtype::DType;
use crate::elementwise;
use crate::elements;
use crate::error::{Error, Result};
use crate::host;
use crate::layout::{Layout, LayoutView};
use crate::nd;
use crate::op::Op;
use crate::scalar::Scalar;
use crate::shape::{self, Shape};
use crate::tensor::{self, Tensor};
use vstd::prelude::*;

verus! {

/// A tensor has these elements: at each index what the function gives.
pub open spec fn has<B: Backend>(
    at: spec_fn(B::Storage, nat) -> B::Scalar,
    t: Tensor<B>,
    xs: spec_fn(Seq<usize>) -> B::Scalar,
) -> bool {
    forall|index: Seq<usize>| #[trigger]
        nd::in_bounds(index, t@.dims()) ==> elements::element_is(at, t, index, xs(index))
}

/// The backend fills storage with zeros.
pub open spec fn fills_zeros<B: Backend>(at: spec_fn(B::Storage, nat) -> B::Scalar) -> bool {
    forall|shape: Shape, dtype: DType, device: B::Device, made: B::Storage| #[trigger]
        call_ensures(
            B::zeros,
            (&shape, dtype, &device),
            Ok::<B::Storage, Error>(made),
        ) ==> elements::filled_with::<B>(at, made, shape@, <B::Scalar as Scalar>::zero_val())
}

/// The backend stores the numbers of a list one after the other.
pub open spec fn takes<B: Backend>(at: spec_fn(B::Storage, nat) -> B::Scalar) -> bool {
    forall|data: &[B::Scalar], dtype: DType, device: B::Device, made: B::Storage, p: int|
        #[trigger] call_ensures(
            B::from_f64_slice,
            (data, dtype, &device),
            Ok::<B::Storage, Error>(made),
        ) && 0 <= p < data@.len() ==> #[trigger] data@[p] == at(made, p as nat)
}

/// A storage holds in row-major order what a function makes of the numbers
/// that a layout finds.
pub open spec fn holds_mapped<B: Backend>(
    at: spec_fn(B::Storage, nat) -> B::Scalar,
    s: B::Storage,
    l: LayoutView,
    f: spec_fn(B::Scalar) -> B::Scalar,
    made: B::Storage,
) -> bool {
    forall|index: Seq<usize>| #[trigger]
        nd::in_bounds(index, l.dims) ==> at(made, LayoutView::contiguous(l.dims).address(index))
            == f(at(s, l.address(index)))
}

/// The backend copies the numbers that a layout finds.
pub open spec fn copies<B: Backend>(at: spec_fn(B::Storage, nat) -> B::Scalar) -> bool {
    forall|s: B::Storage, l: Layout, made: B::Storage| #[trigger]
        call_ensures(
            B::to_contiguous,
            (&s, &l),
            Ok::<B::Storage, Error>(made),
        ) ==> holds_mapped::<B>(at, s, l@, |x: B::Scalar| x, made)
}

/// The backend stores, fills, reads and copies numbers.
pub open spec fn stores<B: Backend>(at: spec_fn(B::Storage, nat) -> B::Scalar) -> bool {
    &&& elements::steady::<B>(at)
    &&& elements::fills::<B>(at)
    &&& elements::fills_ones::<B>(at)
    &&& fills_zeros::<B>(at)
    &&& elements::reads::<B>(at)
    &&& takes::<B>(at)
    &&& copies::<B>(at)
}

/// The sum, difference, product or quotient of two numbers.
pub open spec fn combined<S: Scalar>(op: BinaryOp, a: S, b: S) -> S {
    match op {
        BinaryOp::Add => a.plus(b),
        BinaryOp::Sub => a.minus(b),
        BinaryOp::Mul => a.times(b),
        BinaryOp::Div => a.over(b),
    }
}

/// A storage holds in row-major order the sums (differences, ...) of what two
/// layouts find, each repeated to the shape that both broadcast to.
pub open spec fn holds_combined<B: Backend>(
    at: spec_fn(B::Storage, nat) -> B::Scalar,
    op: BinaryOp,
    s: B::Storage,
    l: LayoutView,
    t: B::Storage,
    m: LayoutView,
    made: B::Storage,
) -> bool {
    let dims = shape::broadcast(l.dims, m.dims);
    forall|index: Seq<usize>| #[trigger]
        nd::in_bounds(index, dims) ==> at(made, LayoutView::contiguous(dims).address(index))
            == combined(
            op,
            at(s, l.address(shape::repeated_index(index, l.dims, dims))),
            at(t, m.address(shape::repeated_index(index, m.dims, dims))),
        )
}

/// The backend adds, subtracts, multiplies and divides with broadcasting.
pub open spec fn combines<B: Backend>(at: spec_fn(B::Storage, nat) -> B::Scalar) -> bool {
    forall|op: BinaryOp, s: B::Storage, l: Layout, t: B::Storage, m: Layout, made: B::Storage|
        #[trigger] call_ensures(
            B::binary_op,
            (op, &s, &l, &t, &m),
            Ok::<B::Storage, Error>(made),
        ) && shape::broadcastable(l@.dims, m@.dims) ==> holds_combined::<B>(
            at,
            op,
            s,
            l@,
            t,
            m@,
            made,
        )
}

/// The backend applies the functions `f` to each number.
pub open spec fn maps<B: Backend>(
    at: spec_fn(B::Storage, nat) -> B::Scalar,
    f: spec_fn(UnaryOp, B::Scalar) -> B::Scalar,
) -> bool {
    forall|op: UnaryOp, s: B::Storage, l: Layout, made: B::Storage| #[trigger]
        call_ensures(
            B::unary_op,
            (op, &s, &l),
            Ok::<B::Storage, Error>(made),
        ) ==> holds_mapped::<B>(at, s, l@, |x: B::Scalar| f(op, x), made)
}

/// The backend raises each number to a power.
pub open spec fn raises<B: Backend>(
    at: spec_fn(B::Storage, nat) -> B::Scalar,
    pow: spec_fn(B::Scalar, B::Scalar) -> B::Scalar,
) -> bool {
    forall|s: B::Storage, l: Layout, n: B::Scalar, made: B::Storage| #[trigger]
        call_ensures(
            B::powf,
            (&s, &l, n),
            Ok::<B::Storage, Error>(made),
        ) ==> holds_mapped::<B>(at, s, l@, |x: B::Scalar| pow(x, n), made)
}

/// The backend multiplies each number by one number and adds another.
pub open spec fn scales<B: Backend>(at: spec_fn(B::Storage, nat) -> B::Scalar) -> bool {
    forall|s: B::Storage, l: Layout, m: B::Scalar, a: B::Scalar, made: B::Storage| #[trigger]
        call_ensures(
            B::affine,
            (&s, &l, m, a),
            Ok::<B::Storage, Error>(made),
        ) ==> holds_mapped::<B>(at, s, l@, |x: B::Scalar| x.times(m).plus(a), made)
}

/// A tensor around storage holds what the storage holds.
pub proof fn lemma_around_storage<B: Backend>(
    at: spec_fn(B::Storage, nat) -> B::Scalar,
    t: Tensor<B>,
    made: B::Storage,
    index: Seq<usize>,
)
    requires
        elements::steady::<B>(at),
        t@.storage.starts_with(made),
    ensures
        elements::element_is(at, t, index, at(made, t@.layout@.address(index))),
{
    assert forall|s: B::Storage| #[trigger] t@.storage.can_hold(s) implies at(
        s,
        t@.layout@.address(index),
    ) == at(made, t@.layout@.address(index)) by {
        assert(elements::same_numbers::<B>(at, made, s));
    }
}

/// The position of an index in row-major order.
pub open spec fn place(index: Seq<usize>, dims: Seq<usize>) -> nat {
    nd::dot(index, nd::row_major(dims))
}

/// Positions and indices of a shape that has elements name each other.
pub proof fn lemma_place(index: Seq<usize>, dims: Seq<usize>)
    requires
        nd::in_bounds(index, dims),
        nd::product(dims) <= usize::MAX,
    ensures
        nd::fits(dims),
        place(index, dims) < nd::product(dims),
        nd::unravel(place(index, dims), dims) == index,
        LayoutView::contiguous(dims).address(index) == place(index, dims),
{
    nd::lemma_product_zero(dims);
    assert forall|i: int| 0 <= i < dims.len() implies #[trigger] dims[i] > 0 by {
        assert(index[i] < dims[i]);
    }
    nd::lemma_count_fits(dims);
    nd::lemma_unravel_of_ravel(index, dims);
}

/// A tensor that was made of a list holds the list in row-major order.
pub proof fn lemma_uploaded<B: Backend>(
    at: spec_fn(B::Storage, nat) -> B::Scalar,
    data: Seq<B::Scalar>,
    dims: Seq<usize>,
    dtype: DType,
    device: B::Device,
    t: Tensor<B>,
    index: Seq<usize>,
)
    requires
        stores::<B>(at),
        tensor::uploaded(data, dims, dtype, device, Ok(t)),
        nd::in_bounds(index, dims),
    ensures
        t@.dims() == dims,
        nd::fits(dims),
        data.len() == nd::product(dims),
        place(index, dims) < data.len(),
        elements::element_is(at, t, index, data[place(index, dims) as int]),
{
    let made = choose|made: Result<B::Storage>| #[trigger]
        tensor::uploads::<B>(data, dtype, &device, made) && tensor::leaf_result(
            made,
            dims,
            dtype,
            device,
            Ok(t),
        );
    let s = made->Ok_0;
    let d = choose|d: &[B::Scalar]|
        d@ == data && #[trigger] call_ensures(B::from_f64_slice, (d, dtype, &device), made);
    lemma_place(index, dims);
    lemma_around_storage(at, t, s, index);
    let p = place(index, dims) as int;
    assert(d@[p] == at(s, p as nat));
}

/// What is read of a tensor are its elements in row-major order.
pub proof fn lemma_read<B: Backend>(
    at: spec_fn(B::Storage, nat) -> B::Scalar,
    t: Tensor<B>,
    v: Vec<B::Scalar>,
    index: Seq<usize>,
    x: B::Scalar,
)
    requires
        stores::<B>(at),
        call_ensures(Tensor::to_f64_vec, (&t,), Ok::<Vec<B::Scalar>, Error>(v)),
        nd::in_bounds(index, t@.dims()),
        elements::element_is(at, t, index, x),
        nd::product(t@.dims()) <= usize::MAX,
    ensures
        v@.len() == nd::product(t@.dims()),
        place(index, t@.dims()) < v@.len(),
        v@[place(index, t@.dims()) as int] == x,
{
    let held = choose|held: B::Storage|
        t@.storage.can_hold(held) && #[trigger] call_ensures(
            B::to_f64_vec,
            (&held, &t@.layout),
            Ok::<Vec<B::Scalar>, Error>(v),
        );
    assert(elements::are_read::<B>(at, held, t@.layout@, v@));
    lemma_place(index, t@.dims());
    let k = place(index, t@.dims()) as int;
    assert(v@[k] == at(held, t@.layout@.position_of(k as nat)));
}

/// The same for values of which there is one for each position.
pub proof fn lemma_values<B: Backend>(
    at: spec_fn(B::Storage, nat) -> B::Scalar,
    t: Tensor<B>,
    v: Vec<B::Scalar>,
    index: Seq<usize>,
    x: B::Scalar,
)
    requires
        stores::<B>(at),
        host::values_result(t, Ok(v)),
        nd::in_bounds(index, t@.dims()),
        elements::element_is(at, t, index, x),
        nd::product(t@.dims()) <= usize::MAX,
    ensures
        v@.len() == nd::product(t@.dims()),
        place(index, t@.dims()) < v@.len(),
        v@[place(index, t@.dims()) as int] == x,
{
    lemma_read(at, t, v, index, x);
}

/// What a call on the storage of one tensor makes of an element.
pub proof fn lemma_applied<B: Backend>(
    at: spec_fn(B::Storage, nat) -> B::Scalar,
    a: Tensor<B>,
    call: spec_fn(B::Storage, Result<B::Storage>) -> bool,
    op: Op<B>,
    f: spec_fn(B::Scalar) -> B::Scalar,
    r: Tensor<B>,
    index: Seq<usize>,
    x: B::Scalar,
)
    requires
        elements::steady::<B>(at),
        elementwise::applied(a, call, op, Ok(r)),
        forall|s: B::Storage, made: B::Storage| #[trigger]
            call(s, Ok(made)) ==> holds_mapped::<B>(at, s, a@.layout@, f, made),
        nd::in_bounds(index, a@.dims()),
        elements::element_is(at, a, index, x),
    ensures
        r@.dims() == a@.dims(),
        r@.layout@ == LayoutView::contiguous(a@.dims()),
        nd::fits(a@.dims()),
        r@.op == op,
        elements::element_is(at, r, index, f(x)),
{
    let (s, made) = choose|s: B::Storage, made: Result<B::Storage>|
        a@.storage.can_hold(s) && #[trigger] call(s, made) && elementwise::stored_result(
            made,
            a@.dims(),
            a@.dtype,
            a@.device,
            op,
            Ok(r),
        );
    let m = made->Ok_0;
    assert(call(s, Ok(m)));
    assert(holds_mapped::<B>(at, s, a@.layout@, f, m));
    lemma_around_storage(at, r, m, index);
}

/// The elements of the contiguous form are those of the tensor.
pub proof fn lemma_contiguous<B: Backend>(
    at: spec_fn(B::Storage, nat) -> B::Scalar,
    a: Tensor<B>,
    c: Tensor<B>,
    index: Seq<usize>,
    x: B::Scalar,
)
    requires
        stores::<B>(at),
        call_ensures(Tensor::contiguous, (&a,), Ok::<Tensor<B>, Error>(c)),
        nd::in_bounds(index, a@.dims()),
        elements::element_is(at, a, index, x),
    ensures
        c@.dims() == a@.dims(),
        c@.layout@ == LayoutView::contiguous(a@.dims()),
        nd::fits(a@.dims()),
        elements::element_is(at, c, index, x),
{
    if !(nd::fits(a@.dims()) && a@.layout@ == LayoutView::contiguous(a@.dims())) {
        let call = |s: B::Storage, made: Result<B::Storage>|
            call_ensures(B::to_contiguous, (&s, &a@.layout), made);
        lemma_applied(
            at,
            a,
            call,
            Op::Contiguous { input: a },
            |x: B::Scalar| x,
            c,
            index,
            x,
        );
    }
}

/// The values of the contiguous form are the elements in row-major order.
pub proof fn lemma_dense_values<B: Backend>(
    at: spec_fn(B::Storage, nat) -> B::Scalar,
    t: Tensor<B>,
    v: Vec<B::Scalar>,
    index: Seq<usize>,
    x: B::Scalar,
)
    requires
        stores::<B>(at),
        host::dense_values_result(t, Ok(v)),
        nd::in_bounds(index, t@.dims()),
        elements::element_is(at, t, index, x),
    ensures
        nd::fits(t@.dims()),
        v@.len() == nd::product(t@.dims()),
        place(index, t@.dims()) < v@.len(),
        v@[place(index, t@.dims()) as int] == x,
{
    let c = choose|c: Result<Tensor<B>>| #[trigger]
        call_ensures(Tensor::contiguous, (&t,), c) && match c {
            Err(e) => false,
            Ok(c) => host::values_result(c, Ok(v)),
        };
    lemma_contiguous(at, t, c->Ok_0, index, x);
    lemma_values(at, c->Ok_0, v, index, x);
}

/// A tensor filled with a value.
pub proof fn lemma_full_like<B: Backend>(
    at: spec_fn(B::Storage, nat) -> B::Scalar,
    a: Tensor<B>,
    v: B::Scalar,
    t: Tensor<B>,
    index: Seq<usize>,
)
    requires
        stores::<B>(at),
        call_ensures(Tensor::full_like, (&a, v), Ok::<Tensor<B>, Error>(t)),
        nd::in_bounds(index, a@.dims()),
    ensures
        t@.dims() == a@.dims(),
        t@.dtype == a@.dtype,
        elements::element_is(at, t, index, v),
{
    let s = choose|s: Shape|
        s@ == a@.dims() && #[trigger] tensor::full_result(s, v, a@.dtype, a@.device, Ok(t));
    law_full(at, s, v, a@.dtype, a@.device, t, index);
}

/// A tensor that is filled with a value holds it everywhere.
pub proof fn law_full<B: Backend>(
    at: spec_fn(B::Storage, nat) -> B::Scalar,
    s: Shape,
    v: B::Scalar,
    dtype: DType,
    device: B::Device,
    t: Tensor<B>,
    index: Seq<usize>,
)
    requires
        stores::<B>(at),
        tensor::full_result(s, v, dtype, device, Ok(t)),
        nd::in_bounds(index, s@),
    ensures
        t@.dims() == s@,
        t@.dtype == dtype,
        elements::element_is(at, t, index, v),
{
    let ask = |s: Shape, made: Result<B::Storage>|
        call_ensures(B::full, (&s, v, dtype, &device), made);
    let made = choose|made: Result<B::Storage>| #[trigger]
        ask(s, made) && tensor::leaf_result(made, s@, dtype, device, Ok(t));
    let m = made->Ok_0;
    assert(elements::filled_with::<B>(at, m, s@, v));
    lemma_around_storage(at, t, m, index);
}

/// A tensor of ones.
pub proof fn lemma_ones_like<B: Backend>(
    at: spec_fn(B::Storage, nat) -> B::Scalar,
    a: Tensor<B>,
    t: Tensor<B>,
    index: Seq<usize>,
)
    requires
        stores::<B>(at),
        call_ensures(Tensor::ones_like, (&a,), Ok::<Tensor<B>, Error>(t)),
        nd::in_bounds(index, a@.dims()),
    ensures
        t@.dims() == a@.dims(),
        t@.dtype == a@.dtype,
        elements::element_is(at, t, index, <B::Scalar as Scalar>::one_val()),
{
    let s = choose|s: Shape|
        s@ == a@.dims() && #[trigger] tensor::ones_result(s, a@.dtype, a@.device, Ok(t));
    let device = a@.device;
    let ask = |s: Shape, made: Result<B::Storage>|
        call_ensures(B::ones, (&s, a@.dtype, &device), made);
    let made = choose|made: Result<B::Storage>| #[trigger]
        ask(s, made) && tensor::leaf_result(made, s@, a@.dtype, device, Ok(t));
    let m = made->Ok_0;
    assert(elements::filled_with::<B>(at, m, s@, <B::Scalar as Scalar>::one_val()));
    lemma_around_storage(at, t, m, index);
}

/// A tensor of zeros.
pub proof fn lemma_zeros_like<B: Backend>(
    at: spec_fn(B::Storage, nat) -> B::Scalar,
    a: Tensor<B>,
    t: Tensor<B>,
    index: Seq<usize>,
)
    requires
        stores::<B>(at),
        call_ensures(Tensor::zeros_like, (&a,), Ok::<Tensor<B>, Error>(t)),
        nd::in_bounds(index, a@.dims()),
    ensures
        t@.dims() == a@.dims(),
        t@.dtype == a@.dtype,
        elements::element_is(at, t, index, <B::Scalar as Scalar>::zero_val()),
{
    let s = choose|s: Shape|
        s@ == a@.dims() && #[trigger] tensor::zeros_result(s, a@.dtype, a@.device, Ok(t));
    let device = a@.device;
    let ask = |s: Shape, made: Result<B::Storage>|
        call_ensures(B::zeros, (&s, a@.dtype, &device), made);
    let made = choose|made: Result<B::Storage>| #[trigger]
        ask(s, made) && tensor::leaf_result(made, s@, a@.dtype, device, Ok(t));
    let m = made->Ok_0;
    assert(elements::filled_with::<B>(at, m, s@, <B::Scalar as Scalar>::zero_val()));
    lemma_around_storage(at, t, m, index);
}

/// The elements of a sum, difference, product or quotient: each combines the
/// elements of the two tensors that broadcasting brings to its place.
pub proof fn lemma_binary<B: Backend>(
    at: spec_fn(B::Storage, nat) -> B::Scalar,
    a: Tensor<B>,
    b: Tensor<B>,
    op: BinaryOp,
    r: Tensor<B>,
    index: Seq<usize>,
    x: B::Scalar,
    y: B::Scalar,
)
    requires
        stores::<B>(at),
        combines::<B>(at),
        elementwise::binary_result(a, b, op, Ok(r)),
        nd::in_bounds(index, r@.dims()),
        elements::element_is(at, a, shape::repeated_index(index, a@.dims(), r@.dims()), x),
        elements::element_is(at, b, shape::repeated_index(index, b@.dims(), r@.dims()), y),
    ensures
        r@.dims() == shape::broadcast(a@.dims(), b@.dims()),
        r@.dtype == a@.dtype && a@.dtype == b@.dtype,
        nd::fits(r@.dims()),
        elements::element_is(at, r, index, combined(op, x, y)),
{
    let (s, t, made) = choose|s: B::Storage, t: B::Storage, made: Result<B::Storage>|
        {
            &&& a@.storage.can_hold(s)
            &&& b@.storage.can_hold(t)
            &&& #[trigger] call_ensures(B::binary_op, (op, &s, &a@.layout, &t, &b@.layout), made)
            &&& elementwise::joined_result(
                made,
                a,
                b,
                a@.dtype,
                Op::Binary { lhs: a, rhs: b, op },
                Ok(r),
            )
        };
    let m = made->Ok_0;
    assert(holds_combined::<B>(at, op, s, a@.layout@, t, b@.layout@, m));
    lemma_around_storage(at, r, m, index);
}

/// The same for two tensors of one shape.
pub proof fn lemma_binary_same<B: Backend>(
    at: spec_fn(B::Storage, nat) -> B::Scalar,
    a: Tensor<B>,
    b: Tensor<B>,
    op: BinaryOp,
    r: Tensor<B>,
    index: Seq<usize>,
    x: B::Scalar,
    y: B::Scalar,
)
    requires
        stores::<B>(at),
        combines::<B>(at),
        elementwise::binary_result(a, b, op, Ok(r)),
        a@.dims() == b@.dims(),
        nd::in_bounds(index, a@.dims()),
        elements::element_is(at, a, index, x),
        elements::element_is(at, b, index, y),
    ensures
        r@.dims() == a@.dims(),
        r@.dtype == a@.dtype && a@.dtype == b@.dtype,
        nd::fits(r@.dims()),
        elements::element_is(at, r, index, combined(op, x, y)),
{
    let d = a@.dims();
    shape::law_broadcast_with_itself(d);
    assert(shape::repeated_index(index, d, d) =~= index);
    lemma_binary(at, a, b, op, r, index, x, y);
}

/// The elements of a unary operation.
pub proof fn lemma_unary<B: Backend>(
    at: spec_fn(B::Storage, nat) -> B::Scalar,
    f: spec_fn(UnaryOp, B::Scalar) -> B::Scalar,
    a: Tensor<B>,
    op: UnaryOp,
    r: Tensor<B>,
    index: Seq<usize>,
    x: B::Scalar,
)
    requires
        stores::<B>(at),
        maps::<B>(at, f),
        elementwise::unary_result(a, op, Ok(r)),
        nd::in_bounds(index, a@.dims()),
        elements::element_is(at, a, index, x),
    ensures
        r@.dims() == a@.dims(),
        r@.dtype == a@.dtype,
        elements::element_is(at, r, index, f(op, x)),
{
    let call = |s: B::Storage, made: Result<B::Storage>|
        call_ensures(B::unary_op, (op, &s, &a@.layout), made);
    lemma_applied(
        at,
        a,
        call,
        Op::Unary { input: a, op },
        |x: B::Scalar| f(op, x),
        r,
        index,
        x,
    );
}

/// The elements of a power.
pub proof fn lemma_powf<B: Backend>(
    at: spec_fn(B::Storage, nat) -> B::Scalar,
    pow: spec_fn(B::Scalar, B::Scalar) -> B::Scalar,
    a: Tensor<B>,
    n: B::Scalar,
    r: Tensor<B>,
    index: Seq<usize>,
    x: B::Scalar,
)
    requires
        stores::<B>(at),
        raises::<B>(at, pow),
        call_ensures(Tensor::powf, (&a, n), Ok::<Tensor<B>, Error>(r)),
        nd::in_bounds(index, a@.dims()),
        elements::element_is(at, a, index, x),
    ensures
        r@.dims() == a@.dims(),
        r@.dtype == a@.dtype,
        elements::element_is(at, r, index, pow(x, n)),
{
    let call = |s: B::Storage, made: Result<B::Storage>|
        call_ensures(B::powf, (&s, &a@.layout, n), made);
    lemma_applied(
        at,
        a,
        call,
        Op::Powf { input: a, exponent: n },
        |x: B::Scalar| pow(x, n),
        r,
        index,
        x,
    );
}

/// The elements of an affine transform.
pub proof fn lemma_affine<B: Backend>(
    at: spec_fn(B::Storage, nat) -> B::Scalar,
    a: Tensor<B>,
    m: B::Scalar,
    c: B::Scalar,
    r: Tensor<B>,
    index: Seq<usize>,
    x: B::Scalar,
)
    requires
        stores::<B>(at),
        scales::<B>(at),
        call_ensures(Tensor::affine, (&a, m, c), Ok::<Tensor<B>, Error>(r)),
        nd::in_bounds(index, a@.dims()),
        elements::element_is(at, a, index, x),
    ensures
        r@.dims() == a@.dims(),
        r@.dtype == a@.dtype,
        elements::element_is(at, r, index, x.times(m).plus(c)),
{
    let call = |s: B::Storage, made: Result<B::Storage>|
        call_ensures(B::affine, (&s, &a@.layout, m, c), made);
    lemma_applied(
        at,
        a,
        call,
        Op::Affine { input: a, mul: m, add: c },
        |x: B::Scalar| x.times(m).plus(c),
        r,
        index,
        x,
    );
}

} // verus!
