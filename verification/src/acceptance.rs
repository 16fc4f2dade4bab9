//! Which arguments operations accept, and which they refuse.
use crate::backend::{Backend, BinaryOp, ReduceOp, UnaryOp};
use crate::convolve;
use crate::dtype::DType;
use crate::elementwise;
use crate::error::{Error, Result};
use crate::flows;
use crate::host;
use crate::joining;
use crate::kernels::Window;
use crate::layout::Layout;
use crate::nd;
use crate::numeric;
use crate::op::Op;
use crate::shape::{self, Shape};
use crate::shaping;
use crate::tensor::{self, Tensor};
use crate::views;
use vstd::arithmetic::mul::*;
use vstd::prelude::*;

verus! {

/// No lock refuses its readers, and the backend does what it is asked on storage.
pub open spec fn obliges<B: Backend>() -> bool {
    &&& forall|t: Tensor<B>| !(#[trigger] t@.storage.can_refuse())
    &&& forall|s: B::Storage, l: Layout, e: Error|
        !#[trigger] call_ensures(B::to_contiguous, (&s, &l), Err::<B::Storage, Error>(e))
    &&& forall|op: UnaryOp, s: B::Storage, l: Layout, e: Error|
        !#[trigger] call_ensures(B::unary_op, (op, &s, &l), Err::<B::Storage, Error>(e))
    &&& forall|op: BinaryOp, s: B::Storage, l: Layout, t: B::Storage, m: Layout, e: Error|
        !#[trigger] call_ensures(B::binary_op, (op, &s, &l, &t, &m), Err::<B::Storage, Error>(e))
    &&& forall|s: B::Storage, l: Layout, t: B::Storage, m: Layout, e: Error|
        !#[trigger] call_ensures(B::matmul, (&s, &l, &t, &m), Err::<B::Storage, Error>(e))
    &&& forall|op: ReduceOp, s: B::Storage, l: Layout, d: &[usize], keep_dim: bool, e: Error|
        !#[trigger] call_ensures(
            B::reduce_op,
            (op, &s, &l, d, keep_dim),
            Err::<B::Storage, Error>(e),
        )
    &&& forall|
        s: B::Storage,
        l: Layout,
        t: B::Storage,
        m: Layout,
        dim: usize,
        e: Error,
    |
        !#[trigger] call_ensures(
            B::index_select,
            (&s, &l, &t, &m, dim),
            Err::<B::Storage, Error>(e),
        )
    &&& forall|pairs: &[(&B::Storage, &Layout)], shape: Shape, dim: usize, e: Error|
        !#[trigger] call_ensures(B::cat, (pairs, &shape, dim), Err::<B::Storage, Error>(e))
    &&& forall|s: B::Storage, l: Layout, dtype: DType, device: B::Device, e: Error|
        !#[trigger] call_ensures(B::cast, (&s, &l, dtype, &device), Err::<B::Storage, Error>(e))
}

/// A transpose is accepted if and only if both dimensions are there. The error names
/// the larger one.
pub proof fn law_transpose_accepted<B: Backend>(
    a: Tensor<B>,
    dim0: usize,
    dim1: usize,
    r: Result<Tensor<B>>,
)
    requires
        call_ensures(Tensor::transpose, (&a, dim0, dim1), r),
    ensures
        r is Ok <==> dim0 < a@.dims().len() && dim1 < a@.dims().len(),
        r matches Err(e) ==> {
            let rank = a@.dims().len() as usize;
            ||| dim0 >= dim1 && e == (Error::DimOutOfRange { dim: dim0, rank })
            ||| dim1 >= dim0 && e == (Error::DimOutOfRange { dim: dim1, rank })
        },
{
}

/// The transpose of a matrix is accepted if and only if it is a matrix.
pub proof fn law_t_accepted<B: Backend>(a: Tensor<B>, r: Result<Tensor<B>>)
    requires
        call_ensures(Tensor::t, (&a,), r),
    ensures
        r is Ok <==> a@.dims().len() == 2,
        r matches Err(e) ==> e == (Error::RankMismatch {
            expected: 2,
            got: a@.dims().len() as usize,
        }),
{
}

/// A range of slices is accepted if and only if the dimension is there and the
/// range ends no later than it (where its first position is a machine number).
pub proof fn law_narrow_accepted<B: Backend>(
    a: Tensor<B>,
    dim: usize,
    start: usize,
    len: usize,
    r: Result<Tensor<B>>,
)
    requires
        call_ensures(Tensor::narrow, (&a, dim, start, len), r),
        dim < a@.dims().len() ==> a@.layout@.offset + start * a@.layout@.strides[dim as int]
            <= usize::MAX,
    ensures
        r is Ok <==> dim < a@.dims().len() && start + len <= a@.dims()[dim as int],
        dim >= a@.dims().len() ==> r == Err::<Tensor<B>, Error>(
            Error::DimOutOfRange { dim, rank: a@.dims().len() as usize },
        ),
        dim < a@.dims().len() && start + len > a@.dims()[dim as int] ==> r == Err::<
            Tensor<B>,
            Error,
        >(Error::NarrowOutOfBounds { dim, start, len, dim_size: a@.dims()[dim as int] }),
{
}

/// A new dimension of size 1 is accepted before each dimension and at the end.
pub proof fn law_unsqueeze_accepted<B: Backend>(a: Tensor<B>, dim: usize, r: Result<Tensor<B>>)
    requires
        call_ensures(Tensor::unsqueeze, (&a, dim), r),
    ensures
        r is Ok <==> dim <= a@.dims().len(),
        r matches Err(e) ==> e == (Error::DimOutOfRange {
            dim,
            rank: (a@.dims().len() + 1) as usize,
        }),
{
}

/// A dimension can be removed if and only if it is there and has size 1.
pub proof fn law_squeeze_accepted<B: Backend>(a: Tensor<B>, dim: usize, r: Result<Tensor<B>>)
    requires
        call_ensures(Tensor::squeeze, (&a, dim), r),
    ensures
        r is Ok <==> dim < a@.dims().len() && a@.dims()[dim as int] == 1,
        dim >= a@.dims().len() ==> r == Err::<Tensor<B>, Error>(
            Error::DimOutOfRange { dim, rank: a@.dims().len() as usize },
        ),
{
}

/// An order of the dimensions is accepted if and only if it names each once.
pub proof fn law_permute_accepted<B: Backend>(a: Tensor<B>, order: &[usize], r: Result<Tensor<B>>)
    requires
        call_ensures(Tensor::permute, (&a, order), r),
    ensures
        r is Ok <==> {
            &&& order@.len() == a@.dims().len()
            &&& forall|k: int| 0 <= k < order@.len() ==> #[trigger] order@[k] < a@.dims().len()
            &&& forall|k: int, l: int|
                0 <= k < l < order@.len() ==> #[trigger] order@[k] != #[trigger] order@[l]
        },
{
    let p = order@;
    if r is Err && p.len() == a@.dims().len() {
        let i = choose|i: int| #[trigger] shaping::permute_stops_at(p, a@.dims().len(), i);
        if p[i] < a@.dims().len() {
            let part = p.take(i);
            let k = choose|k: int| 0 <= k < part.len() && part[k] == p[i];
            assert(p[k] == p[i]);
        }
    }
}

/// An expansion is accepted if and only if the rank is that of the tensor and each
/// asked size is that of the tensor, is left open, or replaces a size of 1 (where
/// the number of elements is a machine number).
pub proof fn law_expand_accepted<B: Backend, S: Into<Shape>>(
    a: Tensor<B>,
    asked: S,
    r: Result<Tensor<B>>,
) -> (s: Shape)
    requires
        call_ensures(Tensor::expand::<S>, (&a, asked), r),
    ensures
        call_ensures(<S as Into<Shape>>::into, (asked,), s),
        r is Ok ==> s@.len() == a@.dims().len(),
        r is Ok ==> forall|k: int|
            0 <= k < s@.len() ==> #[trigger] s@[k] == a@.dims()[k] || s@[k] == usize::MAX
                || a@.dims()[k] == 1,
        s@.len() == a@.dims().len() && (forall|k: int|
            0 <= k < s@.len() ==> #[trigger] s@[k] == a@.dims()[k] || s@[k] == usize::MAX
                || a@.dims()[k] == 1) && (forall|sizes: Seq<usize>|
            sizes.len() == s@.len() && (forall|k: int|
                0 <= k < s@.len() ==> #[trigger] sizes[k] == if s@[k] == usize::MAX {
                    a@.dims()[k]
                } else {
                    s@[k]
                }) ==> #[trigger] nd::product(sizes) <= usize::MAX) ==> r is Ok,
{
    let s = choose|s: Shape| #[trigger]
        call_ensures(<S as Into<Shape>>::into, (asked,), s) && shaping::expand_result(a, s@, r);
    let dims = a@.dims();
    let target = shaping::expand_sizes(dims, s@);
    if s@.len() == dims.len() {
        assert forall|k: int| 0 <= k < s@.len() implies #[trigger] target[k] == (if s@[k]
            == usize::MAX {
            dims[k]
        } else {
            s@[k]
        }) by {}
        if r is Ok {
            assert forall|k: int| 0 <= k < s@.len() implies #[trigger] s@[k] == dims[k] || s@[k]
                == usize::MAX || dims[k] == 1 by {
                assert(dims[k] == target[k] || dims[k] == 1);
            }
        } else if (forall|k: int|
            0 <= k < s@.len() ==> #[trigger] s@[k] == dims[k] || s@[k] == usize::MAX || dims[k]
                == 1) {
            assert forall|k: int| 0 <= k < dims.len() implies #[trigger] dims[k] == target[k]
                || dims[k] == 1 by {
                assert(s@[k] == dims[k] || s@[k] == usize::MAX || dims[k] == 1);
            }
            assert(a@.layout@.expandable(target));
            assert(nd::product(target) > usize::MAX);
        }
    }
    s
}

/// The contiguous form can be had of every tensor whose sizes can be addressed.
pub proof fn law_contiguous_accepted<B: Backend>(a: Tensor<B>, r: Result<Tensor<B>>)
    requires
        obliges::<B>(),
        call_ensures(Tensor::contiguous, (&a,), r),
        nd::fits(a@.dims()),
    ensures
        r is Ok,
{
    if r is Err {
        let call = |s: B::Storage, made: Result<B::Storage>|
            call_ensures(B::to_contiguous, (&s, &a@.layout), made);
        lemma_applied(a, call, Op::Contiguous { input: a }, r);
    }
}

/// What a call on the storage of one tensor gives is stored, if the call does not
/// fail.
proof fn lemma_applied<B: Backend>(
    a: Tensor<B>,
    call: spec_fn(B::Storage, Result<B::Storage>) -> bool,
    op: Op<B>,
    r: Result<Tensor<B>>,
)
    requires
        obliges::<B>(),
        elementwise::applied(a, call, op, r),
        nd::fits(a@.dims()),
        forall|s: B::Storage, e: Error| !#[trigger] call(s, Err(e)),
    ensures
        r is Ok,
{
    assert(!a@.storage.can_refuse());
    if r is Err {
        let (s, made) = choose|s: B::Storage, made: Result<B::Storage>|
            a@.storage.can_hold(s) && #[trigger] call(s, made) && elementwise::stored_result(
                made,
                a@.dims(),
                a@.dtype,
                a@.device,
                op,
                r,
            );
        if made is Err {
            assert(call(s, Err(made->Err_0)));
        }
    }
}

/// A reshape to sizes that can be addressed is accepted if and only if they hold
/// as many elements as the tensor has.
pub proof fn law_reshape_accepted<B: Backend, S: Into<Shape>>(
    a: Tensor<B>,
    asked: S,
    r: Result<Tensor<B>>,
) -> (s: Shape)
    requires
        obliges::<B>(),
        call_ensures(Tensor::reshape::<S>, (&a, asked), r),
        nd::fits(a@.dims()),
    ensures
        call_ensures(<S as Into<Shape>>::into, (asked,), s),
        nd::fits(s@) ==> (r is Ok <==> nd::product(s@) == nd::product(a@.dims())),
        nd::fits(s@) && nd::product(s@) != nd::product(a@.dims()) ==> (r matches Err(
            Error::ReshapeElementMismatch { src, dst, dst_shape },
        ) && src == nd::product(a@.dims()) && dst == nd::product(s@) && dst_shape@ == s@),
{
    let s = choose|s: Shape| #[trigger]
        call_ensures(<S as Into<Shape>>::into, (asked,), s) && shaping::reshape_result(a, s@, r);
    lemma_reshape(a, s@, r);
    s
}

proof fn lemma_reshape<B: Backend>(a: Tensor<B>, dims: Seq<usize>, r: Result<Tensor<B>>)
    requires
        obliges::<B>(),
        shaping::reshape_result(a, dims, r),
        nd::fits(a@.dims()),
    ensures
        nd::fits(dims) ==> (r is Ok <==> nd::product(dims) == nd::product(a@.dims())),
{
    if nd::fits(dims) && nd::product(dims) == nd::product(a@.dims()) && r is Err {
        let c = choose|c: Result<Tensor<B>>| #[trigger]
            call_ensures(Tensor::contiguous, (&a,), c) && match c {
                Err(e) => r == Err::<Tensor<B>, _>(e),
                Ok(_) => false,
            };
        law_contiguous_accepted(a, c);
    }
}

/// A range of dimensions of a tensor that has elements can be merged if and only if
/// it does not start after its end and ends at a dimension that is there.
pub proof fn law_flatten_accepted<B: Backend>(
    a: Tensor<B>,
    start: usize,
    end: usize,
    r: Result<Tensor<B>>,
)
    requires
        obliges::<B>(),
        call_ensures(Tensor::flatten, (&a, start, end), r),
        0 < nd::product(a@.dims()) <= usize::MAX,
    ensures
        r is Ok <==> start <= end < a@.dims().len(),
{
    let d = a@.dims();
    if start <= end < d.len() {
        let s = start as int;
        let e = end + 1;
        let head = d.take(s);
        let mid = d.subrange(s, e);
        let tail = d.skip(e);
        nd::lemma_product_add(head, mid + tail);
        nd::lemma_product_add(mid, tail);
        assert(head + (mid + tail) =~= d);
        let h = nd::product(head) as int;
        let m = nd::product(mid) as int;
        let t = nd::product(tail) as int;
        assert(0 < m <= h * (m * t)) by (nonlinear_arith)
            requires
                h * (m * t) > 0,
                h >= 0,
                m >= 0,
                t >= 0,
        ;
        let one = seq![m as usize];
        nd::lemma_product_add(head, one + tail);
        nd::lemma_product_add(one, tail);
        assert(head + (one + tail) =~= shaping::flattened_dims(d, s, end as int));
        assert(one.skip(1) =~= Seq::<usize>::empty());
        assert(nd::product(one.skip(1)) == 1);
        assert(nd::product(one) == m) by (nonlinear_arith)
            requires
                nd::product(one) == one[0] as nat * nd::product(one.skip(1)),
                nd::product(one.skip(1)) == 1,
                one[0] as nat == m,
        ;
        nd::lemma_count_fits(d);
        nd::lemma_count_fits(shaping::flattened_dims(d, s, end as int));
        lemma_reshape(a, shaping::flattened_dims(d, s, end as int), r);
    }
}

/// A sum, difference, product or quotient is accepted if and only if the tensors
/// have one number type and their sizes, counted from the last, are equal or 1
/// where both are there (and the sizes can be addressed).
pub proof fn law_binary_accepted<B: Backend>(
    op: BinaryOp,
    a: Tensor<B>,
    b: Tensor<B>,
    r: Result<Tensor<B>>,
)
    requires
        obliges::<B>(),
        match op {
            BinaryOp::Add => call_ensures(Tensor::add, (&a, &b), r),
            BinaryOp::Sub => call_ensures(Tensor::sub, (&a, &b), r),
            BinaryOp::Mul => call_ensures(Tensor::mul, (&a, &b), r),
            BinaryOp::Div => call_ensures(Tensor::div, (&a, &b), r),
        },
        nd::fits(shape::broadcast(a@.dims(), b@.dims())),
    ensures
        r is Ok <==> a@.dtype == b@.dtype && agree(a@.dims(), b@.dims()),
        a@.dtype != b@.dtype ==> r == Err::<Tensor<B>, Error>(
            Error::DTypeMismatch { expected: a@.dtype, got: b@.dtype },
        ),
{
    assert(elementwise::binary_result(a, b, op, r));
    lemma_agree(a@.dims(), b@.dims());
    assert(!a@.storage.can_refuse() && !b@.storage.can_refuse());
}

/// Sizes, counted from the last, are equal or one of them is 1 where both are there.
pub open spec fn agree(l: Seq<usize>, r: Seq<usize>) -> bool {
    forall|i: int|
        #![trigger l[l.len() - 1 - i]]
        #![trigger r[r.len() - 1 - i]]
        0 <= i < l.len() && i < r.len() ==> l[l.len() - 1 - i] == r[r.len() - 1 - i]
            || l[l.len() - 1 - i] == 1 || r[r.len() - 1 - i] == 1
}

proof fn lemma_agree(l: Seq<usize>, r: Seq<usize>)
    ensures
        shape::broadcastable(l, r) <==> agree(l, r),
{
    if agree(l, r) {
        assert forall|i: int| 0 <= i < shape::joint_rank(l, r) implies !#[trigger] shape::clash_at(
            l,
            r,
            i,
        ) by {
            if i < l.len() && i < r.len() {
                let x = l[l.len() - 1 - i];
            }
        }
    }
    if shape::broadcastable(l, r) {
        assert forall|i: int|
            #![trigger l[l.len() - 1 - i]]
            #![trigger r[r.len() - 1 - i]]
            0 <= i < l.len() && i < r.len() implies l[l.len() - 1 - i] == r[r.len() - 1 - i]
            || l[l.len() - 1 - i] == 1 || r[r.len() - 1 - i] == 1 by {
            assert(!shape::clash_at(l, r, i));
        }
    }
}

/// A product of matrices is accepted if and only if the tensors have one number
/// type and at least two dimensions, and the rows of the first are as long as the
/// columns of the second (and the sizes can be addressed).
pub proof fn law_matmul_accepted<B: Backend>(a: Tensor<B>, b: Tensor<B>, r: Result<Tensor<B>>)
    requires
        obliges::<B>(),
        call_ensures(Tensor::matmul, (&a, &b), r),
        nd::fits(elementwise::matmul_dims(a@.dims(), b@.dims())),
    ensures
        r is Ok <==> {
            let d = a@.dims();
            let e = b@.dims();
            &&& a@.dtype == b@.dtype
            &&& d.len() >= 2
            &&& e.len() >= 2
            &&& d[d.len() - 1] == e[e.len() - 2]
        },
        ({
            let d = a@.dims();
            let e = b@.dims();
            let n = d.len();
            let m = e.len();
            &&& a@.dtype != b@.dtype ==> r == Err::<Tensor<B>, Error>(
                Error::DTypeMismatch { expected: a@.dtype, got: b@.dtype },
            )
            &&& a@.dtype == b@.dtype && n >= 2 && m >= 2 && d[n - 1] != e[m - 2] ==> r == Err::<
                Tensor<B>,
                Error,
            >(
                Error::MatmulShapeMismatch {
                    m: d[n - 2],
                    k1: d[n - 1],
                    k2: e[m - 2],
                    n: e[m - 1],
                },
            )
        }),
{
    assert(elementwise::matmul_result(a, b, r));
    assert(!a@.storage.can_refuse() && !b@.storage.can_refuse());
}

/// A reduction along a dimension of a tensor that has elements is accepted if and
/// only if the dimension is there.
pub proof fn law_reduction_accepted<B: Backend>(
    op: ReduceOp,
    a: Tensor<B>,
    dim: usize,
    keep_dim: bool,
    r: Result<Tensor<B>>,
    i: Seq<usize>,
)
    requires
        obliges::<B>(),
        match op {
            ReduceOp::Sum => call_ensures(Tensor::sum, (&a, dim, keep_dim), r),
            ReduceOp::Mean => call_ensures(Tensor::mean, (&a, dim, keep_dim), r),
            ReduceOp::Max => call_ensures(Tensor::max, (&a, dim, keep_dim), r),
            ReduceOp::Min => call_ensures(Tensor::min, (&a, dim, keep_dim), r),
            ReduceOp::ArgMax => call_ensures(Tensor::argmax, (&a, dim, keep_dim), r),
            ReduceOp::ArgMin => call_ensures(Tensor::argmin, (&a, dim, keep_dim), r),
        },
        a@.dims().len() <= usize::MAX,
        nd::product(a@.dims()) <= usize::MAX,
        nd::in_bounds(i, a@.dims()),
    ensures
        r is Ok <==> dim < a@.dims().len(),
        r matches Err(e) ==> e == (Error::DimOutOfRange { dim, rank: a@.dims().len() as usize }),
{
    let one = seq![dim];
    assert(one[0] == dim);
    assert(elementwise::reduction_result(a, op, one, keep_dim, r));
    assert(!a@.storage.can_refuse());
    if dim < a@.dims().len() {
        flows::lemma_reduced_one(a@.dims(), dim, keep_dim, i);
    } else {
        assert(elementwise::first_missing(one, a@.dims().len(), 0));
    }
}

/// A choice of slices is accepted if and only if the dimension is there (and the
/// sizes can be addressed).
pub proof fn law_index_select_accepted<B: Backend>(
    a: Tensor<B>,
    dim: usize,
    indices: Tensor<B>,
    r: Result<Tensor<B>>,
)
    requires
        obliges::<B>(),
        call_ensures(Tensor::index_select, (&a, dim, &indices), r),
        nd::fits(a@.dims().update(dim as int, nd::product(indices@.dims()) as usize)),
    ensures
        r is Ok <==> dim < a@.dims().len(),
        r matches Err(e) ==> e == (Error::DimOutOfRange { dim, rank: a@.dims().len() as usize }),
{
    assert(!a@.storage.can_refuse() && !indices@.storage.can_refuse());
}

/// The sum of the sizes of the first `n` tensors along a dimension.
pub open spec fn total_size<B: Backend>(ts: Seq<Tensor<B>>, dim: int, n: nat) -> nat
    decreases n,
{
    if n == 0 {
        0
    } else {
        total_size(ts, dim, (n - 1) as nat) + ts[n - 1]@.dims()[dim] as nat
    }
}

proof fn lemma_total_size<B: Backend>(ts: Seq<Tensor<B>>, dim: int, n: nat)
    ensures
        joining::joined_size(ts, dim, n) == total_size(ts, dim, n),
    decreases n,
{
    if n > 0 {
        lemma_total_size(ts, dim, (n - 1) as nat);
    }
}

/// Two or more tensors can be joined along a dimension if and only if it is there
/// and all have the rank, the number type and, but for that dimension, the sizes of
/// the first (and the sizes can be addressed). One tensor is always accepted, none
/// never.
pub proof fn law_cat_accepted<B: Backend>(ts: &[Tensor<B>], dim: usize, r: Result<Tensor<B>>)
    requires
        obliges::<B>(),
        call_ensures(Tensor::cat, (ts, dim), r),
        ts@.len() > 0 ==> total_size(ts@, dim as int, ts@.len()) <= usize::MAX && nd::fits(
            ts@[0]@.dims().update(
                dim as int,
                total_size(ts@, dim as int, ts@.len()) as usize,
            ),
        ),
    ensures
        ts@.len() == 0 ==> r is Err,
        ts@.len() == 1 ==> r == Ok::<Tensor<B>, Error>(ts@[0]),
        ts@.len() >= 2 ==> (r is Ok <==> dim < ts@[0]@.dims().len() && forall|k: int|
            0 <= k < ts@.len() ==> {
                let t = #[trigger] ts@[k];
                &&& t@.dims().len() == ts@[0]@.dims().len()
                &&& t@.dtype == ts@[0]@.dtype
                &&& forall|c: int|
                    0 <= c < t@.dims().len() && c != dim ==> #[trigger] t@.dims()[c]
                        == ts@[0]@.dims()[c]
            }),
{
    let list = ts@;
    assert(joining::cat_result(list, dim, r));
    assert(forall|t: Tensor<B>| !(#[trigger] t@.storage.can_refuse()));
    if list.len() >= 2 && dim < list[0]@.dims().len() {
        lemma_total_size(list, dim as int, list.len());
        let first = list[0];
        assert forall|k: int| 0 <= k < list.len() implies (joining::joins(
            first,
            #[trigger] list[k],
            dim as int,
        ) <==> {
            let t = list[k];
            &&& t@.dims().len() == first@.dims().len()
            &&& t@.dtype == first@.dtype
            &&& forall|c: int|
                0 <= c < t@.dims().len() && c != dim ==> #[trigger] t@.dims()[c]
                    == first@.dims()[c]
        }) by {
            let t = list[k];
            if joining::joins(first, t, dim as int) {
                assert forall|c: int|
                    0 <= c < t@.dims().len() && c != dim implies #[trigger] t@.dims()[c]
                    == first@.dims()[c] by {
                    assert(first@.dims()[c] == t@.dims()[c]);
                }
            }
        }
        lemma_first_stop(list, dim as int, list.len());
    }
}

/// The first tensor that cannot be joined, if there is one.
proof fn lemma_first_stop<B: Backend>(ts: Seq<Tensor<B>>, dim: int, n: nat)
    requires
        1 <= n <= ts.len(),
    ensures
        (forall|k: int| 1 <= k < n ==> joining::joins(ts[0], #[trigger] ts[k], dim)) || exists|
            i: int,
        | #[trigger]
            joining::join_stops_at(ts, dim, i),
    decreases n,
{
    if n > 1 {
        lemma_first_stop(ts, dim, (n - 1) as nat);
        if (forall|k: int| 1 <= k < n - 1 ==> joining::joins(ts[0], #[trigger] ts[k], dim))
            && !joining::joins(ts[0], ts[n - 1], dim) {
            assert(joining::join_stops_at(ts, dim, n - 1));
        }
    }
}

/// The answer of the method for a unary operation.
pub open spec fn unary_answer<B: Backend>(op: UnaryOp, x: Tensor<B>, r: Result<Tensor<B>>) -> bool {
    match op {
        UnaryOp::Neg => call_ensures(Tensor::neg, (&x,), r),
        UnaryOp::Abs => call_ensures(Tensor::abs, (&x,), r),
        UnaryOp::Exp => call_ensures(Tensor::exp, (&x,), r),
        UnaryOp::Log => call_ensures(Tensor::log, (&x,), r),
        UnaryOp::Sqrt => call_ensures(Tensor::sqrt, (&x,), r),
        UnaryOp::Relu => call_ensures(Tensor::relu, (&x,), r),
        UnaryOp::Sigmoid => call_ensures(Tensor::sigmoid, (&x,), r),
        UnaryOp::Tanh => call_ensures(Tensor::tanh, (&x,), r),
        UnaryOp::Gelu => call_ensures(Tensor::gelu, (&x,), r),
        UnaryOp::Silu => call_ensures(Tensor::silu, (&x,), r),
        UnaryOp::Sin => call_ensures(Tensor::sin, (&x,), r),
        UnaryOp::Cos => call_ensures(Tensor::cos, (&x,), r),
        UnaryOp::Square => call_ensures(Tensor::square, (&x,), r),
        UnaryOp::Floor => call_ensures(Tensor::floor, (&x,), r),
        UnaryOp::Ceil => call_ensures(Tensor::ceil, (&x,), r),
        UnaryOp::Round => call_ensures(Tensor::round, (&x,), r),
    }
}

/// A function of each element is accepted for every tensor whose sizes can be
/// addressed.
pub proof fn law_unary_accepted<B: Backend>(op: UnaryOp, a: Tensor<B>, r: Result<Tensor<B>>)
    requires
        obliges::<B>(),
        unary_answer(op, a, r),
    ensures
        r is Ok <==> nd::fits(a@.dims()),
{
    assert(elementwise::unary_result(a, op, r));
    assert(!a@.storage.can_refuse());
}

/// The backend hands out all numbers that a layout finds, and stores every list.
pub open spec fn lists<B: Backend>() -> bool {
    &&& forall|s: B::Storage, l: Layout, r: Result<Vec<B::Scalar>>| #[trigger]
        call_ensures(B::to_f64_vec, (&s, &l), r) ==> (r matches Ok(v) && v@.len() == nd::product(
            l@.dims,
        ))
    &&& forall|data: &[B::Scalar], dtype: DType, device: B::Device, e: Error|
        !#[trigger] call_ensures(
            B::from_f64_slice,
            (data, dtype, &device),
            Err::<B::Storage, Error>(e),
        )
}

proof fn lemma_values<B: Backend>(a: Tensor<B>, r: Result<Vec<B::Scalar>>)
    requires
        obliges::<B>(),
        lists::<B>(),
        host::values_result(a, r),
    ensures
        r matches Ok(v) && v@.len() == nd::product(a@.dims()),
{
    assert(!a@.storage.can_refuse());
}

proof fn lemma_dense_values<B: Backend>(a: Tensor<B>, r: Result<Vec<B::Scalar>>)
    requires
        obliges::<B>(),
        lists::<B>(),
        host::dense_values_result(a, r),
        nd::fits(a@.dims()),
    ensures
        r matches Ok(v) && v@.len() == nd::product(a@.dims()),
{
    let c = choose|c: Result<Tensor<B>>| #[trigger]
        call_ensures(Tensor::contiguous, (&a,), c) && match c {
            Err(e) => r == Err::<Vec<B::Scalar>, _>(e),
            Ok(c) => host::values_result(c, r),
        };
    law_contiguous_accepted(a, c);
    let c = c->Ok_0;
    assert(c@.dims() == a@.dims());
    lemma_values(c, r);
}

proof fn lemma_uploaded<B: Backend>(
    data: Seq<B::Scalar>,
    dims: Seq<usize>,
    dtype: DType,
    device: B::Device,
    r: Result<Tensor<B>>,
)
    requires
        lists::<B>(),
        tensor::uploaded(data, dims, dtype, device, r),
    ensures
        r is Ok <==> nd::fits(dims) && data.len() == nd::product(dims),
{
    if nd::fits(dims) && data.len() == nd::product(dims) && r is Err {
        let made = choose|made: Result<B::Storage>| #[trigger]
            tensor::uploads::<B>(data, dtype, &device, made) && tensor::leaf_result(
                made,
                dims,
                dtype,
                device,
                r,
            );
        let d = choose|d: &[B::Scalar]|
            d@ == data && #[trigger] call_ensures(B::from_f64_slice, (d, dtype, &device), made);
    }
}

/// A list is accepted for sizes that can be addressed if and only if they hold as
/// many elements as the list has numbers.
pub proof fn law_from_slice_accepted<B: Backend, S: Into<Shape>>(
    data: &[B::Scalar],
    asked: S,
    dtype: DType,
    device: B::Device,
    r: Result<Tensor<B>>,
) -> (s: Shape)
    requires
        lists::<B>(),
        call_ensures(Tensor::<B>::from_f64_slice::<S>, (data, asked, dtype, &device), r),
    ensures
        call_ensures(<S as Into<Shape>>::into, (asked,), s),
        nd::fits(s@) ==> (r is Ok <==> data@.len() == nd::product(s@)),
        nd::fits(s@) && data@.len() != nd::product(s@) ==> (r matches Err(
            Error::ElementCountMismatch { shape, expected, got },
        ) && shape@ == s@ && expected == nd::product(s@) && got == data@.len()),
{
    let s = choose|s: Shape| #[trigger]
        call_ensures(<S as Into<Shape>>::into, (asked,), s) && tensor::uploaded(
            data@,
            s@,
            dtype,
            device,
            r,
        );
    lemma_uploaded(data@, s@, dtype, device, r);
    s
}

/// Running sums and sorting along a dimension are accepted if and only if the
/// dimension is there.
pub proof fn law_lanes_accepted<B: Backend>(
    a: Tensor<B>,
    dim: usize,
    descending: bool,
    sums: Result<Tensor<B>>,
    sorted: Result<(Tensor<B>, Tensor<B>)>,
    order: Result<Tensor<B>>,
)
    requires
        obliges::<B>(),
        lists::<B>(),
        nd::fits(a@.dims()),
        call_ensures(Tensor::cumsum, (&a, dim), sums),
        call_ensures(Tensor::sort, (&a, dim, descending), sorted),
        call_ensures(Tensor::argsort, (&a, dim, descending), order),
    ensures
        sums is Ok <==> dim < a@.dims().len(),
        sorted is Ok <==> dim < a@.dims().len(),
        order is Ok <==> dim < a@.dims().len(),
{
    let d = dim as int;
    let dims = a@.dims();
    if dim < dims.len() {
        let c = choose|c: Result<Tensor<B>>| #[trigger]
            call_ensures(Tensor::contiguous, (&a,), c) && match c {
                Err(e) => sums == Err::<Tensor<B>, _>(e),
                Ok(c) => exists|v: Result<Vec<B::Scalar>>| #[trigger]
                    host::values_result(c, v) && match v {
                        Err(e) => sums == Err::<Tensor<B>, _>(e),
                        Ok(v) => tensor::uploaded(
                            numeric::running_sum(
                                v@,
                                dims[d] as int,
                                numeric::inner_count(dims, d),
                            ),
                            dims,
                            c@.dtype,
                            c@.device,
                            sums,
                        ),
                    },
            };
        law_contiguous_accepted(a, c);
        let c = c->Ok_0;
        let v = choose|v: Result<Vec<B::Scalar>>| #[trigger]
            host::values_result(c, v) && match v {
                Err(e) => sums == Err::<Tensor<B>, _>(e),
                Ok(v) => tensor::uploaded(
                    numeric::running_sum(v@, dims[d] as int, numeric::inner_count(dims, d)),
                    dims,
                    c@.dtype,
                    c@.device,
                    sums,
                ),
            };
        assert(c@.dims() == dims);
        lemma_values(c, v);
        lemma_uploaded(
            numeric::running_sum(v->Ok_0@, dims[d] as int, numeric::inner_count(dims, d)),
            dims,
            c@.dtype,
            c@.device,
            sums,
        );
        lemma_sort(a, dim, descending, sorted);
    }
    let s = choose|s: Result<(Tensor<B>, Tensor<B>)>| #[trigger]
        numeric::sort_result(a, dim, descending, s) && match s {
            Err(e) => order == Err::<Tensor<B>, _>(e),
            Ok(pair) => order == Ok::<Tensor<B>, Error>(pair.1),
        };
    if dim < dims.len() {
        lemma_sort(a, dim, descending, s);
    }
}

proof fn lemma_sort<B: Backend>(
    a: Tensor<B>,
    dim: usize,
    descending: bool,
    r: Result<(Tensor<B>, Tensor<B>)>,
)
    requires
        obliges::<B>(),
        lists::<B>(),
        nd::fits(a@.dims()),
        numeric::sort_result(a, dim, descending, r),
        dim < a@.dims().len(),
    ensures
        r is Ok,
{
    let dims = a@.dims();
    let d = dim as int;
    if r is Err {
        let c = choose|c: Result<Tensor<B>>| #[trigger]
            call_ensures(Tensor::contiguous, (&a,), c) && match c {
                Err(e) => r == Err::<(Tensor<B>, Tensor<B>), _>(e),
                Ok(c) => exists|v: Result<Vec<B::Scalar>>| #[trigger]
                    host::values_result(c, v) && match v {
                        Err(e) => r == Err::<(Tensor<B>, Tensor<B>), _>(e),
                        Ok(v) => numeric::sorted_result(c, dims, d, v@, descending, r),
                    },
            };
        law_contiguous_accepted(a, c);
        let c = c->Ok_0;
        let v = choose|v: Result<Vec<B::Scalar>>| #[trigger]
            host::values_result(c, v) && match v {
                Err(e) => r == Err::<(Tensor<B>, Tensor<B>), _>(e),
                Ok(v) => numeric::sorted_result(c, dims, d, v@, descending, r),
            };
        assert(c@.dims() == dims);
        lemma_values(c, v);
        let data = v->Ok_0@;
        let size = dims[d] as int;
        let inner = numeric::inner_count(dims, d);
        assert forall|x: Seq<B::Scalar>, q: Result<Tensor<B>>| #[trigger]
            tensor::uploaded(x, dims, c@.dtype, c@.device, q) && x.len() == data.len() implies q
            is Ok by {
            lemma_uploaded(x, dims, c@.dtype, c@.device, q);
        }
    }
}

/// The largest elements along a dimension of a tensor that has elements can be had
/// if and only if the dimension is there and has as many.
pub proof fn law_topk_accepted<B: Backend>(
    a: Tensor<B>,
    k: usize,
    dim: usize,
    r: Result<(Tensor<B>, Vec<usize>)>,
)
    requires
        obliges::<B>(),
        lists::<B>(),
        nd::fits(a@.dims()),
        0 < nd::product(a@.dims()) <= usize::MAX,
        k > 0,
        call_ensures(Tensor::topk, (&a, k, dim), r),
    ensures
        r is Ok <==> dim < a@.dims().len() && k <= a@.dims()[dim as int],
{
    let dims = a@.dims();
    let d = dim as int;
    if dim < dims.len() && k <= dims[d] && r is Err {
        let v = choose|v: Result<Vec<B::Scalar>>| #[trigger]
            host::dense_values_result(a, v) && match v {
                Err(e) => r == Err::<(Tensor<B>, Vec<usize>), _>(e),
                Ok(v) => numeric::top_result(a, k as int, d, v@, r),
            };
        lemma_dense_values(a, v);
        let small = dims.update(d, k);
        let outer = numeric::outer_count(dims, d);
        let inner = numeric::inner_count(dims, d);
        lemma_middle(dims, d);
        lemma_middle(small, d);
        assert(small.take(d) =~= dims.take(d) && small.skip(d + 1) =~= dims.skip(d + 1));
        let big = dims[d] as int;
        let s = k as int;
        assert(0 < outer * s * inner <= outer * big * inner) by (nonlinear_arith)
            requires
                outer * big * inner > 0,
                0 < s <= big,
                outer >= 0,
                inner >= 0,
        ;
        nd::lemma_count_fits(small);
        assert forall|x: Seq<B::Scalar>, q: Result<Tensor<B>>| #[trigger]
            tensor::uploaded(x, small, a@.dtype, a@.device, q) && x.len() == nd::product(
                small,
            ) implies q is Ok by {
            lemma_uploaded(x, small, a@.dtype, a@.device, q);
        }
    }
}

/// The elements before, along and after a dimension.
proof fn lemma_middle(dims: Seq<usize>, d: int)
    requires
        0 <= d < dims.len(),
    ensures
        nd::product(dims) == nd::product(dims.take(d)) * dims[d] * nd::product(dims.skip(d + 1)),
{
    let head = dims.take(d);
    let tail = dims.skip(d);
    nd::lemma_product_add(head, tail);
    assert(head + tail =~= dims);
    assert(tail.skip(1) =~= dims.skip(d + 1));
    let h = nd::product(head) as int;
    let m = dims[d] as int;
    let t = nd::product(dims.skip(d + 1)) as int;
    assert(h * (m * t) == h * m * t) by (nonlinear_arith);
}

/// Evenly spaced numbers are accepted if and only if there is one.
pub proof fn law_linspace_accepted<B: Backend>(
    start: B::Scalar,
    end: B::Scalar,
    steps: usize,
    dtype: DType,
    device: B::Device,
    r: Result<Tensor<B>>,
)
    requires
        lists::<B>(),
        call_ensures(Tensor::<B>::linspace, (start, end, steps, dtype, &device), r),
    ensures
        r is Ok <==> steps >= 1,
{
    if steps >= 1 {
        let dims = seq![steps];
        assert(dims.skip(1) =~= Seq::<usize>::empty());
        assert(nd::product(dims.skip(1)) == 1);
        lemma_mul_basics(steps as int);
        assert(nd::product(dims) == steps);
        nd::lemma_count_fits(dims);
        if steps == 1 {
            assert(seq![1usize] =~= dims);
            lemma_uploaded(seq![start], dims, dtype, device, r);
        } else {
            lemma_uploaded(
                numeric::spaced(start, numeric::spacing(start, end, steps), steps as nat),
                dims,
                dtype,
                device,
                r,
            );
        }
    }
}

/// A 2D convolution is accepted if and only if the input and the weight have four
/// dimensions and the same number of channels, the kernel is no larger than the
/// padded input, and there is a bias for each output channel, or none at all. (Sizes
/// that cannot be addressed are refused too.)
pub proof fn law_conv2d_accepted<B: Backend>(
    a: Tensor<B>,
    weight: Tensor<B>,
    bias: Option<&Tensor<B>>,
    stride: [usize; 2],
    padding: [usize; 2],
    r: Result<Tensor<B>>,
)
    requires
        obliges::<B>(),
        lists::<B>(),
        nd::fits(a@.dims()),
        nd::fits(weight@.dims()),
        bias matches Some(b) ==> nd::fits(b@.dims()),
        stride@[0] > 0,
        stride@[1] > 0,
        call_ensures(Tensor::conv2d, (&a, &weight, bias, stride, padding), r),
    ensures
        ({
            let d = a@.dims();
            let k = weight@.dims();
            let good = {
                &&& d.len() == 4
                &&& k.len() == 4
                &&& d[1] == k[1]
                &&& k[2] <= d[2] + 2 * padding@[0]
                &&& k[3] <= d[3] + 2 * padding@[1]
                &&& bias matches Some(b) ==> nd::product(b@.dims()) >= k[0]
            };
            &&& r is Ok ==> good
            &&& good && r is Err ==> views::is_too_large(r->Err_0)
        }),
{
    let d = a@.dims();
    let k = weight@.dims();
    assert(convolve::conv2d_result(a, weight, convolve::optional_of(bias), stride, padding, r));
    if convolve::conv2d_posed(a, weight, padding) {
        let h_out = convolve::out_len(
            d[2] as int,
            k[2] as int,
            stride@[0] as int,
            padding@[0] as int,
        );
        let w_out = convolve::out_len(
            d[3] as int,
            k[3] as int,
            stride@[1] as int,
            padding@[1] as int,
        );
        if h_out <= usize::MAX && w_out <= usize::MAX {
            lemma_convolved(
                a,
                weight,
                bias,
                convolve::window2(d[1] as int, d[2], d[3], [k[2], k[3]], stride, padding),
                seq![d[0], k[0], h_out as usize, w_out as usize],
                "conv2d"@,
                Op::Conv2d {
                    input: a,
                    weight,
                    bias: convolve::optional_of(bias),
                    stride,
                    padding,
                },
                r,
            );
        }
    }
}

/// A convolution with a window is refused only where sizes cannot be addressed or
/// the bias is too short.
proof fn lemma_convolved<B: Backend>(
    a: Tensor<B>,
    weight: Tensor<B>,
    bias: Option<&Tensor<B>>,
    g: Window,
    own: Seq<usize>,
    name: Seq<char>,
    op: Op<B>,
    r: Result<Tensor<B>>,
)
    requires
        obliges::<B>(),
        lists::<B>(),
        nd::fits(a@.dims()),
        nd::fits(weight@.dims()),
        bias matches Some(b) ==> nd::fits(b@.dims()),
        convolve::convolved(a, weight, convolve::optional_of(bias), g, own, name, op, r),
    ensures
        ({
            let long = bias matches Some(b) ==> nd::product(b@.dims()) >= weight@.dims()[0];
            &&& r is Ok ==> long
            &&& long && r is Err ==> views::is_too_large(r->Err_0)
        }),
{
    assert forall|t: Tensor<B>, v: Result<Vec<B::Scalar>>| #[trigger]
        host::dense_values_result(t, v) && nd::fits(t@.dims()) implies (v matches Ok(v) && v@.len()
        == nd::product(t@.dims())) by {
        lemma_dense_values(t, v);
    }
    assert forall|data: Seq<B::Scalar>| #[trigger]
        convolve::computed_result(data, own, a@.dtype, a@.device, op, r) && r
            is Err implies views::is_too_large(r->Err_0) by {
        lemma_computed(data, own, a@.dtype, a@.device, op, r);
    }
}

/// A tensor around a list that was computed is refused only where its sizes cannot
/// be addressed.
proof fn lemma_computed<B: Backend>(
    data: Seq<B::Scalar>,
    dims: Seq<usize>,
    dtype: DType,
    device: B::Device,
    op: Op<B>,
    r: Result<Tensor<B>>,
)
    requires
        lists::<B>(),
        convolve::computed_result(data, dims, dtype, device, op, r),
    ensures
        r is Err ==> views::is_too_large(r->Err_0),
{
    let made = choose|made: Result<B::Storage>| #[trigger]
        tensor::uploads::<B>(data, dtype, &device, made) && elementwise::stored_result(
            made,
            dims,
            dtype,
            device,
            op,
            r,
        );
    let d = choose|d: &[B::Scalar]|
        d@ == data && #[trigger] call_ensures(B::from_f64_slice, (d, dtype, &device), made);
}

/// A 1D convolution is accepted if and only if the input and the weight have three
/// dimensions and the same number of channels, the kernel is no larger than the
/// padded input, and there is one bias for each output channel, or none at all.
/// (Sizes that cannot be addressed are refused too.)
pub proof fn law_conv1d_accepted<B: Backend>(
    a: Tensor<B>,
    weight: Tensor<B>,
    bias: Option<&Tensor<B>>,
    stride: usize,
    padding: usize,
    r: Result<Tensor<B>>,
)
    requires
        obliges::<B>(),
        lists::<B>(),
        nd::fits(a@.dims()),
        nd::fits(weight@.dims()),
        bias matches Some(b) ==> nd::fits(b@.dims()),
        stride > 0,
        call_ensures(Tensor::conv1d, (&a, &weight, bias, stride, padding), r),
    ensures
        ({
            let d = a@.dims();
            let k = weight@.dims();
            let good = {
                &&& d.len() == 3
                &&& k.len() == 3
                &&& d[1] == k[1]
                &&& k[2] <= d[2] + 2 * padding
                &&& bias matches Some(b) ==> nd::product(b@.dims()) == k[0]
            };
            &&& r is Ok ==> good
            &&& good && r is Err ==> views::is_too_large(r->Err_0)
        }),
{
    let d = a@.dims();
    let k = weight@.dims();
    assert(convolve::conv1d_result(a, weight, convolve::optional_of(bias), stride, padding, r));
    if convolve::conv1d_posed(a, weight, convolve::optional_of(bias), padding) {
        let l_out = convolve::out_len(d[2] as int, k[2] as int, stride as int, padding as int);
        if l_out <= usize::MAX {
            lemma_convolved(
                a,
                weight,
                bias,
                convolve::window1(d[1], d[2], k[2], stride, padding),
                seq![d[0], k[0], l_out as usize],
                "conv1d"@,
                Op::Conv1d {
                    input: a,
                    weight,
                    bias: convolve::optional_of(bias),
                    stride,
                    padding,
                },
                r,
            );
        }
    }
}

/// Pooling is accepted if and only if the input has four dimensions and the kernel
/// is no larger than the padded input. (Sizes that cannot be addressed are refused
/// too.)
pub proof fn law_pooling_accepted<B: Backend>(
    a: Tensor<B>,
    k: [usize; 2],
    stride: [usize; 2],
    padding: [usize; 2],
    top: Result<Tensor<B>>,
    mean: Result<Tensor<B>>,
)
    requires
        obliges::<B>(),
        lists::<B>(),
        nd::fits(a@.dims()),
        stride@[0] > 0,
        stride@[1] > 0,
        call_ensures(Tensor::max_pool2d, (&a, k, stride, padding), top),
        call_ensures(Tensor::avg_pool2d, (&a, k, stride, padding), mean),
    ensures
        ({
            let d = a@.dims();
            let good = {
                &&& d.len() == 4
                &&& k@[0] <= d[2] + 2 * padding@[0]
                &&& k@[1] <= d[3] + 2 * padding@[1]
            };
            &&& top is Ok ==> good
            &&& mean is Ok ==> good
            &&& good && top is Err ==> views::is_too_large(top->Err_0)
            &&& good && mean is Err ==> views::is_too_large(mean->Err_0)
        }),
{
    assert(convolve::max_pool2d_result(a, k, stride, padding, top));
    assert(convolve::avg_pool2d_result(a, k, stride, padding, mean));
    assert forall|v: Result<Vec<B::Scalar>>| #[trigger]
        host::dense_values_result(a, v) implies v is Ok by {
        lemma_dense_values(a, v);
    }
    assert forall|data: Seq<B::Scalar>, own: Seq<usize>, op: Op<B>, r: Result<Tensor<B>>|
        #[trigger]
        convolve::computed_result(data, own, a@.dtype, a@.device, op, r) && r
            is Err implies views::is_too_large(r->Err_0) by {
        lemma_computed(data, own, a@.dtype, a@.device, op, r);
    }
}

/// The number of a tensor can be had if and only if it has one element. The error
/// holds its shape.
pub proof fn law_to_scalar_accepted<B: Backend>(a: Tensor<B>, r: Result<B::Scalar>)
    requires
        obliges::<B>(),
        lists::<B>(),
        call_ensures(Tensor::to_scalar_f64, (&a,), r),
    ensures
        r is Ok <==> nd::product(a@.dims()) == 1,
        r matches Err(e) ==> (e matches Error::NotAScalar { shape } && shape@ == a@.dims()),
{
    if nd::product(a@.dims()) == 1 {
        assert forall|v: Result<Vec<B::Scalar>>| #[trigger]
            host::values_result(a, v) implies v is Ok by {
            lemma_values(a, v);
        }
    }
}

/// Tensors can be stacked if and only if there is one, the new dimension stands
/// between the others or at an end, and all have the sizes and the number type of
/// the first (and the sizes can be addressed).
pub proof fn law_stack_accepted<B: Backend>(ts: &[Tensor<B>], dim: usize, r: Result<Tensor<B>>)
    requires
        obliges::<B>(),
        call_ensures(Tensor::stack, (ts, dim), r),
        ts@.len() > 0 && dim <= ts@[0]@.dims().len() ==> ts@.len() <= usize::MAX && nd::fits(
            ts@[0]@.dims().insert(dim as int, ts@.len() as usize),
        ),
    ensures
        r is Ok <==> {
            &&& ts@.len() > 0
            &&& dim <= ts@[0]@.dims().len()
            &&& forall|k: int|
                0 <= k < ts@.len() ==> (#[trigger] ts@[k])@.dims() == ts@[0]@.dims()
            &&& forall|k: int|
                0 <= k < ts@.len() ==> (#[trigger] ts@[k])@.dtype == ts@[0]@.dtype
        },
{
    let list = ts@;
    assert(joining::stack_result(list, dim, r));
    if list.len() > 0 && dim <= list[0]@.dims().len() {
        let d = dim as int;
        lemma_first_other(list, list.len());
        if !(exists|i: int| joining::stack_stops_at(list, i)) {
            let us = choose|us: Seq<Tensor<B>>| #[trigger]
                joining::all_unsqueezed(list, dim, us) && joining::cat_result(us, dim, r);
            assert forall|k: int| 0 <= k < list.len() implies (#[trigger] us[k])@.dims()
                == list[0]@.dims().insert(d, 1) && us[k]@.dtype == list[k]@.dtype by {
                assert(list[k]@.dims() == list[0]@.dims());
                assert(call_ensures(
                    Tensor::unsqueeze,
                    (&list[k], dim),
                    Ok::<Tensor<B>, Error>(us[k]),
                ));
            }
            lemma_ones_size(us, d, us.len());
            lemma_total_size(us, d, us.len());
            let first = us[0];
            assert(first@.dims().update(d, us.len() as usize) =~= list[0]@.dims().insert(
                d,
                list.len() as usize,
            ));
            assert(forall|t: Tensor<B>| !(#[trigger] t@.storage.can_refuse()));
            lemma_first_stop(us, d, us.len());
            assert forall|k: int| 1 <= k < us.len() implies (joining::joins(
                first,
                #[trigger] us[k],
                d,
            ) <==> list[k]@.dtype == list[0]@.dtype) by {
                assert(us[k]@.dims() == first@.dims());
            }
            if (forall|k: int|
                0 <= k < list.len() ==> (#[trigger] list[k])@.dtype == list[0]@.dtype) {
                assert forall|i: int| !joining::join_stops_at(us, d, i) by {
                    if 1 <= i < us.len() {
                        assert(list[i]@.dtype == list[0]@.dtype);
                        assert(joining::joins(first, us[i], d));
                    }
                }
                assert(r is Ok);
            }
            if r is Ok {
                assert forall|k: int| 0 <= k < list.len() implies (#[trigger] list[k])@.dtype
                    == list[0]@.dtype by {
                    if k >= 1 && us.len() >= 2 {
                        assert(joining::joins(first, us[k], d));
                    }
                }
            }
        }
    }
}

/// The first tensor of another shape than the tensor before the others.
proof fn lemma_first_other<B: Backend>(ts: Seq<Tensor<B>>, n: nat)
    requires
        1 <= n <= ts.len(),
    ensures
        (forall|k: int| 0 <= k < n ==> (#[trigger] ts[k])@.dims() == ts[0]@.dims()) || exists|
            i: int,
        | #[trigger]
            joining::stack_stops_at(ts, i),
    decreases n,
{
    if n > 1 {
        lemma_first_other(ts, (n - 1) as nat);
        if (forall|k: int| 0 <= k < n - 1 ==> (#[trigger] ts[k])@.dims() == ts[0]@.dims())
            && ts[n - 1]@.dims() != ts[0]@.dims() {
            assert(joining::stack_stops_at(ts, n - 1));
        }
    }
}

/// Tensors of size 1 along a dimension have as many slices as they are.
proof fn lemma_ones_size<B: Backend>(ts: Seq<Tensor<B>>, dim: int, n: nat)
    requires
        n <= ts.len(),
        forall|k: int| 0 <= k < ts.len() ==> (#[trigger] ts[k])@.dims()[dim] == 1,
    ensures
        total_size(ts, dim, n) == n,
    decreases n,
{
    if n > 0 {
        lemma_ones_size(ts, dim, (n - 1) as nat);
    }
}

} // verus!
