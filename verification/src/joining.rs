//! Joining tensors: concatenation, stacking and padding.
use crate::backend::Backend;
use crate::error::{Error, Result};
use crate::layout::Layout;
use crate::nd;
use crate::op::{copy_tensors, Op};
use crate::shape::{copy_sizes, same_sizes, Shape};
use crate::tensor::{self, Tensor};
use crate::text::{self, push_list, push_usize};
use crate::views::{self, contiguous_layout};
use std::sync::RwLockReadGuard;
use vstd::prelude::*;

verus! {

/// The sizes of a tensor are those of another but for one dimension.
pub open spec fn agree_but(a: Seq<usize>, b: Seq<usize>, dim: int) -> bool {
    forall|d: int| 0 <= d < a.len() && d != dim ==> #[trigger] a[d] == b[d]
}

/// A tensor can be joined to the first along `dim`.
pub open spec fn joins<B: Backend>(first: Tensor<B>, t: Tensor<B>, dim: int) -> bool {
    &&& t@.dims().len() == first@.dims().len()
    &&& t@.dtype == first@.dtype
    &&& agree_but(first@.dims(), t@.dims(), dim)
}

/// The message about a tensor of another rank.
pub open spec fn cat_rank_text(i: int, got: nat, expected: nat) -> Seq<char> {
    "cat: tensor "@ + text::decimal(i as nat) + " has rank "@ + text::decimal(got)
        + " but expected "@ + text::decimal(expected)
}

/// The message about a tensor with another size.
pub open spec fn cat_size_text(i: int, got: usize, d: int, expected: usize) -> Seq<char> {
    "cat: tensor "@ + text::decimal(i as nat) + " has size "@ + text::decimal(got as nat)
        + " at dim "@ + text::decimal(d as nat) + " but expected "@ + text::decimal(expected as nat)
}

/// The error about the `i`-th tensor, which cannot be joined to the first.
pub open spec fn is_join_error<B: Backend>(
    first: Tensor<B>,
    t: Tensor<B>,
    i: int,
    dim: int,
    e: Error,
) -> bool {
    if t@.dims().len() != first@.dims().len() {
        e matches Error::Msg(m) && m@ == cat_rank_text(i, t@.dims().len(), first@.dims().len())
    } else if t@.dtype != first@.dtype {
        e == (Error::DTypeMismatch { expected: first@.dtype, got: t@.dtype })
    } else {
        e matches Error::Msg(m) && exists|d: int|
            {
                &&& 0 <= d < first@.dims().len()
                &&& d != dim
                &&& #[trigger] first@.dims()[d] != t@.dims()[d]
                &&& forall|c: int|
                    0 <= c < d && c != dim ==> #[trigger] first@.dims()[c] == t@.dims()[c]
                &&& m@ == cat_size_text(i, t@.dims()[d], d, first@.dims()[d])
            }
    }
}

/// The `i`-th tensor is the first that cannot be joined to the others.
pub open spec fn join_stops_at<B: Backend>(ts: Seq<Tensor<B>>, dim: int, i: int) -> bool {
    &&& 1 <= i < ts.len()
    &&& !joins(ts[0], ts[i], dim)
    &&& forall|j: int| 1 <= j < i ==> joins(ts[0], #[trigger] ts[j], dim)
}

/// The sum of the sizes of the first `n` tensors along a dimension.
pub open spec fn joined_size<B: Backend>(ts: Seq<Tensor<B>>, dim: int, n: nat) -> nat
    decreases n,
{
    if n == 0 {
        0
    } else {
        joined_size(ts, dim, (n - 1) as nat) + ts[n - 1]@.dims()[dim] as nat
    }
}

/// The sizes of tensors along a dimension.
pub open spec fn sizes_along<B: Backend>(ts: Seq<Tensor<B>>, dim: int) -> Seq<usize> {
    Seq::new(ts.len(), |i: int| ts[i]@.dims()[dim])
}

/// The backend is handed the storage and the layout of each tensor.
pub open spec fn paired<B: Backend>(
    ts: Seq<Tensor<B>>,
    pairs: Seq<(&B::Storage, &Layout)>,
) -> bool {
    &&& pairs.len() == ts.len()
    &&& forall|i: int|
        0 <= i < ts.len() ==> ts[i]@.storage.can_hold(*(#[trigger] pairs[i]).0) && *pairs[i].1
            == ts[i]@.layout
}

/// The joined tensor around what a backend returned.
pub open spec fn join_of<B: Backend>(
    made: Result<B::Storage>,
    ts: Seq<Tensor<B>>,
    dim: usize,
    dims: Seq<usize>,
    r: Result<Tensor<B>>,
) -> bool {
    match made {
        Err(e) => r == Err::<Tensor<B>, _>(e),
        Ok(s) => r matches Ok(t) && {
            &&& tensor::stored(t, s, dims, ts[0]@.dtype, ts[0]@.device)
            &&& t@.op matches Op::Cat { inputs, dim: d, sizes } && inputs@ == ts && d == dim
                && sizes@ == sizes_along(ts, dim as int)
        },
    }
}

/// The result of a concatenation along a dimension.
pub open spec fn cat_result<B: Backend>(ts: Seq<Tensor<B>>, dim: usize, r: Result<Tensor<B>>) -> bool {
    if ts.len() == 0 {
        r matches Err(Error::Msg(m)) && m@ == "cat: empty tensor list"@
    } else if ts.len() == 1 {
        r == Ok::<Tensor<B>, Error>(ts[0])
    } else if dim >= ts[0]@.dims().len() {
        r == Err::<Tensor<B>, _>(
            Error::DimOutOfRange { dim, rank: ts[0]@.dims().len() as usize },
        )
    } else if exists|i: int| join_stops_at(ts, dim as int, i) {
        r matches Err(e) && exists|i: int| #[trigger]
            join_stops_at(ts, dim as int, i) && is_join_error(ts[0], ts[i], i, dim as int, e)
    } else {
        let size = joined_size(ts, dim as int, ts.len());
        let dims = ts[0]@.dims().update(dim as int, size as usize);
        if size > usize::MAX || !nd::fits(dims) {
            r matches Err(e) && views::is_too_large(e)
        } else {
            ||| exists|i: int| 0 <= i < ts.len() && tensor::refused(#[trigger] ts[i], r)
            ||| exists|pairs: &[(&B::Storage, &Layout)], shape: Shape, made: Result<B::Storage>|
                {
                    &&& paired(ts, pairs@)
                    &&& shape@ == dims
                    &&& #[trigger] call_ensures(B::cat, (pairs, &shape, dim), made)
                    &&& join_of(made, ts, dim, dims, r)
                }
        }
    }
}

/// The message about a tensor of another shape.
pub open spec fn stack_shape_text(i: int, got: Seq<usize>, expected: Seq<usize>) -> Seq<char> {
    "stack: tensor "@ + text::decimal(i as nat) + " has shape "@ + text::list_text(got)
        + " but expected "@ + text::list_text(expected)
}

/// The `i`-th tensor is the first of another shape than the tensor before
/// the others.
pub open spec fn stack_stops_at<B: Backend>(ts: Seq<Tensor<B>>, i: int) -> bool {
    &&& 1 <= i < ts.len()
    &&& ts[i]@.dims() != ts[0]@.dims()
    &&& forall|j: int| 1 <= j < i ==> (#[trigger] ts[j])@.dims() == ts[0]@.dims()
}

/// Each tensor with a dimension of size 1 at `dim`.
pub open spec fn all_unsqueezed<B: Backend>(
    ts: Seq<Tensor<B>>,
    dim: usize,
    us: Seq<Tensor<B>>,
) -> bool {
    &&& us.len() == ts.len()
    &&& forall|i: int|
        0 <= i < ts.len() ==> call_ensures(
            Tensor::unsqueeze,
            (&ts[i], dim),
            Ok::<Tensor<B>, Error>(#[trigger] us[i]),
        )
}

/// The result of stacking tensors along a new dimension.
pub open spec fn stack_result<B: Backend>(
    ts: Seq<Tensor<B>>,
    dim: usize,
    r: Result<Tensor<B>>,
) -> bool {
    if ts.len() == 0 {
        r matches Err(Error::Msg(m)) && m@ == "stack: empty tensor list"@
    } else if dim > ts[0]@.dims().len() {
        r == Err::<Tensor<B>, _>(
            Error::DimOutOfRange { dim, rank: (ts[0]@.dims().len() + 1) as usize },
        )
    } else if exists|i: int| stack_stops_at(ts, i) {
        r matches Err(Error::Msg(m)) && exists|i: int| #[trigger]
            stack_stops_at(ts, i) && m@ == stack_shape_text(i, ts[i]@.dims(), ts[0]@.dims())
    } else {
        exists|us: Seq<Tensor<B>>| #[trigger]
            all_unsqueezed(ts, dim, us) && cat_result(us, dim, r)
    }
}

/// The message about more padding pairs than dimensions.
pub open spec fn pad_text(pairs: nat, rank: nat) -> Seq<char> {
    "pad: "@ + text::decimal(pairs) + " padding pairs but tensor rank is "@ + text::decimal(rank)
}

/// The padding of every dimension: that of the last ones is given, the
/// others have none.
pub open spec fn full_padding(padding: Seq<[usize; 2]>, rank: nat) -> Seq<[usize; 2]> {
    let lead = rank - padding.len();
    Seq::new(
        rank,
        |i: int|
            if i >= lead {
                padding[i - lead]
            } else {
                [0usize, 0usize]
            },
    )
}

/// The size of a padded dimension.
pub open spec fn padded_size(size: usize, p: [usize; 2]) -> int {
    size + p@[0] + p@[1]
}

/// The sizes of a padded tensor.
pub open spec fn padded_dims(dims: Seq<usize>, padding: Seq<[usize; 2]>) -> Seq<usize> {
    Seq::new(dims.len(), |i: int| padded_size(dims[i], padding[i]) as usize)
}

/// Every padded size is a machine number.
pub open spec fn padded_fit(dims: Seq<usize>, padding: Seq<[usize; 2]>) -> bool {
    &&& forall|i: int|
        0 <= i < dims.len() ==> #[trigger] padded_size(dims[i], padding[i]) <= usize::MAX
    &&& nd::fits(padded_dims(dims, padding))
}

/// No dimension is padded.
pub open spec fn no_padding(p: [usize; 2]) -> bool {
    p@[0] == 0 && p@[1] == 0
}

/// A block of padding: the sizes of `cur` but for one dimension, filled with
/// a value; the dtype and the device are those of `a`.
pub open spec fn pad_block<B: Backend>(
    a: Tensor<B>,
    cur: Tensor<B>,
    d: int,
    size: usize,
    value: B::Scalar,
    r: Result<Tensor<B>>,
) -> bool {
    exists|s: Shape|
        s@ == cur@.dims().update(d, size) && #[trigger] tensor::full_result(
            s,
            value,
            a@.dtype,
            a@.device,
            r,
        )
}

/// A block of padding, or nothing where its size is 0.
pub open spec fn pad_part<B: Backend>(
    a: Tensor<B>,
    cur: Tensor<B>,
    d: int,
    size: usize,
    value: B::Scalar,
    part: Result<Seq<Tensor<B>>>,
) -> bool {
    if size == 0 {
        part == Ok::<Seq<Tensor<B>>, Error>(seq![])
    } else {
        exists|b: Result<Tensor<B>>| #[trigger]
            pad_block(a, cur, d, size, value, b) && match b {
                Err(e) => part == Err::<Seq<Tensor<B>>, _>(e),
                Ok(t) => part == Ok::<Seq<Tensor<B>>, Error>(seq![t]),
            }
    }
}

/// Padding one dimension: a block before, the tensor, a block after.
pub open spec fn pad_step<B: Backend>(
    a: Tensor<B>,
    cur: Tensor<B>,
    d: int,
    p: [usize; 2],
    value: B::Scalar,
    r: Result<Tensor<B>>,
) -> bool {
    exists|before: Result<Seq<Tensor<B>>>| #[trigger]
        pad_part(a, cur, d, p@[0], value, before) && match before {
            Err(e) => r == Err::<Tensor<B>, _>(e),
            Ok(before) => exists|after: Result<Seq<Tensor<B>>>| #[trigger]
                pad_part(a, cur, d, p@[1], value, after) && match after {
                    Err(e) => r == Err::<Tensor<B>, _>(e),
                    Ok(after) => cat_result(before.push(cur) + after, d as usize, r),
                },
        }
}

/// Padding the first `n` dimensions, the last of them first.
pub open spec fn pad_chain<B: Backend>(
    a: Tensor<B>,
    padding: Seq<[usize; 2]>,
    value: B::Scalar,
    n: nat,
    cur: Tensor<B>,
    r: Result<Tensor<B>>,
) -> bool
    decreases n,
{
    if n == 0 {
        r == Ok::<Tensor<B>, Error>(cur)
    } else {
        let d = n - 1;
        if no_padding(padding[d]) {
            pad_chain(a, padding, value, d as nat, cur, r)
        } else {
            exists|step: Result<Tensor<B>>| #[trigger]
                pad_step(a, cur, d, padding[d], value, step) && match step {
                    Err(e) => r == Err::<Tensor<B>, _>(e),
                    Ok(next) => pad_chain(a, padding, value, d as nat, next, r),
                }
        }
    }
}

/// The result of padding a tensor.
pub open spec fn pad_result<B: Backend>(
    a: Tensor<B>,
    padding: Seq<[usize; 2]>,
    value: B::Scalar,
    r: Result<Tensor<B>>,
) -> bool {
    let rank = a@.dims().len();
    let full = full_padding(padding, rank);
    if padding.len() > rank {
        r matches Err(Error::Msg(m)) && m@ == pad_text(padding.len(), rank)
    } else if !padded_fit(a@.dims(), full) {
        r matches Err(e) && views::is_too_large(e)
    } else if forall|i: int| 0 <= i < rank ==> no_padding(#[trigger] full[i]) {
        r == Ok::<Tensor<B>, Error>(a)
    } else {
        exists|grown: Result<Tensor<B>>| #[trigger]
            pad_chain(a, full, value, rank, a, grown) && match grown {
                Err(e) => r == Err::<Tensor<B>, _>(e),
                Ok(g) => {
                    ||| tensor::refused(g, r)
                    ||| exists|s: B::Storage, c: B::Storage|
                        {
                            &&& g@.storage.can_hold(s)
                            &&& #[trigger] call_ensures(B::Storage::clone, (&s,), c)
                            &&& r matches Ok(t) && tensor::stored(
                                t,
                                c,
                                padded_dims(a@.dims(), full),
                                a@.dtype,
                                a@.device,
                            ) && (t@.op matches Op::Pad { input, padding: p } && input == a && p@
                                == full)
                        }
                },
            }
    }
}

impl<B: Backend> Tensor<B> {
    /// Why a tensor cannot be joined to the first, if it cannot.
    fn check_join(first: &Self, t: &Self, i: usize, dim: usize) -> (r: Result<()>)
        ensures
            match r {
                Ok(()) => joins(*first, *t, dim as int),
                Err(e) => !joins(*first, *t, dim as int) && is_join_error(
                    *first,
                    *t,
                    i as int,
                    dim as int,
                    e,
                ),
            },
    {
        let a = first.dims();
        let b = t.dims();
        let rank: usize = a.len();
        if b.len() != rank {
            let mut m = String::new();
            m.append("cat: tensor ");
            push_usize(&mut m, i);
            m.append(" has rank ");
            push_usize(&mut m, b.len());
            m.append(" but expected ");
            push_usize(&mut m, rank);
            assert(m@ =~= cat_rank_text(i as int, b@.len(), a@.len()));
            return Err(Error::Msg(m));
        }
        if t.dtype() != first.dtype() {
            return Err(Error::DTypeMismatch { expected: first.dtype(), got: t.dtype() });
        }
        let mut d: usize = 0;
        while d < rank
            invariant
                rank == a@.len(),
                rank == b@.len(),
                a@ == first@.dims(),
                b@ == t@.dims(),
                first@.dtype == t@.dtype,
                d <= rank,
                forall|c: int| 0 <= c < d && c != dim ==> #[trigger] a@[c] == b@[c],
            decreases rank - d,
        {
            if d != dim && b[d] != a[d] {
                let mut m = String::new();
                m.append("cat: tensor ");
                push_usize(&mut m, i);
                m.append(" has size ");
                push_usize(&mut m, b[d]);
                m.append(" at dim ");
                push_usize(&mut m, d);
                m.append(" but expected ");
                push_usize(&mut m, a[d]);
                assert(m@ =~= cat_size_text(i as int, b@[d as int], d as int, a@[d as int]));
                assert(first@.dims()[d as int] != t@.dims()[d as int]);
                return Err(Error::Msg(m));
            }
            d += 1;
        }
        Ok(())
    }

    /// The first of the tensors before `k` that is found to share its storage
    /// with tensor `k`.
    fn earlier_owner(tensors: &[Self], k: usize) -> (r: Option<usize>)
        requires
            k < tensors@.len(),
        ensures
            r matches Some(j) ==> j < k && tensors@[j as int]@.storage
                == tensors@[k as int]@.storage,
    {
        let mut j: usize = 0;
        while j < k
            invariant
                j <= k < tensors@.len(),
            decreases k - j,
        {
            if tensors[k].shares_storage(&tensors[j]) {
                return Some(j);
            }
            j += 1;
        }
        None
    }

    /// Holds the storage of all tensors for reading, each once, and says which
    /// guard is whose.
    fn read_all(tensors: &[Self]) -> (r: Result<
        (Vec<RwLockReadGuard<'_, B::Storage>>, Vec<usize>),
    >)
        ensures
            match r {
                Ok((guards, places)) => places@.len() == tensors@.len() && forall|l: int|
                    0 <= l < tensors@.len() ==> (#[trigger] places@[l]) < guards@.len()
                        && tensors@[l]@.storage.read_by(guards@[places@[l] as int]),
                Err(e) => exists|i: int|
                    0 <= i < tensors@.len() && tensor::refused::<B, Self>(
                        #[trigger] tensors@[i],
                        Err(e),
                    ),
            },
    {
        let n: usize = tensors.len();
        let mut guards: Vec<RwLockReadGuard<'_, B::Storage>> = Vec::with_capacity(n);
        let mut places: Vec<usize> = Vec::with_capacity(n);
        let mut k: usize = 0;
        while k < n
            invariant
                n == tensors@.len(),
                k <= n,
                places@.len() == k,
                guards@.len() <= k,
                forall|l: int|
                    0 <= l < k ==> (#[trigger] places@[l]) < guards@.len()
                        && tensors@[l]@.storage.read_by(guards@[places@[l] as int]),
            decreases n - k,
        {
            match Self::earlier_owner(tensors, k) {
                Some(j) => {
                    let place: usize = places[j];
                    places.push(place);
                },
                None => match tensors[k].storage() {
                    Ok(guard) => {
                        let place: usize = guards.len();
                        guards.push(guard);
                        places.push(place);
                    },
                    Err(e) => {
                        assert(tensor::refused::<B, Self>(tensors@[k as int], Err(e)));
                        return Err(e);
                    },
                },
            }
            k += 1;
        }
        Ok((guards, places))
    }

    /// Concatenate tensors along a dimension. All tensors must have the same
    /// shape except in that dimension.
    pub fn cat(tensors: &[Self], dim: usize) -> (r: Result<Self>)
        ensures
            cat_result(tensors@, dim, r),
    {
        let n: usize = tensors.len();
        if n == 0 {
            return Err(Error::Msg("cat: empty tensor list".to_owned()));
        }
        if n == 1 {
            return Ok(tensors[0].clone());
        }
        let first = &tensors[0];
        let rank: usize = first.rank();
        if dim >= rank {
            return Err(Error::DimOutOfRange { dim, rank });
        }
        let mut i: usize = 1;
        while i < n
            invariant
                n == tensors@.len(),
                n >= 2,
                1 <= i <= n,
                *first == tensors@[0],
                rank == first@.dims().len(),
                dim < rank,
                forall|j: int| 1 <= j < i ==> joins(tensors@[0], #[trigger] tensors@[j], dim as int),
            decreases n - i,
        {
            match Self::check_join(first, &tensors[i], i, dim) {
                Ok(()) => {},
                Err(e) => {
                    assert(join_stops_at(tensors@, dim as int, i as int));
                    return Err(e);
                },
            }
            i += 1;
        }
        let mut size: usize = 0;
        let mut sizes: Vec<usize> = Vec::with_capacity(n);
        let mut too_big = false;
        let mut j: usize = 0;
        while j < n
            invariant
                n == tensors@.len(),
                n >= 2,
                j <= n,
                *first == tensors@[0],
                rank == first@.dims().len(),
                dim < rank,
                forall|k: int| 1 <= k < n ==> joins(tensors@[0], #[trigger] tensors@[k], dim as int),
                sizes@ == sizes_along(tensors@, dim as int).take(j as int),
                too_big ==> joined_size(tensors@, dim as int, j as nat) > usize::MAX,
                !too_big ==> size == joined_size(tensors@, dim as int, j as nat),
            decreases n - j,
        {
            proof {
                if j > 0 {
                    assert(joins(tensors@[0], tensors@[j as int], dim as int));
                }
            }
            let s: usize = tensors[j].dims()[dim];
            sizes.push(s);
            assert(sizes@ =~= sizes_along(tensors@, dim as int).take(j + 1));
            if !too_big {
                match size.checked_add(s) {
                    Some(t) => {
                        size = t;
                    },
                    None => {
                        too_big = true;
                    },
                }
            }
            j += 1;
        }
        assert(sizes@ =~= sizes_along(tensors@, dim as int));
        if too_big {
            return Err(views::too_large());
        }
        let mut dims = copy_sizes(first.dims());
        dims[dim] = size;
        let shape = Shape::new(dims);
        let layout = contiguous_layout(shape.clone())?;
        let (guards, places) = Self::read_all(tensors)?;
        let mut pairs: Vec<(&B::Storage, &Layout)> = Vec::with_capacity(n);
        let mut p: usize = 0;
        while p < n
            invariant
                n == tensors@.len(),
                n == places@.len(),
                p <= n,
                pairs@.len() == p,
                forall|l: int|
                    0 <= l < n ==> (#[trigger] places@[l]) < guards@.len()
                        && tensors@[l]@.storage.read_by(guards@[places@[l] as int]),
                forall|l: int|
                    0 <= l < p ==> tensors@[l]@.storage.can_hold(*(#[trigger] pairs@[l]).0)
                        && *pairs@[l].1 == tensors@[l]@.layout,
            decreases n - p,
        {
            let t = &tensors[p];
            let s = t.contents(&guards[places[p]]);
            pairs.push((s, t.layout()));
            p += 1;
        }
        let made = B::cat(pairs.as_slice(), &shape, dim);
        let s = made?;
        let record = Op::Cat { inputs: copy_tensors(tensors), dim, sizes };
        Ok(Self::from_storage(s, layout, first.dtype(), first.device().clone(), record))
    }

    /// Stack tensors of the same shape along a new dimension.
    pub fn stack(tensors: &[Self], dim: usize) -> (r: Result<Self>)
        ensures
            stack_result(tensors@, dim, r),
    {
        let n: usize = tensors.len();
        if n == 0 {
            return Err(Error::Msg("stack: empty tensor list".to_owned()));
        }
        let first = tensors[0].dims();
        let rank: usize = first.len();
        if dim > rank {
            return Err(Error::DimOutOfRange { dim, rank: rank + 1 });
        }
        let mut i: usize = 1;
        while i < n
            invariant
                n == tensors@.len(),
                n >= 1,
                1 <= i <= n,
                first@ == tensors@[0]@.dims(),
                rank == first@.len(),
                dim <= rank,
                forall|j: int| 1 <= j < i ==> (#[trigger] tensors@[j])@.dims() == first@,
            decreases n - i,
        {
            let d = tensors[i].dims();
            if !same_sizes(d, first) {
                let mut m = String::new();
                m.append("stack: tensor ");
                push_usize(&mut m, i);
                m.append(" has shape ");
                push_list(&mut m, d);
                m.append(" but expected ");
                push_list(&mut m, first);
                assert(m@ =~= stack_shape_text(i as int, d@, first@));
                assert(stack_stops_at(tensors@, i as int));
                return Err(Error::Msg(m));
            }
            i += 1;
        }
        let mut us: Vec<Self> = Vec::with_capacity(n);
        let mut k: usize = 0;
        while k < n
            invariant
                n == tensors@.len(),
                k <= n,
                rank == first@.len(),
                dim <= rank,
                first@ == tensors@[0]@.dims(),
                forall|j: int| 1 <= j < n ==> (#[trigger] tensors@[j])@.dims() == first@,
                us@.len() == k,
                forall|j: int|
                    0 <= j < k ==> call_ensures(
                        Tensor::unsqueeze,
                        (&tensors@[j], dim),
                        Ok::<Tensor<B>, Error>(#[trigger] us@[j]),
                    ),
            decreases n - k,
        {
            assert(tensors@[k as int]@.dims() == first@);
            let u = tensors[k].unsqueeze(dim)?;
            us.push(u);
            k += 1;
        }
        assert(all_unsqueezed(tensors@, dim, us@));
        Self::cat(us.as_slice(), dim)
    }

    /// A block of padding.
    fn pad_block(&self, cur: &Self, d: usize, size: usize, value: B::Scalar) -> (r: Result<Self>)
        requires
            d < cur@.dims().len(),
        ensures
            pad_block(*self, *cur, d as int, size, value, r),
    {
        let mut dims = copy_sizes(cur.dims());
        dims[d] = size;
        Self::filled(Shape::new(dims), value, self.dtype(), self.device())
    }

    /// Pads one dimension.
    fn pad_step(&self, cur: &Self, d: usize, p: [usize; 2], value: B::Scalar) -> (r: Result<Self>)
        requires
            d < cur@.dims().len(),
        ensures
            pad_step(*self, *cur, d as int, p, value, r),
    {
        let mut parts: Vec<Self> = Vec::new();
        let before: usize = p[0];
        let after: usize = p[1];
        if before > 0 {
            match self.pad_block(cur, d, before, value) {
                Ok(b) => {
                    assert(pad_block(*self, *cur, d as int, before, value, Ok(b)));
                    parts.push(b);
                    assert(parts@ =~= seq![b]);
                },
                Err(e) => {
                    assert(pad_block(*self, *cur, d as int, before, value, Err(e)));
                    assert(pad_part(*self, *cur, d as int, before, value, Err(e)));
                    return Err(e);
                },
            }
        } else {
            assert(parts@ =~= seq![]);
        }
        let ghost head = parts@;
        assert(pad_part(*self, *cur, d as int, before, value, Ok(head)));
        parts.push(cur.clone());
        if after > 0 {
            match self.pad_block(cur, d, after, value) {
                Ok(b) => {
                    assert(pad_block(*self, *cur, d as int, after, value, Ok(b)));
                    parts.push(b);
                    assert(parts@ =~= head.push(*cur) + seq![b]);
                    assert(pad_part(*self, *cur, d as int, after, value, Ok(seq![b])));
                },
                Err(e) => {
                    assert(pad_block(*self, *cur, d as int, after, value, Err(e)));
                    assert(pad_part(*self, *cur, d as int, after, value, Err(e)));
                    return Err(e);
                },
            }
        } else {
            assert(parts@ =~= head.push(*cur) + seq![]);
            assert(pad_part(*self, *cur, d as int, after, value, Ok(seq![])));
        }
        Self::cat(parts.as_slice(), d)
    }

    /// Pad the last dimensions with a constant value: `[before, after]`
    /// pairs, one per dimension.
    pub fn pad(&self, padding: &[[usize; 2]], value: B::Scalar) -> (r: Result<Self>)
        ensures
            pad_result(*self, padding@, value, r),
    {
        let dims = self.dims();
        let rank: usize = dims.len();
        let n: usize = padding.len();
        if n > rank {
            let mut m = String::new();
            m.append("pad: ");
            push_usize(&mut m, n);
            m.append(" padding pairs but tensor rank is ");
            push_usize(&mut m, rank);
            assert(m@ =~= pad_text(n as nat, rank as nat));
            return Err(Error::Msg(m));
        }
        let ghost full_spec = full_padding(padding@, rank as nat);
        let lead: usize = rank - n;
        let mut full: Vec<[usize; 2]> = Vec::with_capacity(rank);
        let mut sizes: Vec<usize> = Vec::with_capacity(rank);
        let mut none = true;
        let mut i: usize = 0;
        while i < rank
            invariant
                rank == dims@.len(),
                n == padding@.len(),
                n <= rank,
                lead == rank - n,
                dims@ == self@.dims(),
                full_spec == full_padding(padding@, rank as nat),
                i <= rank,
                full@ == full_spec.take(i as int),
                sizes@ == padded_dims(dims@, full_spec).take(i as int),
                forall|k: int| 0 <= k < i ==> #[trigger] padded_size(dims@[k], full_spec[k]) <= usize::MAX,
                none <==> forall|k: int| 0 <= k < i ==> no_padding(#[trigger] full_spec[k]),
            decreases rank - i,
        {
            let p: [usize; 2] = if i >= lead {
                padding[i - lead]
            } else {
                [0, 0]
            };
            assert(p@ =~= full_spec[i as int]@);
            assert(p == full_spec[i as int]);
            let size: usize = dims[i];
            let grown = match size.checked_add(p[0]) {
                Some(s) => s.checked_add(p[1]),
                None => None,
            };
            match grown {
                Some(s) => {
                    sizes.push(s);
                },
                None => {
                    assert(padded_size(dims@[i as int], full_spec[i as int]) > usize::MAX);
                    return Err(views::too_large());
                },
            }
            full.push(p);
            if p[0] != 0 || p[1] != 0 {
                none = false;
                assert(!no_padding(full_spec[i as int]));
            }
            assert(full@ =~= full_spec.take(i + 1));
            assert(sizes@ =~= padded_dims(dims@, full_spec).take(i + 1));
            i += 1;
        }
        assert(full@ =~= full_spec);
        assert(sizes@ =~= padded_dims(dims@, full_spec));
        let layout = contiguous_layout(Shape::new(sizes))?;
        if none {
            return Ok(self.clone());
        }
        let grown = self.pad_all(full.as_slice(), value);
        let current = grown?;
        let guard = current.storage()?;
        let s = current.contents(&guard).clone();
        let record = Op::Pad { input: self.clone(), padding: full };
        Ok(Self::from_storage(s, layout, self.dtype(), self.device().clone(), record))
    }

    /// Pads every dimension, the last one first.
    fn pad_all(&self, padding: &[[usize; 2]], value: B::Scalar) -> (r: Result<Self>)
        requires
            padding@.len() == self@.dims().len(),
        ensures
            pad_chain(*self, padding@, value, padding@.len(), *self, r),
    {
        let rank: usize = padding.len();
        let mut current = self.clone();
        let mut d: usize = rank;
        while d > 0
            invariant
                d <= rank,
                rank == padding@.len(),
                current@.dims().len() == rank,
                forall|x: Result<Self>| #[trigger]
                    pad_chain(*self, padding@, value, d as nat, current, x) ==> pad_chain(
                        *self,
                        padding@,
                        value,
                        rank as nat,
                        *self,
                        x,
                    ),
            decreases d,
        {
            let ghost before = current;
            d -= 1;
            let p: [usize; 2] = padding[d];
            if p[0] != 0 || p[1] != 0 {
                let step = self.pad_step(&current, d, p, value);
                match step {
                    Err(e) => {
                        assert(pad_chain(*self, padding@, value, (d + 1) as nat, before, Err(e)));
                        return Err(e);
                    },
                    Ok(next) => {
                        proof {
                            lemma_step_rank(*self, current, d as int, p, value, next);
                            assert forall|x: Result<Self>| #[trigger]
                                pad_chain(*self, padding@, value, d as nat, next, x) implies pad_chain(
                                *self,
                                padding@,
                                value,
                                (d + 1) as nat,
                                before,
                                x,
                            ) by {
                                assert(pad_step(*self, before, d as int, p, value, Ok(next)));
                            }
                        }
                        current = next;
                    },
                }
            } else {
                assert(no_padding(padding@[d as int]));
                assert forall|x: Result<Self>| #[trigger]
                    pad_chain(*self, padding@, value, d as nat, before, x) implies pad_chain(
                    *self,
                    padding@,
                    value,
                    (d + 1) as nat,
                    before,
                    x,
                ) by {}
            }
        }
        assert(pad_chain(*self, padding@, value, 0, current, Ok(current)));
        Ok(current)
    }
}

/// Padding a dimension keeps the rank.
proof fn lemma_step_rank<B: Backend>(
    a: Tensor<B>,
    cur: Tensor<B>,
    d: int,
    p: [usize; 2],
    value: B::Scalar,
    next: Tensor<B>,
)
    requires
        pad_step(a, cur, d, p, value, Ok(next)),
        0 <= d < cur@.dims().len(),
    ensures
        next@.dims().len() == cur@.dims().len(),
{
}

} // verus!
