//! Tensors computed on the host: ranges, masks, running sums and sorting.
use crate::backend::Backend;
use crate::dtype::DType;
use crate::error::{Error, Result};
use crate::host;
use crate::kernels;
use crate::nd;
use crate::scalar::Scalar;
use crate::shape::{copy_sizes, count_elements, Shape};
use crate::sorting::{self, lay_out, sort_lanes};
use crate::tensor::{self, Tensor};
use crate::text::{self, push_usize};
use crate::views;
use vstd::arithmetic::div_mod::*;
use vstd::arithmetic::mul::*;
use vstd::prelude::*;

verus! {

/// The identity matrix.
pub open spec fn identity<S: Scalar>(n: int) -> Seq<S> {
    Seq::new(
        (n * n) as nat,
        |x: int|
            if x / n == x % n {
                S::one_val()
            } else {
                S::zero_val()
            },
    )
}

/// The mask of the elements on and above a diagonal (`upper`), or on and
/// below it.
pub open spec fn triangle<S: Scalar>(n: int, m: int, diagonal: int, upper: bool) -> Seq<S> {
    Seq::new(
        (n * m) as nat,
        |x: int|
            if (upper && x % m >= x / m + diagonal) || (!upper && x % m <= x / m + diagonal) {
                S::one_val()
            } else {
                S::zero_val()
            },
    )
}

/// The numbers 0, 1, ..., n - 1.
pub open spec fn counting<S: Scalar>(n: nat) -> Seq<S> {
    Seq::new(n, |i: int| S::of_count(i as usize))
}

/// The `k`-th number of a range: the start with the step added `k` times.
pub open spec fn ranged_at<S: Scalar>(start: S, step: S, k: nat) -> S
    decreases k,
{
    if k == 0 {
        start
    } else {
        ranged_at(start, step, (k - 1) as nat).plus(step)
    }
}

/// The `k`-th number of a range lies before its end: below it if the step is
/// positive, else above it.
pub open spec fn before_end<S: Scalar>(start: S, end: S, step: S, k: nat) -> bool {
    if S::zero_val().below(step) {
        ranged_at(start, step, k).below(end)
    } else {
        end.below(ranged_at(start, step, k))
    }
}

/// A range has `n` numbers: the first that does not lie before the end is the
/// `n`-th.
pub open spec fn ranges_over<S: Scalar>(start: S, end: S, step: S, n: nat) -> bool {
    &&& !before_end(start, end, step, n)
    &&& forall|k: nat| k < n ==> #[trigger] before_end(start, end, step, k)
}

/// The first `n` numbers of a range.
pub open spec fn ranged<S: Scalar>(start: S, step: S, n: nat) -> Seq<S> {
    Seq::new(n, |k: int| ranged_at(start, step, k as nat))
}

/// The numbers of a range, or nothing if there are more than a list can
/// hold.
fn ranged_values<S: Scalar>(start: S, end: S, step: S) -> (r: Option<Vec<S>>)
    ensures
        match r {
            Some(v) => ranges_over(start, end, step, v@.len()) && v@ == ranged(
                start,
                step,
                v@.len(),
            ),
            None => forall|k: nat|
                k <= usize::MAX ==> #[trigger] before_end(start, end, step, k),
        },
{
    let mut data: Vec<S> = Vec::new();
    let mut v: S = start;
    let up: bool = S::zero().lt(step);
    let mut n: usize = 0;
    while (up && v.lt(end)) || (!up && end.lt(v))
        invariant
            up == S::zero_val().below(step),
            n == data@.len(),
            v == ranged_at(start, step, n as nat),
            data@ == ranged(start, step, n as nat),
            forall|k: nat| k < n ==> #[trigger] before_end(start, end, step, k),
        decreases usize::MAX - n,
    {
        assert(before_end(start, end, step, n as nat));
        if n == usize::MAX {
            return None;
        }
        data.push(v);
        v = v.add(step);
        n += 1;
        assert(data@ =~= ranged(start, step, n as nat));
    }
    Some(data)
}

/// The distance between neighbours of `steps` evenly spaced numbers.
pub open spec fn spacing<S: Scalar>(start: S, end: S, steps: usize) -> S {
    end.minus(start).over(S::of_count(steps).minus(S::one_val()))
}

/// Evenly spaced numbers from `start` on.
pub open spec fn spaced<S: Scalar>(start: S, step: S, n: nat) -> Seq<S> {
    Seq::new(n, |i: int| start.plus(step.times(S::of_count(i as usize))))
}

/// The running sum along a dimension of size `size`, with `inner` elements
/// after it: each element is added to the sum before it.
pub open spec fn running_sum_at<S: Scalar>(data: Seq<S>, size: int, inner: int, x: int) -> S
    decreases x,
{
    if inner <= 0 || x < inner || (x / inner) % size == 0 {
        data[x]
    } else {
        data[x].plus(running_sum_at(data, size, inner, x - inner))
    }
}

/// The running sums along a dimension.
pub open spec fn running_sum<S: Scalar>(data: Seq<S>, size: int, inner: int) -> Seq<S> {
    Seq::new(data.len(), |x: int| running_sum_at(data, size, inner, x))
}

/// The number of elements before and after a dimension.
pub open spec fn outer_count(dims: Seq<usize>, dim: int) -> int {
    nd::product(dims.take(dim)) as int
}

pub open spec fn inner_count(dims: Seq<usize>, dim: int) -> int {
    nd::product(dims.skip(dim + 1)) as int
}

/// The element count is the product of those before and after a dimension and
/// its size.
proof fn lemma_product_around(dims: Seq<usize>, dim: int, size: usize)
    requires
        0 <= dim < dims.len(),
    ensures
        nd::product(dims.update(dim, size)) == outer_count(dims, dim) * size * inner_count(
            dims,
            dim,
        ),
{
    let head = dims.take(dim);
    let tail = dims.skip(dim + 1);
    let next = dims.update(dim, size);
    assert(next =~= head + (seq![size] + tail));
    nd::lemma_product_add(head, seq![size] + tail);
    nd::lemma_product_add(seq![size], tail);
    assert(seq![size].skip(1) =~= seq![]);
    assert(nd::product(seq![size]) == size) by {
        lemma_mul_basics(size as int);
        assert(nd::product(seq![size].skip(1)) == 1);
    }
    lemma_mul_is_associative(
        nd::product(head) as int,
        size as int,
        nd::product(tail) as int,
    );
}

/// The element counts around a dimension of a shape that has elements.
proof fn lemma_around(dims: Seq<usize>, dim: int, size: usize)
    requires
        0 <= dim < dims.len(),
        0 < nd::product(dims) <= usize::MAX,
        size <= dims[dim],
    ensures
        nd::product(dims.update(dim, size)) == outer_count(dims, dim) * size * inner_count(
            dims,
            dim,
        ),
        outer_count(dims, dim) * size * inner_count(dims, dim) <= usize::MAX,
        outer_count(dims, dim) * size <= usize::MAX,
        outer_count(dims, dim) * inner_count(dims, dim) <= usize::MAX,
        outer_count(dims, dim) <= usize::MAX,
        inner_count(dims, dim) <= usize::MAX,
{
    let head = dims.take(dim);
    let tail = dims.skip(dim + 1);
    let d = dims[dim];
    let next = dims.update(dim, size);
    assert(dims =~= head + (seq![d] + tail));
    lemma_product_around(dims, dim, size);
    nd::lemma_count_fits(dims);
    nd::lemma_span_update(dims, dim, size);
    nd::lemma_span_fits(next);
    nd::lemma_span_add(head, seq![d] + tail);
    nd::lemma_span_add(seq![d], tail);
    nd::lemma_product_le_span(head, 0);
    nd::lemma_product_all(head);
    nd::lemma_product_le_span(tail, 0);
    nd::lemma_product_all(tail);
    assert(head.skip(0) =~= head);
    assert(tail.skip(0) =~= tail);
    nd::lemma_product_le_span(seq![d], 0);
    assert(seq![d].skip(1) =~= seq![]);
    lemma_mul_basics(d as int);
    let a = nd::product(head) as int;
    let c = nd::product(tail) as int;
    let sa = nd::span(head) as int;
    let sd = nd::span(seq![d]) as int;
    let sc = nd::span(tail) as int;
    assert(nd::span(seq![d]) == if d == 0 {
        1
    } else {
        d as nat
    }) by {
        assert(nd::span(seq![d].skip(1)) == 1);
        lemma_mul_basics(d as int);
    }
    assert(size <= sd || size == 0);
    assert(a <= sa * (sd * sc) && c <= sa * (sd * sc) && a * c <= sa * (sd * sc))
        by (nonlinear_arith)
        requires
            0 <= a <= sa,
            0 <= c <= sc,
            sd >= 1,
            sa >= 1,
            sc >= 1,
    ;
    assert(a * size <= sa * (sd * sc)) by (nonlinear_arith)
        requires
            0 <= a <= sa,
            0 <= size <= sd,
            sc >= 1,
            sa >= 1,
            sd >= 1,
    ;
}

/// The result of sorting.
pub open spec fn sort_result<B: Backend>(
    a: Tensor<B>,
    dim: usize,
    descending: bool,
    r: Result<(Tensor<B>, Tensor<B>)>,
) -> bool {
    let dims = a@.dims();
    if dim >= dims.len() {
        r == Err::<(Tensor<B>, Tensor<B>), _>(
            Error::DimOutOfRange { dim, rank: dims.len() as usize },
        )
    } else {
        exists|c: Result<Tensor<B>>| #[trigger]
            call_ensures(Tensor::contiguous, (&a,), c) && match c {
                Err(e) => r == Err::<(Tensor<B>, Tensor<B>), _>(e),
                Ok(c) => exists|v: Result<Vec<B::Scalar>>| #[trigger]
                    host::values_result(c, v) && match v {
                        Err(e) => r == Err::<(Tensor<B>, Tensor<B>), _>(e),
                        Ok(v) => sorted_result(c, dims, dim as int, v@, descending, r),
                    },
            }
    }
}

/// The sorted values and the positions they come from, as tensors.
pub open spec fn sorted_result<B: Backend>(
    c: Tensor<B>,
    dims: Seq<usize>,
    dim: int,
    data: Seq<B::Scalar>,
    descending: bool,
    r: Result<(Tensor<B>, Tensor<B>)>,
) -> bool {
    let outer = outer_count(dims, dim);
    let inner = inner_count(dims, dim);
    let size = dims[dim] as int;
    exists|lanes: Seq<Seq<sorting::Item<B::Scalar>>>|
        {
            &&& #[trigger] sorting::lanes_sorted(data, outer, size, inner, descending, lanes)
            &&& exists|values: Result<Tensor<B>>|
                {
                    &&& #[trigger] tensor::uploaded(
                        sorting::laid_values(lanes, size, inner, data.len()),
                        dims,
                        c@.dtype,
                        c@.device,
                        values,
                    )
                    &&& match values {
                        Err(e) => r == Err::<(Tensor<B>, Tensor<B>), _>(e),
                        Ok(values) => exists|places: Result<Tensor<B>>|
                            {
                                &&& #[trigger] tensor::uploaded(
                                    as_numbers(
                                        sorting::laid_places(lanes, size, inner, data.len()),
                                    ),
                                    dims,
                                    c@.dtype,
                                    c@.device,
                                    places,
                                )
                                &&& match places {
                                    Err(e) => r == Err::<(Tensor<B>, Tensor<B>), _>(e),
                                    Ok(places) => r == Ok::<_, Error>((values, places)),
                                }
                            },
                    }
                }
        }
}

/// The message about more elements than a dimension has.
pub open spec fn topk_text(k: usize, dim: usize, size: usize) -> Seq<char> {
    "topk: k="@ + text::decimal(k as nat) + " exceeds dim "@ + text::decimal(dim as nat)
        + " size "@ + text::decimal(size as nat)
}

/// The result of selecting the largest elements.
pub open spec fn topk_result<B: Backend>(
    a: Tensor<B>,
    k: usize,
    dim: usize,
    r: Result<(Tensor<B>, Vec<usize>)>,
) -> bool {
    let dims = a@.dims();
    if dim >= dims.len() {
        r == Err::<(Tensor<B>, Vec<usize>), _>(
            Error::DimOutOfRange { dim, rank: dims.len() as usize },
        )
    } else if k > dims[dim as int] {
        r matches Err(Error::Msg(m)) && m@ == topk_text(k, dim, dims[dim as int])
    } else {
        exists|v: Result<Vec<B::Scalar>>| #[trigger]
            host::dense_values_result(a, v) && match v {
                Err(e) => r == Err::<(Tensor<B>, Vec<usize>), _>(e),
                Ok(v) => top_result(a, k as int, dim as int, v@, r),
            }
    }
}

/// The first `k` items of every lane in descending order.
pub open spec fn top_result<B: Backend>(
    a: Tensor<B>,
    k: int,
    dim: int,
    data: Seq<B::Scalar>,
    r: Result<(Tensor<B>, Vec<usize>)>,
) -> bool {
    let dims = a@.dims();
    let outer = outer_count(dims, dim);
    let inner = inner_count(dims, dim);
    let count = (outer * k * inner) as nat;
    exists|lanes: Seq<Seq<sorting::Item<B::Scalar>>>|
        {
            &&& #[trigger] sorting::lanes_sorted(data, outer, dims[dim] as int, inner, true, lanes)
            &&& exists|values: Result<Tensor<B>>|
                {
                    &&& #[trigger] tensor::uploaded(
                        sorting::laid_values(lanes, k, inner, count),
                        dims.update(dim, k as usize),
                        a@.dtype,
                        a@.device,
                        values,
                    )
                    &&& match values {
                        Err(e) => r == Err::<(Tensor<B>, Vec<usize>), _>(e),
                        Ok(values) => r matches Ok(pair) && pair.0 == values && pair.1@
                            == sorting::laid_places(lanes, k, inner, count),
                    }
                }
        }
}

/// The sorted lanes of a tensor without elements: each is empty.
spec fn empty_lanes<S: Scalar>(dims: Seq<usize>, dim: int) -> Seq<Seq<sorting::Item<S>>> {
    Seq::new(
        (outer_count(dims, dim) * inner_count(dims, dim)) as nat,
        |l: int| Seq::<sorting::Item<S>>::empty(),
    )
}

proof fn lemma_empty_lanes<S: Scalar>(
    dims: Seq<usize>,
    dim: int,
    k: usize,
    data: Seq<S>,
    descending: bool,
)
    requires
        0 <= dim < dims.len(),
        nd::product(dims) == 0,
        k <= dims[dim],
    ensures
        sorting::lanes_sorted(
            data,
            outer_count(dims, dim),
            dims[dim] as int,
            inner_count(dims, dim),
            descending,
            empty_lanes::<S>(dims, dim),
        ),
        outer_count(dims, dim) * k * inner_count(dims, dim) == 0,
{
    let outer = outer_count(dims, dim);
    let inner = inner_count(dims, dim);
    let size = dims[dim] as int;
    assert(dims.update(dim, dims[dim]) =~= dims);
    lemma_product_around(dims, dim, dims[dim]);
    lemma_mul_nonnegative(outer, inner);
    assert(outer * inner > 0 ==> size == 0) by (nonlinear_arith)
        requires
            outer * size * inner == 0,
            outer >= 0,
            inner >= 0,
            size >= 0,
    ;
    assert(outer * k * inner == 0) by (nonlinear_arith)
        requires
            outer * size * inner == 0,
            0 <= k <= size,
            outer >= 0,
            inner >= 0,
    ;
    let lanes = empty_lanes::<S>(dims, dim);
    assert forall|l: int| 0 <= l < outer * inner implies sorting::is_sorting(
        sorting::lane(data, size, inner, l),
        #[trigger] lanes[l],
        descending,
    ) by {
        assert(sorting::lane(data, size, inner, l) =~= lanes[l]);
    }
}

fn identity_values<S: Scalar>(n: usize) -> (r: Vec<S>)
    requires
        n * n <= usize::MAX,
    ensures
        r@ == identity::<S>(n as int),
{
    proof {
        lemma_mul_nonnegative(n as int, n as int);
    }
    let total: usize = n * n;
    let mut out: Vec<S> = Vec::with_capacity(total);
    let mut x: usize = 0;
    while x < total
        invariant
            total == n * n,
            x <= total,
            out@ == identity::<S>(n as int).take(x as int),
        decreases total - x,
    {
        proof {
            kernels::lemma_table_split(x as int, n as int, n as int);
        }
        let value: S = if x / n == x % n {
            S::one()
        } else {
            S::zero()
        };
        out.push(value);
        assert(out@ =~= identity::<S>(n as int).take(x + 1));
        x += 1;
    }
    assert(out@ =~= identity::<S>(n as int));
    out
}

fn triangle_values<S: Scalar>(n: usize, m: usize, diagonal: i64, upper: bool) -> (r: Vec<S>)
    requires
        n * m <= usize::MAX,
    ensures
        r@ == triangle::<S>(n as int, m as int, diagonal as int, upper),
{
    proof {
        lemma_mul_nonnegative(n as int, m as int);
    }
    let total: usize = n * m;
    let ghost want = triangle::<S>(n as int, m as int, diagonal as int, upper);
    let mut out: Vec<S> = Vec::with_capacity(total);
    let mut x: usize = 0;
    while x < total
        invariant
            total == n * m,
            want == triangle::<S>(n as int, m as int, diagonal as int, upper),
            x <= total,
            out@ == want.take(x as int),
        decreases total - x,
    {
        proof {
            kernels::lemma_table_split(x as int, n as int, m as int);
        }
        let edge: i128 = (x / m) as i128 + diagonal as i128;
        let j: i128 = (x % m) as i128;
        let value: S = if (upper && j >= edge) || (!upper && j <= edge) {
            S::one()
        } else {
            S::zero()
        };
        out.push(value);
        assert(out@ =~= want.take(x + 1));
        x += 1;
    }
    assert(out@ =~= want);
    out
}

fn counting_values<S: Scalar>(n: usize) -> (r: Vec<S>)
    ensures
        r@ == counting::<S>(n as nat),
{
    let mut out: Vec<S> = Vec::with_capacity(n);
    let mut i: usize = 0;
    while i < n
        invariant
            i <= n,
            out@ == counting::<S>(n as nat).take(i as int),
        decreases n - i,
    {
        out.push(S::from_usize(i));
        assert(out@ =~= counting::<S>(n as nat).take(i + 1));
        i += 1;
    }
    assert(out@ =~= counting::<S>(n as nat));
    out
}

fn spaced_values<S: Scalar>(start: S, step: S, n: usize) -> (r: Vec<S>)
    ensures
        r@ == spaced(start, step, n as nat),
{
    let mut out: Vec<S> = Vec::with_capacity(n);
    let mut i: usize = 0;
    while i < n
        invariant
            i <= n,
            out@ == spaced(start, step, n as nat).take(i as int),
        decreases n - i,
    {
        out.push(start.add(step.mul(S::from_usize(i))));
        assert(out@ =~= spaced(start, step, n as nat).take(i + 1));
        i += 1;
    }
    assert(out@ =~= spaced(start, step, n as nat));
    out
}

/// The running sums along a dimension of size `size`, with `inner` elements
/// after it.
pub fn cumsum_values<S: Scalar>(data: &[S], outer: usize, size: usize, inner: usize) -> (r: Vec<S>)
    requires
        data@.len() == outer * size * inner,
    ensures
        r@ == running_sum(data@, size as int, inner as int),
{
    let total: usize = data.len();
    let ghost want = running_sum(data@, size as int, inner as int);
    let mut out: Vec<S> = Vec::with_capacity(total);
    let mut x: usize = 0;
    while x < total
        invariant
            total == data@.len(),
            data@.len() == outer * size * inner,
            want == running_sum(data@, size as int, inner as int),
            x <= total,
            out@ == want.take(x as int),
        decreases total - x,
    {
        proof {
            lemma_mul_nonnegative(outer as int, size as int);
            kernels::lemma_table_split(x as int, outer * size, inner as int);
            kernels::lemma_table_split(x as int / inner as int, outer as int, size as int);
        }
        let value: S = if (x / inner) % size == 0 {
            data[x]
        } else {
            proof {
                let q = x as int / inner as int;
                if q == 0 {
                    lemma_small_mod(0, size as nat);
                }
                assert(x >= inner) by (nonlinear_arith)
                    requires
                        x == q * inner + x as int % inner as int,
                        q >= 1,
                        x as int % inner as int >= 0,
                        inner >= 0,
                ;
                assert(out@[x - inner] == want[x - inner]);
            }
            data[x].add(out[x - inner])
        };
        assert(value == want[x as int]);
        out.push(value);
        assert(out@ =~= want.take(x + 1));
        x += 1;
    }
    assert(out@ =~= want);
    out
}

/// Positions as numbers.
pub open spec fn as_numbers<S: Scalar>(v: Seq<usize>) -> Seq<S> {
    Seq::new(v.len(), |i: int| S::of_count(v[i]))
}

/// Positions as numbers.
fn counts_as_numbers<S: Scalar>(v: &[usize]) -> (r: Vec<S>)
    ensures
        r@ == as_numbers::<S>(v@),
{
    let n: usize = v.len();
    let mut out: Vec<S> = Vec::with_capacity(n);
    let mut i: usize = 0;
    while i < n
        invariant
            n == v@.len(),
            i <= n,
            out@ == as_numbers::<S>(v@).take(i as int),
        decreases n - i,
    {
        out.push(S::from_usize(v[i]));
        i += 1;
        assert(out@ =~= as_numbers::<S>(v@).take(i as int));
    }
    assert(out@ =~= as_numbers::<S>(v@));
    out
}

/// The span of two sizes.
proof fn lemma_pair_span(n: usize, m: usize)
    ensures
        n * m > usize::MAX ==> !nd::fits(seq![n, m]),
        nd::fits(seq![n, m]) ==> n * m <= usize::MAX,
        nd::product(seq![n, m]) == n * m,
{
    let s = seq![n, m];
    assert(s.skip(1) =~= seq![m]);
    assert(seq![m].skip(1) =~= seq![]);
    lemma_mul_basics(m as int);
    assert(nd::product(seq![m]) == m as nat * nd::product(seq![m].skip(1)));
    nd::lemma_product_le_span(s, 0);
    assert(s.skip(0) =~= s);
}

impl<B: Backend> Tensor<B> {
    /// Create a 1-D tensor with `steps` evenly spaced values from `start` to
    /// `end` (inclusive).
    pub fn linspace(
        start: B::Scalar,
        end: B::Scalar,
        steps: usize,
        dtype: DType,
        device: &B::Device,
    ) -> (r: Result<Self>)
        ensures
            if steps == 0 {
                r matches Err(Error::Msg(m)) && m@ == "linspace requires steps >= 1"@
            } else if steps == 1 {
                tensor::uploaded(seq![start], seq![1usize], dtype, *device, r)
            } else {
                tensor::uploaded(
                    spaced(start, spacing(start, end, steps), steps as nat),
                    seq![steps],
                    dtype,
                    *device,
                    r,
                )
            },
    {
        if steps == 0 {
            return Err(Error::Msg("linspace requires steps >= 1".to_owned()));
        }
        let shape = Shape::new(vec![steps]);
        assert(shape@ =~= seq![steps]);
        if steps == 1 {
            let one: Vec<B::Scalar> = vec![start];
            assert(one@ =~= seq![start]);
            return Self::upload(one.as_slice(), shape, dtype, device);
        }
        let step: B::Scalar = end.sub(start).div(
            <B::Scalar as Scalar>::from_usize(steps).sub(<B::Scalar as Scalar>::one()),
        );
        let data = spaced_values(start, step, steps);
        Self::upload(data.as_slice(), shape, dtype, device)
    }

    /// Create an identity matrix of size n by n.
    pub fn eye(n: usize, dtype: DType, device: &B::Device) -> (r: Result<Self>)
        ensures
            tensor::uploaded(identity(n as int), seq![n, n], dtype, *device, r),
    {
        proof {
            lemma_pair_span(n, n);
        }
        let shape = Shape::new(vec![n, n]);
        assert(shape@ =~= seq![n, n]);
        if n.checked_mul(n).is_none() {
            return Err(views::too_large());
        }
        let data: Vec<B::Scalar> = identity_values(n);
        Self::upload(data.as_slice(), shape, dtype, device)
    }

    /// Create a 1-D tensor with values [0, 1, ..., n-1].
    pub fn arange(n: usize, dtype: DType, device: &B::Device) -> (r: Result<Self>)
        ensures
            tensor::uploaded(counting(n as nat), seq![n], dtype, *device, r),
    {
        let shape = Shape::new(vec![n]);
        assert(shape@ =~= seq![n]);
        let data: Vec<B::Scalar> = counting_values(n);
        Self::upload(data.as_slice(), shape, dtype, device)
    }

    /// Create a 1-D tensor with values [start, start + step, ...] before the
    /// end.
    pub fn arange_step(
        start: B::Scalar,
        end: B::Scalar,
        step: B::Scalar,
        dtype: DType,
        device: &B::Device,
    ) -> (r: Result<Self>)
        ensures
            if step.same(<B::Scalar as Scalar>::zero_val()) {
                r matches Err(Error::Msg(m)) && m@ == "arange_step: step cannot be zero"@
            } else {
                ||| exists|n: usize| #[trigger]
                    ranges_over(start, end, step, n as nat) && tensor::uploaded(
                        ranged(start, step, n as nat),
                        seq![n],
                        dtype,
                        *device,
                        r,
                    )
                ||| (forall|k: nat| k <= usize::MAX ==> #[trigger] before_end(start, end, step, k))
                    && (r matches Err(e) && views::is_too_large(e))
            },
    {
        if step.eq(<B::Scalar as Scalar>::zero()) {
            return Err(Error::Msg("arange_step: step cannot be zero".to_owned()));
        }
        match ranged_values(start, end, step) {
            Some(data) => {
                let n: usize = data.len();
                let shape = Shape::new(vec![n]);
                assert(shape@ =~= seq![n]);
                Self::upload(data.as_slice(), shape, dtype, device)
            },
            None => Err(views::too_large()),
        }
    }

    /// Upper triangular mask of shape [n, m]: 1 on and above the
    /// `diagonal`-th diagonal, 0 below it.
    pub fn triu(n: usize, m: usize, diagonal: i64, dtype: DType, device: &B::Device) -> (r: Result<
        Self,
    >)
        ensures
            tensor::uploaded(
                triangle(n as int, m as int, diagonal as int, true),
                seq![n, m],
                dtype,
                *device,
                r,
            ),
    {
        Self::triangular(n, m, diagonal, true, dtype, device)
    }

    /// Lower triangular mask of shape [n, m]: 1 on and below the
    /// `diagonal`-th diagonal, 0 above it.
    pub fn tril(n: usize, m: usize, diagonal: i64, dtype: DType, device: &B::Device) -> (r: Result<
        Self,
    >)
        ensures
            tensor::uploaded(
                triangle(n as int, m as int, diagonal as int, false),
                seq![n, m],
                dtype,
                *device,
                r,
            ),
    {
        Self::triangular(n, m, diagonal, false, dtype, device)
    }

    fn triangular(
        n: usize,
        m: usize,
        diagonal: i64,
        upper: bool,
        dtype: DType,
        device: &B::Device,
    ) -> (r: Result<Self>)
        ensures
            tensor::uploaded(
                triangle(n as int, m as int, diagonal as int, upper),
                seq![n, m],
                dtype,
                *device,
                r,
            ),
    {
        proof {
            lemma_pair_span(n, m);
        }
        let shape = Shape::new(vec![n, m]);
        assert(shape@ =~= seq![n, m]);
        if n.checked_mul(m).is_none() {
            return Err(views::too_large());
        }
        let data: Vec<B::Scalar> = triangle_values(n, m, diagonal, upper);
        Self::upload(data.as_slice(), shape, dtype, device)
    }

    /// Cumulative sum along a dimension.
    pub fn cumsum(&self, dim: usize) -> (r: Result<Self>)
        ensures
            if dim >= self@.dims().len() {
                r == Err::<Self, _>(
                    Error::DimOutOfRange { dim, rank: self@.dims().len() as usize },
                )
            } else {
                exists|c: Result<Self>| #[trigger]
                    call_ensures(Self::contiguous, (self,), c) && match c {
                        Err(e) => r == Err::<Self, _>(e),
                        Ok(c) => exists|v: Result<Vec<B::Scalar>>| #[trigger]
                            host::values_result(c, v) && match v {
                                Err(e) => r == Err::<Self, _>(e),
                                Ok(v) => tensor::uploaded(
                                    running_sum(
                                        v@,
                                        self@.dims()[dim as int] as int,
                                        inner_count(self@.dims(), dim as int),
                                    ),
                                    self@.dims(),
                                    c@.dtype,
                                    c@.device,
                                    r,
                                ),
                            },
                    }
            },
    {
        let rank: usize = self.rank();
        if dim >= rank {
            return Err(Error::DimOutOfRange { dim, rank });
        }
        let c = self.contiguous()?;
        let data = c.values()?;
        let dims = self.dims();
        let size: usize = dims[dim];
        if data.len() == 0 {
            assert(data@ =~= running_sum(
                data@,
                size as int,
                inner_count(self@.dims(), dim as int),
            ));
            return Self::upload(data.as_slice(), c.shape().clone(), c.dtype(), c.device());
        }
        proof {
            lemma_around(self@.dims(), dim as int, size);
            assert(self@.dims().update(dim as int, size) =~= self@.dims());
            assert(dims@.subrange(0, dim as int) =~= dims@.take(dim as int));
            assert(dims@.subrange(dim + 1, rank as int) =~= dims@.skip(dim + 1));
        }
        let outer: usize = count_elements(vstd::slice::slice_subrange(dims, 0, dim));
        let inner: usize = count_elements(vstd::slice::slice_subrange(dims, dim + 1, rank));
        let out = cumsum_values(data.as_slice(), outer, size, inner);
        Self::upload(out.as_slice(), c.shape().clone(), c.dtype(), c.device())
    }

    /// Sort along a dimension: the sorted values and the positions they come
    /// from. Values of the same rank keep their order.
    pub fn sort(&self, dim: usize, descending: bool) -> (r: Result<(Self, Self)>)
        ensures
            sort_result(*self, dim, descending, r),
    {
        let rank: usize = self.rank();
        if dim >= rank {
            return Err(Error::DimOutOfRange { dim, rank });
        }
        let c = self.contiguous()?;
        let data = c.values()?;
        let dims = self.dims();
        let size: usize = dims[dim];
        if data.len() == 0 {
            let ghost views = empty_lanes::<B::Scalar>(self@.dims(), dim as int);
            proof {
                lemma_empty_lanes(self@.dims(), dim as int, size, data@, descending);
            }
            let ghost inner = inner_count(self@.dims(), dim as int);
            let none: Vec<B::Scalar> = Vec::new();
            assert(none@ =~= sorting::laid_values(views, size as int, inner, data@.len()));
            assert(none@ =~= as_numbers(
                sorting::laid_places(views, size as int, inner, data@.len()),
            ));
            let top = Self::upload(none.as_slice(), c.shape().clone(), c.dtype(), c.device());
            let ghost made = top;
            assert(tensor::uploaded(
                sorting::laid_values(views, size as int, inner, data@.len()),
                self@.dims(),
                c@.dtype,
                c@.device,
                made,
            ));
            let values = top?;
            let at = Self::upload(none.as_slice(), c.shape().clone(), c.dtype(), c.device());
            assert(tensor::uploaded(
                as_numbers(sorting::laid_places(views, size as int, inner, data@.len())),
                self@.dims(),
                c@.dtype,
                c@.device,
                at,
            ));
            let places = at?;
            return Ok((values, places));
        }
        proof {
            lemma_around(self@.dims(), dim as int, size);
            assert(self@.dims().update(dim as int, size) =~= self@.dims());
            assert(dims@.subrange(0, dim as int) =~= dims@.take(dim as int));
            assert(dims@.subrange(dim + 1, rank as int) =~= dims@.skip(dim + 1));
        }
        let outer: usize = count_elements(vstd::slice::slice_subrange(dims, 0, dim));
        let inner: usize = count_elements(vstd::slice::slice_subrange(dims, dim + 1, rank));
        let lanes = sort_lanes(data.as_slice(), outer, size, inner, descending);
        let ghost views = sorting::lane_views(lanes@);
        proof {
            assert forall|l: int| 0 <= l < lanes@.len() implies (#[trigger] lanes@[l])@.len()
                >= size by {
                assert(sorting::is_sorting(
                    sorting::lane(data@, size as int, inner as int, l),
                    views[l],
                    descending,
                ));
            }
        }
        let (values, places) = lay_out(&lanes, outer, size, inner);
        let numbers: Vec<B::Scalar> = counts_as_numbers(places.as_slice());
        let ghost want0 = sorting::laid_values(views, size as int, inner as int, data@.len());
        let ghost want1: Seq<B::Scalar> = as_numbers(
            sorting::laid_places(views, size as int, inner as int, data@.len()),
        );
        assert(values@ =~= want0);
        assert(numbers@ =~= want1);
        let top = Self::upload(values.as_slice(), c.shape().clone(), c.dtype(), c.device());
        assert(tensor::uploaded(want0, self@.dims(), c@.dtype, c@.device, top));
        let values = top?;
        let at = Self::upload(numbers.as_slice(), c.shape().clone(), c.dtype(), c.device());
        assert(tensor::uploaded(want1, self@.dims(), c@.dtype, c@.device, at));
        let places = at?;
        Ok((values, places))
    }

    /// The positions that would sort the tensor along a dimension.
    pub fn argsort(&self, dim: usize, descending: bool) -> (r: Result<Self>)
        ensures
            exists|s: Result<(Self, Self)>| #[trigger]
                sort_result(*self, dim, descending, s) && match s {
                    Err(e) => r == Err::<Self, _>(e),
                    Ok(pair) => r == Ok::<Self, Error>(pair.1),
                },
    {
        let pair = self.sort(dim, descending)?;
        Ok(pair.1)
    }

    /// The `k` largest elements along a dimension, in descending order, and
    /// their positions. The result is detached.
    pub fn topk(&self, k: usize, dim: usize) -> (r: Result<(Self, Vec<usize>)>)
        ensures
            topk_result(*self, k, dim, r),
    {
        let rank: usize = self.rank();
        if dim >= rank {
            return Err(Error::DimOutOfRange { dim, rank });
        }
        let dims = self.dims();
        let size: usize = dims[dim];
        if k > size {
            let mut m = String::new();
            m.append("topk: k=");
            push_usize(&mut m, k);
            m.append(" exceeds dim ");
            push_usize(&mut m, dim);
            m.append(" size ");
            push_usize(&mut m, size);
            assert(m@ =~= topk_text(k, dim, size));
            return Err(Error::Msg(m));
        }
        let data = self.dense_values()?;
        let mut sizes = copy_sizes(dims);
        sizes[dim] = k;
        if data.len() == 0 {
            let ghost views = empty_lanes::<B::Scalar>(self@.dims(), dim as int);
            proof {
                lemma_empty_lanes(self@.dims(), dim as int, k, data@, true);
            }
            let ghost inner = inner_count(self@.dims(), dim as int);
            let none: Vec<B::Scalar> = Vec::new();
            let places: Vec<usize> = Vec::new();
            assert(none@ =~= sorting::laid_values(views, k as int, inner, 0));
            assert(places@ =~= sorting::laid_places(views, k as int, inner, 0));
            let top = Self::upload(none.as_slice(), Shape::new(sizes), self.dtype(), self.device());
            assert(tensor::uploaded(
                sorting::laid_values(views, k as int, inner, 0),
                self@.dims().update(dim as int, (k as int) as usize),
                self@.dtype,
                self@.device,
                top,
            ));
            let r = match top {
                Ok(values) => Ok((values, places)),
                Err(e) => Err(e),
            };
            assert(top_result(*self, k as int, dim as int, data@, r));
            return r;
        }
        proof {
            lemma_around(self@.dims(), dim as int, size);
            lemma_around(self@.dims(), dim as int, k);
            assert(self@.dims().update(dim as int, size) =~= self@.dims());
            assert(dims@.subrange(0, dim as int) =~= dims@.take(dim as int));
            assert(dims@.subrange(dim + 1, rank as int) =~= dims@.skip(dim + 1));
        }
        let outer: usize = count_elements(vstd::slice::slice_subrange(dims, 0, dim));
        let inner: usize = count_elements(vstd::slice::slice_subrange(dims, dim + 1, rank));
        let lanes = sort_lanes(data.as_slice(), outer, size, inner, true);
        let ghost views = sorting::lane_views(lanes@);
        proof {
            assert forall|l: int| 0 <= l < lanes@.len() implies (#[trigger] lanes@[l])@.len()
                >= k by {
                assert(sorting::is_sorting(
                    sorting::lane(data@, size as int, inner as int, l),
                    views[l],
                    true,
                ));
            }
        }
        let (values, places) = lay_out(&lanes, outer, k, inner);
        let top = Self::upload(values.as_slice(), Shape::new(sizes), self.dtype(), self.device());
        assert(tensor::uploaded(
            sorting::laid_values(views, k as int, inner as int, (outer * k * inner) as nat),
            self@.dims().update(dim as int, k),
            self@.dtype,
            self@.device,
            top,
        ));
        let ghost count = (outer_count(self@.dims(), dim as int) * k * inner_count(
            self@.dims(),
            dim as int,
        )) as nat;
        assert(places@ == sorting::laid_places(views, k as int, inner as int, count));
        assert(tensor::uploaded(
            sorting::laid_values(views, k as int, inner as int, count),
            self@.dims().update(dim as int, (k as int) as usize),
            self@.dtype,
            self@.device,
            top,
        ));
        let r = match top {
            Ok(values) => Ok((values, places)),
            Err(e) => Err(e),
        };
        assert(top_result(*self, k as int, dim as int, data@, r));
        r
    }
}

} // verus!
