//! Host-side kernels of gradients: what flows back through reductions,
//! slices, gathers and masks.
use crate::axes::{self, keep};
use crate::kernels::{self, zero_vec};
use crate::layout::address_of;
use crate::nd;
use crate::scalar::{self, minus_one, Real, Scalar};
use crate::shape::Shape;
use vstd::arithmetic::div_mod::*;
use vstd::arithmetic::mul::*;
use vstd::prelude::*;

verus! {

/// The coordinates of the `k`-th element of a shape.
fn coordinates(k: usize, dims: &[usize], strides: &[usize]) -> (r: Vec<usize>)
    requires
        nd::strides_fit(dims@),
        strides@ == nd::row_major(dims@),
        k < nd::product(dims@),
    ensures
        r@ == nd::unravel(k as nat, dims@),
        nd::in_bounds(r@, dims@),
{
    let n: usize = dims.len();
    let mut out: Vec<usize> = Vec::with_capacity(n);
    let mut rest: usize = k;
    let mut i: usize = 0;
    assert(dims@.skip(0) =~= dims@);
    assert(out@ + nd::unravel(k as nat, dims@) =~= nd::unravel(k as nat, dims@));
    while i < n
        invariant
            n == dims@.len(),
            i <= n,
            nd::strides_fit(dims@),
            strides@ == nd::row_major(dims@),
            rest < nd::product(dims@.skip(i as int)),
            out@ + nd::unravel(rest as nat, dims@.skip(i as int)) == nd::unravel(k as nat, dims@),
        decreases n - i,
    {
        let ghost tail = dims@.skip(i as int);
        let ghost step = nd::product(dims@.skip(i + 1));
        proof {
            assert(tail.skip(1) =~= dims@.skip(i + 1));
            nd::lemma_product_step(dims@, i as int);
            if step == 0 {
                assert(tail[0] as nat * step == 0) by (nonlinear_arith)
                    requires
                        step == 0,
                ;
            }
            lemma_mod_bound(rest as int, step as int);
        }
        let stride: usize = strides[i];
        assert(stride == step);
        let ghost before = out@;
        out.push(rest / stride);
        proof {
            assert(nd::unravel(rest as nat, tail) =~= seq![(rest as nat / step) as usize]
                + nd::unravel(rest as nat % step, tail.skip(1)));
            assert(out@ + nd::unravel(rest as nat % step, dims@.skip(i + 1)) =~= before
                + nd::unravel(rest as nat, tail));
        }
        rest = rest % stride;
        i += 1;
    }
    proof {
        assert(nd::unravel(rest as nat, dims@.skip(n as int)) =~= seq![]);
        assert(out@ =~= nd::unravel(k as nat, dims@));
        nd::lemma_ravel_of_unravel(k as nat, dims@);
    }
    out
}

/// The position in a reduced tensor that the `k`-th element is reduced to.
pub open spec fn reduced_position(dims: Seq<usize>, axes: Seq<usize>, k: nat) -> nat {
    nd::dot(axes::kept(nd::unravel(k, dims), axes), nd::row_major(axes::kept(dims, axes)))
}

/// The positions that all elements are reduced to.
pub open spec fn reduced_positions(dims: Seq<usize>, axes: Seq<usize>) -> Seq<usize> {
    Seq::new(nd::product(dims), |k: int| reduced_position(dims, axes, k as nat) as usize)
}

proof fn lemma_kept_in_bounds(index: Seq<usize>, dims: Seq<usize>, axes: Seq<usize>, n: nat)
    requires
        nd::in_bounds(index, dims),
        n <= dims.len(),
    ensures
        nd::in_bounds(axes::kept_upto(index, axes, n), axes::kept_upto(dims, axes, n)),
    decreases n,
{
    if n > 0 {
        lemma_kept_in_bounds(index, dims, axes, (n - 1) as nat);
        assert(index[n - 1] < dims[n - 1]);
    }
}

/// An element is reduced to a position of the reduced tensor.
pub proof fn lemma_reduced_position(dims: Seq<usize>, axes: Seq<usize>, k: nat)
    requires
        k < nd::product(dims) <= usize::MAX,
    ensures
        reduced_position(dims, axes, k) < nd::product(axes::kept(dims, axes)) <= usize::MAX,
        nd::fits(axes::kept(dims, axes)),
{
    nd::lemma_count_fits(dims);
    nd::lemma_ravel_of_unravel(k, dims);
    let u = nd::unravel(k, dims);
    lemma_kept_in_bounds(u, dims, axes, dims.len());
    axes::lemma_kept_fits(dims, axes);
    nd::lemma_unravel_of_ravel(axes::kept(u, axes), axes::kept(dims, axes));
}

/// The positions that all elements are reduced to.
pub fn positions_after_reduction(shape: &Shape, axes: &[usize]) -> (r: Vec<usize>)
    requires
        nd::product(shape@) <= usize::MAX,
    ensures
        r@ == reduced_positions(shape@, axes@),
        forall|k: int|
            0 <= k < r@.len() ==> #[trigger] r@[k] < nd::product(axes::kept(shape@, axes@)),
{
    let dims = shape.dims();
    let total: usize = shape.elem_count();
    if total == 0 {
        let none: Vec<usize> = Vec::new();
        assert(none@ =~= reduced_positions(shape@, axes@));
        return none;
    }
    proof {
        nd::lemma_count_fits(shape@);
        axes::lemma_kept_fits(shape@, axes@);
    }
    let strides = shape.stride_contiguous();
    let reduced = Shape::new(keep(dims, axes));
    let reduced_strides = reduced.stride_contiguous();
    let ghost want = reduced_positions(shape@, axes@);
    let mut out: Vec<usize> = Vec::with_capacity(total);
    let mut k: usize = 0;
    while k < total
        invariant
            nd::fits(shape@),
            nd::strides_fit(shape@),
            dims@ == shape@,
            strides@ == nd::row_major(shape@),
            reduced_strides@ == nd::row_major(axes::kept(shape@, axes@)),
            total == nd::product(shape@),
            want == reduced_positions(shape@, axes@),
            k <= total,
            out@ == want.take(k as int),
            forall|j: int|
                0 <= j < k ==> #[trigger] out@[j] < nd::product(axes::kept(shape@, axes@)),
        decreases total - k,
    {
        let at = coordinates(k, dims, strides.as_slice());
        let kept = keep(at.as_slice(), axes);
        proof {
            lemma_reduced_position(shape@, axes@, k as nat);
            lemma_kept_in_bounds(at@, dims@, axes@, dims@.len());
        }
        let p: usize = address_of(kept.as_slice(), reduced_strides.as_slice(), 0);
        out.push(p);
        assert(out@ =~= want.take(k + 1));
        k += 1;
    }
    assert(out@ =~= want);
    out
}

/// A gradient repeated along the dimensions of a reduction.
pub open spec fn repeated<S: Scalar>(grad: Seq<S>, positions: Seq<usize>) -> Seq<S> {
    Seq::new(
        positions.len(),
        |k: int|
            if positions[k] < grad.len() {
                grad[positions[k] as int]
            } else {
                S::zero_val()
            },
    )
}

/// Repeats a gradient along the dimensions of a reduction.
pub fn repeat_gradient<S: Scalar>(grad: &[S], positions: &[usize]) -> (r: Vec<S>)
    ensures
        r@ == repeated(grad@, positions@),
{
    let n: usize = positions.len();
    let length: usize = grad.len();
    let ghost want = repeated(grad@, positions@);
    let mut out: Vec<S> = Vec::with_capacity(n);
    let mut k: usize = 0;
    while k < n
        invariant
            n == positions@.len(),
            length == grad@.len(),
            want == repeated(grad@, positions@),
            k <= n,
            out@ == want.take(k as int),
        decreases n - k,
    {
        let p: usize = positions[k];
        let value: S = if p < length {
            grad[p]
        } else {
            S::zero()
        };
        out.push(value);
        assert(out@ =~= want.take(k + 1));
        k += 1;
    }
    assert(out@ =~= want);
    out
}

/// The first value is to replace the second as the extremum.
pub open spec fn exceeds<S: Scalar>(v: S, best: S, largest: bool) -> bool {
    if largest {
        best.below(v)
    } else {
        v.below(best)
    }
}

/// What the search for an extremum starts with.
pub open spec fn extremum_start<S: Scalar>(largest: bool) -> S {
    if largest {
        S::bottom()
    } else {
        S::top()
    }
}

/// The largest (or smallest) of the first `n` values that are reduced to
/// position `q`.
pub open spec fn extremum_at<S: Scalar>(
    vals: Seq<S>,
    positions: Seq<usize>,
    largest: bool,
    q: int,
    n: nat,
) -> S
    decreases n,
{
    if n == 0 {
        extremum_start(largest)
    } else {
        let best = extremum_at(vals, positions, largest, q, (n - 1) as nat);
        if positions[n - 1] == q && exceeds(vals[n - 1], best, largest) {
            vals[n - 1]
        } else {
            best
        }
    }
}

/// The extremum of the values that are reduced to a position is one of them
/// and no other exceeds it, if numbers are ordered, with a lowest and a highest
/// one. (Where none exceeds the lowest, or highest, number, it is that number.)
pub proof fn law_extremum<S: Scalar>(
    vals: Seq<S>,
    positions: Seq<usize>,
    largest: bool,
    q: int,
    n: nat,
)
    requires
        scalar::orders::<S>(),
        scalar::bounded::<S>(),
    ensures
        forall|k: int|
            0 <= k < n && #[trigger] positions[k] == q ==> !exceeds(
                vals[k],
                extremum_at(vals, positions, largest, q, n),
                largest,
            ),
        extremum_at(vals, positions, largest, q, n) == extremum_start::<S>(largest) || exists|k: int|
            0 <= k < n && #[trigger] positions[k] == q && vals[k] == extremum_at(
                vals,
                positions,
                largest,
                q,
                n,
            ),
    decreases n,
{
    if n > 0 {
        let m = (n - 1) as nat;
        law_extremum(vals, positions, largest, q, m);
        let old = extremum_at(vals, positions, largest, q, m);
        let new = extremum_at(vals, positions, largest, q, n);
        let last = vals[n - 1];
        if positions[n - 1] == q && exceeds(last, old, largest) {
            assert forall|k: int| 0 <= k < n && #[trigger] positions[k] == q implies !exceeds(
                vals[k],
                new,
                largest,
            ) by {
                if k < m {
                    assert(!exceeds(vals[k], old, largest));
                    if exceeds(vals[k], last, largest) {
                        assert(exceeds(vals[k], old, largest));
                    }
                } else {
                    assert(!last.below(last));
                }
            }
        } else {
            assert(new == old);
            if old != extremum_start::<S>(largest) {
                let k = choose|k: int| 0 <= k < m && #[trigger] positions[k] == q && vals[k] == old;
                assert(positions[k] == q && vals[k] == new);
            }
        }
    }
}

/// The number of the first `n` values at position `q` that are equal to the
/// extremum, counted in numbers.
pub open spec fn ties_at<S: Scalar>(
    vals: Seq<S>,
    positions: Seq<usize>,
    extremum: S,
    q: int,
    n: nat,
) -> S
    decreases n,
{
    if n == 0 {
        S::zero_val()
    } else {
        let before = ties_at(vals, positions, extremum, q, (n - 1) as nat);
        if positions[n - 1] == q && vals[n - 1].same(extremum) {
            before.plus(S::one_val())
        } else {
            before
        }
    }
}

/// The gradient of one element of a reduction to the extremum: its share if
/// it is one of the extrema, else 0.
pub open spec fn extremum_share<S: Scalar>(
    vals: Seq<S>,
    grad: Seq<S>,
    positions: Seq<usize>,
    largest: bool,
    k: int,
) -> S {
    let q = positions[k] as int;
    let extremum = extremum_at(vals, positions, largest, q, vals.len());
    if vals[k].same(extremum) {
        grad[k].over(ties_at(vals, positions, extremum, q, vals.len()))
    } else {
        S::zero_val()
    }
}

/// The gradient of a reduction to the extremum.
pub open spec fn extremum_grad_result<S: Scalar>(
    vals: Seq<S>,
    grad: Seq<S>,
    positions: Seq<usize>,
    largest: bool,
) -> Seq<S> {
    Seq::new(vals.len(), |k: int| extremum_share(vals, grad, positions, largest, k))
}

/// The gradient of a reduction to the largest or smallest value along
/// dimensions: it flows to the elements that are equal to the extremum, and
/// is split equally among them.
pub fn extremum_grad<S: Scalar>(
    vals: &[S],
    grad: &[S],
    positions: &[usize],
    outputs: usize,
    largest: bool,
) -> (r: Vec<S>)
    requires
        grad@.len() == vals@.len(),
        positions@.len() == vals@.len(),
        forall|k: int| 0 <= k < positions@.len() ==> #[trigger] positions@[k] < outputs,
    ensures
        r@ == extremum_grad_result(vals@, grad@, positions@, largest),
{
    let n: usize = vals.len();
    // First pass: the extremum of each output position.
    let mut extrema: Vec<S> = Vec::with_capacity(outputs);
    let mut i: usize = 0;
    while i < outputs
        invariant
            i <= outputs,
            extrema@.len() == i,
            forall|q: int|
                0 <= q < i ==> #[trigger] extrema@[q] == extremum_at(
                    vals@,
                    positions@,
                    largest,
                    q,
                    0,
                ),
        decreases outputs - i,
    {
        let start: S = if largest {
            S::lowest()
        } else {
            S::highest()
        };
        extrema.push(start);
        i += 1;
    }
    let mut k: usize = 0;
    while k < n
        invariant
            n == vals@.len(),
            n == positions@.len(),
            k <= n,
            extrema@.len() == outputs,
            forall|j: int| 0 <= j < positions@.len() ==> #[trigger] positions@[j] < outputs,
            forall|q: int|
                0 <= q < outputs ==> #[trigger] extrema@[q] == extremum_at(
                    vals@,
                    positions@,
                    largest,
                    q,
                    k as nat,
                ),
        decreases n - k,
    {
        let p: usize = positions[k];
        let v: S = vals[k];
        let best: S = extrema[p];
        let better: bool = if largest {
            best.lt(v)
        } else {
            v.lt(best)
        };
        if better {
            extrema[p] = v;
        }
        k += 1;
    }
    // Second pass: the number of equal extrema.
    let mut ties: Vec<S> = zero_vec(outputs);
    let mut j: usize = 0;
    while j < n
        invariant
            n == vals@.len(),
            n == positions@.len(),
            j <= n,
            extrema@.len() == outputs,
            ties@.len() == outputs,
            forall|l: int| 0 <= l < positions@.len() ==> #[trigger] positions@[l] < outputs,
            forall|q: int|
                0 <= q < outputs ==> #[trigger] ties@[q] == ties_at(
                    vals@,
                    positions@,
                    extrema@[q],
                    q,
                    j as nat,
                ),
        decreases n - j,
    {
        let p: usize = positions[j];
        if vals[j].eq(extrema[p]) {
            let more: S = ties[p].add(S::one());
            ties[p] = more;
        }
        j += 1;
    }
    // Third pass: the gradient, split among equal extrema.
    let ghost want = extremum_grad_result(vals@, grad@, positions@, largest);
    let mut out: Vec<S> = Vec::with_capacity(n);
    let mut m: usize = 0;
    while m < n
        invariant
            n == vals@.len(),
            n == positions@.len(),
            n == grad@.len(),
            m <= n,
            extrema@.len() == outputs,
            ties@.len() == outputs,
            forall|l: int| 0 <= l < positions@.len() ==> #[trigger] positions@[l] < outputs,
            forall|q: int|
                0 <= q < outputs ==> #[trigger] extrema@[q] == extremum_at(
                    vals@,
                    positions@,
                    largest,
                    q,
                    n as nat,
                ),
            forall|q: int|
                0 <= q < outputs ==> #[trigger] ties@[q] == ties_at(
                    vals@,
                    positions@,
                    extrema@[q],
                    q,
                    n as nat,
                ),
            want == extremum_grad_result(vals@, grad@, positions@, largest),
            out@ == want.take(m as int),
        decreases n - m,
    {
        let p: usize = positions[m];
        let value: S = if vals[m].eq(extrema[p]) {
            grad[m].div(ties[p])
        } else {
            S::zero()
        };
        assert(value == want[m as int]);
        out.push(value);
        assert(out@ =~= want.take(m + 1));
        m += 1;
    }
    assert(out@ =~= want);
    out
}

/// The largest (or smallest) of the first `n` values.
pub open spec fn extremum_of<S: Scalar>(vals: Seq<S>, largest: bool, n: nat) -> S
    decreases n,
{
    if n == 0 {
        if largest {
            S::bottom()
        } else {
            S::top()
        }
    } else {
        let best = extremum_of(vals, largest, (n - 1) as nat);
        if exceeds(vals[n - 1], best, largest) {
            vals[n - 1]
        } else {
            best
        }
    }
}

/// The number of the first `n` values that are equal to the extremum.
pub open spec fn count_equal<S: Scalar>(vals: Seq<S>, extremum: S, n: nat) -> nat
    decreases n,
{
    if n == 0 {
        0
    } else {
        count_equal(vals, extremum, (n - 1) as nat) + if vals[n - 1].same(extremum) {
            1nat
        } else {
            0nat
        }
    }
}

/// The gradient of the extremum of all elements.
pub open spec fn whole_extremum_grad_result<S: Scalar>(
    vals: Seq<S>,
    grad: S,
    largest: bool,
) -> Seq<S> {
    let extremum = extremum_of(vals, largest, vals.len());
    let count = S::of_count(count_equal(vals, extremum, vals.len()) as usize);
    Seq::new(
        vals.len(),
        |k: int|
            if vals[k].same(extremum) {
                grad.over(count)
            } else {
                S::zero_val()
            },
    )
}

/// The gradient of the largest or smallest of all elements, split equally
/// among the elements that are equal to it.
pub fn whole_extremum_grad<S: Scalar>(vals: &[S], grad: S, largest: bool) -> (r: Vec<S>)
    ensures
        r@ == whole_extremum_grad_result(vals@, grad, largest),
{
    let n: usize = vals.len();
    let mut best: S = if largest {
        S::lowest()
    } else {
        S::highest()
    };
    let mut k: usize = 0;
    while k < n
        invariant
            n == vals@.len(),
            k <= n,
            best == extremum_of(vals@, largest, k as nat),
        decreases n - k,
    {
        let v: S = vals[k];
        let better: bool = if largest {
            best.lt(v)
        } else {
            v.lt(best)
        };
        if better {
            best = v;
        }
        k += 1;
    }
    let mut count: usize = 0;
    let mut j: usize = 0;
    while j < n
        invariant
            n == vals@.len(),
            j <= n,
            count == count_equal(vals@, best, j as nat),
            count <= j,
        decreases n - j,
    {
        if vals[j].eq(best) {
            count += 1;
        }
        j += 1;
    }
    let share: S = grad.div(S::from_usize(count));
    let ghost want = whole_extremum_grad_result(vals@, grad, largest);
    let mut out: Vec<S> = Vec::with_capacity(n);
    let mut m: usize = 0;
    while m < n
        invariant
            n == vals@.len(),
            best == extremum_of(vals@, largest, n as nat),
            share == grad.over(S::of_count(count_equal(vals@, best, n as nat) as usize)),
            want == whole_extremum_grad_result(vals@, grad, largest),
            m <= n,
            out@ == want.take(m as int),
        decreases n - m,
    {
        let value: S = if vals[m].eq(best) {
            share
        } else {
            S::zero()
        };
        out.push(value);
        assert(out@ =~= want.take(m + 1));
        m += 1;
    }
    assert(out@ =~= want);
    out
}

/// A list in which values are placed one by one: `val(0)` at the position
/// `at(0)`, and so on; a value without a position in the list is dropped.
pub open spec fn scatter_set<S: Scalar>(
    out: Seq<S>,
    at: spec_fn(int) -> nat,
    val: spec_fn(int) -> S,
    n: nat,
) -> Seq<S>
    decreases n,
{
    if n == 0 {
        out
    } else {
        let before = scatter_set(out, at, val, (n - 1) as nat);
        if at(n - 1) < before.len() {
            before.update(at(n - 1) as int, val(n - 1))
        } else {
            before
        }
    }
}

/// The position in the input that element `k` of a slice comes from.
pub open spec fn narrow_source(
    dims: Seq<usize>,
    grad_dims: Seq<usize>,
    dim: int,
    start: usize,
    k: nat,
) -> nat {
    nd::dot(nd::unravel(k, grad_dims), nd::row_major(dims)) + start as nat * nd::row_major(
        dims,
    )[dim] as nat
}

/// The gradient of the input of a slice.
pub open spec fn narrow_grad_result<S: Scalar>(
    grad: Seq<S>,
    dims: Seq<usize>,
    grad_dims: Seq<usize>,
    dim: int,
    start: usize,
) -> Seq<S> {
    scatter_set(
        kernels::zeros_of(nd::product(dims)),
        |k: int| narrow_source(dims, grad_dims, dim, start, k as nat),
        |k: int| grad[k],
        nd::product(grad_dims),
    )
}

/// The sum of the products of coordinates and strides, if it is a machine
/// number.
fn checked_position(index: &[usize], strides: &[usize]) -> (r: Option<usize>)
    requires
        index@.len() <= strides@.len(),
    ensures
        match r {
            Some(p) => p == nd::dot(index@, strides@),
            None => nd::dot(index@, strides@) > usize::MAX,
        },
{
    let n: usize = index.len();
    let mut sum: usize = 0;
    let mut i: usize = 0;
    proof {
        nd::lemma_dot_prefix(index@, strides@);
        assert(index@.take(0) =~= seq![]);
    }
    let ghost s = strides@.take(n as int);
    while i < n
        invariant
            n == index@.len(),
            n <= strides@.len(),
            s == strides@.take(n as int),
            nd::dot(index@, strides@) == nd::dot(index@, s),
            i <= n,
            sum == nd::dot(index@.take(i as int), s.take(i as int)),
        decreases n - i,
    {
        proof {
            nd::lemma_dot_take(index@, s, i as int);
            nd::lemma_dot_take_le(index@, s, i + 1, n as int);
            assert(index@.take(n as int) =~= index@);
            assert(s.take(n as int) =~= s);
        }
        let term: Option<usize> = index[i].checked_mul(strides[i]);
        let next: Option<usize> = match term {
            Some(t) => sum.checked_add(t),
            None => None,
        };
        match next {
            Some(t) => {
                sum = t;
            },
            None => {
                return None;
            },
        }
        i += 1;
    }
    proof {
        assert(index@.take(n as int) =~= index@);
        assert(s.take(n as int) =~= s);
    }
    Some(sum)
}

/// The row-major strides of a shape that has elements; none are needed of
/// another one.
fn strides_of_some(shape: &Shape, count: usize) -> (r: Vec<usize>)
    requires
        count == nd::product(shape@),
    ensures
        count > 0 ==> nd::strides_fit(shape@) && r@ == nd::row_major(shape@),
{
    if count == 0 {
        return Vec::new();
    }
    proof {
        nd::lemma_count_fits(shape@);
    }
    shape.stride_contiguous()
}

/// The gradient of the input of a slice along `dim` from `start` on: the
/// gradient is placed into zeros at the position of the slice.
pub fn narrow_grad<S: Scalar>(
    grad: &[S],
    shape: &Shape,
    grad_shape: &Shape,
    dim: usize,
    start: usize,
) -> (r: Vec<S>)
    requires
        nd::fits(shape@),
        grad@.len() == nd::product(grad_shape@),
        grad_shape@.len() <= shape@.len(),
        dim < grad_shape@.len(),
    ensures
        r@ == narrow_grad_result(grad@, shape@, grad_shape@, dim as int, start),
        r@.len() == nd::product(shape@),
{
    let total: usize = shape.elem_count();
    let strides = shape.stride_contiguous();
    let n: usize = grad.len();
    let grad_strides = strides_of_some(grad_shape, n);
    let ghost at = |k: int| narrow_source(shape@, grad_shape@, dim as int, start, k as nat);
    let ghost val = |k: int| grad@[k];
    let mut out: Vec<S> = zero_vec(total);
    let ghost zeros = out@;
    let mut k: usize = 0;
    while k < n
        invariant
            nd::strides_fit(shape@),
            n > 0 ==> nd::strides_fit(grad_shape@),
            total == nd::product(shape@),
            n == nd::product(grad_shape@),
            n == grad@.len(),
            grad_shape@.len() <= shape@.len(),
            dim < grad_shape@.len(),
            strides@ == nd::row_major(shape@),
            n > 0 ==> grad_strides@ == nd::row_major(grad_shape@),
            at == (|k: int| narrow_source(shape@, grad_shape@, dim as int, start, k as nat)),
            val == (|k: int| grad@[k]),
            k <= n,
            out@ == scatter_set(zeros, at, val, k as nat),
            out@.len() == total,
        decreases n - k,
    {
        let index = coordinates(k, grad_shape.dims(), grad_strides.as_slice());
        proof {
            lemma_mul_nonnegative(start as int, strides@[dim as int] as int);
        }
        let base = checked_position(index.as_slice(), strides.as_slice());
        let shift = start.checked_mul(strides[dim]);
        let p: Option<usize> = match (base, shift) {
            (Some(a), Some(b)) => a.checked_add(b),
            _ => None,
        };
        assert(match p {
            Some(q) => q == at(k as int),
            None => at(k as int) > usize::MAX,
        });
        match p {
            Some(q) => {
                if q < total {
                    out[q] = grad[k];
                }
            },
            None => {},
        }
        k += 1;
    }
    out
}

/// The position in the input of a gather that element `k` of the index
/// tensor names.
pub open spec fn gather_source<S: Scalar>(
    dims: Seq<usize>,
    index_dims: Seq<usize>,
    index: Seq<S>,
    dim: int,
    k: int,
) -> nat {
    nd::dot(nd::unravel(k as nat, index_dims).update(dim, index[k].as_count()), nd::row_major(dims))
}

/// The position in the input of a selection that element `k` of the output
/// comes from.
pub open spec fn select_source<S: Scalar>(
    dims: Seq<usize>,
    out_dims: Seq<usize>,
    indices: Seq<S>,
    dim: int,
    k: int,
) -> nat {
    let at = nd::unravel(k as nat, out_dims);
    nd::dot(at.update(dim, indices[at[dim] as int].as_count()), nd::row_major(dims))
}

/// Values added up at positions of a list.
pub open spec fn collected<S: Scalar>(
    size: nat,
    source: spec_fn(int) -> nat,
    grad: Seq<S>,
    n: nat,
) -> Seq<S> {
    kernels::scatter_add(
        kernels::zeros_of(size),
        |k: int| Some(source(k) as int),
        |k: int| grad[k],
        n,
    )
}

/// The gradient of the input of a gather, or nothing if an index names no
/// element: each gradient is added to the element that its index names.
pub fn gather_grad<S: Scalar>(
    grad: &[S],
    index: &[S],
    shape: &Shape,
    index_shape: &Shape,
    dim: usize,
) -> (r: Option<Vec<S>>)
    requires
        nd::fits(shape@),
        index@.len() == nd::product(index_shape@),
        grad@.len() >= index@.len(),
        index_shape@.len() == shape@.len(),
        dim < shape@.len(),
    ensures
        match r {
            Some(v) => {
                &&& v@ == collected(
                    nd::product(shape@),
                    |k: int| gather_source(shape@, index_shape@, index@, dim as int, k),
                    grad@,
                    index@.len(),
                )
                &&& forall|k: int|
                    0 <= k < index@.len() ==> #[trigger] gather_source(
                        shape@,
                        index_shape@,
                        index@,
                        dim as int,
                        k,
                    ) < nd::product(shape@)
            },
            None => exists|k: int|
                0 <= k < index@.len() && #[trigger] gather_source(
                    shape@,
                    index_shape@,
                    index@,
                    dim as int,
                    k,
                ) >= nd::product(shape@),
        },
{
    let total: usize = shape.elem_count();
    let strides = shape.stride_contiguous();
    let n: usize = index.len();
    let index_strides = strides_of_some(index_shape, n);
    let ghost source = |k: int| gather_source(shape@, index_shape@, index@, dim as int, k);
    let ghost at = |k: int| Some(source(k) as int);
    let ghost val = |k: int| grad@[k];
    let mut out: Vec<S> = zero_vec(total);
    let ghost zeros = out@;
    let mut k: usize = 0;
    while k < n
        invariant
            nd::strides_fit(shape@),
            n > 0 ==> nd::strides_fit(index_shape@),
            total == nd::product(shape@),
            n == nd::product(index_shape@),
            n == index@.len(),
            grad@.len() >= n,
            index_shape@.len() == shape@.len(),
            dim < shape@.len(),
            strides@ == nd::row_major(shape@),
            n > 0 ==> index_strides@ == nd::row_major(index_shape@),
            source == (|k: int| gather_source(shape@, index_shape@, index@, dim as int, k)),
            at == (|k: int| Some(source(k) as int)),
            val == (|k: int| grad@[k]),
            k <= n,
            out@ == kernels::scatter_add(zeros, at, val, k as nat),
            out@.len() == total,
            forall|j: int|
                0 <= j < k ==> #[trigger] gather_source(
                    shape@,
                    index_shape@,
                    index@,
                    dim as int,
                    j,
                ) < total,
        decreases n - k,
    {
        let mut place = coordinates(k, index_shape.dims(), index_strides.as_slice());
        let ghost coords = place@;
        place[dim] = index[k].to_usize();
        assert(place@ =~= coords.update(dim as int, index@[k as int].as_count()));
        match checked_position(place.as_slice(), strides.as_slice()) {
            Some(p) => {
                assert(p == source(k as int));
                if p >= total {
                    assert(gather_source(shape@, index_shape@, index@, dim as int, k as int)
                        >= total);
                    return None;
                }
                let sum: S = out[p].add(grad[k]);
                out[p] = sum;
            },
            None => {
                assert(gather_source(shape@, index_shape@, index@, dim as int, k as int) >= total);
                return None;
            },
        }
        k += 1;
    }
    Some(out)
}

/// Every index of a selection is there.
pub open spec fn select_in_range<S: Scalar>(
    dims: Seq<usize>,
    out_dims: Seq<usize>,
    indices: Seq<S>,
    dim: int,
    k: int,
) -> bool {
    &&& nd::unravel(k as nat, out_dims)[dim] < indices.len()
    &&& select_source(dims, out_dims, indices, dim, k) < nd::product(dims)
}

/// The gradient of the input of a selection, or nothing if an index is
/// missing or names no element: each gradient is added to the element that
/// it was selected from.
pub fn select_grad<S: Scalar>(
    grad: &[S],
    indices: &[S],
    shape: &Shape,
    out_shape: &Shape,
    dim: usize,
) -> (r: Option<Vec<S>>)
    requires
        nd::fits(shape@),
        grad@.len() == nd::product(out_shape@),
        out_shape@.len() == shape@.len(),
        dim < shape@.len(),
    ensures
        match r {
            Some(v) => {
                &&& v@ == collected(
                    nd::product(shape@),
                    |k: int| select_source(shape@, out_shape@, indices@, dim as int, k),
                    grad@,
                    grad@.len(),
                )
                &&& forall|k: int|
                    0 <= k < grad@.len() ==> #[trigger] select_in_range(
                        shape@,
                        out_shape@,
                        indices@,
                        dim as int,
                        k,
                    )
            },
            None => exists|k: int|
                0 <= k < grad@.len() && !#[trigger] select_in_range(
                    shape@,
                    out_shape@,
                    indices@,
                    dim as int,
                    k,
                ),
        },
{
    let total: usize = shape.elem_count();
    let strides = shape.stride_contiguous();
    let n: usize = grad.len();
    let out_strides = strides_of_some(out_shape, n);
    let count: usize = indices.len();
    let ghost source = |k: int| select_source(shape@, out_shape@, indices@, dim as int, k);
    let ghost at = |k: int| Some(source(k) as int);
    let ghost val = |k: int| grad@[k];
    let mut out: Vec<S> = zero_vec(total);
    let ghost zeros = out@;
    let mut k: usize = 0;
    while k < n
        invariant
            nd::strides_fit(shape@),
            n > 0 ==> nd::strides_fit(out_shape@),
            total == nd::product(shape@),
            n == nd::product(out_shape@),
            n == grad@.len(),
            count == indices@.len(),
            out_shape@.len() == shape@.len(),
            dim < shape@.len(),
            strides@ == nd::row_major(shape@),
            n > 0 ==> out_strides@ == nd::row_major(out_shape@),
            source == (|k: int| select_source(shape@, out_shape@, indices@, dim as int, k)),
            at == (|k: int| Some(source(k) as int)),
            val == (|k: int| grad@[k]),
            k <= n,
            out@ == kernels::scatter_add(zeros, at, val, k as nat),
            out@.len() == total,
            forall|j: int|
                0 <= j < k ==> #[trigger] select_in_range(
                    shape@,
                    out_shape@,
                    indices@,
                    dim as int,
                    j,
                ),
        decreases n - k,
    {
        let mut place = coordinates(k, out_shape.dims(), out_strides.as_slice());
        let ghost coords = place@;
        let which: usize = place[dim];
        if which >= count {
            assert(!select_in_range(shape@, out_shape@, indices@, dim as int, k as int));
            return None;
        }
        place[dim] = indices[which].to_usize();
        assert(place@ =~= coords.update(dim as int, indices@[which as int].as_count()));
        match checked_position(place.as_slice(), strides.as_slice()) {
            Some(p) => {
                assert(p == source(k as int));
                if p >= total {
                    assert(!select_in_range(shape@, out_shape@, indices@, dim as int, k as int));
                    return None;
                }
                let sum: S = out[p].add(grad[k]);
                out[p] = sum;
            },
            None => {
                assert(!select_in_range(shape@, out_shape@, indices@, dim as int, k as int));
                return None;
            },
        }
        assert(select_in_range(shape@, out_shape@, indices@, dim as int, k as int));
        k += 1;
    }
    Some(out)
}

/// The gradient where the input lies strictly between bounds, else 0.
pub open spec fn clamp_grad_result<S: Scalar>(input: Seq<S>, grad: Seq<S>, min: S, max: S) -> Seq<S> {
    Seq::new(
        if input.len() <= grad.len() {
            input.len()
        } else {
            grad.len()
        },
        |i: int|
            if min.below(input[i]) && input[i].below(max) {
                grad[i]
            } else {
                S::zero_val()
            },
    )
}

/// The gradient of a clamp.
pub fn clamp_grad<S: Scalar>(input: &[S], grad: &[S], min: S, max: S) -> (r: Vec<S>)
    ensures
        r@ == clamp_grad_result(input@, grad@, min, max),
{
    let n: usize = if input.len() <= grad.len() {
        input.len()
    } else {
        grad.len()
    };
    let ghost want = clamp_grad_result(input@, grad@, min, max);
    let mut out: Vec<S> = Vec::with_capacity(n);
    let mut i: usize = 0;
    while i < n
        invariant
            n <= input@.len(),
            n <= grad@.len(),
            n == want.len(),
            want == clamp_grad_result(input@, grad@, min, max),
            i <= n,
            out@ == want.take(i as int),
        decreases n - i,
    {
        let x: S = input[i];
        let value: S = if min.lt(x) && x.lt(max) {
            grad[i]
        } else {
            S::zero()
        };
        out.push(value);
        assert(out@ =~= want.take(i + 1));
        i += 1;
    }
    assert(out@ =~= want);
    out
}

/// The gradient where the mask is not 0 (`chosen`) or where it is 0, and 0
/// elsewhere.
pub open spec fn masked<S: Scalar>(mask: Seq<S>, grad: Seq<S>, chosen: bool) -> Seq<S> {
    Seq::new(
        mask.len(),
        |i: int|
            if mask[i].same(S::zero_val()) != chosen {
                grad[i]
            } else {
                S::zero_val()
            },
    )
}

/// The part of a gradient that a mask lets through.
pub fn mask_gradient<S: Scalar>(mask: &[S], grad: &[S], chosen: bool) -> (r: Vec<S>)
    requires
        grad@.len() >= mask@.len(),
    ensures
        r@ == masked(mask@, grad@, chosen),
{
    let n: usize = mask.len();
    let ghost want = masked(mask@, grad@, chosen);
    let mut out: Vec<S> = Vec::with_capacity(n);
    let mut i: usize = 0;
    while i < n
        invariant
            n == mask@.len(),
            grad@.len() >= n,
            want == masked(mask@, grad@, chosen),
            i <= n,
            out@ == want.take(i as int),
        decreases n - i,
    {
        let value: S = if mask[i].eq(S::zero()) != chosen {
            grad[i]
        } else {
            S::zero()
        };
        out.push(value);
        assert(out@ =~= want.take(i + 1));
        i += 1;
    }
    assert(out@ =~= want);
    out
}

/// The sign of a number: 1, -1 or 0.
pub open spec fn sign_of<S: Scalar>(v: S) -> S {
    if S::zero_val().below(v) {
        S::one_val()
    } else if v.below(S::zero_val()) {
        scalar::minus_one_val::<S>()
    } else {
        S::zero_val()
    }
}

/// 1 for a positive number, else 0.
pub open spec fn step_of<S: Scalar>(v: S) -> S {
    if S::zero_val().below(v) {
        S::one_val()
    } else {
        S::zero_val()
    }
}

/// The signs of numbers.
pub fn signs<S: Scalar>(vals: &[S]) -> (r: Vec<S>)
    ensures
        r@ == Seq::new(vals@.len(), |i: int| sign_of(vals@[i])),
{
    let n: usize = vals.len();
    let ghost want = Seq::new(vals@.len(), |i: int| sign_of(vals@[i]));
    let mut out: Vec<S> = Vec::with_capacity(n);
    let mut i: usize = 0;
    while i < n
        invariant
            n == vals@.len(),
            want == Seq::new(vals@.len(), |i: int| sign_of(vals@[i])),
            i <= n,
            out@ == want.take(i as int),
        decreases n - i,
    {
        let v: S = vals[i];
        let value: S = if S::zero().lt(v) {
            S::one()
        } else if v.lt(S::zero()) {
            minus_one()
        } else {
            S::zero()
        };
        out.push(value);
        assert(out@ =~= want.take(i + 1));
        i += 1;
    }
    assert(out@ =~= want);
    out
}

/// 1 for each positive number, else 0.
pub fn steps<S: Scalar>(vals: &[S]) -> (r: Vec<S>)
    ensures
        r@ == Seq::new(vals@.len(), |i: int| step_of(vals@[i])),
{
    let n: usize = vals.len();
    let ghost want = Seq::new(vals@.len(), |i: int| step_of(vals@[i]));
    let mut out: Vec<S> = Vec::with_capacity(n);
    let mut i: usize = 0;
    while i < n
        invariant
            n == vals@.len(),
            want == Seq::new(vals@.len(), |i: int| step_of(vals@[i])),
            i <= n,
            out@ == want.take(i as int),
        decreases n - i,
    {
        let value: S = if S::zero().lt(vals[i]) {
            S::one()
        } else {
            S::zero()
        };
        out.push(value);
        assert(out@ =~= want.take(i + 1));
        i += 1;
    }
    assert(out@ =~= want);
    out
}

/// The coefficient of the cubic term of GELU: 0.044715.
pub open spec fn gelu_cubic<S: Scalar>() -> S {
    S::of_count(44715).over(S::of_count(1_000_000))
}

/// The derivative of GELU at `x`, where `root` is the square root of 2 / pi
/// and `t` the hyperbolic tangent of `root * (x + c * x^3)`.
pub open spec fn gelu_slope_from<S: Scalar>(x: S, root: S, t: S) -> S {
    let one = S::one_val();
    let half = one.over(scalar::two_val());
    let c = gelu_cubic::<S>();
    let slope = root.times(one.plus(S::of_count(3).times(c).times(x).times(x)));
    half.times(one.plus(t)).plus(
        half.times(x).times(one.minus(t.times(t))).times(slope),
    )
}

/// The argument of the hyperbolic tangent in GELU.
pub open spec fn gelu_inner<S: Scalar>(x: S, root: S) -> S {
    root.times(x.plus(gelu_cubic::<S>().times(x).times(x).times(x)))
}

/// The derivative of GELU at `x`.
pub open spec fn is_gelu_slope<S: Real>(x: S, d: S) -> bool {
    exists|q: S, root: S, t: S|
        {
            &&& #[trigger] call_ensures(S::two_over_pi, (), q)
            &&& #[trigger] call_ensures(S::sqrt, (q,), root)
            &&& #[trigger] call_ensures(S::tanh, (gelu_inner(x, root),), t)
            &&& d == gelu_slope_from(x, root, t)
        }
}

/// The derivative of GELU(x) = x / 2 * (1 + tanh(sqrt(2 / pi) * (x + c * x^3))).
pub fn gelu_slope<S: Real>(x: S) -> (d: S)
    ensures
        is_gelu_slope(x, d),
{
    let one: S = S::one();
    let half: S = one.div(scalar::two());
    let c: S = S::from_usize(44715).div(S::from_usize(1_000_000));
    let q: S = S::two_over_pi();
    let root: S = q.sqrt();
    let inner: S = root.mul(x.add(c.mul(x).mul(x).mul(x)));
    let t: S = inner.tanh();
    let sech2: S = one.sub(t.mul(t));
    let slope: S = root.mul(one.add(S::from_usize(3).mul(c).mul(x).mul(x)));
    let d: S = half.mul(one.add(t)).add(half.mul(x).mul(sech2).mul(slope));
    assert(call_ensures(S::two_over_pi, (), q));
    assert(call_ensures(S::sqrt, (q,), root));
    assert(call_ensures(S::tanh, (gelu_inner(x, root),), t));
    assert(d == gelu_slope_from(x, root, t));
    d
}

/// The derivatives of GELU at numbers.
pub open spec fn are_gelu_slopes<S: Real>(vals: Seq<S>, slopes: Seq<S>) -> bool {
    &&& slopes.len() == vals.len()
    &&& forall|i: int| 0 <= i < vals.len() ==> is_gelu_slope(vals[i], #[trigger] slopes[i])
}

/// The derivatives of GELU at numbers.
pub fn gelu_slopes<S: Real>(vals: &[S]) -> (r: Vec<S>)
    ensures
        are_gelu_slopes(vals@, r@),
{
    let n: usize = vals.len();
    let mut out: Vec<S> = Vec::with_capacity(n);
    let mut i: usize = 0;
    while i < n
        invariant
            n == vals@.len(),
            i <= n,
            out@.len() == i,
            forall|k: int| 0 <= k < i ==> is_gelu_slope(vals@[k], #[trigger] out@[k]),
        decreases n - i,
    {
        let d: S = gelu_slope(vals[i]);
        out.push(d);
        i += 1;
    }
    out
}

/// The product of sizes, in numbers.
pub open spec fn size_product<S: Scalar>(dims: Seq<usize>, axes: Seq<usize>, n: nat) -> S
    decreases n,
{
    if n == 0 {
        S::one_val()
    } else {
        size_product::<S>(dims, axes, (n - 1) as nat).times(S::of_count(dims[axes[n - 1] as int]))
    }
}

/// The product of the sizes of dimensions, in numbers.
pub fn sizes_multiplied<S: Scalar>(dims: &[usize], axes: &[usize]) -> (r: S)
    requires
        forall|i: int| 0 <= i < axes@.len() ==> #[trigger] axes@[i] < dims@.len(),
    ensures
        r == size_product::<S>(dims@, axes@, axes@.len()),
{
    let n: usize = axes.len();
    let mut acc: S = S::one();
    let mut i: usize = 0;
    while i < n
        invariant
            n == axes@.len(),
            i <= n,
            forall|k: int| 0 <= k < axes@.len() ==> #[trigger] axes@[k] < dims@.len(),
            acc == size_product::<S>(dims@, axes@, i as nat),
        decreases n - i,
    {
        acc = acc.mul(S::from_usize(dims[axes[i]]));
        i += 1;
    }
    acc
}

proof fn lemma_scatter_set<S: Scalar>(
    out: Seq<S>,
    at: spec_fn(int) -> nat,
    val: spec_fn(int) -> S,
    n: nat,
    p: int,
)
    requires
        0 <= p < out.len(),
    ensures
        scatter_set(out, at, val, n).len() == out.len(),
        (forall|k: int| 0 <= k < n ==> #[trigger] at(k) != p) ==> scatter_set(out, at, val, n)[p]
            == out[p],
        forall|k: int|
            0 <= k < n && #[trigger] at(k) == p && (forall|j: int| k < j < n ==> #[trigger] at(j) != p)
                ==> scatter_set(out, at, val, n)[p] == val(k),
    decreases n,
{
    if n > 0 {
        lemma_scatter_set(out, at, val, (n - 1) as nat, p);
        assert(at(n - 1) == p || at(n - 1) != p);
    }
}

/// The index of the input that an index of a slice stands for.
pub open spec fn slid(index: Seq<usize>, dim: int, start: usize) -> Seq<usize> {
    index.update(dim, (index[dim] + start) as usize)
}

/// A slice that has elements fits.
proof fn lemma_slice_fits(dims: Seq<usize>, dim: int, len: usize)
    requires
        nd::product(dims) <= usize::MAX,
        0 <= dim < dims.len(),
        len <= dims[dim],
        nd::product(dims.update(dim, len)) > 0,
    ensures
        nd::fits(dims.update(dim, len)),
{
    let small = dims.update(dim, len);
    nd::lemma_product_zero(small);
    nd::lemma_product_zero(dims);
    assert forall|i: int| 0 <= i < dims.len() implies #[trigger] dims[i] > 0 by {
        assert(small[i] > 0);
    }
    nd::lemma_count_fits(dims);
    nd::lemma_span_update(dims, dim, len);
    nd::lemma_span_fits(small);
}

proof fn lemma_slice_position(
    dims: Seq<usize>,
    index: Seq<usize>,
    dim: int,
    start: usize,
    len: usize,
)
    requires
        nd::fits(dims),
        0 <= dim < dims.len(),
        start + len <= dims[dim],
        nd::in_bounds(index, dims.update(dim, len)),
    ensures
        nd::in_bounds(slid(index, dim, start), dims),
        nd::dot(index, nd::row_major(dims)) + start as nat * nd::row_major(dims)[dim] as nat
            == nd::dot(slid(index, dim, start), nd::row_major(dims)),
{
    let small = dims.update(dim, len);
    let moved = slid(index, dim, start);
    let s = nd::row_major(dims);
    assert(index[dim] < small[dim]);
    assert forall|i: int| 0 <= i < dims.len() implies #[trigger] moved[i] < dims[i] by {
        assert(index[i] < small[i]);
    }
    nd::lemma_dot_update(index, s, dim, moved[dim]);
    lemma_mul_is_distributive_add_other_way(s[dim] as int, index[dim] as int, start as int);
}

/// The gradient of the input of a slice: at an index in the slice it is the
/// gradient of the slice there, elsewhere it is 0.
pub proof fn law_narrow_grad<S: Scalar>(
    grad: Seq<S>,
    dims: Seq<usize>,
    dim: int,
    start: usize,
    len: usize,
    index: Seq<usize>,
)
    requires
        nd::fits(dims),
        0 <= dim < dims.len(),
        start + len <= dims[dim],
        nd::in_bounds(index, dims),
    ensures
        narrow_grad_result(grad, dims, dims.update(dim, len), dim, start)[nd::dot(
            index,
            nd::row_major(dims),
        ) as int] == if start <= index[dim] < start + len {
            grad[nd::dot(
                index.update(dim, (index[dim] - start) as usize),
                nd::row_major(dims.update(dim, len)),
            ) as int]
        } else {
            S::zero_val()
        },
{
    let small = dims.update(dim, len);
    let n = nd::product(small);
    let at = |k: int| narrow_source(dims, small, dim, start, k as nat);
    let val = |k: int| grad[k];
    let zeros = kernels::zeros_of::<S>(nd::product(dims));
    let p = nd::dot(index, nd::row_major(dims)) as int;
    nd::lemma_unravel_of_ravel(index, dims);
    lemma_scatter_set(zeros, at, val, n, p);
    // A gradient that is placed at `p` belongs to the index slid back.
    assert forall|k: int| 0 <= k < n && #[trigger] at(k) == p implies start <= index[dim] < start
        + len && k == nd::dot(
        index.update(dim, (index[dim] - start) as usize),
        nd::row_major(small),
    ) by {
        let u = nd::unravel(k as nat, small);
        lemma_slice_fits(dims, dim, len);
        nd::lemma_ravel_of_unravel(k as nat, small);
        lemma_slice_position(dims, u, dim, start, len);
        nd::lemma_unravel_of_ravel(slid(u, dim, start), dims);
        assert(index == slid(u, dim, start));
        assert(u[dim] < small[dim]);
        assert(index.update(dim, (index[dim] - start) as usize) =~= u);
    }
    if start <= index[dim] < start + len {
        let back = index.update(dim, (index[dim] - start) as usize);
        assert forall|i: int| 0 <= i < small.len() implies #[trigger] back[i] < small[i] by {
            assert(index[i] < dims[i]);
        }
        let k = nd::dot(back, nd::row_major(small)) as int;
        nd::lemma_product_zero(small);
        assert forall|i: int| 0 <= i < small.len() implies #[trigger] small[i] > 0 by {
            assert(back[i] < small[i]);
        }
        lemma_slice_fits(dims, dim, len);
        nd::lemma_unravel_of_ravel(back, small);
        lemma_slice_position(dims, back, dim, start, len);
        assert(slid(back, dim, start) =~= index);
        assert(at(k) == p);
    }
}

} // verus!
