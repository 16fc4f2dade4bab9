//! Selections of dimensions: what a reduction removes and what it keeps.
use crate::nd;
use vstd::arithmetic::mul::*;
use vstd::prelude::*;

verus! {

/// The first `n` entries of a list without those at the positions `axes`.
pub open spec fn kept_upto(vals: Seq<usize>, axes: Seq<usize>, n: nat) -> Seq<usize>
    decreases n,
{
    if n == 0 {
        seq![]
    } else if axes.contains((n - 1) as usize) {
        kept_upto(vals, axes, (n - 1) as nat)
    } else {
        kept_upto(vals, axes, (n - 1) as nat).push(vals[n - 1])
    }
}

/// The entries of a list without those at the positions `axes`.
pub open spec fn kept(vals: Seq<usize>, axes: Seq<usize>) -> Seq<usize> {
    kept_upto(vals, axes, vals.len())
}

/// The sizes with those at the positions `axes` replaced by 1.
pub open spec fn flattened(dims: Seq<usize>, axes: Seq<usize>) -> Seq<usize> {
    Seq::new(
        dims.len(),
        |i: int|
            if axes.contains(i as usize) {
                1
            } else {
                dims[i]
            },
    )
}

/// The shape of a reduction along `axes`, or over all elements if there are
/// none: the reduced dimensions are removed, or kept with size 1.
pub open spec fn reduced(dims: Seq<usize>, axes: Seq<usize>, keep_dim: bool) -> Seq<usize> {
    if axes.len() == 0 {
        seq![]
    } else if keep_dim {
        flattened(dims, axes)
    } else {
        kept(dims, axes)
    }
}

proof fn lemma_span_push(a: Seq<usize>, d: usize)
    ensures
        nd::span(a.push(d)) == nd::span(a) * nd::span(seq![d]),
        nd::span(seq![d]) >= 1,
{
    assert(a.push(d) =~= a + seq![d]);
    nd::lemma_span_add(a, seq![d]);
    nd::lemma_product_le_span(seq![d], 0);
}

proof fn lemma_span_kept_upto(dims: Seq<usize>, axes: Seq<usize>, n: nat)
    requires
        n <= dims.len(),
    ensures
        nd::span(kept_upto(dims, axes, n)) <= nd::span(dims.take(n as int)),
    decreases n,
{
    if n == 0 {
        assert(dims.take(0) =~= seq![]);
    } else {
        let k = (n - 1) as nat;
        lemma_span_kept_upto(dims, axes, k);
        assert(dims.take(n as int) =~= dims.take(k as int).push(dims[k as int]));
        lemma_span_push(dims.take(k as int), dims[k as int]);
        lemma_span_push(kept_upto(dims, axes, k), dims[k as int]);
        let x = nd::span(kept_upto(dims, axes, k)) as int;
        let y = nd::span(dims.take(k as int)) as int;
        let f = nd::span(seq![dims[k as int]]) as int;
        assert(x <= y * f && x * f <= y * f) by (nonlinear_arith)
            requires
                0 <= x <= y,
                f >= 1,
        ;
    }
}

/// Removing sizes of a shape that has elements gives a shape that fits.
pub proof fn lemma_kept_fits(dims: Seq<usize>, axes: Seq<usize>)
    requires
        0 < nd::product(dims) <= usize::MAX,
    ensures
        nd::fits(kept(dims, axes)),
{
    nd::lemma_count_fits(dims);
    lemma_span_kept_upto(dims, axes, dims.len());
    assert(dims.take(dims.len() as int) =~= dims);
    nd::lemma_span_fits(kept(dims, axes));
}

/// Whether a number stands in a list.
pub(crate) fn stands_in(x: usize, list: &[usize]) -> (r: bool)
    ensures
        r == list@.contains(x),
{
    let n: usize = list.len();
    let mut i: usize = 0;
    while i < n
        invariant
            n == list@.len(),
            i <= n,
            forall|j: int| 0 <= j < i ==> #[trigger] list@[j] != x,
        decreases n - i,
    {
        if list[i] == x {
            return true;
        }
        i += 1;
    }
    false
}

/// The entries of a list without those at the positions `axes`.
pub(crate) fn keep(vals: &[usize], axes: &[usize]) -> (r: Vec<usize>)
    ensures
        r@ == kept(vals@, axes@),
{
    let n: usize = vals.len();
    let mut out: Vec<usize> = Vec::new();
    let mut i: usize = 0;
    while i < n
        invariant
            n == vals@.len(),
            i <= n,
            out@ == kept_upto(vals@, axes@, i as nat),
        decreases n - i,
    {
        if !stands_in(i, axes) {
            out.push(vals[i]);
        }
        i += 1;
    }
    out
}

/// The shape of a reduction.
pub(crate) fn reduced_sizes(dims: &[usize], axes: &[usize], keep_dim: bool) -> (r: Vec<usize>)
    ensures
        r@ == reduced(dims@, axes@, keep_dim),
{
    if axes.len() == 0 {
        return Vec::new();
    }
    if !keep_dim {
        return keep(dims, axes);
    }
    let n: usize = dims.len();
    let mut out: Vec<usize> = Vec::with_capacity(n);
    let mut i: usize = 0;
    while i < n
        invariant
            n == dims@.len(),
            i <= n,
            out@ == flattened(dims@, axes@).take(i as int),
        decreases n - i,
    {
        let size: usize = if stands_in(i, axes) {
            1
        } else {
            dims[i]
        };
        out.push(size);
        assert(out@ =~= flattened(dims@, axes@).take(i + 1));
        i += 1;
    }
    assert(out@ =~= flattened(dims@, axes@));
    out
}

} // verus!
