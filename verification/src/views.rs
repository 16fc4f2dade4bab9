//! Layouts of views: reading the same storage with dimensions added, removed,
//! reordered or repeated.
use crate::error::{Error, Result};
use crate::layout::{self, Layout, LayoutView};
use crate::nd;
use crate::shape::{copy_sizes, Shape};
use vstd::arithmetic::mul::*;
use vstd::prelude::*;

verus! {

/// The entries of a list at the given positions.
pub open spec fn selected(a: Seq<usize>, p: Seq<usize>) -> Seq<usize> {
    Seq::new(p.len(), |i: int| a[p[i] as int])
}

/// Each of the numbers below `p.len()` stands in `p` once.
pub open spec fn is_permutation(p: Seq<usize>) -> bool {
    &&& forall|i: int| 0 <= i < p.len() ==> #[trigger] p[i] < p.len()
    &&& p.no_duplicates()
}

/// The entries of `vals` whose size in `dims` is not 1.
pub open spec fn without_ones(dims: Seq<usize>, vals: Seq<usize>) -> Seq<usize>
    decreases dims.len(),
{
    if dims.len() == 0 {
        seq![]
    } else if dims.last() == 1 {
        without_ones(dims.drop_last(), vals.drop_last())
    } else {
        without_ones(dims.drop_last(), vals.drop_last()).push(vals.last())
    }
}

/// The coordinates of the element that an index names when some dimensions
/// of size 1 are repeated.
pub open spec fn unrepeated(index: Seq<usize>, dims: Seq<usize>, target: Seq<usize>) -> Seq<usize> {
    Seq::new(
        index.len(),
        |i: int|
            if dims[i] == 1 && target[i] > 1 {
                0
            } else {
                index[i]
            },
    )
}

impl LayoutView {
    /// The layout with a dimension of size 1 at `dim`.
    pub open spec fn unsqueezed(self, dim: int) -> LayoutView {
        LayoutView {
            dims: self.dims.insert(dim, 1),
            strides: self.strides.insert(
                dim,
                if dim < self.dims.len() {
                    self.strides[dim]
                } else {
                    1
                },
            ),
            offset: self.offset,
        }
    }

    /// The layout without the dimension `dim`.
    pub open spec fn squeezed(self, dim: int) -> LayoutView {
        LayoutView {
            dims: self.dims.remove(dim),
            strides: self.strides.remove(dim),
            offset: self.offset,
        }
    }

    /// The layout without the dimensions of size 1.
    pub open spec fn squeezed_all(self) -> LayoutView {
        LayoutView {
            dims: without_ones(self.dims, self.dims),
            strides: without_ones(self.dims, self.strides),
            offset: self.offset,
        }
    }

    /// The layout whose `i`-th dimension is dimension `p[i]` of this one.
    pub open spec fn permuted(self, p: Seq<usize>) -> LayoutView {
        LayoutView {
            dims: selected(self.dims, p),
            strides: selected(self.strides, p),
            offset: self.offset,
        }
    }

    /// Whether the sizes of `target` are those of this layout but for
    /// dimensions of size 1.
    pub open spec fn expandable(self, target: Seq<usize>) -> bool {
        &&& self.dims.len() == target.len()
        &&& forall|i: int|
            0 <= i < target.len() ==> #[trigger] self.dims[i] == target[i] || self.dims[i] == 1
    }

    /// The layout of shape `target` that repeats the dimensions of size 1.
    pub open spec fn expanded(self, target: Seq<usize>) -> LayoutView {
        LayoutView {
            dims: target,
            strides: Seq::new(
                target.len(),
                |i: int|
                    if self.dims[i] == 1 && target[i] > 1 {
                        0
                    } else {
                        self.strides[i]
                    },
            ),
            offset: self.offset,
        }
    }
}

/// One factor of the span.
spec fn factor(d: usize) -> nat {
    if d == 0 {
        1
    } else {
        d as nat
    }
}

/// Removing a size divides the span by it.
proof fn lemma_span_remove(dims: Seq<usize>, i: int)
    requires
        0 <= i < dims.len(),
    ensures
        nd::span(dims) == factor(dims[i]) * nd::span(dims.remove(i)),
    decreases dims.len(),
{
    if i == 0 {
        assert(dims.remove(0) =~= dims.skip(1));
        lemma_mul_basics(nd::span(dims.skip(1)) as int);
    } else {
        let rest = dims.skip(1);
        lemma_span_remove(rest, i - 1);
        assert(dims.remove(i).skip(1) =~= rest.remove(i - 1));
        assert(dims.remove(i)[0] == dims[0]);
        let a = factor(dims[0]) as int;
        let b = factor(dims[i]) as int;
        let c = nd::span(rest.remove(i - 1)) as int;
        lemma_mul_basics(nd::span(rest) as int);
        lemma_mul_basics(c);
        assert(a * (b * c) == b * (a * c)) by (nonlinear_arith);
    }
}

/// Positions after the removal of position `j`.
spec fn shifted(p: Seq<usize>, j: usize) -> Seq<usize> {
    Seq::new(
        (p.len() - 1) as nat,
        |i: int|
            if p[i + 1] > j {
                (p[i + 1] - 1) as usize
            } else {
                p[i + 1]
            },
    )
}

proof fn lemma_shifted(p: Seq<usize>)
    requires
        is_permutation(p),
        p.len() > 0,
    ensures
        is_permutation(shifted(p, p[0])),
        forall|a: Seq<usize>|
            a.len() == p.len() ==> #[trigger] selected(a, p).skip(1) == selected(
                a.remove(p[0] as int),
                shifted(p, p[0]),
            ),
{
    let j = p[0];
    let q = shifted(p, j);
    assert forall|i: int| 0 <= i < q.len() implies p[i + 1] != j && #[trigger] q[i] < q.len() by {
        assert(p[i + 1] != p[0]);
        assert(p[i + 1] < p.len());
    }
    assert forall|i: int, k: int| 0 <= i < q.len() && 0 <= k < q.len() && i != k implies q[i]
        != q[k] by {
        assert(p[i + 1] != p[k + 1]);
        assert(p[i + 1] != p[0]);
        assert(p[k + 1] != p[0]);
    }
    assert forall|a: Seq<usize>| a.len() == p.len() implies #[trigger] selected(a, p).skip(1)
        == selected(a.remove(j as int), q) by {
        assert forall|i: int| 0 <= i < q.len() implies #[trigger] selected(a, p).skip(1)[i]
            == selected(a.remove(j as int), q)[i] by {
            assert(p[i + 1] != p[0]);
            assert(p[i + 1] < p.len());
            assert(q[i] < q.len());
        }
        assert(selected(a, p).skip(1) =~= selected(a.remove(j as int), q));
    }
}

proof fn lemma_span_selected(dims: Seq<usize>, p: Seq<usize>)
    requires
        is_permutation(p),
        p.len() == dims.len(),
    ensures
        nd::span(selected(dims, p)) == nd::span(dims),
    decreases dims.len(),
{
    if p.len() > 0 {
        let j = p[0] as int;
        assert(p[0] < p.len());
        lemma_shifted(p);
        lemma_span_selected(dims.remove(j), shifted(p, p[0]));
        lemma_span_remove(dims, j);
        let s = selected(dims, p);
        assert(s.skip(1) == selected(dims.remove(j), shifted(p, p[0])));
        lemma_mul_basics(nd::span(s.skip(1)) as int);
    } else {
        assert(selected(dims, p) =~= dims);
    }
}

proof fn lemma_dot_selected(a: Seq<usize>, b: Seq<usize>, p: Seq<usize>)
    requires
        is_permutation(p),
        p.len() == a.len(),
        a.len() == b.len(),
    ensures
        nd::dot(selected(a, p), selected(b, p)) == nd::dot(a, b),
    decreases a.len(),
{
    if p.len() > 0 {
        let j = p[0] as int;
        assert(p[0] < p.len());
        lemma_shifted(p);
        lemma_dot_selected(a.remove(j), b.remove(j), shifted(p, p[0]));
        assert(selected(a, p).skip(1) == selected(a.remove(j), shifted(p, p[0])));
        assert(selected(b, p).skip(1) == selected(b.remove(j), shifted(p, p[0])));
        nd::lemma_dot_insert(a.remove(j), b.remove(j), j, a[j], b[j]);
        assert(a.remove(j).insert(j, a[j]) =~= a);
        assert(b.remove(j).insert(j, b[j]) =~= b);
    } else {
        assert(selected(a, p) =~= a);
        assert(selected(b, p) =~= b);
    }
}

/// A permuted layout finds at a permuted index the element that the layout
/// finds at the index.
pub proof fn law_permute_addresses(l: LayoutView, p: Seq<usize>, index: Seq<usize>)
    requires
        l.strides.len() == l.dims.len(),
        index.len() == l.dims.len(),
        is_permutation(p),
        p.len() == l.dims.len(),
    ensures
        l.permuted(p).address(selected(index, p)) == l.address(index),
        nd::in_bounds(index, l.dims) ==> nd::in_bounds(selected(index, p), l.permuted(p).dims),
{
    lemma_dot_selected(index, l.strides, p);
    if nd::in_bounds(index, l.dims) {
        let si = selected(index, p);
        let sd = l.permuted(p).dims;
        assert forall|i: int| 0 <= i < sd.len() implies #[trigger] si[i] < sd[i] by {
            assert(p[i] < p.len());
            assert(index[p[i] as int] < l.dims[p[i] as int]);
        }
    }
}

/// A permutation hits every position.
proof fn lemma_onto(p: Seq<usize>, d: int)
    requires
        is_permutation(p),
        0 <= d < p.len(),
    ensures
        exists|i: int| 0 <= i < p.len() && #[trigger] p[i] == d,
    decreases p.len(),
{
    let j = p[0];
    if j != d {
        let q = shifted(p, j);
        lemma_shifted(p);
        assert(p[0] < p.len());
        let e = if d > j {
            d - 1
        } else {
            d
        };
        lemma_onto(q, e);
        let i = choose|i: int| 0 <= i < q.len() && #[trigger] q[i] == e;
        assert(p[i + 1] != p[0]);
        assert(p[i + 1] == d);
    }
}

/// Where a value stands first in a list; the length of the list if nowhere.
pub open spec fn place_of(p: Seq<usize>, d: int) -> nat
    decreases p.len(),
{
    if p.len() == 0 || p[0] == d {
        0
    } else {
        1 + place_of(p.skip(1), d)
    }
}

/// The permutation that undoes another one.
pub open spec fn inverse(p: Seq<usize>) -> Seq<usize> {
    Seq::new(p.len(), |d: int| place_of(p, d) as usize)
}

proof fn lemma_place(p: Seq<usize>, d: int)
    ensures
        place_of(p, d) <= p.len(),
        place_of(p, d) < p.len() ==> p[place_of(p, d) as int] == d,
        forall|i: int| 0 <= i < place_of(p, d) ==> #[trigger] p[i] != d,
    decreases p.len(),
{
    if p.len() > 0 && p[0] != d {
        lemma_place(p.skip(1), d);
        assert forall|i: int| 0 <= i < place_of(p, d) implies #[trigger] p[i] != d by {
            if i > 0 {
                assert(p.skip(1)[i - 1] == p[i]);
            }
        }
    }
}

/// The inverse is a permutation, and undoes the other in both orders.
pub proof fn lemma_inverse(p: Seq<usize>)
    requires
        is_permutation(p),
    ensures
        inverse(p).len() == p.len(),
        is_permutation(inverse(p)),
        forall|d: int| 0 <= d < p.len() ==> #[trigger] inverse(p)[d] < p.len(),
        forall|d: int| 0 <= d < p.len() ==> p[#[trigger] inverse(p)[d] as int] == d,
        forall|i: int| 0 <= i < p.len() ==> inverse(p)[#[trigger] p[i] as int] == i,
{
    let q = inverse(p);
    assert forall|d: int| 0 <= d < p.len() implies #[trigger] q[d] < p.len() && p[q[d] as int]
        == d by {
        lemma_place(p, d);
        lemma_onto(p, d);
        let i = choose|i: int| 0 <= i < p.len() && #[trigger] p[i] == d;
        assert(place_of(p, d) <= i);
        lemma_onto(p, p.len() - 1);
    }
    assert forall|i: int| 0 <= i < p.len() implies q[#[trigger] p[i] as int] == i by {
        assert(p[i] < p.len());
        let j = q[p[i] as int] as int;
        assert(p[j] == p[i]);
    }
}

/// Permuting a permuted layout by the inverse gives the layout back.
pub proof fn law_permute_undone(l: LayoutView, p: Seq<usize>)
    requires
        l.strides.len() == l.dims.len(),
        is_permutation(p),
        p.len() == l.dims.len(),
    ensures
        is_permutation(inverse(p)),
        l.permuted(p).permuted(inverse(p)) == l,
{
    lemma_inverse(p);
    let m = l.permuted(p).permuted(inverse(p));
    assert forall|d: int| 0 <= d < p.len() implies #[trigger] m.dims[d] == l.dims[d] by {
        assert(p[inverse(p)[d] as int] == d);
    }
    assert forall|d: int| 0 <= d < p.len() implies #[trigger] m.strides[d] == l.strides[d] by {
        assert(p[inverse(p)[d] as int] == d);
    }
    assert(m.dims =~= l.dims);
    assert(m.strides =~= l.strides);
}

/// A layout permuted by the inverse finds at an index the element that the
/// layout finds at the permuted index.
pub proof fn law_inverse_addresses(l: LayoutView, p: Seq<usize>, index: Seq<usize>)
    requires
        l.strides.len() == l.dims.len(),
        index.len() == l.dims.len(),
        is_permutation(p),
        p.len() == l.dims.len(),
    ensures
        l.permuted(inverse(p)).address(index) == l.address(selected(index, p)),
        nd::in_bounds(index, l.permuted(inverse(p)).dims) <==> nd::in_bounds(
            selected(index, p),
            l.dims,
        ),
{
    lemma_inverse(p);
    let q = inverse(p);
    let to = selected(index, p);
    let m = l.permuted(q);
    law_permute_addresses(l, q, to);
    assert(selected(to, q) =~= index) by {
        assert forall|d: int| 0 <= d < p.len() implies #[trigger] selected(to, q)[d]
            == index[d] by {
            assert(p[q[d] as int] == d);
        }
    }
    if nd::in_bounds(index, m.dims) {
        assert forall|i: int| 0 <= i < l.dims.len() implies #[trigger] to[i] < l.dims[i] by {
            assert(p[i] < p.len());
            assert(index[p[i] as int] < m.dims[p[i] as int]);
            assert(q[p[i] as int] == i);
        }
    }
}

pub proof fn lemma_permuted_valid(l: LayoutView, p: Seq<usize>)
    requires
        l.valid(),
        is_permutation(p),
        p.len() == l.dims.len(),
    ensures
        l.permuted(p).valid(),
{
    let m = l.permuted(p);
    lemma_span_selected(l.dims, p);
    if nd::product(m.dims) > 0 {
        nd::lemma_product_zero(m.dims);
        nd::lemma_product_zero(l.dims);
        assert forall|d: int| 0 <= d < l.dims.len() implies #[trigger] l.dims[d] > 0 by {
            lemma_onto(p, d);
            let i = choose|i: int| 0 <= i < p.len() && #[trigger] p[i] == d;
            assert(m.dims[i] == l.dims[d]);
        }
        nd::lemma_count_fits(l.dims);
        nd::lemma_span_is_product(m.dims);
        let last = layout::last_index(l.dims);
        law_permute_addresses(l, p, last);
        assert(selected(last, p) =~= layout::last_index(m.dims)) by {
            assert forall|i: int| 0 <= i < p.len() implies #[trigger] selected(last, p)[i]
                == layout::last_index(m.dims)[i] by {
                assert(p[i] < p.len());
            }
        }
    }
}

/// The permutation that exchanges two positions.
spec fn exchange_of(n: nat, i: int, j: int) -> Seq<usize> {
    Seq::new(
        n,
        |k: int|
            if k == i {
                j as usize
            } else if k == j {
                i as usize
            } else {
                k as usize
            },
    )
}

pub proof fn lemma_transposed_valid(l: LayoutView, dim0: usize, dim1: usize)
    requires
        l.valid(),
        dim0 < l.dims.len() <= usize::MAX,
        dim1 < l.dims.len(),
    ensures
        l.transposed(dim0 as int, dim1 as int).valid(),
{
    let p = exchange_of(l.dims.len(), dim0 as int, dim1 as int);
    assert(is_permutation(p));
    lemma_permuted_valid(l, p);
    assert(l.permuted(p).dims =~= l.transposed(dim0 as int, dim1 as int).dims);
    assert(l.permuted(p).strides =~= l.transposed(dim0 as int, dim1 as int).strides);
}

pub proof fn lemma_narrowed_valid(l: LayoutView, dim: int, start: usize, len: usize)
    requires
        l.valid(),
        0 <= dim < l.dims.len(),
        start + len <= l.dims[dim],
        l.offset + start * l.strides[dim] <= usize::MAX,
    ensures
        l.narrowed(dim, start, len).valid(),
{
    let m = l.narrowed(dim, start, len);
    nd::lemma_span_update(l.dims, dim, len);
    if nd::product(m.dims) > 0 {
        nd::lemma_product_zero(m.dims);
        nd::lemma_product_zero(l.dims);
        let last = layout::last_index(m.dims);
        assert(m.dims[dim] > 0);
        assert forall|i: int| 0 <= i < l.dims.len() implies #[trigger] l.dims[i] > 0 by {
            assert(m.dims[i] > 0);
        }
        nd::lemma_count_fits(l.dims);
        nd::lemma_span_is_product(m.dims);
        assert forall|i: int| 0 <= i < m.dims.len() implies #[trigger] last[i] < m.dims[i] by {
            assert(m.dims[i] > 0);
        }
        layout::law_narrow_addresses(l, dim, start, len, last);
        layout::lemma_address_bound(l, last.update(dim, (last[dim] + start) as usize));
    }
}

/// A layout with an added dimension finds at coordinate 0 of it what the
/// layout finds without.
pub proof fn law_unsqueeze_addresses(l: LayoutView, dim: int, index: Seq<usize>)
    requires
        l.strides.len() == l.dims.len(),
        index.len() == l.dims.len(),
        0 <= dim <= l.dims.len(),
    ensures
        l.unsqueezed(dim).address(index.insert(dim, 0)) == l.address(index),
        nd::in_bounds(index, l.dims) ==> nd::in_bounds(
            index.insert(dim, 0),
            l.unsqueezed(dim).dims,
        ),
{
    let m = l.unsqueezed(dim);
    nd::lemma_dot_insert(index, l.strides, dim, 0, m.strides[dim]);
    lemma_mul_basics(m.strides[dim] as int);
    if nd::in_bounds(index, l.dims) {
        let ii = index.insert(dim, 0);
        assert forall|i: int| 0 <= i < m.dims.len() implies #[trigger] ii[i] < m.dims[i] by {
            if i < dim {
                assert(index[i] < l.dims[i]);
            } else if i > dim {
                assert(index[i - 1] < l.dims[i - 1]);
            }
        }
    }
}

pub proof fn lemma_unsqueezed_valid(l: LayoutView, dim: int)
    requires
        l.valid(),
        0 <= dim <= l.dims.len(),
    ensures
        l.unsqueezed(dim).valid(),
{
    let m = l.unsqueezed(dim);
    lemma_span_remove(m.dims, dim);
    assert(m.dims.remove(dim) =~= l.dims);
    lemma_mul_basics(nd::span(l.dims) as int);
    if nd::product(m.dims) > 0 {
        nd::lemma_product_zero(m.dims);
        nd::lemma_product_zero(l.dims);
        assert forall|i: int| 0 <= i < l.dims.len() implies #[trigger] l.dims[i] > 0 by {
            if i < dim {
                assert(m.dims[i] == l.dims[i]);
            } else {
                assert(m.dims[i + 1] == l.dims[i]);
            }
        }
        nd::lemma_count_fits(l.dims);
        nd::lemma_span_is_product(m.dims);
        let last = layout::last_index(l.dims);
        law_unsqueeze_addresses(l, dim, last);
        assert(last.insert(dim, 0) =~= layout::last_index(m.dims));
    }
}

/// Removing an added dimension gives the layout back.
pub proof fn law_squeeze_undoes_unsqueeze(l: LayoutView, dim: int)
    requires
        l.strides.len() == l.dims.len(),
        0 <= dim <= l.dims.len(),
    ensures
        l.unsqueezed(dim).dims[dim] == 1,
        l.unsqueezed(dim).squeezed(dim) == l,
{
    let m = l.unsqueezed(dim).squeezed(dim);
    assert(m.dims =~= l.dims);
    assert(m.strides =~= l.strides);
}

/// A layout without a dimension of size 1 finds at an index what the layout
/// finds with coordinate 0 there.
pub proof fn law_squeeze_addresses(l: LayoutView, dim: int, index: Seq<usize>)
    requires
        l.strides.len() == l.dims.len(),
        0 <= dim < l.dims.len(),
        index.len() == l.dims.len() - 1,
    ensures
        l.squeezed(dim).address(index) == l.address(index.insert(dim, 0)),
{
    let m = l.squeezed(dim);
    nd::lemma_dot_insert(index, m.strides, dim, 0, l.strides[dim]);
    assert(m.strides.insert(dim, l.strides[dim]) =~= l.strides);
    lemma_mul_basics(l.strides[dim] as int);
}

pub proof fn lemma_squeezed_valid(l: LayoutView, dim: int)
    requires
        l.valid(),
        0 <= dim < l.dims.len(),
        l.dims[dim] == 1,
    ensures
        l.squeezed(dim).valid(),
        nd::product(l.squeezed(dim).dims) == nd::product(l.dims),
{
    let m = l.squeezed(dim);
    lemma_span_remove(l.dims, dim);
    lemma_mul_basics(nd::span(m.dims) as int);
    lemma_product_without_one(l.dims, dim);
    if nd::product(m.dims) > 0 {
        nd::lemma_product_zero(m.dims);
        nd::lemma_product_zero(l.dims);
        assert forall|i: int| 0 <= i < l.dims.len() implies #[trigger] l.dims[i] > 0 by {
            if i < dim {
                assert(m.dims[i] == l.dims[i]);
            } else if i > dim {
                assert(m.dims[i - 1] == l.dims[i]);
            }
        }
        law_squeeze_addresses(l, dim, layout::last_index(m.dims));
        assert(layout::last_index(m.dims).insert(dim, 0) =~= layout::last_index(l.dims));
    }
}

/// A size 1 does not change the element count.
proof fn lemma_product_without_one(dims: Seq<usize>, i: int)
    requires
        0 <= i < dims.len(),
        dims[i] == 1,
    ensures
        nd::product(dims.remove(i)) == nd::product(dims),
    decreases dims.len(),
{
    if i == 0 {
        assert(dims.remove(0) =~= dims.skip(1));
        lemma_mul_basics(nd::product(dims.skip(1)) as int);
    } else {
        lemma_product_without_one(dims.skip(1), i - 1);
        assert(dims.remove(i).skip(1) =~= dims.skip(1).remove(i - 1));
        assert(dims.remove(i)[0] == dims[0]);
    }
}

/// Removing all dimensions of size 1 is removing them one by one.
pub proof fn lemma_squeezed_all_valid(l: LayoutView)
    requires
        l.valid(),
    ensures
        l.squeezed_all().valid(),
        nd::product(l.squeezed_all().dims) == nd::product(l.dims),
{
    lemma_squeeze_tail(l, l.dims.len());
    let n = l.dims.len() as int;
    assert(l.dims.take(n) =~= l.dims);
    assert(l.strides.take(n) =~= l.strides);
    assert(l.dims.skip(n) =~= seq![]);
    assert(l.strides.skip(n) =~= seq![]);
    assert(without_ones(l.dims, l.dims) + seq![] =~= without_ones(l.dims, l.dims));
    assert(without_ones(l.dims, l.strides) + seq![] =~= without_ones(l.dims, l.strides));
}

/// The first `n` dimensions without those of size 1, and the others.
spec fn squeezed_upto(l: LayoutView, n: nat) -> LayoutView {
    LayoutView {
        dims: without_ones(l.dims.take(n as int), l.dims.take(n as int)) + l.dims.skip(n as int),
        strides: without_ones(l.dims.take(n as int), l.strides.take(n as int)) + l.strides.skip(
            n as int,
        ),
        offset: l.offset,
    }
}

proof fn lemma_without_ones_len(dims: Seq<usize>, a: Seq<usize>, b: Seq<usize>)
    requires
        a.len() == dims.len(),
        b.len() == dims.len(),
    ensures
        without_ones(dims, a).len() == without_ones(dims, b).len(),
    decreases dims.len(),
{
    if dims.len() > 0 {
        lemma_without_ones_len(dims.drop_last(), a.drop_last(), b.drop_last());
    }
}

proof fn lemma_squeeze_tail(l: LayoutView, n: nat)
    requires
        l.valid(),
        n <= l.dims.len(),
    ensures
        squeezed_upto(l, n).valid(),
        nd::product(squeezed_upto(l, n).dims) == nd::product(l.dims),
    decreases n,
{
    if n == 0 {
        assert(squeezed_upto(l, 0) =~= l);
    } else {
        lemma_squeeze_tail(l, (n - 1) as nat);
        let k = n - 1;
        let before = squeezed_upto(l, k as nat);
        let after = squeezed_upto(l, n);
        let head = without_ones(l.dims.take(k), l.dims.take(k));
        let shead = without_ones(l.dims.take(k), l.strides.take(k));
        lemma_without_ones_len(l.dims.take(k), l.dims.take(k), l.strides.take(k));
        assert(l.dims.take(n as int).drop_last() =~= l.dims.take(k));
        assert(l.strides.take(n as int).drop_last() =~= l.strides.take(k));
        assert(l.dims.take(n as int).last() == l.dims[k]);
        assert(l.strides.take(n as int).last() == l.strides[k]);
        if l.dims[k] == 1 {
            let at = head.len() as int;
            assert(before.dims[at] == l.dims[k]);
            lemma_squeezed_valid(before, at);
            assert(before.squeezed(at).dims =~= after.dims);
            assert(before.squeezed(at).strides =~= after.strides);
            assert(before.squeezed(at) =~= after);
        } else {
            assert(after.dims =~= before.dims);
            assert(after.strides =~= before.strides);
            assert(after =~= before);
        }
    }
}

/// An expanded layout finds at every index the element at coordinate 0 of
/// the repeated dimensions.
pub proof fn law_expand_addresses(l: LayoutView, target: Seq<usize>, index: Seq<usize>)
    requires
        l.strides.len() == l.dims.len(),
        l.expandable(target),
        nd::in_bounds(index, target),
    ensures
        l.expanded(target).address(index) == l.address(unrepeated(index, l.dims, target)),
        nd::in_bounds(unrepeated(index, l.dims, target), l.dims),
{
    let u = unrepeated(index, l.dims, target);
    let m = l.expanded(target);
    lemma_dot_repeated(index, u, m.strides, l.strides);
    assert forall|i: int| 0 <= i < l.dims.len() implies #[trigger] u[i] < l.dims[i] by {
        assert(index[i] < target[i]);
        assert(l.dims[i] == target[i] || l.dims[i] == 1);
    }
}

proof fn lemma_dot_repeated(i: Seq<usize>, u: Seq<usize>, a: Seq<usize>, b: Seq<usize>)
    requires
        i.len() == u.len() == a.len() == b.len(),
        forall|k: int|
            0 <= k < i.len() ==> (#[trigger] i[k] == u[k] && a[k] == b[k]) || (u[k] == 0 && a[k]
                == 0),
    ensures
        nd::dot(i, a) == nd::dot(u, b),
    decreases i.len(),
{
    if i.len() > 0 {
        assert forall|k: int| 0 <= k < i.skip(1).len() implies (#[trigger] i.skip(1)[k] == u.skip(
            1,
        )[k] && a.skip(1)[k] == b.skip(1)[k]) || (u.skip(1)[k] == 0 && a.skip(1)[k] == 0) by {
            assert(i[k + 1] == i.skip(1)[k]);
        }
        lemma_dot_repeated(i.skip(1), u.skip(1), a.skip(1), b.skip(1));
        assert(i[0] == i[0]);
        lemma_mul_basics(i[0] as int);
        lemma_mul_basics(b[0] as int);
    }
}

pub proof fn lemma_expanded_valid(l: LayoutView, target: Seq<usize>)
    requires
        l.valid(),
        l.expandable(target),
        nd::product(target) <= usize::MAX,
    ensures
        l.expanded(target).valid(),
{
    let m = l.expanded(target);
    if nd::product(target) > 0 {
        nd::lemma_product_zero(target);
        nd::lemma_product_zero(l.dims);
        assert forall|i: int| 0 <= i < l.dims.len() implies #[trigger] l.dims[i] > 0 by {
            assert(target[i] > 0);
            assert(l.dims[i] == target[i] || l.dims[i] == 1);
        }
        let last = layout::last_index(target);
        assert forall|i: int| 0 <= i < target.len() implies #[trigger] last[i] < target[i] by {
            assert(target[i] > 0);
        }
        law_expand_addresses(l, target, last);
        layout::lemma_address_bound(l, unrepeated(last, l.dims, target));
    }
}

/// The message about a tensor that cannot be addressed.
pub open spec fn too_large_text() -> Seq<char> {
    "tensor exceeds the address space"@
}

/// The error about a tensor that cannot be addressed: it has too many
/// elements, or its elements lie too far apart.
pub open spec fn is_too_large(e: Error) -> bool {
    e matches Error::Msg(m) && m@ == too_large_text()
}

/// The error about a tensor that cannot be addressed.
pub(crate) fn too_large() -> (r: Error)
    ensures
        is_too_large(r),
{
    Error::Msg("tensor exceeds the address space".to_owned())
}

/// Whether the element count and the strides of a shape are machine numbers.
pub(crate) fn sizes_fit(dims: &[usize]) -> (r: bool)
    ensures
        r == nd::fits(dims@),
{
    let n: usize = dims.len();
    let mut i: usize = n;
    let mut acc: usize = 1;
    proof {
        nd::lemma_product_all(dims@);
    }
    while i > 0
        invariant
            n == dims@.len(),
            i <= n,
            acc == nd::product(dims@.skip(i as int)),
            forall|j: int|
                i <= j <= n ==> #[trigger] nd::product(dims@.skip(j)) <= usize::MAX,
        decreases i,
    {
        i -= 1;
        let d: usize = dims[i];
        proof {
            nd::lemma_product_step(dims@, i as int);
            nd::lemma_product_all(dims@);
            lemma_mul_is_commutative(acc as int, d as int);
        }
        match acc.checked_mul(d) {
            Some(m) => {
                acc = m;
            },
            None => {
                assert(nd::product(dims@.skip(i as int)) > usize::MAX);
                return false;
            },
        }
    }
    proof {
        nd::lemma_product_all(dims@);
    }
    true
}

/// Whether the element count of a shape is a machine number.
pub(crate) fn count_fits(dims: &[usize]) -> (r: bool)
    ensures
        r == (nd::product(dims@) <= usize::MAX),
{
    let n: usize = dims.len();
    let mut i: usize = 0;
    while i < n
        invariant
            n == dims@.len(),
            i <= n,
            forall|j: int| 0 <= j < i ==> #[trigger] dims@[j] > 0,
        decreases n - i,
    {
        if dims[i] == 0 {
            proof {
                nd::lemma_product_zero(dims@);
            }
            return true;
        }
        i += 1;
    }
    let r = sizes_fit(dims);
    proof {
        nd::lemma_product_zero(dims@);
        if nd::product(dims@) <= usize::MAX {
            nd::lemma_count_fits(dims@);
        }
    }
    r
}

/// The contiguous layout of a shape, if it can be addressed.
pub(crate) fn contiguous_layout(shape: Shape) -> (r: Result<Layout>)
    ensures
        match r {
            Ok(l) => {
                &&& nd::fits(shape@)
                &&& l@ == LayoutView::contiguous(shape@)
                &&& l@.valid()
            },
            Err(e) => !nd::fits(shape@) && is_too_large(e),
        },
{
    if !sizes_fit(shape.dims()) {
        return Err(too_large());
    }
    proof {
        layout::lemma_contiguous_valid(shape@);
    }
    Ok(Layout::contiguous(shape))
}

/// The layout with a dimension of size 1 at `dim`.
pub(crate) fn unsqueezed_layout(l: &Layout, dim: usize) -> (r: Layout)
    requires
        l@.valid(),
        dim <= l@.dims.len(),
    ensures
        r@ == l@.unsqueezed(dim as int),
        r@.valid(),
{
    let mut dims = copy_sizes(l.dims());
    let mut strides = copy_sizes(l.strides());
    let stride: usize = if dim < dims.len() {
        strides[dim]
    } else {
        1
    };
    dims.insert(dim, 1);
    strides.insert(dim, stride);
    proof {
        lemma_unsqueezed_valid(l@, dim as int);
    }
    Layout::new(Shape::new(dims), strides, l.offset())
}

/// The layout without a dimension of size 1.
pub(crate) fn squeezed_layout(l: &Layout, dim: usize) -> (r: Layout)
    requires
        l@.valid(),
        dim < l@.dims.len(),
        l@.dims[dim as int] == 1,
    ensures
        r@ == l@.squeezed(dim as int),
        r@.valid(),
{
    let mut dims = copy_sizes(l.dims());
    let mut strides = copy_sizes(l.strides());
    let _ = dims.remove(dim);
    let _ = strides.remove(dim);
    proof {
        lemma_squeezed_valid(l@, dim as int);
    }
    Layout::new(Shape::new(dims), strides, l.offset())
}

/// The layout without the dimensions of size 1.
pub(crate) fn squeezed_all_layout(l: &Layout) -> (r: Layout)
    requires
        l@.valid(),
    ensures
        r@ == l@.squeezed_all(),
        r@.valid(),
{
    let old_dims = l.dims();
    let old_strides = l.strides();
    let n: usize = old_dims.len();
    let mut dims: Vec<usize> = Vec::new();
    let mut strides: Vec<usize> = Vec::new();
    let mut i: usize = 0;
    while i < n
        invariant
            n == old_dims@.len(),
            n == old_strides@.len(),
            i <= n,
            dims@ == without_ones(old_dims@.take(i as int), old_dims@.take(i as int)),
            strides@ == without_ones(old_dims@.take(i as int), old_strides@.take(i as int)),
        decreases n - i,
    {
        proof {
            assert(old_dims@.take(i + 1).drop_last() =~= old_dims@.take(i as int));
            assert(old_strides@.take(i + 1).drop_last() =~= old_strides@.take(i as int));
        }
        if old_dims[i] != 1 {
            dims.push(old_dims[i]);
            strides.push(old_strides[i]);
        }
        i += 1;
    }
    proof {
        assert(old_dims@.take(n as int) =~= old_dims@);
        assert(old_strides@.take(n as int) =~= old_strides@);
        lemma_squeezed_all_valid(l@);
    }
    Layout::new(Shape::new(dims), strides, l.offset())
}

/// The entries of a list at the given positions.
fn select(a: &[usize], p: &[usize]) -> (r: Vec<usize>)
    requires
        forall|i: int| 0 <= i < p@.len() ==> #[trigger] p@[i] < a@.len(),
    ensures
        r@ == selected(a@, p@),
{
    let n: usize = p.len();
    let mut out: Vec<usize> = Vec::with_capacity(n);
    let mut i: usize = 0;
    while i < n
        invariant
            n == p@.len(),
            i <= n,
            forall|k: int| 0 <= k < p@.len() ==> #[trigger] p@[k] < a@.len(),
            out@ == selected(a@, p@).take(i as int),
        decreases n - i,
    {
        out.push(a[p[i]]);
        assert(out@ =~= selected(a@, p@).take(i + 1));
        i += 1;
    }
    assert(out@ =~= selected(a@, p@));
    out
}

/// The permutation that undoes `p`.
pub(crate) fn inverse_order(p: &[usize]) -> (r: Vec<usize>)
    ensures
        r@ == inverse(p@),
{
    let n: usize = p.len();
    let mut out: Vec<usize> = Vec::with_capacity(n);
    let mut d: usize = 0;
    while d < n
        invariant
            n == p@.len(),
            d <= n,
            out@.len() == d,
            forall|e: int| 0 <= e < d ==> #[trigger] out@[e] == place_of(p@, e),
        decreases n - d,
    {
        let mut i: usize = 0;
        assert(p@.skip(0) =~= p@);
        while i < n && p[i] != d
            invariant
                n == p@.len(),
                i <= n,
                place_of(p@, d as int) == i + place_of(p@.skip(i as int), d as int),
            decreases n - i,
        {
            assert(p@.skip(i as int).skip(1) =~= p@.skip(i + 1));
            i += 1;
        }
        out.push(i);
        d += 1;
    }
    assert(out@ =~= inverse(p@));
    out
}

/// The layout whose `i`-th dimension is dimension `p[i]` of the given one.
pub(crate) fn permuted_layout(l: &Layout, p: &[usize]) -> (r: Layout)
    requires
        l@.valid(),
        is_permutation(p@),
        p@.len() == l@.dims.len(),
    ensures
        r@ == l@.permuted(p@),
        r@.valid(),
{
    let dims = select(l.dims(), p);
    let strides = select(l.strides(), p);
    proof {
        lemma_permuted_valid(l@, p@);
    }
    Layout::new(Shape::new(dims), strides, l.offset())
}

/// The layout of shape `target` that repeats the dimensions of size 1, if it
/// can be addressed.
pub(crate) fn expanded_layout(l: &Layout, target: Shape) -> (r: Result<Layout>)
    requires
        l@.valid(),
        l@.expandable(target@),
    ensures
        match r {
            Ok(m) => {
                &&& nd::product(target@) <= usize::MAX
                &&& m@ == l@.expanded(target@)
                &&& m@.valid()
            },
            Err(e) => nd::product(target@) > usize::MAX && is_too_large(e),
        },
{
    if !count_fits(target.dims()) {
        return Err(too_large());
    }
    let dims = l.dims();
    let sizes = target.dims();
    let mut strides = copy_sizes(l.strides());
    let n: usize = sizes.len();
    let mut i: usize = 0;
    while i < n
        invariant
            n == sizes@.len(),
            n == dims@.len(),
            n == strides@.len(),
            dims@ == l@.dims,
            sizes@ == target@,
            i <= n,
            l@.strides.len() == n,
            forall|k: int| 0 <= k < i ==> #[trigger] strides@[k] == l@.expanded(target@).strides[k],
            forall|k: int| i <= k < n ==> #[trigger] strides@[k] == l@.strides[k],
        decreases n - i,
    {
        if dims[i] == 1 && sizes[i] > 1 {
            strides[i] = 0;
        }
        i += 1;
    }
    proof {
        assert(strides@ =~= l@.expanded(target@).strides);
        lemma_expanded_valid(l@, target@);
    }
    Ok(Layout::new(target, strides, l.offset()))
}

/// The layout with two dimensions exchanged.
pub(crate) fn transposed_layout(l: &Layout, dim0: usize, dim1: usize) -> (r: Result<Layout>)
    requires
        l@.valid(),
    ensures
        match r {
            Ok(m) => {
                &&& dim0 < l@.dims.len() && dim1 < l@.dims.len()
                &&& m@ == l@.transposed(dim0 as int, dim1 as int)
                &&& m@.valid()
            },
            Err(e) => {
                &&& dim0 >= l@.dims.len() || dim1 >= l@.dims.len()
                &&& e == (Error::DimOutOfRange {
                    dim: if dim0 >= dim1 {
                        dim0
                    } else {
                        dim1
                    },
                    rank: l@.dims.len() as usize,
                })
            },
        },
{
    let rank: usize = l.rank();
    let m = l.transpose(dim0, dim1)?;
    assert(rank == l@.dims.len());
    proof {
        lemma_transposed_valid(l@, dim0, dim1);
    }
    Ok(m)
}

/// The layout of `len` slices along `dim`, from the slice `start` on.
pub(crate) fn narrowed_layout(l: &Layout, dim: usize, start: usize, len: usize) -> (r: Result<Layout>)
    requires
        l@.valid(),
    ensures
        match r {
            Ok(m) => {
                &&& dim < l@.dims.len() && start + len <= l@.dims[dim as int]
                &&& m@ == l@.narrowed(dim as int, start, len)
                &&& m@.valid()
            },
            Err(e) => if dim >= l@.dims.len() {
                e == (Error::DimOutOfRange { dim, rank: l@.dims.len() as usize })
            } else if start + len > l@.dims[dim as int] {
                e == (Error::NarrowOutOfBounds { dim, start, len, dim_size: l@.dims[dim as int] })
            } else {
                is_too_large(e) && l@.offset + start * l@.strides[dim as int] > usize::MAX
            },
        },
{
    if dim < l.rank() {
        let size: usize = l.dims()[dim];
        if len <= size && start <= size - len {
            let stride: usize = l.strides()[dim];
            match start.checked_mul(stride) {
                None => {
                    return Err(too_large());
                },
                Some(m) => {
                    if m > usize::MAX - l.offset() {
                        return Err(too_large());
                    }
                },
            }
            proof {
                lemma_narrowed_valid(l@, dim as int, start, len);
            }
        }
    }
    l.narrow(dim, start, len)
}

} // verus!
