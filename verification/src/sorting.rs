//! Stable sorting along a dimension.
use crate::kernels;
use crate::scalar::{self, Scalar};
use vstd::arithmetic::div_mod::*;
use vstd::arithmetic::mul::*;
use vstd::prelude::*;
use vstd::seq_lib::lemma_multiset_commutative;

verus! {

/// A value and its position before sorting.
pub type Item<S> = (S, usize);

/// The first value is to stand before the second.
pub open spec fn key_before<S: Scalar>(a: S, b: S, descending: bool) -> bool {
    if descending {
        b.below(a)
    } else {
        a.below(b)
    }
}

/// The first item is to stand before the second: by value, and among values
/// of the same rank by position.
pub open spec fn item_before<S: Scalar>(a: Item<S>, b: Item<S>, descending: bool) -> bool {
    key_before(a.0, b.0, descending) || (!key_before(b.0, a.0, descending) && a.1 < b.1)
}

/// Every item stands before all later ones.
pub open spec fn in_order<S: Scalar>(items: Seq<Item<S>>, descending: bool) -> bool {
    forall|i: int, j: int|
        0 <= i < j < items.len() ==> item_before(
            #[trigger] items[i],
            #[trigger] items[j],
            descending,
        )
}

/// The positions increase.
pub open spec fn positions_rise<S: Scalar>(items: Seq<Item<S>>) -> bool {
    forall|i: int, j: int|
        0 <= i < j < items.len() ==> (#[trigger] items[i]).1 < (#[trigger] items[j]).1
}

/// The second list has the items of the first, and they stand in order if
/// the numbers have one.
pub open spec fn is_sorting<S: Scalar>(
    items: Seq<Item<S>>,
    sorted: Seq<Item<S>>,
    descending: bool,
) -> bool {
    &&& sorted.to_multiset() == items.to_multiset()
    &&& sorted.len() == items.len()
    &&& scalar::orders::<S>() ==> in_order(sorted, descending)
}

proof fn lemma_before_transitive<S: Scalar>(a: Item<S>, b: Item<S>, c: Item<S>, descending: bool)
    requires
        scalar::orders::<S>(),
        item_before(a, b, descending),
        item_before(b, c, descending),
    ensures
        item_before(a, c, descending),
{
    assert(!a.0.below(a.0));
    if key_before(a.0, b.0, descending) {
        if !key_before(b.0, c.0, descending) {
            // a < b, and b and c have the same rank
            if !key_before(a.0, c.0, descending) {
                assert(!key_before(a.0, b.0, descending));
            }
        }
    } else {
        if key_before(b.0, c.0, descending) {
            if !key_before(a.0, c.0, descending) {
                assert(!key_before(b.0, c.0, descending));
            }
        } else {
            assert(!key_before(c.0, a.0, descending));
        }
    }
}

/// Whether the first value is to stand before the second.
fn key_is_before<S: Scalar>(a: S, b: S, descending: bool) -> (r: bool)
    ensures
        r == key_before(a, b, descending),
{
    if descending {
        b.lt(a)
    } else {
        a.lt(b)
    }
}

/// What the merge of two lists looks like when `i` and `j` items are taken.
spec fn merged<S: Scalar>(
    out: Seq<Item<S>>,
    l: Seq<Item<S>>,
    r: Seq<Item<S>>,
    i: int,
    j: int,
    descending: bool,
) -> bool {
    &&& in_order(out, descending)
    &&& forall|a: int, k: int|
        0 <= a < out.len() && i <= k < l.len() ==> item_before(
            #[trigger] out[a],
            #[trigger] l[k],
            descending,
        )
    &&& forall|a: int, k: int|
        0 <= a < out.len() && j <= k < r.len() ==> item_before(
            #[trigger] out[a],
            #[trigger] r[k],
            descending,
        )
}

/// Two lists that can be merged: each in order, and all positions of the
/// first below those of the second.
spec fn mergeable<S: Scalar>(l: Seq<Item<S>>, r: Seq<Item<S>>, descending: bool) -> bool {
    &&& scalar::orders::<S>()
    &&& in_order(l, descending)
    &&& in_order(r, descending)
    &&& forall|i: int, j: int|
        0 <= i < l.len() && 0 <= j < r.len() ==> (#[trigger] l[i]).1 < (#[trigger] r[j]).1
}

proof fn lemma_take_left<S: Scalar>(
    out: Seq<Item<S>>,
    l: Seq<Item<S>>,
    r: Seq<Item<S>>,
    i: int,
    j: int,
    descending: bool,
)
    requires
        mergeable(l, r, descending),
        merged(out, l, r, i, j, descending),
        0 <= i < l.len(),
        0 <= j <= r.len(),
        j < r.len() ==> !key_before(r[j].0, l[i].0, descending),
    ensures
        merged(out.push(l[i]), l, r, i + 1, j, descending),
{
    let next = out.push(l[i]);
    assert forall|a: int, k: int| 0 <= a < next.len() && j <= k < r.len() implies item_before(
        #[trigger] next[a],
        #[trigger] r[k],
        descending,
    ) by {
        if a == out.len() {
            assert(l[i].1 < r[j].1);
            assert(item_before(l[i], r[j], descending));
            if k > j {
                lemma_before_transitive(l[i], r[j], r[k], descending);
            }
        } else {
            assert(item_before(out[a], r[k], descending));
        }
    }
    assert forall|a: int, k: int| 0 <= a < next.len() && i + 1 <= k < l.len() implies item_before(
        #[trigger] next[a],
        #[trigger] l[k],
        descending,
    ) by {
        if a < out.len() {
            assert(item_before(out[a], l[k], descending));
        }
    }
    assert forall|a: int, b: int| 0 <= a < b < next.len() implies item_before(
        #[trigger] next[a],
        #[trigger] next[b],
        descending,
    ) by {
        if b == out.len() {
            assert(item_before(out[a], l[i], descending));
        } else {
            assert(item_before(out[a], out[b], descending));
        }
    }
}

proof fn lemma_take_right<S: Scalar>(
    out: Seq<Item<S>>,
    l: Seq<Item<S>>,
    r: Seq<Item<S>>,
    i: int,
    j: int,
    descending: bool,
)
    requires
        mergeable(l, r, descending),
        merged(out, l, r, i, j, descending),
        0 <= i <= l.len(),
        0 <= j < r.len(),
        i < l.len() ==> key_before(r[j].0, l[i].0, descending),
    ensures
        merged(out.push(r[j]), l, r, i, j + 1, descending),
{
    let next = out.push(r[j]);
    assert forall|a: int, k: int| 0 <= a < next.len() && i <= k < l.len() implies item_before(
        #[trigger] next[a],
        #[trigger] l[k],
        descending,
    ) by {
        if a == out.len() {
            assert(item_before(r[j], l[i], descending));
            if k > i {
                lemma_before_transitive(r[j], l[i], l[k], descending);
            }
        } else {
            assert(item_before(out[a], l[k], descending));
        }
    }
    assert forall|a: int, k: int| 0 <= a < next.len() && j + 1 <= k < r.len() implies item_before(
        #[trigger] next[a],
        #[trigger] r[k],
        descending,
    ) by {
        if a < out.len() {
            assert(item_before(out[a], r[k], descending));
        }
    }
    assert forall|a: int, b: int| 0 <= a < b < next.len() implies item_before(
        #[trigger] next[a],
        #[trigger] next[b],
        descending,
    ) by {
        if b == out.len() {
            assert(item_before(out[a], r[j], descending));
        } else {
            assert(item_before(out[a], out[b], descending));
        }
    }
}

proof fn lemma_take_multiset<T>(s: Seq<T>, i: int)
    requires
        0 <= i < s.len(),
    ensures
        s.take(i + 1).to_multiset() == s.take(i).to_multiset().insert(s[i]),
{
    assert(s.take(i + 1) =~= s.take(i).push(s[i]));
    s.take(i).to_multiset_ensures();
}

/// Merges two sorted lists. Among values of the same rank those of the first
/// list come first.
fn merge<S: Scalar>(l: &Vec<Item<S>>, r: &Vec<Item<S>>, descending: bool) -> (out: Vec<Item<S>>)
    ensures
        out@.to_multiset() == l@.to_multiset().add(r@.to_multiset()),
        out@.len() == l@.len() + r@.len(),
        mergeable(l@, r@, descending) ==> in_order(out@, descending),
{
    broadcast use vstd::multiset::group_multiset_axioms;

    let n: usize = l.len();
    let m: usize = r.len();
    let mut out: Vec<Item<S>> = Vec::new();
    let mut i: usize = 0;
    let mut j: usize = 0;
    proof {
        assert(l@.take(0) =~= seq![]);
        assert(r@.take(0) =~= seq![]);
        let none: Seq<Item<S>> = seq![];
        none.to_multiset_ensures();
        assert(none.to_multiset() =~= vstd::multiset::Multiset::empty());
        assert(out@ =~= none);
        assert(out@.to_multiset() =~= l@.take(0).to_multiset().add(r@.take(0).to_multiset()));
    }
    while i < n || j < m
        invariant
            n == l@.len(),
            m == r@.len(),
            i <= n,
            j <= m,
            out@.len() == i + j,
            out@.to_multiset() == l@.take(i as int).to_multiset().add(
                r@.take(j as int).to_multiset(),
            ),
            mergeable(l@, r@, descending) ==> merged(
                out@,
                l@,
                r@,
                i as int,
                j as int,
                descending,
            ),
        decreases (n - i) + (m - j),
    {
        let ghost before = out@;
        let from_right: bool = if i < n && j < m {
            key_is_before(r[j].0, l[i].0, descending)
        } else {
            i >= n
        };
        if from_right {
            proof {
                if mergeable(l@, r@, descending) {
                    lemma_take_right(out@, l@, r@, i as int, j as int, descending);
                }
                lemma_take_multiset(r@, j as int);
                before.to_multiset_ensures();
            }
            out.push(r[j]);
            j += 1;
            assert(out@.to_multiset() =~= l@.take(i as int).to_multiset().add(
                r@.take(j as int).to_multiset(),
            ));
        } else {
            proof {
                if mergeable(l@, r@, descending) {
                    lemma_take_left(out@, l@, r@, i as int, j as int, descending);
                }
                lemma_take_multiset(l@, i as int);
                before.to_multiset_ensures();
            }
            out.push(l[i]);
            i += 1;
            assert(out@.to_multiset() =~= l@.take(i as int).to_multiset().add(
                r@.take(j as int).to_multiset(),
            ));
        }
    }
    proof {
        assert(l@.take(n as int) =~= l@);
        assert(r@.take(m as int) =~= r@);
    }
    out
}

/// Every item of a sorted list is an item of the list.
proof fn lemma_sorting_items<S: Scalar>(items: Seq<Item<S>>, sorted: Seq<Item<S>>, i: int)
    requires
        sorted.to_multiset() == items.to_multiset(),
        0 <= i < sorted.len(),
    ensures
        exists|k: int| 0 <= k < items.len() && #[trigger] items[k] == sorted[i],
{
    items.to_multiset_ensures();
    sorted.to_multiset_ensures();
    assert(sorted.contains(sorted[i]));
    assert(sorted.to_multiset().count(sorted[i]) > 0);
    assert(items.contains(sorted[i]));
}

/// Sorts items by value. Values of the same rank keep their order.
pub fn sort_items<S: Scalar>(items: &[Item<S>], descending: bool) -> (r: Vec<Item<S>>)
    requires
        positions_rise(items@),
    ensures
        is_sorting(items@, r@, descending),
    decreases items@.len(),
{
    let n: usize = items.len();
    if n <= 1 {
        let mut out: Vec<Item<S>> = Vec::new();
        if n == 1 {
            out.push(items[0]);
        }
        assert(out@ =~= items@);
        return out;
    }
    let mid: usize = n / 2;
    let left = vstd::slice::slice_subrange(items, 0, mid);
    let right = vstd::slice::slice_subrange(items, mid, n);
    let l = sort_items(left, descending);
    let r = sort_items(right, descending);
    let out = merge(&l, &r, descending);
    proof {
        assert(items@ =~= left@ + right@);
        lemma_multiset_commutative(left@, right@);
        if scalar::orders::<S>() {
            assert forall|i: int, j: int| 0 <= i < l@.len() && 0 <= j < r@.len() implies (
            #[trigger] l@[i]).1 < (#[trigger] r@[j]).1 by {
                lemma_sorting_items(left@, l@, i);
                lemma_sorting_items(right@, r@, j);
                let a = choose|a: int| 0 <= a < left@.len() && #[trigger] left@[a] == l@[i];
                let b = choose|b: int| 0 <= b < right@.len() && #[trigger] right@[b] == r@[j];
                assert(items@[a] == l@[i]);
                assert(items@[mid + b] == r@[j]);
            }
        }
    }
    out
}

/// A list in order is the only one with its items: two sortings of the same
/// items are equal.
pub proof fn law_sorting_unique<S: Scalar>(
    a: Seq<Item<S>>,
    b: Seq<Item<S>>,
    descending: bool,
)
    requires
        scalar::orders::<S>(),
        a.to_multiset() == b.to_multiset(),
        in_order(a, descending),
        in_order(b, descending),
    ensures
        a == b,
    decreases a.len(),
{
    broadcast use vstd::multiset::group_multiset_axioms;

    a.to_multiset_ensures();
    b.to_multiset_ensures();
    assert(a.len() == b.len());
    if a.len() == 0 {
        assert(a =~= b);
    } else {
        assert(a.contains(a[0]));
        assert(b.contains(b[0]));
        if a[0] != b[0] {
            assert(a.to_multiset().count(a[0]) > 0);
            assert(b.to_multiset().count(b[0]) > 0);
            assert(b.contains(a[0]));
            assert(a.contains(b[0]));
            let i = choose|i: int| 0 <= i < b.len() && b[i] == a[0];
            let j = choose|j: int| 0 <= j < a.len() && a[j] == b[0];
            assert(item_before(b[0], b[i], descending));
            assert(item_before(a[0], a[j], descending));
            lemma_before_transitive(a[0], b[0], a[0], descending);
            assert(false);
        }
        let ra = a.remove(0);
        let rb = b.remove(0);
        assert(ra.to_multiset() =~= rb.to_multiset());
        assert forall|i: int, j: int| 0 <= i < j < ra.len() implies item_before(
            #[trigger] ra[i],
            #[trigger] ra[j],
            descending,
        ) by {
            assert(item_before(a[i + 1], a[j + 1], descending));
        }
        assert forall|i: int, j: int| 0 <= i < j < rb.len() implies item_before(
            #[trigger] rb[i],
            #[trigger] rb[j],
            descending,
        ) by {
            assert(item_before(b[i + 1], b[j + 1], descending));
        }
        law_sorting_unique(ra, rb, descending);
        assert(a =~= seq![a[0]] + ra);
        assert(b =~= seq![b[0]] + rb);
    }
}

/// The values along the sorted dimension of size `size`, for lane `l`: the
/// `l % inner`-th of the `l / inner`-th block.
pub open spec fn lane<S: Scalar>(data: Seq<S>, size: int, inner: int, l: int) -> Seq<Item<S>> {
    Seq::new(
        size as nat,
        |d: int| (data[((l / inner) * size + d) * inner + l % inner], d as usize),
    )
}

/// Every lane, sorted.
pub open spec fn lanes_sorted<S: Scalar>(
    data: Seq<S>,
    outer: int,
    size: int,
    inner: int,
    descending: bool,
    lanes: Seq<Seq<Item<S>>>,
) -> bool {
    &&& lanes.len() == outer * inner
    &&& forall|l: int|
        0 <= l < outer * inner ==> is_sorting(
            lane(data, size, inner, l),
            #[trigger] lanes[l],
            descending,
        )
}

/// The item at position `x` when the first `k` items of every lane are laid
/// out along the dimension.
pub open spec fn laid_out<S: Scalar>(lanes: Seq<Seq<Item<S>>>, k: int, inner: int, x: int) -> Item<
    S,
> {
    lanes[((x / inner) / k) * inner + x % inner][(x / inner) % k]
}

/// The values of the first `k` items of every lane, laid out.
pub open spec fn laid_values<S: Scalar>(
    lanes: Seq<Seq<Item<S>>>,
    k: int,
    inner: int,
    count: nat,
) -> Seq<S> {
    Seq::new(count, |x: int| laid_out(lanes, k, inner, x).0)
}

/// The positions of the first `k` items of every lane, laid out.
pub open spec fn laid_places<S: Scalar>(
    lanes: Seq<Seq<Item<S>>>,
    k: int,
    inner: int,
    count: nat,
) -> Seq<usize> {
    Seq::new(count, |x: int| laid_out(lanes, k, inner, x).1)
}

/// The contents of lanes.
pub open spec fn lane_views<S: Scalar>(lanes: Seq<Vec<Item<S>>>) -> Seq<Seq<Item<S>>> {
    Seq::new(lanes.len(), |l: int| lanes[l]@)
}

/// One lane of the data.
fn read_lane<S: Scalar>(data: &[S], outer: usize, size: usize, inner: usize, l: usize) -> (r: Vec<
    Item<S>,
>)
    requires
        data@.len() == outer * size * inner,
        l < outer * inner,
    ensures
        r@ == lane(data@, size as int, inner as int, l as int),
{
    let length: usize = data.len();
    proof {
        kernels::lemma_table_split(l as int, outer as int, inner as int);
    }
    let o: usize = l / inner;
    let i: usize = l % inner;
    let ghost want = lane(data@, size as int, inner as int, l as int);
    let mut out: Vec<Item<S>> = Vec::with_capacity(size);
    let mut d: usize = 0;
    while d < size
        invariant
            length == data@.len(),
            data@.len() == outer * size * inner,
            o < outer,
            i < inner,
            o == l as int / inner as int,
            i == l as int % inner as int,
            want == lane(data@, size as int, inner as int, l as int),
            d <= size,
            out@ == want.take(d as int),
        decreases size - d,
    {
        proof {
            kernels::lemma_table_index(o as int, outer as int, d as int, size as int);
            kernels::lemma_table_index(o * size + d, outer * size, i as int, inner as int);
            assert(o * size + d <= (o * size + d) * inner) by (nonlinear_arith)
                requires
                    o * size + d >= 0,
                    inner >= 1,
            ;
        }
        out.push((data[(o * size + d) * inner + i], d));
        assert(out@ =~= want.take(d + 1));
        d += 1;
    }
    assert(out@ =~= want);
    out
}

/// Sorts every lane along a dimension of size `size`, between `outer` blocks
/// before it and `inner` elements after it.
pub fn sort_lanes<S: Scalar>(
    data: &[S],
    outer: usize,
    size: usize,
    inner: usize,
    descending: bool,
) -> (r: Vec<Vec<Item<S>>>)
    requires
        data@.len() == outer * size * inner,
        outer * inner <= usize::MAX,
    ensures
        lanes_sorted(
            data@,
            outer as int,
            size as int,
            inner as int,
            descending,
            lane_views(r@),
        ),
{
    proof {
        lemma_mul_nonnegative(outer as int, inner as int);
    }
    let count: usize = outer * inner;
    let mut out: Vec<Vec<Item<S>>> = Vec::with_capacity(count);
    let mut l: usize = 0;
    while l < count
        invariant
            data@.len() == outer * size * inner,
            count == outer * inner,
            l <= count,
            out@.len() == l,
            forall|k: int|
                0 <= k < l ==> is_sorting(
                    lane(data@, size as int, inner as int, k),
                    (#[trigger] out@[k])@,
                    descending,
                ),
        decreases count - l,
    {
        let items = read_lane(data, outer, size, inner, l);
        let sorted = sort_items(items.as_slice(), descending);
        out.push(sorted);
        l += 1;
    }
    proof {
        let views = lane_views(out@);
        assert forall|k: int| 0 <= k < count implies is_sorting(
            lane(data@, size as int, inner as int, k),
            #[trigger] views[k],
            descending,
        ) by {
            assert(views[k] == out@[k]@);
        }
    }
    out
}

/// Lays out the first `k` items of every lane along the dimension.
pub fn lay_out<S: Scalar>(lanes: &Vec<Vec<Item<S>>>, outer: usize, k: usize, inner: usize) -> (r: (
    Vec<S>,
    Vec<usize>,
))
    requires
        lanes@.len() == outer * inner,
        forall|l: int| 0 <= l < lanes@.len() ==> (#[trigger] lanes@[l])@.len() >= k,
        outer * k * inner <= usize::MAX,
        outer * k <= usize::MAX,
    ensures
        r.0@ == laid_values(
            lane_views(lanes@),
            k as int,
            inner as int,
            (outer * k * inner) as nat,
        ),
        r.1@ == laid_places(
            lane_views(lanes@),
            k as int,
            inner as int,
            (outer * k * inner) as nat,
        ),
{
    let ghost views = lane_views(lanes@);
    let ghost want0 = laid_values(views, k as int, inner as int, (outer * k * inner) as nat);
    let ghost want1 = laid_places(views, k as int, inner as int, (outer * k * inner) as nat);
    proof {
        lemma_mul_nonnegative(outer as int, k as int);
        lemma_mul_nonnegative(outer * k, inner as int);
    }
    let count: usize = lanes.len();
    let rows: usize = outer * k;
    let total: usize = rows * inner;
    let mut values: Vec<S> = Vec::with_capacity(total);
    let mut places: Vec<usize> = Vec::with_capacity(total);
    let mut x: usize = 0;
    while x < total
        invariant
            count == lanes@.len(),
            lanes@.len() == outer * inner,
            forall|l: int| 0 <= l < lanes@.len() ==> (#[trigger] lanes@[l])@.len() >= k,
            rows == outer * k,
            total == outer * k * inner,
            views == lane_views(lanes@),
            want0 == laid_values(views, k as int, inner as int, (outer * k * inner) as nat),
            want1 == laid_places(views, k as int, inner as int, (outer * k * inner) as nat),
            x <= total,
            values@ == want0.take(x as int),
            places@ == want1.take(x as int),
        decreases total - x,
    {
        proof {
            kernels::lemma_table_split(x as int, outer * k, inner as int);
            kernels::lemma_table_split(x as int / inner as int, outer as int, k as int);
            kernels::lemma_table_index(
                (x as int / inner as int) / k as int,
                outer as int,
                x as int % inner as int,
                inner as int,
            );
        }
        let row: usize = x / inner;
        let l: usize = (row / k) * inner + x % inner;
        let item: Item<S> = lanes[l][row % k];
        assert(item == laid_out(views, k as int, inner as int, x as int));
        values.push(item.0);
        places.push(item.1);
        assert(values@ =~= want0.take(x + 1));
        assert(places@ =~= want1.take(x + 1));
        x += 1;
    }
    assert(values@ =~= want0);
    assert(places@ =~= want1);
    (values, places)
}

} // verus!
