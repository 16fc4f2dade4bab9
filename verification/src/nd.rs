//! The arithmetic of multi-dimensional indices: element counts, row-major
//! strides, and the passage between a flat position and its coordinates.
use vstd::arithmetic::div_mod::*;
use vstd::arithmetic::mul::*;
use vstd::prelude::*;

verus! {

/// The product of all sizes: the number of elements of a shape. It is 1 for
/// the empty list and 0 as soon as one size is 0.
pub open spec fn product(dims: Seq<usize>) -> nat
    decreases dims.len(),
{
    if dims.len() == 0 {
        1
    } else {
        dims[0] as nat * product(dims.skip(1))
    }
}

/// The product of all sizes that are not 0.
pub open spec fn span(dims: Seq<usize>) -> nat
    decreases dims.len(),
{
    if dims.len() == 0 {
        1
    } else if dims[0] == 0 {
        span(dims.skip(1))
    } else {
        dims[0] as nat * span(dims.skip(1))
    }
}

/// Sizes whose row-major strides are machine numbers.
pub open spec fn strides_fit(dims: Seq<usize>) -> bool {
    forall|i: int| 1 <= i <= dims.len() ==> #[trigger] product(dims.skip(i)) <= usize::MAX
}

/// Sizes whose element count and row-major strides are machine numbers.
pub open spec fn fits(dims: Seq<usize>) -> bool {
    product(dims) <= usize::MAX && strides_fit(dims)
}

/// The row-major strides of a shape: one step along a dimension passes over
/// all elements of the dimensions after it.
pub open spec fn row_major(dims: Seq<usize>) -> Seq<usize> {
    Seq::new(dims.len(), |i: int| product(dims.skip(i + 1)) as usize)
}

/// The sum of the products of the entries of two lists, pair by pair.
pub open spec fn dot(a: Seq<usize>, b: Seq<usize>) -> nat
    decreases a.len(),
{
    if a.len() == 0 || b.len() == 0 {
        0
    } else {
        a[0] as nat * b[0] as nat + dot(a.skip(1), b.skip(1))
    }
}

/// The coordinates of the `k`-th element of a shape in row-major order.
pub open spec fn unravel(k: nat, dims: Seq<usize>) -> Seq<usize>
    decreases dims.len(),
{
    if dims.len() == 0 {
        seq![]
    } else {
        let step = product(dims.skip(1));
        seq![(k / step) as usize] + unravel(k % step, dims.skip(1))
    }
}

/// An index that names an element: one coordinate for each dimension, below
/// its size.
pub open spec fn in_bounds(index: Seq<usize>, dims: Seq<usize>) -> bool {
    &&& index.len() == dims.len()
    &&& forall|i: int| 0 <= i < dims.len() ==> #[trigger] index[i] < dims[i]
}

pub proof fn lemma_product_step(dims: Seq<usize>, i: int)
    requires
        0 <= i < dims.len(),
    ensures
        product(dims.skip(i)) == dims[i] as nat * product(dims.skip(i + 1)),
{
    assert(dims.skip(i).skip(1) =~= dims.skip(i + 1));
}

pub proof fn lemma_product_all(dims: Seq<usize>)
    ensures
        product(dims.skip(0)) == product(dims),
        product(dims.skip(dims.len() as int)) == 1,
{
    assert(dims.skip(0) =~= dims);
    assert(dims.skip(dims.len() as int).len() == 0);
}

/// The element count of a concatenation is the product of the two counts.
pub proof fn lemma_product_add(a: Seq<usize>, b: Seq<usize>)
    ensures
        product(a + b) == product(a) * product(b),
    decreases a.len(),
{
    if a.len() == 0 {
        assert(a + b =~= b);
        lemma_mul_basics(product(b) as int);
    } else {
        assert((a + b).skip(1) =~= a.skip(1) + b);
        assert((a + b)[0] == a[0]);
        lemma_product_add(a.skip(1), b);
        lemma_mul_is_associative(a[0] as int, product(a.skip(1)) as int, product(b) as int);
    }
}

/// The element count is 0 exactly when one of the sizes is 0.
pub proof fn lemma_product_zero(dims: Seq<usize>)
    ensures
        product(dims) == 0 <==> exists|i: int| 0 <= i < dims.len() && #[trigger] dims[i] == 0,
        product(dims) > 0 <==> forall|i: int| 0 <= i < dims.len() ==> #[trigger] dims[i] > 0,
    decreases dims.len(),
{
    if dims.len() > 0 {
        let rest = dims.skip(1);
        lemma_product_zero(rest);
        assert(forall|i: int| 1 <= i < dims.len() ==> #[trigger] dims[i] == rest[i - 1]);
        assert(forall|i: int| 0 <= i < rest.len() ==> #[trigger] rest[i] == dims[i + 1]);
        let a = dims[0] as int;
        let b = product(rest) as int;
        if dims[0] == 0 {
            assert(a * b == 0) by (nonlinear_arith)
                requires
                    a == 0,
            ;
        } else if b == 0 {
            assert(a * b == 0) by (nonlinear_arith)
                requires
                    b == 0,
            ;
            let i = choose|i: int| 0 <= i < rest.len() && #[trigger] rest[i] == 0;
            assert(dims[i + 1] == 0);
        } else {
            lemma_mul_strictly_positive(a, b);
        }
    }
}

/// The element count, and every row-major stride, is at most the span.
pub proof fn lemma_product_le_span(dims: Seq<usize>, i: int)
    requires
        0 <= i <= dims.len(),
    ensures
        product(dims.skip(i)) <= span(dims.skip(i)) <= span(dims),
        span(dims) >= 1,
    decreases dims.len(),
{
    if dims.len() == 0 {
        assert(dims.skip(i) =~= dims);
    } else {
        let rest = dims.skip(1);
        let d = dims[0] as int;
        if i == 0 {
            lemma_product_le_span(rest, 0);
            assert(rest.skip(0) =~= rest);
            assert(dims.skip(0) =~= dims);
            if d == 0 {
                assert(d * product(rest) == 0) by (nonlinear_arith)
                    requires
                        d == 0,
                ;
            } else {
                lemma_mul_inequality(product(rest) as int, span(rest) as int, d);
                lemma_mul_is_commutative(product(rest) as int, d);
                lemma_mul_is_commutative(span(rest) as int, d);
                lemma_mul_strictly_positive(d, span(rest) as int);
            }
        } else {
            lemma_product_le_span(rest, i - 1);
            assert(rest.skip(i - 1) =~= dims.skip(i));
            if d > 0 {
                lemma_mul_increases(d, span(rest) as int);
                lemma_mul_strictly_positive(d, span(rest) as int);
            }
        }
    }
}

/// A shape with a machine-sized span has a machine-sized element count and
/// strides.
pub proof fn lemma_span_fits(dims: Seq<usize>)
    requires
        span(dims) <= usize::MAX,
    ensures
        fits(dims),
{
    lemma_product_le_span(dims, 0);
    lemma_product_all(dims);
    assert forall|i: int| 1 <= i <= dims.len() implies #[trigger] product(dims.skip(i))
        <= usize::MAX by {
        lemma_product_le_span(dims, i);
    }
}

/// Without a size 0 the span is the element count.
pub proof fn lemma_span_is_product(dims: Seq<usize>)
    requires
        product(dims) > 0,
    ensures
        span(dims) == product(dims),
    decreases dims.len(),
{
    if dims.len() > 0 {
        lemma_product_zero(dims);
        lemma_product_zero(dims.skip(1));
        lemma_span_is_product(dims.skip(1));
    }
}

/// A machine-sized element count that is not 0 gives machine-sized strides.
pub proof fn lemma_count_fits(dims: Seq<usize>)
    requires
        0 < product(dims) <= usize::MAX,
    ensures
        fits(dims),
        span(dims) == product(dims),
{
    lemma_span_is_product(dims);
    lemma_span_fits(dims);
}

/// The row-major strides of a shape are those of its tail, after the tail's
/// element count.
pub proof fn lemma_row_major_step(dims: Seq<usize>)
    requires
        dims.len() > 0,
    ensures
        row_major(dims).skip(1) == row_major(dims.skip(1)),
        row_major(dims)[0] == product(dims.skip(1)) as usize,
{
    let rest = dims.skip(1);
    assert forall|i: int| 0 <= i < rest.len() implies #[trigger] row_major(dims).skip(1)[i]
        == row_major(rest)[i] by {
        assert(dims.skip(i + 2) =~= rest.skip(i + 1));
    }
    assert(row_major(dims).skip(1) =~= row_major(rest));
}

pub proof fn lemma_strides_fit_step(dims: Seq<usize>)
    requires
        dims.len() > 0,
        strides_fit(dims),
    ensures
        strides_fit(dims.skip(1)),
        product(dims.skip(1)) <= usize::MAX,
{
    let rest = dims.skip(1);
    assert forall|i: int| 1 <= i <= rest.len() implies #[trigger] product(rest.skip(i))
        <= usize::MAX by {
        assert(rest.skip(i) =~= dims.skip(i + 1));
    }
}

/// Counting up to the element count visits valid coordinates, and reading
/// them with the row-major strides gives the count back.
pub proof fn lemma_ravel_of_unravel(k: nat, dims: Seq<usize>)
    requires
        k < product(dims),
        strides_fit(dims),
    ensures
        in_bounds(unravel(k, dims), dims),
        dot(unravel(k, dims), row_major(dims)) == k,
    decreases dims.len(),
{
    if dims.len() > 0 {
        let rest = dims.skip(1);
        let step = product(rest);
        let d = dims[0] as int;
        if step == 0 {
            assert(d * step == 0) by (nonlinear_arith)
                requires
                    step == 0,
            ;
        }
        lemma_strides_fit_step(dims);
        lemma_row_major_step(dims);
        lemma_mod_bound(k as int, step as int);
        lemma_ravel_of_unravel(k % step, rest);
        lemma_fundamental_div_mod(k as int, step as int);
        let q = k as int / step as int;
        assert(q < d) by (nonlinear_arith)
            requires
                step as int * q <= k as int,
                k < d * step,
                step > 0,
        ;
        assert(0 <= q) by {
            lemma_div_pos_is_pos(k as int, step as int);
        }
        let u = unravel(k, dims);
        assert(u =~= seq![(k / step) as usize] + unravel(k % step, rest));
        assert(u.skip(1) =~= unravel(k % step, rest));
        assert forall|i: int| 0 <= i < dims.len() implies #[trigger] u[i] < dims[i] by {
            if i > 0 {
                assert(u[i] == unravel(k % step, rest)[i - 1]);
                assert(dims[i] == rest[i - 1]);
            }
        }
        lemma_mul_is_commutative(q, step as int);
    }
}

/// Valid coordinates read with the row-major strides give a position below
/// the element count, whose coordinates they are.
pub proof fn lemma_unravel_of_ravel(index: Seq<usize>, dims: Seq<usize>)
    requires
        in_bounds(index, dims),
        strides_fit(dims),
    ensures
        dot(index, row_major(dims)) < product(dims),
        unravel(dot(index, row_major(dims)), dims) == index,
    decreases dims.len(),
{
    if dims.len() > 0 {
        let rest = dims.skip(1);
        let tail = index.skip(1);
        let step = product(rest) as int;
        lemma_strides_fit_step(dims);
        lemma_row_major_step(dims);
        assert forall|i: int| 0 <= i < rest.len() implies #[trigger] tail[i] < rest[i] by {
            assert(index[i + 1] < dims[i + 1]);
        }
        lemma_unravel_of_ravel(tail, rest);
        let r = dot(tail, row_major(rest)) as int;
        let q = index[0] as int;
        let d = dims[0] as int;
        let k = dot(index, row_major(dims)) as int;
        assert(index[0] < dims[0]);
        assert(k == q * step + r);
        lemma_mul_inequality(q + 1, d, step);
        lemma_mul_is_distributive_add_other_way(step, q, 1);
        lemma_fundamental_div_mod_converse(k, step, q, r);
        assert(unravel(k as nat, dims) =~= index) by {
            assert(unravel(k as nat, dims) =~= seq![q as usize] + unravel(r as nat, rest));
            assert(index =~= seq![index[0]] + tail);
        }
    } else {
        assert(index =~= seq![]);
    }
}

/// Appending one entry to each list adds their product.
pub proof fn lemma_dot_push(a: Seq<usize>, b: Seq<usize>, x: usize, y: usize)
    requires
        a.len() == b.len(),
    ensures
        dot(a.push(x), b.push(y)) == dot(a, b) + x as nat * y as nat,
    decreases a.len(),
{
    let a1 = a.push(x);
    let b1 = b.push(y);
    if a.len() == 0 {
        assert(a1.skip(1).len() == 0);
        assert(dot(a1.skip(1), b1.skip(1)) == 0);
        assert(dot(a1, b1) == a1[0] as nat * b1[0] as nat + dot(a1.skip(1), b1.skip(1)));
    } else {
        assert(a1.skip(1) =~= a.skip(1).push(x));
        assert(b1.skip(1) =~= b.skip(1).push(y));
        lemma_dot_push(a.skip(1), b.skip(1), x, y);
    }
}

/// The first `i + 1` products sum to the first `i` and one more.
pub proof fn lemma_dot_take(a: Seq<usize>, b: Seq<usize>, i: int)
    requires
        0 <= i < a.len(),
        i < b.len(),
    ensures
        dot(a.take(i + 1), b.take(i + 1)) == dot(a.take(i), b.take(i)) + a[i] as nat * b[i] as nat,
{
    assert(a.take(i + 1) =~= a.take(i).push(a[i]));
    assert(b.take(i + 1) =~= b.take(i).push(b[i]));
    lemma_dot_push(a.take(i), b.take(i), a[i], b[i]);
}

/// Taking more products never lowers the sum.
pub proof fn lemma_dot_take_le(a: Seq<usize>, b: Seq<usize>, i: int, j: int)
    requires
        0 <= i <= j <= a.len(),
        j <= b.len(),
    ensures
        dot(a.take(i), b.take(i)) <= dot(a.take(j), b.take(j)),
    decreases j - i,
{
    if i < j {
        lemma_dot_take_le(a, b, i, j - 1);
        lemma_dot_take(a, b, j - 1);
        lemma_mul_nonnegative(a[j - 1] as int, b[j - 1] as int);
    }
}

/// Only the entries up to the shorter length count.
pub proof fn lemma_dot_prefix(a: Seq<usize>, b: Seq<usize>)
    requires
        a.len() <= b.len(),
    ensures
        dot(a, b) == dot(a, b.take(a.len() as int)),
    decreases a.len(),
{
    if a.len() > 0 {
        lemma_dot_prefix(a.skip(1), b.skip(1));
        assert(b.take(a.len() as int).skip(1) =~= b.skip(1).take(a.len() - 1));
    }
}

/// Changing one entry changes the sum by the difference times its partner.
pub proof fn lemma_dot_update(a: Seq<usize>, b: Seq<usize>, i: int, x: usize)
    requires
        0 <= i < a.len(),
        a.len() == b.len(),
    ensures
        dot(a.update(i, x), b) + a[i] as nat * b[i] as nat == dot(a, b) + x as nat * b[i] as nat,
    decreases a.len(),
{
    if i == 0 {
        assert(a.update(0, x).skip(1) =~= a.skip(1));
    } else {
        assert(a.update(i, x).skip(1) =~= a.skip(1).update(i - 1, x));
        lemma_dot_update(a.skip(1), b.skip(1), i - 1, x);
    }
}

/// The sum does not depend on which list comes first.
pub proof fn lemma_dot_comm(a: Seq<usize>, b: Seq<usize>)
    requires
        a.len() == b.len(),
    ensures
        dot(a, b) == dot(b, a),
    decreases a.len(),
{
    if a.len() > 0 {
        lemma_dot_comm(a.skip(1), b.skip(1));
        lemma_mul_is_commutative(a[0] as int, b[0] as int);
    }
}

/// A list with entries `i` and `j` exchanged.
pub open spec fn swapped<T>(s: Seq<T>, i: int, j: int) -> Seq<T> {
    s.update(i, s[j]).update(j, s[i])
}

/// Exchanging the same two entries in both lists keeps the sum.
pub proof fn lemma_dot_swapped(a: Seq<usize>, b: Seq<usize>, i: int, j: int)
    requires
        a.len() == b.len(),
        0 <= i < a.len(),
        0 <= j < a.len(),
    ensures
        dot(swapped(a, i, j), swapped(b, i, j)) == dot(a, b),
{
    if i == j {
        assert(swapped(a, i, j) =~= a);
        assert(swapped(b, i, j) =~= b);
    } else {
        let a1 = a.update(i, a[j]);
        let a2 = swapped(a, i, j);
        let b1 = b.update(i, b[j]);
        let b2 = swapped(b, i, j);
        lemma_dot_update(a, b, i, a[j]);
        lemma_dot_update(a1, b, j, a[i]);
        lemma_dot_comm(a2, b);
        lemma_dot_update(b, a2, i, b[j]);
        lemma_dot_update(b1, a2, j, b[i]);
        lemma_dot_comm(b2, a2);
        lemma_mul_is_commutative(b[i] as int, a2[i] as int);
        lemma_mul_is_commutative(b[j] as int, a2[i] as int);
        lemma_mul_is_commutative(b1[j] as int, a2[j] as int);
        lemma_mul_is_commutative(b[i] as int, a2[j] as int);
    }
}

/// Inserting an entry into both lists adds the product of the two.
pub proof fn lemma_dot_insert(a: Seq<usize>, b: Seq<usize>, i: int, x: usize, y: usize)
    requires
        a.len() == b.len(),
        0 <= i <= a.len(),
    ensures
        dot(a.insert(i, x), b.insert(i, y)) == dot(a, b) + x as nat * y as nat,
    decreases a.len(),
{
    let a1 = a.insert(i, x);
    let b1 = b.insert(i, y);
    if i == 0 {
        assert(a1.skip(1) =~= a);
        assert(b1.skip(1) =~= b);
    } else {
        assert(a1.skip(1) =~= a.skip(1).insert(i - 1, x));
        assert(b1.skip(1) =~= b.skip(1).insert(i - 1, y));
        lemma_dot_insert(a.skip(1), b.skip(1), i - 1, x, y);
    }
}

/// Larger coordinates give a larger sum.
pub proof fn lemma_dot_mono(a: Seq<usize>, c: Seq<usize>, b: Seq<usize>)
    requires
        a.len() == c.len() == b.len(),
        forall|i: int| 0 <= i < a.len() ==> #[trigger] a[i] <= c[i],
    ensures
        dot(a, b) <= dot(c, b),
    decreases a.len(),
{
    if a.len() > 0 {
        assert forall|i: int| 0 <= i < a.skip(1).len() implies #[trigger] a.skip(1)[i] <= c.skip(
            1,
        )[i] by {
            assert(a[i + 1] <= c[i + 1]);
        }
        lemma_dot_mono(a.skip(1), c.skip(1), b.skip(1));
        assert(a[0] <= c[0]);
        lemma_mul_inequality(a[0] as int, c[0] as int, b[0] as int);
    }
}

/// The span of a list with one entry replaced by a smaller one.
pub proof fn lemma_span_update(dims: Seq<usize>, i: int, x: usize)
    requires
        0 <= i < dims.len(),
        x <= dims[i] || x <= 1,
    ensures
        span(dims.update(i, x)) <= span(dims),
    decreases dims.len(),
{
    let rest = dims.skip(1);
    lemma_product_le_span(rest, 0);
    lemma_product_le_span(dims, 0);
    if i == 0 {
        assert(dims.update(0, x).skip(1) =~= rest);
        let s = span(rest) as int;
        let d = dims[0] as int;
        if d > 0 && x as int > 0 {
            lemma_mul_inequality(x as int, d, s);
        }
        if d > 0 {
            lemma_mul_increases(d, s);
        }
        if x == 1 {
            lemma_mul_basics(s);
        }
    } else {
        assert(dims.update(i, x).skip(1) =~= rest.update(i - 1, x));
        lemma_span_update(rest, i - 1, x);
        let d = dims[0] as int;
        lemma_mul_inequality(span(rest.update(i - 1, x)) as int, span(rest) as int, d);
        lemma_mul_is_commutative(span(rest.update(i - 1, x)) as int, d);
        lemma_mul_is_commutative(span(rest) as int, d);
    }
}

/// The span of a concatenation.
pub proof fn lemma_span_add(a: Seq<usize>, b: Seq<usize>)
    ensures
        span(a + b) == span(a) * span(b),
    decreases a.len(),
{
    if a.len() == 0 {
        assert(a + b =~= b);
        lemma_mul_basics(span(b) as int);
    } else {
        assert((a + b).skip(1) =~= a.skip(1) + b);
        assert((a + b)[0] == a[0]);
        lemma_span_add(a.skip(1), b);
        lemma_mul_is_associative(a[0] as int, span(a.skip(1)) as int, span(b) as int);
    }
}

} // verus!
