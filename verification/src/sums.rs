//! Finite sums of numbers that obey the laws of a commutative ring.
use crate::kernels;
use crate::scalar::Scalar;
use vstd::arithmetic::div_mod::*;
use vstd::arithmetic::mul::*;
use vstd::prelude::*;

verus! {

/// The laws of a commutative ring, for three numbers.
pub open spec fn ring_laws<S: Scalar>(a: S, b: S, c: S) -> bool {
    &&& S::zero_val().plus(a) == a
    &&& a.plus(b) == b.plus(a)
    &&& a.plus(b).plus(c) == a.plus(b.plus(c))
    &&& S::zero_val().times(a) == S::zero_val()
    &&& a.times(b) == b.times(a)
    &&& a.times(b).times(c) == a.times(b.times(c))
    &&& a.times(b.plus(c)) == a.times(b).plus(a.times(c))
}

/// Sums and products obey the laws of a commutative ring, as those of the
/// whole numbers do. (Those of floating-point numbers obey them up to
/// rounding.)
pub open spec fn ring<S: Scalar>() -> bool {
    forall|a: S, b: S, c: S| #[trigger] ring_laws(a, b, c)
}

/// The sum of `f(0)`, ..., `f(n - 1)`.
pub open spec fn total<S: Scalar>(f: spec_fn(int) -> S, n: nat) -> S {
    kernels::sum_from(S::zero_val(), f, n)
}

/// The sum of the products of the entries of two lists, pair by pair.
pub open spec fn inner<S: Scalar>(a: Seq<S>, b: Seq<S>, n: nat) -> S {
    total(|i: int| a[i].times(b[i]), n)
}

proof fn lemma_step<S: Scalar>(f: spec_fn(int) -> S, n: nat)
    requires
        n > 0,
    ensures
        total(f, n) == total(f, (n - 1) as nat).plus(f(n - 1)),
{
}

/// Sums of the same terms are the same.
pub proof fn lemma_same<S: Scalar>(f: spec_fn(int) -> S, h: spec_fn(int) -> S, n: nat)
    requires
        forall|i: int| 0 <= i < n ==> #[trigger] f(i) == h(i),
    ensures
        total(f, n) == total(h, n),
    decreases n,
{
    if n > 0 {
        lemma_same(f, h, (n - 1) as nat);
        assert(f(n - 1) == h(n - 1));
    }
}

/// (a + b) + (c + d) == (a + c) + (b + d).
proof fn lemma_four<S: Scalar>(a: S, b: S, c: S, d: S)
    requires
        ring::<S>(),
    ensures
        a.plus(b).plus(c.plus(d)) == a.plus(c).plus(b.plus(d)),
{
    assert(ring_laws(a, b, c.plus(d)));
    assert(ring_laws(b, c, d));
    assert(ring_laws(c, b, d));
    assert(ring_laws(a, c, b.plus(d)));
}

/// A sum of sums is the sum of the two.
pub proof fn lemma_plus<S: Scalar>(f: spec_fn(int) -> S, h: spec_fn(int) -> S, n: nat)
    requires
        ring::<S>(),
    ensures
        total(|i: int| f(i).plus(h(i)), n) == total(f, n).plus(total(h, n)),
    decreases n,
{
    if n == 0 {
        assert(ring_laws(S::zero_val(), S::zero_val(), S::zero_val()));
    } else {
        let m = (n - 1) as nat;
        lemma_plus(f, h, m);
        lemma_four(total(f, m), total(h, m), f(n - 1), h(n - 1));
    }
}

/// A factor can be drawn out of a sum.
pub proof fn lemma_scale<S: Scalar>(c: S, f: spec_fn(int) -> S, n: nat)
    requires
        ring::<S>(),
    ensures
        c.times(total(f, n)) == total(|i: int| c.times(f(i)), n),
    decreases n,
{
    let g = |i: int| c.times(f(i));
    if n > 0 {
        let m = (n - 1) as nat;
        lemma_scale(c, f, m);
        assert(ring_laws(c, total(f, m), f(n - 1)));
        lemma_step(g, n);
    } else {
        assert(ring_laws(c, S::zero_val(), c));
    }
}

/// A sum of zeros is zero.
pub proof fn lemma_zeros<S: Scalar>(f: spec_fn(int) -> S, n: nat)
    requires
        ring::<S>(),
        forall|i: int| 0 <= i < n ==> #[trigger] f(i) == S::zero_val(),
    ensures
        total(f, n) == S::zero_val(),
    decreases n,
{
    if n > 0 {
        lemma_zeros(f, (n - 1) as nat);
        assert(f(n - 1) == S::zero_val());
        assert(ring_laws(S::zero_val(), S::zero_val(), S::zero_val()));
    }
}

/// The terms of a table in a row.
pub open spec fn row<S: Scalar>(f: spec_fn(int, int) -> S, i: int) -> spec_fn(int) -> S {
    |j: int| f(i, j)
}

/// The terms of a table in a column.
pub open spec fn column<S: Scalar>(f: spec_fn(int, int) -> S, j: int) -> spec_fn(int) -> S {
    |i: int| f(i, j)
}

/// The sums of the rows of a table.
pub open spec fn row_sums<S: Scalar>(f: spec_fn(int, int) -> S, b: nat) -> spec_fn(int) -> S {
    |i: int| total(row(f, i), b)
}

/// The sums of the columns of a table.
pub open spec fn column_sums<S: Scalar>(f: spec_fn(int, int) -> S, a: nat) -> spec_fn(int) -> S {
    |j: int| total(column(f, j), a)
}

/// A table with rows of `b` terms, from its terms one after the other.
pub open spec fn as_table<S: Scalar>(f: spec_fn(int) -> S, b: int) -> spec_fn(int, int) -> S {
    |i: int, j: int| f(i * b + j)
}

/// Two sums can be exchanged.
pub proof fn lemma_swap<S: Scalar>(f: spec_fn(int, int) -> S, a: nat, b: nat)
    requires
        ring::<S>(),
    ensures
        total(row_sums(f, b), a) == total(column_sums(f, a), b),
    decreases a,
{
    if a == 0 {
        lemma_zeros(column_sums(f, a), b);
    } else {
        let m = (a - 1) as nat;
        lemma_swap(f, m, b);
        let less = column_sums(f, m);
        let last = row(f, a - 1);
        lemma_plus(less, last, b);
        let sum = |j: int| less(j).plus(last(j));
        assert forall|j: int| 0 <= j < b implies #[trigger] column_sums(f, a)(j) == sum(j) by {
            lemma_step(column(f, j), a);
        }
        lemma_same(column_sums(f, a), sum, b);
        lemma_step(row_sums(f, b), a);
    }
}

/// The terms from the `m`-th on.
spec fn later<S: Scalar>(f: spec_fn(int) -> S, m: int) -> spec_fn(int) -> S {
    |j: int| f(m + j)
}

/// A sum of `m + b` terms is the sum of the first `m` and of the others.
proof fn lemma_append<S: Scalar>(f: spec_fn(int) -> S, m: nat, b: nat)
    requires
        ring::<S>(),
    ensures
        total(f, m + b) == total(f, m).plus(total(later(f, m as int), b)),
    decreases b,
{
    let rest = later(f, m as int);
    if b == 0 {
        assert(ring_laws(total(f, m), S::zero_val(), S::zero_val()));
    } else {
        let c = (b - 1) as nat;
        lemma_append(f, m, c);
        lemma_step(f, m + b);
        lemma_step(rest, b);
        assert(((m + b) - 1) as nat == m + c);
        assert(ring_laws(total(f, m), total(rest, c), rest(c as int)));
    }
}

/// A sum over a table is the sum over its rows.
pub proof fn lemma_split<S: Scalar>(f: spec_fn(int) -> S, a: nat, b: nat)
    requires
        ring::<S>(),
    ensures
        total(f, a * b) == total(row_sums(as_table(f, b as int), b), a),
    decreases a,
{
    let rows = row_sums(as_table(f, b as int), b);
    if a == 0 {
        lemma_mul_basics(b as int);
    } else {
        let m = (a - 1) as nat;
        lemma_split(f, m, b);
        lemma_append(f, m * b, b);
        lemma_mul_is_distributive_add_other_way(b as int, m as int, 1);
        assert(a * b == m * b + b);
        lemma_step(rows, a);
        lemma_same(later(f, (m * b) as int), row(as_table(f, b as int), m as int), b);
    }
}

/// Of a function of three numbers, with the first two fixed.
pub open spec fn fix2<S: Scalar>(f: spec_fn(int, int, int) -> S, i: int, j: int) -> spec_fn(
    int,
) -> S {
    |k: int| f(i, j, k)
}

/// Of a function of four numbers, with the first three fixed.
pub open spec fn fix3<S: Scalar>(
    f: spec_fn(int, int, int, int) -> S,
    i: int,
    j: int,
    k: int,
) -> spec_fn(int) -> S {
    |l: int| f(i, j, k, l)
}

/// The sums over the third of three numbers.
pub open spec fn sum3<S: Scalar>(f: spec_fn(int, int, int) -> S, c: nat) -> spec_fn(
    int,
    int,
) -> S {
    |i: int, j: int| total(fix2(f, i, j), c)
}

/// The sums over the fourth of four numbers.
pub open spec fn sum4<S: Scalar>(f: spec_fn(int, int, int, int) -> S, d: nat) -> spec_fn(
    int,
    int,
    int,
) -> S {
    |i: int, j: int, k: int| total(fix3(f, i, j, k), d)
}

/// The sum over four numbers, the last one innermost.
pub open spec fn total4<S: Scalar>(
    f: spec_fn(int, int, int, int) -> S,
    a: nat,
    b: nat,
    c: nat,
    d: nat,
) -> S {
    total(row_sums(sum3(sum4(f, d), c), b), a)
}

/// The first two of four numbers can be summed over in the other order.
pub proof fn lemma_swap_first<S: Scalar>(
    f: spec_fn(int, int, int, int) -> S,
    h: spec_fn(int, int, int, int) -> S,
    a: nat,
    b: nat,
    c: nat,
    d: nat,
)
    requires
        ring::<S>(),
        forall|i: int, j: int, k: int, l: int| #[trigger] h(j, i, k, l) == f(i, j, k, l),
    ensures
        total4(f, a, b, c, d) == total4(h, b, a, c, d),
{
    let m = sum3(sum4(f, d), c);
    let w = sum3(sum4(h, d), c);
    lemma_swap(m, a, b);
    assert forall|j: int| 0 <= j < b implies #[trigger] column_sums(m, a)(j) == row_sums(w, a)(
        j,
    ) by {
        assert forall|i: int| 0 <= i < a implies #[trigger] column(m, j)(i) == row(w, j)(i) by {
            assert forall|k: int| 0 <= k < c implies #[trigger] fix2(sum4(f, d), i, j)(k) == fix2(
                sum4(h, d),
                j,
                i,
            )(k) by {
                assert forall|l: int| 0 <= l < d implies #[trigger] fix3(f, i, j, k)(l) == fix3(
                    h,
                    j,
                    i,
                    k,
                )(l) by {
                    assert(h(j, i, k, l) == f(i, j, k, l));
                }
                lemma_same(fix3(f, i, j, k), fix3(h, j, i, k), d);
            }
            lemma_same(fix2(sum4(f, d), i, j), fix2(sum4(h, d), j, i), c);
        }
        lemma_same(column(m, j), row(w, j), a);
    }
    lemma_same(column_sums(m, a), row_sums(w, a), b);
}

/// Of a function of three numbers, with the first one fixed.
spec fn fix1<S: Scalar>(f: spec_fn(int, int, int) -> S, i: int) -> spec_fn(int, int) -> S {
    |j: int, k: int| f(i, j, k)
}

/// The middle two of four numbers can be summed over in the other order.
pub proof fn lemma_swap_middle<S: Scalar>(
    f: spec_fn(int, int, int, int) -> S,
    h: spec_fn(int, int, int, int) -> S,
    a: nat,
    b: nat,
    c: nat,
    d: nat,
)
    requires
        ring::<S>(),
        forall|i: int, j: int, k: int, l: int| #[trigger] h(i, k, j, l) == f(i, j, k, l),
    ensures
        total4(f, a, b, c, d) == total4(h, a, c, b, d),
{
    let m = sum4(f, d);
    let w = sum4(h, d);
    assert forall|i: int| 0 <= i < a implies #[trigger] row_sums(sum3(m, c), b)(i) == row_sums(
        sum3(w, b),
        c,
    )(i) by {
        let table = fix1(m, i);
        lemma_swap(table, b, c);
        assert forall|j: int| 0 <= j < b implies #[trigger] row(sum3(m, c), i)(j) == row_sums(
            table,
            c,
        )(j) by {
            lemma_same(fix2(m, i, j), row(table, j), c);
        }
        lemma_same(row(sum3(m, c), i), row_sums(table, c), b);
        assert forall|k: int| 0 <= k < c implies #[trigger] row(sum3(w, b), i)(k) == column_sums(
            table,
            b,
        )(k) by {
            assert forall|j: int| 0 <= j < b implies #[trigger] fix2(w, i, k)(j) == column(
                table,
                k,
            )(j) by {
                assert forall|l: int| 0 <= l < d implies #[trigger] fix3(h, i, k, j)(l) == fix3(
                    f,
                    i,
                    j,
                    k,
                )(l) by {
                    assert(h(i, k, j, l) == f(i, j, k, l));
                }
                lemma_same(fix3(h, i, k, j), fix3(f, i, j, k), d);
            }
            lemma_same(fix2(w, i, k), column(table, k), b);
        }
        lemma_same(row(sum3(w, b), i), column_sums(table, b), c);
    }
    lemma_same(row_sums(sum3(m, c), b), row_sums(sum3(w, b), c), a);
}

/// Of a function of four numbers, with the first two fixed.
spec fn fix_two<S: Scalar>(f: spec_fn(int, int, int, int) -> S, i: int, j: int) -> spec_fn(
    int,
    int,
) -> S {
    |k: int, l: int| f(i, j, k, l)
}

/// The last two of four numbers can be summed over in the other order.
pub proof fn lemma_swap_last<S: Scalar>(
    f: spec_fn(int, int, int, int) -> S,
    h: spec_fn(int, int, int, int) -> S,
    a: nat,
    b: nat,
    c: nat,
    d: nat,
)
    requires
        ring::<S>(),
        forall|i: int, j: int, k: int, l: int| #[trigger] h(i, j, l, k) == f(i, j, k, l),
    ensures
        total4(f, a, b, c, d) == total4(h, a, b, d, c),
{
    let m = sum3(sum4(f, d), c);
    let w = sum3(sum4(h, c), d);
    assert forall|i: int| 0 <= i < a implies #[trigger] row_sums(m, b)(i) == row_sums(w, b)(
        i,
    ) by {
        assert forall|j: int| 0 <= j < b implies #[trigger] row(m, i)(j) == row(w, i)(j) by {
            let table = fix_two(f, i, j);
            lemma_swap(table, c, d);
            assert forall|k: int| 0 <= k < c implies #[trigger] fix2(sum4(f, d), i, j)(k)
                == row_sums(table, d)(k) by {
                lemma_same(fix3(f, i, j, k), row(table, k), d);
            }
            lemma_same(fix2(sum4(f, d), i, j), row_sums(table, d), c);
            assert forall|l: int| 0 <= l < d implies #[trigger] fix2(sum4(h, c), i, j)(l)
                == column_sums(table, c)(l) by {
                assert forall|k: int| 0 <= k < c implies #[trigger] fix3(h, i, j, l)(k) == column(
                    table,
                    l,
                )(k) by {
                    assert(h(i, j, l, k) == f(i, j, k, l));
                }
                lemma_same(fix3(h, i, j, l), column(table, l), c);
            }
            lemma_same(fix2(sum4(h, c), i, j), column_sums(table, c), d);
        }
        lemma_same(row(m, i), row(w, i), b);
    }
    lemma_same(row_sums(m, b), row_sums(w, b), a);
}

/// A sum in which one term grows by `d` grows by `d`.
pub proof fn lemma_grown<S: Scalar>(
    f: spec_fn(int) -> S,
    h: spec_fn(int) -> S,
    n: nat,
    p: int,
    d: S,
)
    requires
        ring::<S>(),
        0 <= p < n,
        h(p) == f(p).plus(d),
        forall|i: int| 0 <= i < n && i != p ==> #[trigger] f(i) == h(i),
    ensures
        total(h, n) == total(f, n).plus(d),
    decreases n,
{
    let m = (n - 1) as nat;
    lemma_step(f, n);
    lemma_step(h, n);
    if p == n - 1 {
        lemma_same(f, h, m);
        assert(ring_laws(total(f, m), f(p), d));
    } else {
        lemma_grown(f, h, m, p, d);
        let last = f(n - 1);
        assert(last == h(n - 1));
        assert(ring_laws(total(f, m), d, last));
        assert(ring_laws(total(f, m), last, d));
        assert(ring_laws(last, d, d));
    }
}

/// The number of whole numbers of 64 bits.
spec fn modulus() -> int {
    0x1_0000_0000_0000_0000
}

/// Whole numbers of 64 bits that agree up to multiples of the modulus are the
/// same.
proof fn lemma_one_of_each(a: i64, b: i64)
    requires
        a as int % modulus() == b as int % modulus(),
    ensures
        a == b,
{
}

proof fn lemma_plus_wraps(a: i64, b: i64)
    ensures
        a.plus(b) as int % modulus() == (a + b) % modulus(),
{
}

proof fn lemma_times_wraps(a: i64, b: i64)
    ensures
        a.times(b) as int % modulus() == (a * b) % modulus(),
{
    let m = modulus();
    let p = a * b;
    assert(0 <= p % m < m);
    let c = a.times(b) as int;
    assert(c == p % m || c == p % m - m);
    lemma_mod_add_multiples_vanish(c, m);
    lemma_mod_twice(p, m);
}

proof fn lemma_integer_laws(a: i64, b: i64, c: i64)
    ensures
        ring_laws(a, b, c),
{
    let m = modulus();
    lemma_mul_is_commutative(a as int, b as int);
    lemma_mul_basics(a as int);
    // Sums of three.
    lemma_plus_wraps(a, b);
    lemma_plus_wraps(b, c);
    lemma_plus_wraps(a.plus(b), c);
    lemma_plus_wraps(a, b.plus(c));
    lemma_add_mod_noop(a.plus(b) as int, c as int, m);
    lemma_add_mod_noop(a + b, c as int, m);
    lemma_add_mod_noop(a as int, b.plus(c) as int, m);
    lemma_add_mod_noop(a as int, b + c, m);
    assert((a + b) + c == a + (b + c));
    lemma_one_of_each(a.plus(b).plus(c), a.plus(b.plus(c)));
    // Products of three.
    lemma_times_wraps(a, b);
    lemma_times_wraps(b, c);
    lemma_times_wraps(a.times(b), c);
    lemma_times_wraps(a, b.times(c));
    lemma_mul_mod_noop_left(a.times(b) as int, c as int, m);
    lemma_mul_mod_noop_left(a * b, c as int, m);
    lemma_mul_mod_noop_right(a as int, b.times(c) as int, m);
    lemma_mul_mod_noop_right(a as int, b * c, m);
    lemma_mul_is_associative(a as int, b as int, c as int);
    lemma_one_of_each(a.times(b).times(c), a.times(b.times(c)));
    // A product with a sum.
    lemma_times_wraps(a, c);
    lemma_times_wraps(a, b.plus(c));
    lemma_plus_wraps(a.times(b), a.times(c));
    lemma_mul_mod_noop_right(a as int, b.plus(c) as int, m);
    lemma_mul_mod_noop_right(a as int, b + c, m);
    lemma_add_mod_noop(a.times(b) as int, a.times(c) as int, m);
    lemma_add_mod_noop(a * b, a * c, m);
    lemma_mul_is_distributive_add(a as int, b as int, c as int);
    lemma_one_of_each(a.times(b.plus(c)), a.times(b).plus(a.times(c)));
}

/// Whole numbers obey the laws of a ring.
pub proof fn law_integers_form_ring()
    ensures
        ring::<i64>(),
{
    assert forall|a: i64, b: i64, c: i64| #[trigger] ring_laws(a, b, c) by {
        lemma_integer_laws(a, b, c);
    }
}

} // verus!
