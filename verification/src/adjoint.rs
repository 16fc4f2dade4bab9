//! The gradients of a convolution are adjoint to it.
//!
//! A convolution is linear in its input and in its weight. Paired with the
//! gradient of the output it is therefore the input paired with some list, and
//! the weight paired with another: these lists are the gradients.
use crate::conv;
use crate::kernels::{self, Window};
use crate::scalar::Scalar;
use crate::sums;
use vstd::arithmetic::div_mod::*;
use vstd::arithmetic::mul::*;
use vstd::prelude::*;

verus! {

/// One term of a convolution paired with a list of the shape of its output:
/// sample, output channel, stop, and row of the column matrix.
pub open spec fn pair_term<S: Scalar>(
    input: Seq<S>,
    weight: Seq<S>,
    grad: Seq<S>,
    c_out: int,
    g: Window,
    ni: int,
    co: int,
    j: int,
    p: int,
) -> S {
    grad[ni * (c_out * g.stops()) + (co * g.stops() + j)].times(
        weight[co * g.rows() + p].times(
            kernels::column_at(input, ni * g.pixels(), g, p * g.stops() + j),
        ),
    )
}

/// The terms, by sample, channel, stop and row.
pub open spec fn pair_terms<S: Scalar>(
    input: Seq<S>,
    weight: Seq<S>,
    grad: Seq<S>,
    c_out: int,
    g: Window,
) -> spec_fn(int, int, int, int) -> S {
    |ni: int, co: int, j: int, p: int| pair_term(input, weight, grad, c_out, g, ni, co, j, p)
}

proof fn lemma_entry(i: int, j: int, b: int)
    requires
        0 <= j < b,
    ensures
        (i * b + j) / b == i,
        (i * b + j) % b == j,
{
    lemma_fundamental_div_mod_converse(i * b + j, b, i, j);
}

/// The products of the entries of two lists, pair by pair.
spec fn products<S: Scalar>(a: Seq<S>, b: Seq<S>) -> spec_fn(int) -> S {
    |i: int| a[i].times(b[i])
}

/// A convolution paired with a list is the sum of all terms.
proof fn lemma_pairing<S: Scalar>(
    input: Seq<S>,
    weight: Seq<S>,
    grad: Seq<S>,
    n: nat,
    c_out: nat,
    g: Window,
)
    requires
        sums::ring::<S>(),
    ensures
        sums::inner(
            grad,
            conv::conv_result(input, weight, None, n as int, c_out as int, g),
            n * (c_out * g.stops() as nat),
        ) == sums::total4(
            pair_terms(input, weight, grad, c_out as int, g),
            n,
            c_out,
            g.stops() as nat,
            g.rows() as nat,
        ),
{
    conv::lemma_counts(g);
    let stops = g.stops() as nat;
    let rows = g.rows() as nat;
    let block = c_out * stops;
    lemma_mul_nonnegative(c_out as int, stops as int);
    let y = conv::conv_result(input, weight, None, n as int, c_out as int, g);
    let f = products(grad, y);
    let t = pair_terms(input, weight, grad, c_out as int, g);
    let m = sums::sum3(sums::sum4(t, rows), stops);
    sums::lemma_same(|i: int| grad[i].times(y[i]), f, n * block);
    sums::lemma_split(f, n, block);
    let table = sums::as_table(f, block as int);
    assert forall|ni: int| 0 <= ni < n implies #[trigger] sums::row_sums(table, block)(ni)
        == sums::row_sums(m, c_out)(ni) by {
        let line = sums::row(table, ni);
        sums::lemma_split(line, c_out, stops);
        let inside = sums::as_table(line, stops as int);
        assert forall|co: int| 0 <= co < c_out implies #[trigger] sums::row_sums(inside, stops)(co)
            == sums::row(m, ni)(co) by {
            assert forall|j: int| 0 <= j < stops implies #[trigger] sums::row(inside, co)(j)
                == sums::fix2(sums::sum4(t, rows), ni, co)(j) by {
                lemma_conv_entry(input, weight, grad, n, c_out, g, ni, co, j);
            }
            sums::lemma_same(
                sums::row(inside, co),
                sums::fix2(sums::sum4(t, rows), ni, co),
                stops,
            );
        }
        sums::lemma_same(sums::row_sums(inside, stops), sums::row(m, ni), c_out);
    }
    sums::lemma_same(sums::row_sums(table, block), sums::row_sums(m, c_out), n);
}

proof fn lemma_conv_entry<S: Scalar>(
    input: Seq<S>,
    weight: Seq<S>,
    grad: Seq<S>,
    n: nat,
    c_out: nat,
    g: Window,
    ni: int,
    co: int,
    j: int,
)
    requires
        sums::ring::<S>(),
        0 <= ni < n,
        0 <= co < c_out,
        0 <= j < g.stops(),
    ensures
        ({
            let y = conv::conv_result(input, weight, None, n as int, c_out as int, g);
            let x = ni * (c_out * g.stops()) + (co * g.stops() + j);
            let t = pair_terms(input, weight, grad, c_out as int, g);
            grad[x].times(y[x]) == sums::total(sums::fix3(t, ni, co, j), g.rows() as nat)
        }),
{
    conv::lemma_counts(g);
    let stops = g.stops();
    let block = c_out * stops;
    let y = conv::conv_result(input, weight, None, n as int, c_out as int, g);
    let x = ni * block + (co * stops + j);
    kernels::lemma_table_index(co, c_out as int, j, stops);
    kernels::lemma_table_index(ni, n as int, co * stops + j, block);
    lemma_entry(ni, co * stops + j, block);
    lemma_entry(co, j, stops);
    let first = ni * g.pixels();
    let terms = |p: int| conv::conv_term(input, weight, g, first, co, j, p);
    assert(y[x] == sums::total(terms, g.rows() as nat));
    sums::lemma_scale(grad[x], terms, g.rows() as nat);
    let t = pair_terms(input, weight, grad, c_out as int, g);
    sums::lemma_same(
        |p: int| grad[x].times(terms(p)),
        sums::fix3(t, ni, co, j),
        g.rows() as nat,
    );
}

/// a * (b * c) == b * (a * c).
proof fn lemma_exchange<S: Scalar>(a: S, b: S, c: S)
    requires
        sums::ring::<S>(),
    ensures
        a.times(b.times(c)) == b.times(a.times(c)),
{
    assert(sums::ring_laws(a, b, c));
    assert(sums::ring_laws(b, a, c));
}

/// The terms of the gradient of weight `x`, by sample and stop.
spec fn weight_table<S: Scalar>(
    input: Seq<S>,
    grad: Seq<S>,
    g: Window,
    c_out: int,
    x: int,
) -> spec_fn(int, int) -> S {
    |ni: int, j: int| conv::weight_term(input, grad, g, c_out, ni, x, j)
}

proof fn lemma_weight_sum<S: Scalar>(
    input: Seq<S>,
    grad: Seq<S>,
    g: Window,
    c_out: int,
    n: nat,
    x: int,
)
    ensures
        conv::weight_grad_at(input, grad, g, c_out, n, x) == sums::total(
            sums::row_sums(weight_table(input, grad, g, c_out, x), g.stops() as nat),
            n,
        ),
    decreases n,
{
    if n > 0 {
        lemma_weight_sum(input, grad, g, c_out, (n - 1) as nat, x);
        let table = weight_table(input, grad, g, c_out, x);
        sums::lemma_same(
            |j: int| conv::weight_term(input, grad, g, c_out, n - 1, x, j),
            sums::row(table, n - 1),
            g.stops() as nat,
        );
    }
}

/// The terms, by channel, row, sample and stop.
spec fn terms_by_weight<S: Scalar>(
    input: Seq<S>,
    weight: Seq<S>,
    grad: Seq<S>,
    c_out: int,
    g: Window,
) -> spec_fn(int, int, int, int) -> S {
    |co: int, p: int, ni: int, j: int| pair_term(input, weight, grad, c_out, g, ni, co, j, p)
}

proof fn lemma_weight_entry<S: Scalar>(
    input: Seq<S>,
    weight: Seq<S>,
    grad: Seq<S>,
    n: nat,
    c_out: nat,
    g: Window,
    co: int,
    p: int,
)
    requires
        sums::ring::<S>(),
        0 <= co < c_out,
        0 <= p < g.rows(),
    ensures
        ({
            let x = co * g.rows() + p;
            let d = conv::weight_grad_result(input, grad, n as int, c_out as int, g);
            let t = terms_by_weight(input, weight, grad, c_out as int, g);
            weight[x].times(d[x]) == sums::sum3(sums::sum4(t, g.stops() as nat), n)(co, p)
        }),
{
    conv::lemma_counts(g);
    let stops = g.stops() as nat;
    let rows = g.rows();
    let x = co * rows + p;
    let w = weight[x];
    kernels::lemma_table_index(co, c_out as int, p, rows);
    lemma_entry(co, p, rows);
    lemma_weight_sum(input, grad, g, c_out as int, n, x);
    let table = weight_table(input, grad, g, c_out as int, x);
    let t = terms_by_weight(input, weight, grad, c_out as int, g);
    let lines = sums::row_sums(table, stops);
    sums::lemma_scale(w, lines, n);
    let scaled = |ni: int| w.times(lines(ni));
    let want = sums::fix2(sums::sum4(t, stops), co, p);
    assert forall|ni: int| 0 <= ni < n implies #[trigger] scaled(ni) == want(ni) by {
        let line = sums::row(table, ni);
        sums::lemma_scale(w, line, stops);
        let entries = |j: int| w.times(line(j));
        assert forall|j: int| 0 <= j < stops implies #[trigger] entries(j) == sums::fix3(
            t,
            co,
            p,
            ni,
        )(j) by {
            lemma_exchange(
                w,
                grad[ni * (c_out * g.stops()) + (co * g.stops() + j)],
                kernels::column_at(input, ni * g.pixels(), g, p * g.stops() + j),
            );
        }
        sums::lemma_same(entries, sums::fix3(t, co, p, ni), stops);
    }
    sums::lemma_same(scaled, want, n);
}

/// The gradient of the weight is adjoint to the convolution: for numbers that
/// obey the laws of a ring, a convolution with any weight, paired with the
/// gradient of the output, is that weight paired with the gradient of the
/// weight.
pub proof fn law_weight_grad_adjoint<S: Scalar>(
    input: Seq<S>,
    weight: Seq<S>,
    grad: Seq<S>,
    n: nat,
    c_out: nat,
    g: Window,
)
    requires
        sums::ring::<S>(),
    ensures
        sums::inner(
            grad,
            conv::conv_result(input, weight, None, n as int, c_out as int, g),
            n * (c_out * g.stops() as nat),
        ) == sums::inner(
            weight,
            conv::weight_grad_result(input, grad, n as int, c_out as int, g),
            c_out * (g.rows() as nat),
        ),
{
    conv::lemma_counts(g);
    let stops = g.stops() as nat;
    let rows = g.rows() as nat;
    let c = c_out as int;
    lemma_pairing(input, weight, grad, n, c_out, g);
    let t = pair_terms(input, weight, grad, c, g);
    let u = |co: int, ni: int, j: int, p: int|
        pair_term(input, weight, grad, c, g, ni, co, j, p);
    let v = |co: int, ni: int, p: int, j: int|
        pair_term(input, weight, grad, c, g, ni, co, j, p);
    let w = terms_by_weight(input, weight, grad, c, g);
    sums::lemma_swap_first(t, u, n, c_out, stops, rows);
    sums::lemma_swap_last(u, v, c_out, n, stops, rows);
    sums::lemma_swap_middle(v, w, c_out, n, rows, stops);
    let d = conv::weight_grad_result(input, grad, n as int, c, g);
    let f = products(weight, d);
    sums::lemma_same(|i: int| weight[i].times(d[i]), f, c_out * rows);
    sums::lemma_split(f, c_out, rows);
    let table = sums::as_table(f, rows as int);
    let m = sums::sum3(sums::sum4(w, stops), n);
    assert forall|co: int| 0 <= co < c_out implies #[trigger] sums::row_sums(table, rows)(co)
        == sums::row_sums(m, rows)(co) by {
        assert forall|p: int| 0 <= p < rows implies #[trigger] sums::row(table, co)(p)
            == sums::row(m, co)(p) by {
            lemma_weight_entry(input, weight, grad, n, c_out, g, co, p);
        }
        sums::lemma_same(sums::row(table, co), sums::row(m, co), rows);
    }
    sums::lemma_same(sums::row_sums(table, rows), sums::row_sums(m, rows), c_out);
}

/// A list from `first` on times another one, entry by entry.
spec fn weighted<S: Scalar>(x: Seq<S>, first: int, s: Seq<S>) -> spec_fn(int) -> S {
    |i: int| x[first + i].times(s[i])
}

/// A list from `first` on at the positions of values, times the values.
spec fn hits<S: Scalar>(
    x: Seq<S>,
    first: int,
    at: spec_fn(int) -> Option<int>,
    val: spec_fn(int) -> S,
) -> spec_fn(int) -> S {
    |q: int|
        match at(q) {
            Some(p) => x[first + p].times(val(q)),
            None => S::zero_val(),
        }
}

/// Pairing a list with values that were added up at positions is pairing it
/// with the values, where they were added.
proof fn lemma_scatter_pairing<S: Scalar>(
    x: Seq<S>,
    first: int,
    out: Seq<S>,
    at: spec_fn(int) -> Option<int>,
    val: spec_fn(int) -> S,
    m: nat,
)
    requires
        sums::ring::<S>(),
        forall|q: int| 0 <= q < m ==> (#[trigger] at(q) matches Some(p) ==> 0 <= p < out.len()),
    ensures
        kernels::scatter_add(out, at, val, m).len() == out.len(),
        sums::total(weighted(x, first, kernels::scatter_add(out, at, val, m)), out.len())
            == sums::total(weighted(x, first, out), out.len()).plus(
            sums::total(hits(x, first, at, val), m),
        ),
    decreases m,
{
    let start = sums::total(weighted(x, first, out), out.len());
    if m == 0 {
        assert(sums::ring_laws(start, S::zero_val(), start));
    } else {
        let l = (m - 1) as nat;
        lemma_scatter_pairing(x, first, out, at, val, l);
        let before = kernels::scatter_add(out, at, val, l);
        let after = kernels::scatter_add(out, at, val, m);
        let part = sums::total(hits(x, first, at, val), l);
        let d = hits(x, first, at, val)(m - 1);
        assert(sums::ring_laws(start, part, d));
        match at(m - 1) {
            Some(p) => {
                assert(0 <= p < out.len());
                assert(sums::ring_laws(x[first + p], before[p], val(m - 1)));
                sums::lemma_grown(
                    weighted(x, first, before),
                    weighted(x, first, after),
                    out.len(),
                    p,
                    d,
                );
            },
            None => {
                let sum = sums::total(weighted(x, first, before), out.len());
                assert(sums::ring_laws(sum, S::zero_val(), sum));
            },
        }
    }
}

/// The terms, by sample, row, stop and channel.
spec fn terms_by_input<S: Scalar>(
    input: Seq<S>,
    weight: Seq<S>,
    grad: Seq<S>,
    c_out: int,
    g: Window,
) -> spec_fn(int, int, int, int) -> S {
    |ni: int, p: int, j: int, co: int| pair_term(input, weight, grad, c_out, g, ni, co, j, p)
}

/// A sample paired with its gradient is the sum of its terms.
proof fn lemma_sample_pairing<S: Scalar>(
    input: Seq<S>,
    weight: Seq<S>,
    grad: Seq<S>,
    c_out: nat,
    g: Window,
    ni: int,
)
    requires
        sums::ring::<S>(),
        g.fits(),
    ensures
        ({
            let t = terms_by_input(input, weight, grad, c_out as int, g);
            let m = sums::sum3(sums::sum4(t, c_out), g.stops() as nat);
            let s = conv::sample_grad(weight, grad, g, c_out as int, ni);
            &&& s.len() == g.pixels()
            &&& sums::total(weighted(input, ni * g.pixels(), s), g.pixels() as nat)
                == sums::row_sums(m, g.rows() as nat)(ni)
        }),
{
    conv::lemma_counts(g);
    let stops = g.stops() as nat;
    let rows = g.rows() as nat;
    let pixels = g.pixels() as nat;
    let first = ni * g.pixels();
    let from = ni * (c_out * g.stops());
    let at = |q: int| g.source(q);
    let val = |q: int| conv::column_grad(weight, grad, g, c_out as int, from, q);
    let zeros = kernels::zeros_of::<S>(pixels);
    assert forall|q: int| 0 <= q < rows * stops implies (#[trigger] at(q) matches Some(p) ==> 0
        <= p < zeros.len()) by {
        kernels::lemma_source_split(g, q);
    }
    lemma_scatter_pairing(input, first, zeros, at, val, rows * stops);
    assert forall|i: int| 0 <= i < pixels implies #[trigger] weighted(input, first, zeros)(i)
        == S::zero_val() by {
        assert(sums::ring_laws(S::zero_val(), input[first + i], S::zero_val()));
        assert(sums::ring_laws(input[first + i], S::zero_val(), S::zero_val()));
    }
    sums::lemma_zeros(weighted(input, first, zeros), pixels);
    let hit = hits(input, first, at, val);
    let sum = sums::total(hit, rows * stops);
    assert(sums::ring_laws(sum, sum, sum));
    sums::lemma_split(hit, rows, stops);
    let table = sums::as_table(hit, stops as int);
    let t = terms_by_input(input, weight, grad, c_out as int, g);
    let m = sums::sum3(sums::sum4(t, c_out), stops);
    assert forall|p: int| 0 <= p < rows implies #[trigger] sums::row_sums(table, stops)(p)
        == sums::row(m, ni)(p) by {
        assert forall|j: int| 0 <= j < stops implies #[trigger] sums::row(table, p)(j)
            == sums::fix2(sums::sum4(t, c_out), ni, p)(j) by {
            lemma_hit_entry(input, weight, grad, c_out, g, ni, p, j);
        }
        sums::lemma_same(sums::row(table, p), sums::fix2(sums::sum4(t, c_out), ni, p), stops);
    }
    sums::lemma_same(sums::row_sums(table, stops), sums::row(m, ni), rows);
}

proof fn lemma_hit_entry<S: Scalar>(
    input: Seq<S>,
    weight: Seq<S>,
    grad: Seq<S>,
    c_out: nat,
    g: Window,
    ni: int,
    p: int,
    j: int,
)
    requires
        sums::ring::<S>(),
        0 <= p < g.rows(),
        0 <= j < g.stops(),
    ensures
        ({
            let q = p * g.stops() + j;
            let from = ni * (c_out * g.stops());
            let t = terms_by_input(input, weight, grad, c_out as int, g);
            let at = |q: int| g.source(q);
            let val = |q: int| conv::column_grad(weight, grad, g, c_out as int, from, q);
            hits(input, ni * g.pixels(), at, val)(q) == sums::sum4(t, c_out)(ni, p, j)
        }),
{
    let stops = g.stops();
    let q = p * stops + j;
    let from = ni * (c_out * stops);
    let first = ni * g.pixels();
    lemma_entry(p, j, stops);
    let t = terms_by_input(input, weight, grad, c_out as int, g);
    let c = kernels::column_at(input, first, g, q);
    let terms = |co: int| conv::column_term(weight, grad, g, from, q, co);
    let d = sums::total(terms, c_out);
    assert(d == conv::column_grad(weight, grad, g, c_out as int, from, q));
    sums::lemma_scale(c, terms, c_out);
    let scaled = |co: int| c.times(terms(co));
    assert forall|co: int| 0 <= co < c_out implies #[trigger] scaled(co) == sums::fix3(
        t,
        ni,
        p,
        j,
    )(co) by {
        let w = weight[co * g.rows() + p];
        let v = grad[from + (co * stops + j)];
        assert(terms(co) == w.times(v));
        lemma_exchange(c, w, v);
        assert(sums::ring_laws(c, v, v));
        lemma_exchange(v, w, c);
    }
    sums::lemma_same(scaled, sums::fix3(t, ni, p, j), c_out);
    if g.source(q) is None {
        assert(sums::ring_laws(d, d, d));
    }
}

/// The gradient of the input is adjoint to the convolution: for numbers that
/// obey the laws of a ring, the convolution of any input, paired with the
/// gradient of the output, is that input paired with the gradient of the
/// input.
pub proof fn law_input_grad_adjoint<S: Scalar>(
    input: Seq<S>,
    weight: Seq<S>,
    grad: Seq<S>,
    n: nat,
    c_out: nat,
    g: Window,
)
    requires
        sums::ring::<S>(),
        g.fits(),
    ensures
        sums::inner(
            grad,
            conv::conv_result(input, weight, None, n as int, c_out as int, g),
            n * (c_out * g.stops() as nat),
        ) == sums::inner(
            input,
            conv::input_grad_result(weight, grad, n as int, c_out as int, g),
            n * (g.pixels() as nat),
        ),
{
    conv::lemma_counts(g);
    let stops = g.stops() as nat;
    let rows = g.rows() as nat;
    let pixels = g.pixels() as nat;
    let c = c_out as int;
    lemma_pairing(input, weight, grad, n, c_out, g);
    let t = pair_terms(input, weight, grad, c, g);
    let u = |ni: int, co: int, p: int, j: int|
        pair_term(input, weight, grad, c, g, ni, co, j, p);
    let v = |ni: int, p: int, co: int, j: int|
        pair_term(input, weight, grad, c, g, ni, co, j, p);
    let w = terms_by_input(input, weight, grad, c, g);
    sums::lemma_swap_last(t, u, n, c_out, stops, rows);
    sums::lemma_swap_middle(u, v, n, c_out, rows, stops);
    sums::lemma_swap_last(v, w, n, rows, c_out, stops);
    let d = conv::input_grad_result(weight, grad, n as int, c, g);
    let f = products(input, d);
    sums::lemma_same(|i: int| input[i].times(d[i]), f, n * pixels);
    sums::lemma_split(f, n, pixels);
    let table = sums::as_table(f, pixels as int);
    let m = sums::sum3(sums::sum4(w, c_out), stops);
    assert forall|ni: int| 0 <= ni < n implies #[trigger] sums::row_sums(table, pixels)(ni)
        == sums::row_sums(m, rows)(ni) by {
        lemma_sample_pairing(input, weight, grad, c_out, g, ni);
        let s = conv::sample_grad(weight, grad, g, c, ni);
        let line = weighted(input, ni * g.pixels(), s);
        assert forall|i: int| 0 <= i < pixels implies #[trigger] sums::row(table, ni)(i) == line(
            i,
        ) by {
            kernels::lemma_table_index(ni, n as int, i, pixels as int);
            lemma_entry(ni, i, pixels as int);
        }
        sums::lemma_same(sums::row(table, ni), line, pixels);
    }
    sums::lemma_same(sums::row_sums(table, pixels), sums::row_sums(m, rows), n);
}

} // verus!
