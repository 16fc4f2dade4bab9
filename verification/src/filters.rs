//! The gradients of convolutions, element by element.
use crate::backend::Backend;
use crate::contributions;
use crate::conv;
use crate::conv_rules::{self, ConvParts};
use crate::convolve;
use crate::elements;
use crate::error::Error;
use crate::host;
use crate::kernels::{self, Window};
use crate::model;
use crate::nd;
use crate::op::Op;
use crate::scalar::Scalar;
use crate::selection;
use crate::tensor::Tensor;
use crate::windows;
use vstd::arithmetic::div_mod::*;
use vstd::arithmetic::mul::*;
use vstd::prelude::*;

verus! {

/// The sum of a table of numbers, row by row: each row is added up by itself.
pub open spec fn sum_rows<S: Scalar>(f: spec_fn(int, int) -> S, rows: nat, n: nat) -> S
    decreases rows,
{
    if rows == 0 {
        S::zero_val()
    } else {
        sum_rows(f, (rows - 1) as nat, n).plus(
            kernels::sum_from(S::zero_val(), |j: int| f(rows - 1, j), n),
        )
    }
}

/// The gradient of a weight in a list, by output channel, plane, row and column.
proof fn lemma_weight_entry<S: Scalar>(
    input: Seq<S>,
    grad: Seq<S>,
    n: nat,
    c_out: int,
    g: Window,
    co: int,
    c: int,
    ky: int,
    kx: int,
    term: spec_fn(int, int) -> S,
)
    requires
        0 <= co < c_out,
        0 <= c < g.planes,
        0 <= ky < g.kh,
        0 <= kx < g.kw,
        forall|ni: int, j: int|
            0 <= ni < n && 0 <= j < g.stops() ==> #[trigger] term(ni, j) == grad[ni * (c_out
                * g.stops()) + (co * g.stops() + j)].times(
                match g.pixel(c, ky * g.kw + kx, j) {
                    Some(p) => input[ni * g.pixels() + p],
                    None => S::zero_val(),
                },
            ),
    ensures
        conv::weight_grad_at(
            input,
            grad,
            g,
            c_out,
            n,
            co * g.rows() + (c * g.taps() + (ky * g.kw + kx)),
        ) == sum_rows(term, n, g.stops() as nat),
    decreases n,
{
    if n > 0 {
        lemma_weight_entry(input, grad, (n - 1) as nat, c_out, g, co, c, ky, kx, term);
        let m = ky * g.kw + kx;
        let row = c * g.taps() + m;
        let x = co * g.rows() + row;
        let stops = g.stops();
        kernels::lemma_table_index(ky, g.kh as int, kx, g.kw as int);
        kernels::lemma_table_index(c, g.planes as int, m, g.taps());
        kernels::lemma_table_index(co, c_out, row, g.rows());
        conv::lemma_counts(g);
        let own = |j: int| conv::weight_term(input, grad, g, c_out, n - 1, x, j);
        let given = |j: int| term(n - 1, j);
        assert forall|j: int| 0 <= j < stops implies #[trigger] own(j) == given(j) by {
            kernels::lemma_table_index(row, g.rows(), j, stops);
            assert(term(n - 1, j) == term(n - 1, j));
        }
        conv::lemma_sum_same(S::zero_val(), own, given, stops as nat);
    }
}

/// The weight that entry `q` of the columns of a sample is multiplied by, and where
/// the kernel stops: channel, kernel row, kernel column, row and column.
pub open spec fn entry(g: Window, q: int) -> (int, int, int, int, int) {
    let p = q / g.stops();
    let j = q % g.stops();
    (
        p / g.taps(),
        (p % g.taps()) / (g.kw as int),
        (p % g.taps()) % (g.kw as int),
        j / (g.w_out as int),
        j % (g.w_out as int),
    )
}

/// The coordinates of an entry are in range.
proof fn lemma_entry(g: Window, q: int)
    requires
        0 <= q < g.rows() * g.stops(),
    ensures
        ({
            let (c, ky, kx, oh, ow) = entry(g, q);
            &&& 0 <= c < g.planes
            &&& 0 <= ky < g.kh
            &&& 0 <= kx < g.kw
            &&& 0 <= oh < g.h_out
            &&& 0 <= ow < g.w_out
            &&& q / g.stops() == c * g.taps() + (ky * g.kw + kx)
            &&& q % g.stops() == oh * g.w_out + ow
            &&& 0 <= q / g.stops() < g.rows()
            &&& 0 <= q % g.stops() < g.stops()
        }),
{
    conv::lemma_counts(g);
    kernels::lemma_table_split(q, g.rows(), g.stops());
    let p = q / g.stops();
    let j = q % g.stops();
    kernels::lemma_table_split(p, g.planes as int, g.taps());
    kernels::lemma_table_split(p % g.taps(), g.kh as int, g.kw as int);
    kernels::lemma_table_split(j, g.h_out as int, g.w_out as int);
}

/// The gradient of a pixel in a list, by sample, plane, row and column.
proof fn lemma_input_entry<S: Scalar>(
    weight: Seq<S>,
    grad: Seq<S>,
    n: int,
    c_out: int,
    g: Window,
    ni: int,
    c: int,
    y: int,
    x: int,
    hits: spec_fn(int) -> bool,
    value: spec_fn(int) -> S,
)
    requires
        0 <= ni < n,
        0 <= c_out,
        0 <= c < g.planes,
        0 <= y < g.h,
        0 <= x < g.w,
        forall|q: int|
            0 <= q < g.rows() * g.stops() ==> (#[trigger] hits(q) <==> {
                let (cq, ky, kx, oh, ow) = entry(g, q);
                &&& cq == c
                &&& oh * g.sh + ky - g.ph == y
                &&& ow * g.sw + kx - g.pw == x
            }),
        forall|q: int|
            0 <= q < g.rows() * g.stops() && #[trigger] hits(q) ==> value(q) == kernels::sum_from(
                S::zero_val(),
                |co: int|
                    weight[co * g.rows() + q / g.stops()].times(
                        grad[ni * (c_out * g.stops()) + (co * g.stops() + q % g.stops())],
                    ),
                c_out as nat,
            ),
    ensures
        conv::input_grad_result(weight, grad, n, c_out, g)[ni * g.pixels() + (c * (g.h * g.w) + (y
            * g.w + x))] == selection::sum_where(hits, value, (g.rows() * g.stops()) as nat),
{
    conv::lemma_counts(g);
    let place = c * (g.h * g.w) + (y * g.w + x);
    kernels::lemma_table_index(y, g.h as int, x, g.w as int);
    kernels::lemma_table_index(c, g.planes as int, y * g.w + x, g.h * g.w);
    kernels::lemma_table_index(ni, n, place, g.pixels());
    let to = |q: int| g.source(q);
    let val = |q: int| conv::column_grad(weight, grad, g, c_out, ni * (c_out * g.stops()), q);
    let len = (g.rows() * g.stops()) as nat;
    assert forall|q: int| 0 <= q < len implies (#[trigger] hits(q) <==> to(q) == Some(place)) by {
        lemma_entry(g, q);
        let (cq, ky, kx, oh, ow) = entry(g, q);
        let py = oh * g.sh + ky - g.ph;
        let px = ow * g.sw + kx - g.pw;
        if 0 <= py < g.h && 0 <= px < g.w {
            kernels::lemma_table_index(py, g.h as int, px, g.w as int);
            kernels::lemma_table_index(cq, g.planes as int, py * g.w + px, g.h * g.w);
        }
    }
    assert forall|q: int| 0 <= q < len && #[trigger] hits(q) implies val(q) == value(q) by {
        let own = |co: int|
            conv::column_term(weight, grad, g, ni * (c_out * g.stops()), q, co);
        let given = |co: int|
            weight[co * g.rows() + q / g.stops()].times(
                grad[ni * (c_out * g.stops()) + (co * g.stops() + q % g.stops())],
            );
        conv::lemma_sum_same(S::zero_val(), own, given, c_out as nat);
    }
    selection::lemma_scattered(g.pixels() as nat, to, val, hits, value, len, place);
    assert(conv::sample_grad(weight, grad, g, c_out, ni) =~= kernels::scatter_add(
        kernels::zeros_of::<S>(g.pixels() as nat),
        to,
        val,
        len,
    ));
}

/// What the gradients of a convolution are computed of: the elements of the input,
/// of the weight and of the gradient of the output, in row-major order.
pub open spec fn parts_hold<B: Backend>(
    p: ConvParts<B::Scalar>,
    d: Seq<usize>,
    k: Seq<usize>,
    own: Seq<usize>,
    xs: spec_fn(Seq<usize>) -> B::Scalar,
    ws: spec_fn(Seq<usize>) -> B::Scalar,
    gs: spec_fn(Seq<usize>) -> B::Scalar,
) -> bool {
    &&& p.n == d[0]
    &&& p.c_out == k[0]
    &&& forall|j: Seq<usize>| #[trigger]
        nd::in_bounds(j, d) ==> p.input@[model::place(j, d) as int] == xs(j)
    &&& forall|j: Seq<usize>| #[trigger]
        nd::in_bounds(j, k) ==> p.weight@[model::place(j, k) as int] == ws(j)
    &&& forall|j: Seq<usize>| #[trigger]
        nd::in_bounds(j, own) ==> p.grad@[model::place(j, own) as int] == gs(j)
}

proof fn lemma_parts<B: Backend>(
    at: spec_fn(B::Storage, nat) -> B::Scalar,
    grad: Tensor<B>,
    x: Tensor<B>,
    weight: Tensor<B>,
    g: Window,
    p: ConvParts<B::Scalar>,
    xs: spec_fn(Seq<usize>) -> B::Scalar,
    ws: spec_fn(Seq<usize>) -> B::Scalar,
    gs: spec_fn(Seq<usize>) -> B::Scalar,
)
    requires
        model::stores::<B>(at),
        conv_rules::parts_result(grad, x, weight, g, Ok(p)),
        nd::product(grad@.dims()) == x@.dims()[0] * (weight@.dims()[0] * g.stops()),
        model::has(at, x, xs),
        model::has(at, weight, ws),
        model::has(at, grad, gs),
    ensures
        p.window == g,
        parts_hold::<B>(p, x@.dims(), weight@.dims(), grad@.dims(), xs, ws, gs),
{
    let n = x@.dims()[0];
    let c_out = weight@.dims()[0];
    let needed = n * (c_out * g.stops());
    let i = choose|i: Vec<B::Scalar>| #[trigger]
        host::dense_values_result(x, Ok(i)) && exists|w: Vec<B::Scalar>, v: Vec<B::Scalar>|
            {
                &&& #[trigger] host::dense_values_result(weight, Ok(w))
                &&& #[trigger] host::dense_values_result(grad, Ok(v))
                &&& conv_rules::are_parts(p, i@, w@, v@.take(needed), n, c_out, g)
            };
    let (w, v) = choose|w: Vec<B::Scalar>, v: Vec<B::Scalar>|
        {
            &&& #[trigger] host::dense_values_result(weight, Ok(w))
            &&& #[trigger] host::dense_values_result(grad, Ok(v))
            &&& conv_rules::are_parts(p, i@, w@, v@.take(needed), n, c_out, g)
        };
    assert forall|j: Seq<usize>| #[trigger]
        nd::in_bounds(j, x@.dims()) implies p.input@[model::place(j, x@.dims()) as int] == xs(
        j,
    ) by {
        assert(elements::element_is(at, x, j, xs(j)));
        model::lemma_dense_values(at, x, i, j, xs(j));
    }
    assert forall|j: Seq<usize>| #[trigger]
        nd::in_bounds(j, weight@.dims()) implies p.weight@[model::place(j, weight@.dims()) as int]
        == ws(j) by {
        assert(elements::element_is(at, weight, j, ws(j)));
        model::lemma_dense_values(at, weight, w, j, ws(j));
    }
    assert forall|j: Seq<usize>| #[trigger]
        nd::in_bounds(j, grad@.dims()) implies p.grad@[model::place(j, grad@.dims()) as int] == gs(
        j,
    ) by {
        assert(elements::element_is(at, grad, j, gs(j)));
        model::lemma_dense_values(at, grad, v, j, gs(j));
    }
}

/// The parts of a 2D convolution that was made by a call.
proof fn lemma_conv2d_parts<B: Backend>(
    at: spec_fn(B::Storage, nat) -> B::Scalar,
    a: Tensor<B>,
    weight: Tensor<B>,
    bias: Option<&Tensor<B>>,
    stride: [usize; 2],
    padding: [usize; 2],
    t: Tensor<B>,
    grad: Tensor<B>,
    u: int,
    g: Tensor<B>,
    xs: spec_fn(Seq<usize>) -> B::Scalar,
    ws: spec_fn(Seq<usize>) -> B::Scalar,
    gs: spec_fn(Seq<usize>) -> B::Scalar,
) -> (p: ConvParts<B::Scalar>)
    requires
        model::stores::<B>(at),
        call_ensures(
            Tensor::conv2d,
            (&a, &weight, bias, stride, padding),
            Ok::<Tensor<B>, Error>(t),
        ),
        stride@[0] > 0,
        stride@[1] > 0,
        contributions::contribution(t@.op, grad, u, g),
        grad@.dims() == t@.dims(),
        model::has(at, a, xs),
        model::has(at, weight, ws),
        model::has(at, grad, gs),
    ensures
        ({
            let d = a@.dims();
            let k = weight@.dims();
            let own = t@.dims();
            &&& d.len() == 4
            &&& k.len() == 4
            &&& own.len() == 4
            &&& k[1] == d[1]
            &&& own[0] == d[0]
            &&& own[1] == k[0]
            &&& t@.op == Op::Conv2d {
                input: a,
                weight,
                bias: convolve::optional_of(bias),
                stride,
                padding,
            }
            &&& p.window == conv_rules::window_of_grad(d, k, own, stride, padding)
            &&& parts_hold::<B>(p, d, k, own, xs, ws, gs)
            &&& contributions::conv_contribution(
                p,
                a,
                weight,
                convolve::optional_of(bias),
                u,
                g,
            )
        }),
{
    let d = a@.dims();
    let k = weight@.dims();
    let op = Op::Conv2d {
        input: a,
        weight,
        bias: convolve::optional_of(bias),
        stride,
        padding,
    };
    let h_out = convolve::out_len(d[2] as int, k[2] as int, stride@[0] as int, padding@[0] as int);
    let w_out = convolve::out_len(d[3] as int, k[3] as int, stride@[1] as int, padding@[1] as int);
    let w = convolve::window2(d[1] as int, d[2], d[3], [k[2], k[3]], stride, padding);
    let own = seq![d[0], k[0], h_out as usize, w_out as usize];
    let lists = windows::lemma_convolved_parts(a, weight, bias, w, own, "conv2d"@, op, t);
    assert(t@.op == op && t@.dims() == own);
    let p = choose|p: ConvParts<B::Scalar>| #[trigger]
        conv_rules::conv2d_parts_result(grad, a, weight, stride, padding, Ok(p))
            && contributions::conv_contribution(
            p,
            a,
            weight,
            convolve::optional_of(bias),
            u,
            g,
        );
    let v = conv_rules::window_of_grad(d, k, own, stride, padding);
    convolve::lemma_product4(own);
    lemma_parts(at, grad, a, weight, v, p, xs, ws, gs);
    p
}

/// The gradient of a weight of a 2D convolution: over the samples, for each the
/// sum over the places of the kernel, the gradient of the output there times the
/// pixel that the weight lay on, or zero in the border.
pub proof fn law_conv2d_weight_gradient<B: Backend>(
    at: spec_fn(B::Storage, nat) -> B::Scalar,
    a: Tensor<B>,
    weight: Tensor<B>,
    bias: Option<&Tensor<B>>,
    stride: [usize; 2],
    padding: [usize; 2],
    t: Tensor<B>,
    grad: Tensor<B>,
    g: Tensor<B>,
    xs: spec_fn(Seq<usize>) -> B::Scalar,
    ws: spec_fn(Seq<usize>) -> B::Scalar,
    gs: spec_fn(Seq<usize>) -> B::Scalar,
    e: Seq<usize>,
)
    requires
        model::stores::<B>(at),
        call_ensures(
            Tensor::conv2d,
            (&a, &weight, bias, stride, padding),
            Ok::<Tensor<B>, Error>(t),
        ),
        stride@[0] > 0,
        stride@[1] > 0,
        contributions::contribution(t@.op, grad, 0, g),
        grad@.dims() == t@.dims(),
        model::has(at, a, xs),
        model::has(at, weight, ws),
        model::has(at, grad, gs),
        nd::product(a@.dims()) <= usize::MAX,
        nd::product(weight@.dims()) <= usize::MAX,
        nd::product(t@.dims()) <= usize::MAX,
        nd::in_bounds(e, weight@.dims()),
    ensures
        contributions::used(t@.op)[0] == weight,
        g@.dims() == weight@.dims(),
        elements::element_is(
            at,
            g,
            e,
            ({
                let d = a@.dims();
                let own = t@.dims();
                sum_rows(
                    |n: int, j: int|
                        {
                            let oh = j / (own[3] as int);
                            let ow = j % (own[3] as int);
                            gs(seq![n as usize, e[0], oh as usize, ow as usize]).times(
                                windows::bordered(
                                    xs,
                                    n as usize,
                                    e[1] as int,
                                    oh * stride@[0] + e[2] - padding@[0],
                                    ow * stride@[1] + e[3] - padding@[1],
                                    d[2],
                                    d[3],
                                ),
                            )
                        },
                    d[0] as nat,
                    (own[2] * own[3]) as nat,
                )
            }),
        ),
{
    let d = a@.dims();
    let k = weight@.dims();
    let own = t@.dims();
    let p = lemma_conv2d_parts(at, a, weight, bias, stride, padding, t, grad, 0, g, xs, ws, gs);
    let w = p.window;
    let data = conv::weight_grad_result(p.input@, p.grad@, p.n as int, p.c_out as int, w);
    model::lemma_uploaded(at, data, k, weight@.dtype, weight@.device, g, e);
    windows::lemma_place4(e, k);
    assert(e[0] < k[0] && e[1] < k[1] && e[2] < k[2] && e[3] < k[3]);
    let term = |n: int, j: int|
        {
            let oh = j / (own[3] as int);
            let ow = j % (own[3] as int);
            gs(seq![n as usize, e[0], oh as usize, ow as usize]).times(
                windows::bordered(
                    xs,
                    n as usize,
                    e[1] as int,
                    oh * stride@[0] + e[2] - padding@[0],
                    ow * stride@[1] + e[3] - padding@[1],
                    d[2],
                    d[3],
                ),
            )
        };
    assert forall|ni: int, j: int| 0 <= ni < p.n && 0 <= j < w.stops() implies #[trigger] term(
        ni,
        j,
    ) == p.grad@[ni * (p.c_out * w.stops()) + (e[0] * w.stops() + j)].times(
        match w.pixel(e[1] as int, e[2] * w.kw + e[3], j) {
            Some(q) => p.input@[ni * w.pixels() + q],
            None => <B::Scalar as Scalar>::zero_val(),
        },
    ) by {
        kernels::lemma_table_split(j, w.h_out as int, w.w_out as int);
        kernels::lemma_table_index(e[2] as int, w.kh as int, e[3] as int, w.kw as int);
        let oh = j / (own[3] as int);
        let ow = j % (own[3] as int);
        let o = seq![ni as usize, e[0], oh as usize, ow as usize];
        assert(nd::in_bounds(o, own));
        windows::lemma_place4(o, own);
        let y = oh * stride@[0] + e[2] - padding@[0];
        let x = ow * stride@[1] + e[3] - padding@[1];
        if 0 <= y < d[2] && 0 <= x < d[3] {
            let i = seq![ni as usize, e[1], y as usize, x as usize];
            assert(nd::in_bounds(i, d));
            windows::lemma_place4(i, d);
        }
    }
    lemma_weight_entry(
        p.input@,
        p.grad@,
        p.n as nat,
        p.c_out as int,
        w,
        e[0] as int,
        e[1] as int,
        e[2] as int,
        e[3] as int,
        term,
    );
}

/// The gradient of a pixel of the input of a 2D convolution: over the places of
/// the kernel and the weights that lay on the pixel, the sum over the output
/// channels of the weight times the gradient of the output there.
pub proof fn law_conv2d_input_gradient<B: Backend>(
    at: spec_fn(B::Storage, nat) -> B::Scalar,
    a: Tensor<B>,
    weight: Tensor<B>,
    bias: Option<&Tensor<B>>,
    stride: [usize; 2],
    padding: [usize; 2],
    t: Tensor<B>,
    grad: Tensor<B>,
    g: Tensor<B>,
    xs: spec_fn(Seq<usize>) -> B::Scalar,
    ws: spec_fn(Seq<usize>) -> B::Scalar,
    gs: spec_fn(Seq<usize>) -> B::Scalar,
    e: Seq<usize>,
    w: Window,
)
    requires
        model::stores::<B>(at),
        call_ensures(
            Tensor::conv2d,
            (&a, &weight, bias, stride, padding),
            Ok::<Tensor<B>, Error>(t),
        ),
        stride@[0] > 0,
        stride@[1] > 0,
        contributions::contribution(t@.op, grad, 1, g),
        grad@.dims() == t@.dims(),
        model::has(at, a, xs),
        model::has(at, weight, ws),
        model::has(at, grad, gs),
        nd::product(a@.dims()) <= usize::MAX,
        nd::product(weight@.dims()) <= usize::MAX,
        nd::product(t@.dims()) <= usize::MAX,
        nd::in_bounds(e, a@.dims()),
        // The sizes of the kernel and of the output.
        w.planes == weight@.dims()[1],
        w.kh == weight@.dims()[2],
        w.kw == weight@.dims()[3],
        w.h_out == t@.dims()[2],
        w.w_out == t@.dims()[3],
    ensures
        contributions::used(t@.op)[1] == a,
        g@.dims() == a@.dims(),
        elements::element_is(
            at,
            g,
            e,
            selection::sum_where(
                |q: int|
                    {
                        let (c, ky, kx, oh, ow) = entry(w, q);
                        &&& c == e[1]
                        &&& oh * stride@[0] + ky - padding@[0] == e[2]
                        &&& ow * stride@[1] + kx - padding@[1] == e[3]
                    },
                |q: int|
                    {
                        let (c, ky, kx, oh, ow) = entry(w, q);
                        kernels::sum_from(
                            <B::Scalar as Scalar>::zero_val(),
                            |co: int|
                                ws(
                                    seq![co as usize, e[1], ky as usize, kx as usize],
                                ).times(gs(seq![e[0], co as usize, oh as usize, ow as usize])),
                            weight@.dims()[0] as nat,
                        )
                    },
                (w.rows() * w.stops()) as nat,
            ),
        ),
{
    let d = a@.dims();
    let k = weight@.dims();
    let own = t@.dims();
    let p = lemma_conv2d_parts(at, a, weight, bias, stride, padding, t, grad, 1, g, xs, ws, gs);
    let v = p.window;
    assert(v.rows() == w.rows() && v.stops() == w.stops() && v.taps() == w.taps());
    let data = conv::input_grad_result(p.weight@, p.grad@, p.n as int, p.c_out as int, v);
    model::lemma_uploaded(at, data, d, a@.dtype, a@.device, g, e);
    windows::lemma_place4(e, d);
    assert(e[0] < d[0] && e[1] < d[1] && e[2] < d[2] && e[3] < d[3]);
    let hits = |q: int|
        {
            let (c, ky, kx, oh, ow) = entry(w, q);
            &&& c == e[1]
            &&& oh * stride@[0] + ky - padding@[0] == e[2]
            &&& ow * stride@[1] + kx - padding@[1] == e[3]
        };
    let value = |q: int|
        {
            let (c, ky, kx, oh, ow) = entry(w, q);
            kernels::sum_from(
                <B::Scalar as Scalar>::zero_val(),
                |co: int|
                    ws(seq![co as usize, e[1], ky as usize, kx as usize]).times(
                        gs(seq![e[0], co as usize, oh as usize, ow as usize]),
                    ),
                weight@.dims()[0] as nat,
            )
        };
    assert forall|q: int| 0 <= q < v.rows() * v.stops() && #[trigger] hits(q) implies value(q)
        == kernels::sum_from(
        <B::Scalar as Scalar>::zero_val(),
        |co: int|
            p.weight@[co * v.rows() + q / v.stops()].times(
                p.grad@[e[0] * (p.c_out * v.stops()) + (co * v.stops() + q % v.stops())],
            ),
        p.c_out as nat,
    ) by {
        lemma_entry(v, q);
        let (c, ky, kx, oh, ow) = entry(w, q);
        let given = |co: int|
            ws(seq![co as usize, e[1], ky as usize, kx as usize]).times(
                gs(seq![e[0], co as usize, oh as usize, ow as usize]),
            );
        let read = |co: int|
            p.weight@[co * v.rows() + q / v.stops()].times(
                p.grad@[e[0] * (p.c_out * v.stops()) + (co * v.stops() + q % v.stops())],
            );
        assert forall|co: int| 0 <= co < p.c_out implies #[trigger] given(co) == read(co) by {
            let i = seq![co as usize, e[1], ky as usize, kx as usize];
            let o = seq![e[0], co as usize, oh as usize, ow as usize];
            assert(nd::in_bounds(i, k));
            assert(nd::in_bounds(o, own));
            windows::lemma_place4(i, k);
            windows::lemma_place4(o, own);
        }
        conv::lemma_sum_same(<B::Scalar as Scalar>::zero_val(), given, read, p.c_out as nat);
    }
    lemma_input_entry(
        p.weight@,
        p.grad@,
        p.n as int,
        p.c_out as int,
        v,
        e[0] as int,
        e[1] as int,
        e[2] as int,
        e[3] as int,
        hits,
        value,
    );
}

/// The gradient of the bias of a 2D convolution: for each output channel the sum of
/// the gradients of all samples and places.
pub proof fn law_conv2d_bias_gradient<B: Backend>(
    at: spec_fn(B::Storage, nat) -> B::Scalar,
    a: Tensor<B>,
    weight: Tensor<B>,
    bias: &Tensor<B>,
    stride: [usize; 2],
    padding: [usize; 2],
    t: Tensor<B>,
    grad: Tensor<B>,
    g: Tensor<B>,
    xs: spec_fn(Seq<usize>) -> B::Scalar,
    ws: spec_fn(Seq<usize>) -> B::Scalar,
    gs: spec_fn(Seq<usize>) -> B::Scalar,
    e: Seq<usize>,
)
    requires
        model::stores::<B>(at),
        call_ensures(
            Tensor::conv2d,
            (&a, &weight, Some(bias), stride, padding),
            Ok::<Tensor<B>, Error>(t),
        ),
        stride@[0] > 0,
        stride@[1] > 0,
        contributions::contribution(t@.op, grad, 2, g),
        grad@.dims() == t@.dims(),
        model::has(at, a, xs),
        model::has(at, weight, ws),
        model::has(at, grad, gs),
        nd::product(t@.dims()) <= usize::MAX,
        nd::in_bounds(e, bias@.dims()),
    ensures
        contributions::used(t@.op) == seq![weight, a, *bias],
        g@.dims() == bias@.dims(),
        nd::product(bias@.dims()) == weight@.dims()[0],
        elements::element_is(
            at,
            g,
            e,
            ({
                let own = t@.dims();
                let stops = own[2] * own[3];
                kernels::sum_from(
                    <B::Scalar as Scalar>::zero_val(),
                    |m: int|
                        gs(
                            seq![
                                (m / stops) as usize,
                                model::place(e, bias@.dims()) as usize,
                                ((m % stops) / (own[3] as int)) as usize,
                                ((m % stops) % (own[3] as int)) as usize,
                            ],
                        ),
                    (own[0] * stops) as nat,
                )
            }),
        ),
{
    let own = t@.dims();
    let stops = own[2] * own[3];
    let p = lemma_conv2d_parts(
        at,
        a,
        weight,
        Some(bias),
        stride,
        padding,
        t,
        grad,
        2,
        g,
        xs,
        ws,
        gs,
    );
    let w = p.window;
    assert(w.stops() == stops);
    let data = conv::bias_grad_result(p.grad@, p.n as int, p.c_out as int, stops);
    let bd = bias@.dims();
    model::lemma_uploaded(at, data, bd, bias@.dtype, bias@.device, g, e);
    let co = model::place(e, bd) as int;
    let given = |m: int|
        gs(
            seq![
                (m / stops) as usize,
                model::place(e, bias@.dims()) as usize,
                ((m % stops) / (own[3] as int)) as usize,
                ((m % stops) % (own[3] as int)) as usize,
            ],
        );
    let read = |m: int| conv::bias_term(p.grad@, p.c_out as int, stops, co, m);
    let n = own[0] * stops;
    assert forall|m: int| 0 <= m < n implies #[trigger] given(m) == read(m) by {
        kernels::lemma_table_split(m, own[0] as int, stops);
        kernels::lemma_table_split(m % stops, own[2] as int, own[3] as int);
        let o = seq![
            (m / stops) as usize,
            co as usize,
            ((m % stops) / (own[3] as int)) as usize,
            ((m % stops) % (own[3] as int)) as usize,
        ];
        assert(nd::in_bounds(o, own));
        windows::lemma_place4(o, own);
    }
    conv::lemma_counts(w);
    lemma_mul_nonnegative(own[0] as int, stops);
    conv::lemma_sum_same(<B::Scalar as Scalar>::zero_val(), given, read, n as nat);
}

/// The parts of a 1D convolution that was made by a call.
proof fn lemma_conv1d_parts<B: Backend>(
    at: spec_fn(B::Storage, nat) -> B::Scalar,
    a: Tensor<B>,
    weight: Tensor<B>,
    bias: Option<&Tensor<B>>,
    stride: usize,
    padding: usize,
    t: Tensor<B>,
    grad: Tensor<B>,
    u: int,
    g: Tensor<B>,
    xs: spec_fn(Seq<usize>) -> B::Scalar,
    ws: spec_fn(Seq<usize>) -> B::Scalar,
    gs: spec_fn(Seq<usize>) -> B::Scalar,
) -> (p: ConvParts<B::Scalar>)
    requires
        model::stores::<B>(at),
        call_ensures(
            Tensor::conv1d,
            (&a, &weight, bias, stride, padding),
            Ok::<Tensor<B>, Error>(t),
        ),
        stride > 0,
        contributions::contribution(t@.op, grad, u, g),
        grad@.dims() == t@.dims(),
        model::has(at, a, xs),
        model::has(at, weight, ws),
        model::has(at, grad, gs),
    ensures
        ({
            let d = a@.dims();
            let k = weight@.dims();
            let own = t@.dims();
            &&& d.len() == 3
            &&& k.len() == 3
            &&& own.len() == 3
            &&& k[1] == d[1]
            &&& own[0] == d[0]
            &&& own[1] == k[0]
            &&& own[2] == p.window.w_out
            &&& t@.op == Op::Conv1d {
                input: a,
                weight,
                bias: convolve::optional_of(bias),
                stride,
                padding,
            }
            &&& p.window == convolve::window1(d[1], d[2], k[2], stride, padding)
            &&& p.window.stops() == own[2]
            &&& p.window.taps() == k[2]
            &&& p.window.h * p.window.w == d[2]
            &&& parts_hold::<B>(p, d, k, own, xs, ws, gs)
            &&& contributions::conv_contribution(
                p,
                a,
                weight,
                convolve::optional_of(bias),
                u,
                g,
            )
        }),
{
    let d = a@.dims();
    let k = weight@.dims();
    let op = Op::Conv1d {
        input: a,
        weight,
        bias: convolve::optional_of(bias),
        stride,
        padding,
    };
    let l_out = convolve::out_len(d[2] as int, k[2] as int, stride as int, padding as int);
    let w = convolve::window1(d[1], d[2], k[2], stride, padding);
    let own = seq![d[0], k[0], l_out as usize];
    let lists = windows::lemma_convolved_parts(a, weight, bias, w, own, "conv1d"@, op, t);
    assert(t@.op == op && t@.dims() == own);
    let p = choose|p: ConvParts<B::Scalar>| #[trigger]
        conv_rules::conv1d_parts_result(grad, a, weight, stride, padding, Ok(p))
            && contributions::conv_contribution(
            p,
            a,
            weight,
            convolve::optional_of(bias),
            u,
            g,
        );
    lemma_mul_basics(w.w_out as int);
    lemma_mul_basics(w.kw as int);
    lemma_mul_basics(w.w as int);
    convolve::lemma_product3(own);
    lemma_parts(at, grad, a, weight, w, p, xs, ws, gs);
    p
}

/// The gradient of a weight of a 1D convolution: over the samples, for each the
/// sum over the places of the kernel, the gradient of the output there times the
/// number that the weight lay on, or zero in the border.
pub proof fn law_conv1d_weight_gradient<B: Backend>(
    at: spec_fn(B::Storage, nat) -> B::Scalar,
    a: Tensor<B>,
    weight: Tensor<B>,
    bias: Option<&Tensor<B>>,
    stride: usize,
    padding: usize,
    t: Tensor<B>,
    grad: Tensor<B>,
    g: Tensor<B>,
    xs: spec_fn(Seq<usize>) -> B::Scalar,
    ws: spec_fn(Seq<usize>) -> B::Scalar,
    gs: spec_fn(Seq<usize>) -> B::Scalar,
    e: Seq<usize>,
)
    requires
        model::stores::<B>(at),
        call_ensures(
            Tensor::conv1d,
            (&a, &weight, bias, stride, padding),
            Ok::<Tensor<B>, Error>(t),
        ),
        stride > 0,
        contributions::contribution(t@.op, grad, 0, g),
        grad@.dims() == t@.dims(),
        model::has(at, a, xs),
        model::has(at, weight, ws),
        model::has(at, grad, gs),
        nd::product(a@.dims()) <= usize::MAX,
        nd::product(weight@.dims()) <= usize::MAX,
        nd::product(t@.dims()) <= usize::MAX,
        nd::in_bounds(e, weight@.dims()),
    ensures
        contributions::used(t@.op)[0] == weight,
        g@.dims() == weight@.dims(),
        elements::element_is(
            at,
            g,
            e,
            sum_rows(
                |n: int, j: int|
                    gs(seq![n as usize, e[0], j as usize]).times(
                        windows::bordered_row(
                            xs,
                            n as usize,
                            e[1] as int,
                            j * stride + e[2] - padding,
                            a@.dims()[2],
                        ),
                    ),
                a@.dims()[0] as nat,
                t@.dims()[2] as nat,
            ),
        ),
{
    let d = a@.dims();
    let k = weight@.dims();
    let own = t@.dims();
    let p = lemma_conv1d_parts(at, a, weight, bias, stride, padding, t, grad, 0, g, xs, ws, gs);
    let w = p.window;
    let data = conv::weight_grad_result(p.input@, p.grad@, p.n as int, p.c_out as int, w);
    model::lemma_uploaded(at, data, k, weight@.dtype, weight@.device, g, e);
    windows::lemma_place3(e, k);
    assert(e[0] < k[0] && e[1] < k[1] && e[2] < k[2]);
    let term = |n: int, j: int|
        gs(seq![n as usize, e[0], j as usize]).times(
            windows::bordered_row(
                xs,
                n as usize,
                e[1] as int,
                j * stride + e[2] - padding,
                a@.dims()[2],
            ),
        );
    assert forall|ni: int, j: int| 0 <= ni < p.n && 0 <= j < w.stops() implies #[trigger] term(
        ni,
        j,
    ) == p.grad@[ni * (p.c_out * w.stops()) + (e[0] * w.stops() + j)].times(
        match w.pixel(e[1] as int, 0 * w.kw + e[2], j) {
            Some(q) => p.input@[ni * w.pixels() + q],
            None => <B::Scalar as Scalar>::zero_val(),
        },
    ) by {
        lemma_basic_div(j, w.w_out as int);
        lemma_small_mod(j as nat, w.w_out as nat);
        lemma_basic_div(e[2] as int, w.kw as int);
        lemma_small_mod(e[2] as nat, w.kw as nat);
        let o = seq![ni as usize, e[0], j as usize];
        assert(nd::in_bounds(o, own));
        windows::lemma_place3(o, own);
        let x = j * stride + e[2] - padding;
        lemma_mul_basics(w.kw as int);
        lemma_mul_basics(w.w as int);
        assert(kernels::axis_at(0, 1, 0, 0, 1) == Some(0int));
        if 0 <= x < d[2] {
            assert(w.pixel(e[1] as int, e[2] as int, j) == Some(e[1] * d[2] + x));
            let i = seq![ni as usize, e[1], x as usize];
            assert(nd::in_bounds(i, d));
            windows::lemma_place3(i, d);
        }
    }
    lemma_weight_entry(
        p.input@,
        p.grad@,
        p.n as nat,
        p.c_out as int,
        w,
        e[0] as int,
        e[1] as int,
        0,
        e[2] as int,
        term,
    );
}

/// The gradient of a number of the input of a 1D convolution: over the places of
/// the kernel and the weights that lay on the number, the sum over the output
/// channels of the weight times the gradient of the output there.
pub proof fn law_conv1d_input_gradient<B: Backend>(
    at: spec_fn(B::Storage, nat) -> B::Scalar,
    a: Tensor<B>,
    weight: Tensor<B>,
    bias: Option<&Tensor<B>>,
    stride: usize,
    padding: usize,
    t: Tensor<B>,
    grad: Tensor<B>,
    g: Tensor<B>,
    xs: spec_fn(Seq<usize>) -> B::Scalar,
    ws: spec_fn(Seq<usize>) -> B::Scalar,
    gs: spec_fn(Seq<usize>) -> B::Scalar,
    e: Seq<usize>,
)
    requires
        model::stores::<B>(at),
        call_ensures(
            Tensor::conv1d,
            (&a, &weight, bias, stride, padding),
            Ok::<Tensor<B>, Error>(t),
        ),
        stride > 0,
        contributions::contribution(t@.op, grad, 1, g),
        grad@.dims() == t@.dims(),
        model::has(at, a, xs),
        model::has(at, weight, ws),
        model::has(at, grad, gs),
        nd::product(a@.dims()) <= usize::MAX,
        nd::product(weight@.dims()) <= usize::MAX,
        nd::product(t@.dims()) <= usize::MAX,
        nd::in_bounds(e, a@.dims()),
    ensures
        contributions::used(t@.op)[1] == a,
        g@.dims() == a@.dims(),
        elements::element_is(
            at,
            g,
            e,
            ({
                let k = weight@.dims();
                let l = t@.dims()[2] as int;
                selection::sum_where(
                    |q: int|
                        {
                            &&& (q / l) / (k[2] as int) == e[1]
                            &&& (q % l) * stride + (q / l) % (k[2] as int) - padding == e[2]
                        },
                    |q: int|
                        kernels::sum_from(
                            <B::Scalar as Scalar>::zero_val(),
                            |co: int|
                                ws(
                                    seq![co as usize, e[1], ((q / l) % (k[2] as int)) as usize],
                                ).times(gs(seq![e[0], co as usize, (q % l) as usize])),
                            k[0] as nat,
                        ),
                    (k[1] * k[2] * l) as nat,
                )
            }),
        ),
{
    let d = a@.dims();
    let k = weight@.dims();
    let own = t@.dims();
    let l = own[2] as int;
    let p = lemma_conv1d_parts(at, a, weight, bias, stride, padding, t, grad, 1, g, xs, ws, gs);
    let v = p.window;
    let data = conv::input_grad_result(p.weight@, p.grad@, p.n as int, p.c_out as int, v);
    model::lemma_uploaded(at, data, d, a@.dtype, a@.device, g, e);
    windows::lemma_place3(e, d);
    assert(e[0] < d[0] && e[1] < d[1] && e[2] < d[2]);
    let hits = |q: int|
        {
            &&& (q / l) / (k[2] as int) == e[1]
            &&& (q % l) * stride + (q / l) % (k[2] as int) - padding == e[2]
        };
    let value = |q: int|
        kernels::sum_from(
            <B::Scalar as Scalar>::zero_val(),
            |co: int|
                ws(seq![co as usize, e[1], ((q / l) % (k[2] as int)) as usize]).times(
                    gs(seq![e[0], co as usize, (q % l) as usize]),
                ),
            k[0] as nat,
        );
    assert forall|q: int| 0 <= q < v.rows() * v.stops() implies (#[trigger] hits(q) <==> {
        let (cq, ky, kx, oh, ow) = entry(v, q);
        &&& cq == e[1]
        &&& oh * v.sh + ky - v.ph == 0
        &&& ow * v.sw + kx - v.pw == e[2]
    }) by {
        lemma_entry(v, q);
        let kx = (q / l) % (k[2] as int);
        lemma_basic_div(kx, k[2] as int);
        lemma_small_mod(kx as nat, k[2] as nat);
        lemma_basic_div(q % l, l);
        lemma_small_mod((q % l) as nat, l as nat);
    }
    assert forall|q: int| 0 <= q < v.rows() * v.stops() && #[trigger] hits(q) implies value(q)
        == kernels::sum_from(
        <B::Scalar as Scalar>::zero_val(),
        |co: int|
            p.weight@[co * v.rows() + q / v.stops()].times(
                p.grad@[e[0] * (p.c_out * v.stops()) + (co * v.stops() + q % v.stops())],
            ),
        p.c_out as nat,
    ) by {
        lemma_entry(v, q);
        kernels::lemma_table_split(q / l, k[1] as int, k[2] as int);
        let given = |co: int|
            ws(seq![co as usize, e[1], ((q / l) % (k[2] as int)) as usize]).times(
                gs(seq![e[0], co as usize, (q % l) as usize]),
            );
        let read = |co: int|
            p.weight@[co * v.rows() + q / v.stops()].times(
                p.grad@[e[0] * (p.c_out * v.stops()) + (co * v.stops() + q % v.stops())],
            );
        assert forall|co: int| 0 <= co < p.c_out implies #[trigger] given(co) == read(co) by {
            let i = seq![co as usize, e[1], ((q / l) % (k[2] as int)) as usize];
            let o = seq![e[0], co as usize, (q % l) as usize];
            assert(nd::in_bounds(i, k));
            assert(nd::in_bounds(o, own));
            windows::lemma_place3(i, k);
            windows::lemma_place3(o, own);
        }
        conv::lemma_sum_same(<B::Scalar as Scalar>::zero_val(), given, read, p.c_out as nat);
    }
    lemma_mul_basics(d[2] as int);
    lemma_input_entry(
        p.weight@,
        p.grad@,
        p.n as int,
        p.c_out as int,
        v,
        e[0] as int,
        e[1] as int,
        0,
        e[2] as int,
        hits,
        value,
    );
}

/// The gradient of the bias of a 1D convolution: for each output channel the sum of
/// the gradients of all samples and places.
pub proof fn law_conv1d_bias_gradient<B: Backend>(
    at: spec_fn(B::Storage, nat) -> B::Scalar,
    a: Tensor<B>,
    weight: Tensor<B>,
    bias: &Tensor<B>,
    stride: usize,
    padding: usize,
    t: Tensor<B>,
    grad: Tensor<B>,
    g: Tensor<B>,
    xs: spec_fn(Seq<usize>) -> B::Scalar,
    ws: spec_fn(Seq<usize>) -> B::Scalar,
    gs: spec_fn(Seq<usize>) -> B::Scalar,
    e: Seq<usize>,
)
    requires
        model::stores::<B>(at),
        call_ensures(
            Tensor::conv1d,
            (&a, &weight, Some(bias), stride, padding),
            Ok::<Tensor<B>, Error>(t),
        ),
        stride > 0,
        contributions::contribution(t@.op, grad, 2, g),
        grad@.dims() == t@.dims(),
        model::has(at, a, xs),
        model::has(at, weight, ws),
        model::has(at, grad, gs),
        nd::product(t@.dims()) <= usize::MAX,
        nd::in_bounds(e, bias@.dims()),
    ensures
        contributions::used(t@.op) == seq![weight, a, *bias],
        g@.dims() == bias@.dims(),
        nd::product(bias@.dims()) == weight@.dims()[0],
        elements::element_is(
            at,
            g,
            e,
            ({
                let own = t@.dims();
                let l = own[2] as int;
                kernels::sum_from(
                    <B::Scalar as Scalar>::zero_val(),
                    |m: int|
                        gs(
                            seq![
                                (m / l) as usize,
                                model::place(e, bias@.dims()) as usize,
                                (m % l) as usize,
                            ],
                        ),
                    (own[0] * l) as nat,
                )
            }),
        ),
{
    let own = t@.dims();
    let l = own[2] as int;
    let p = lemma_conv1d_parts(
        at,
        a,
        weight,
        Some(bias),
        stride,
        padding,
        t,
        grad,
        2,
        g,
        xs,
        ws,
        gs,
    );
    let data = conv::bias_grad_result(p.grad@, p.n as int, p.c_out as int, l);
    let bd = bias@.dims();
    model::lemma_uploaded(at, data, bd, bias@.dtype, bias@.device, g, e);
    let co = model::place(e, bd) as int;
    let given = |m: int|
        gs(
            seq![
                (m / l) as usize,
                model::place(e, bias@.dims()) as usize,
                (m % l) as usize,
            ],
        );
    let read = |m: int| conv::bias_term(p.grad@, p.c_out as int, l, co, m);
    let n = own[0] * l;
    assert forall|m: int| 0 <= m < n implies #[trigger] given(m) == read(m) by {
        kernels::lemma_table_split(m, own[0] as int, l);
        let o = seq![(m / l) as usize, co as usize, (m % l) as usize];
        assert(nd::in_bounds(o, own));
        windows::lemma_place3(o, own);
    }
    lemma_mul_nonnegative(own[0] as int, l);
    conv::lemma_sum_same(<B::Scalar as Scalar>::zero_val(), given, read, n as nat);
}

} // verus!
