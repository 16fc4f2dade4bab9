//! Convolution and pooling of tensors, element by element.
use crate::backend::Backend;
use crate::conv;
use crate::convolve;
use crate::dtype::DType;
use crate::elements;
use crate::elementwise;
use crate::error::{Error, Result};
use crate::host;
use crate::kernels::{self, Window};
use crate::lanes;
use crate::model;
use crate::nd;
use crate::op::Op;
use crate::scalar::Scalar;
use crate::tensor::{self, Tensor};
use vstd::arithmetic::div_mod::*;
use vstd::arithmetic::mul::*;
use vstd::prelude::*;

verus! {

/// The position of an index of four coordinates.
pub proof fn lemma_place4(i: Seq<usize>, d: Seq<usize>)
    requires
        nd::in_bounds(i, d),
        d.len() == 4,
        nd::product(d) <= usize::MAX,
    ensures
        model::place(i, d) == i[0] * (d[1] * (d[2] * d[3])) + (i[1] * (d[2] * d[3]) + (i[2] * d[3]
            + i[3])),
{
    model::lemma_place(i, d);
    lanes::lemma_place_is_ravel(i, d);
    let d1 = d.skip(1);
    let i1 = i.skip(1);
    lemma_place3_parts(i1, d1);
    assert(nd::product(d1) == d[1] * (d[2] * d[3]));
    assert(lanes::ravel(i, d) == i[0] as nat * nd::product(d1) + lanes::ravel(i1, d1));
}

proof fn lemma_place3_parts(i: Seq<usize>, d: Seq<usize>)
    requires
        i.len() == d.len(),
        d.len() == 3,
    ensures
        nd::product(d) == d[0] * (d[1] * d[2]),
        lanes::ravel(i, d) == i[0] * (d[1] * d[2]) + (i[1] * d[2] + i[2]),
{
    let d1 = d.skip(1);
    let i1 = i.skip(1);
    let d2 = d1.skip(1);
    let i2 = i1.skip(1);
    let d3 = d2.skip(1);
    let i3 = i2.skip(1);
    assert(nd::product(d3) == 1);
    assert(lanes::ravel(i3, d3) == 0);
    lemma_mul_basics(d[2] as int);
    lemma_mul_basics(i[2] as int);
    assert(nd::product(d2) == d[2]);
    assert(lanes::ravel(i2, d2) == i[2]);
    assert(nd::product(d1) == d[1] * d[2]);
    assert(lanes::ravel(i1, d1) == i[1] * d[2] + i[2]);
    assert(nd::product(d) == d[0] * (d[1] * d[2]));
}

/// The position of an index of three coordinates.
pub proof fn lemma_place3(i: Seq<usize>, d: Seq<usize>)
    requires
        nd::in_bounds(i, d),
        d.len() == 3,
        nd::product(d) <= usize::MAX,
    ensures
        model::place(i, d) == i[0] * (d[1] * d[2]) + (i[1] * d[2] + i[2]),
{
    model::lemma_place(i, d);
    lanes::lemma_place_is_ravel(i, d);
    lemma_place3_parts(i, d);
}

/// A window of size `k` that moves in steps over an axis with a border on both
/// sides stops at `n` places: the last is the last that lies on the axis and its
/// border.
pub open spec fn is_stop_count(n: int, size: int, k: int, stride: int, pad: int) -> bool {
    &&& n >= 1
    &&& (n - 1) * stride + k <= size + 2 * pad
    &&& size + 2 * pad < n * stride + k
}

pub proof fn lemma_stop_count(size: int, k: int, stride: int, pad: int)
    requires
        !convolve::too_small(size, k, pad),
        stride > 0,
    ensures
        is_stop_count(convolve::out_len(size, k, stride, pad), size, k, stride, pad),
{
    let room = size + 2 * pad - k;
    let q = room / stride;
    lemma_fundamental_div_mod(room, stride);
    lemma_mod_bound(room, stride);
    lemma_div_pos_is_pos(room, stride);
    assert(stride * q == q * stride) by (nonlinear_arith);
    assert((q + 1) * stride == q * stride + stride) by (nonlinear_arith);
}

/// A tensor around values that were computed on the host holds them in row-major
/// order.
pub proof fn lemma_computed<B: Backend>(
    at: spec_fn(B::Storage, nat) -> B::Scalar,
    data: Seq<B::Scalar>,
    dims: Seq<usize>,
    dtype: DType,
    device: B::Device,
    op: Op<B>,
    t: Tensor<B>,
)
    requires
        model::stores::<B>(at),
        convolve::computed_result(data, dims, dtype, device, op, Ok(t)),
        data.len() == nd::product(dims),
    ensures
        t@.dims() == dims,
        t@.op == op,
        nd::fits(dims),
        forall|i: Seq<usize>| #[trigger]
            nd::in_bounds(i, dims) ==> model::place(i, dims) < data.len() && elements::element_is(
                at,
                t,
                i,
                data[model::place(i, dims) as int],
            ),
{
    let made = choose|made: Result<B::Storage>| #[trigger]
        tensor::uploads::<B>(data, dtype, &device, made) && elementwise::stored_result(
            made,
            dims,
            dtype,
            device,
            op,
            Ok(t),
        );
    let s = made->Ok_0;
    let d = choose|d: &[B::Scalar]|
        d@ == data && #[trigger] call_ensures(B::from_f64_slice, (d, dtype, &device), made);
    assert forall|i: Seq<usize>| #[trigger] nd::in_bounds(i, dims) implies model::place(i, dims)
        < data.len() && elements::element_is(at, t, i, data[model::place(i, dims) as int]) by {
        model::lemma_place(i, dims);
        model::lemma_around_storage(at, t, s, i);
        let p = model::place(i, dims) as int;
        assert(d@[p] == at(s, p as nat));
    }
}

/// What is read at row `y` and column `x` of a plane with a border of zeros.
pub open spec fn bordered<S: Scalar>(
    xs: spec_fn(Seq<usize>) -> S,
    n: usize,
    c: int,
    y: int,
    x: int,
    h: usize,
    w: usize,
) -> S {
    if 0 <= y < h && 0 <= x < w {
        xs(seq![n, c as usize, y as usize, x as usize])
    } else {
        S::zero_val()
    }
}

/// An element of a list of convolved samples, by sample, channel, row and column:
/// over all planes, kernel rows and kernel columns the weight times the pixel that
/// it lies on, or zero in the border.
proof fn lemma_convolved_entry<S: Scalar>(
    input: Seq<S>,
    weight: Seq<S>,
    bias: Option<Seq<S>>,
    n: int,
    c_out: int,
    g: Window,
    ni: int,
    co: int,
    oh: int,
    ow: int,
    read: spec_fn(int, int, int) -> S,
    term: spec_fn(int) -> S,
)
    requires
        0 <= ni < n,
        0 <= co < c_out,
        0 <= oh < g.h_out,
        0 <= ow < g.w_out,
        forall|c: int, y: int, x: int|
            #![trigger read(c, y, x)]
            0 <= c < g.planes ==> read(c, y, x) == if 0 <= y < g.h && 0 <= x < g.w {
                input[ni * g.pixels() + (c * (g.h * g.w) + (y * g.w + x))]
            } else {
                S::zero_val()
            },
        forall|p: int|
            0 <= p < g.rows() ==> #[trigger] term(p) == weight[co * g.rows() + p].times(
                read(
                    p / g.taps(),
                    oh * g.sh + (p % g.taps()) / (g.kw as int) - g.ph,
                    ow * g.sw + (p % g.taps()) % (g.kw as int) - g.pw,
                ),
            ),
    ensures
        ({
            let x = ni * (c_out * g.stops()) + (co * g.stops() + (oh * g.w_out + ow));
            let sum = kernels::sum_from(S::zero_val(), term, g.rows() as nat);
            conv::conv_result(input, weight, bias, n, c_out, g)[x] == match bias {
                Some(b) => sum.plus(b[co]),
                None => sum,
            }
        }),
{
    let stops = g.stops();
    let block = c_out * stops;
    let j = oh * g.w_out + ow;
    kernels::lemma_table_index(oh, g.h_out as int, ow, g.w_out as int);
    kernels::lemma_table_index(co, c_out, j, stops);
    kernels::lemma_table_index(ni, n, co * stops + j, block);
    conv::lemma_counts(g);
    let own = |p: int| conv::conv_term(input, weight, g, ni * g.pixels(), co, j, p);
    assert forall|p: int| 0 <= p < g.rows() implies #[trigger] own(p) == term(p) by {
        kernels::lemma_table_index(p, g.rows(), j, stops);
        kernels::lemma_table_split(p, g.planes as int, g.taps());
        let c = p / g.taps();
        let y = oh * g.sh + (p % g.taps()) / (g.kw as int) - g.ph;
        let x = ow * g.sw + (p % g.taps()) % (g.kw as int) - g.pw;
        assert(read(c, y, x) == read(c, y, x));
        let q = p * stops + j;
        assert(q / stops == p && q % stops == j);
        assert(kernels::column_at(input, ni * g.pixels(), g, q) == read(c, y, x));
    }
    conv::lemma_sum_same(S::zero_val(), own, term, g.rows() as nat);
    let x = ni * block + (co * stops + j);
    assert(x / block == ni && x % block == co * stops + j);
    assert(conv::conv_sum(input, weight, g, ni * g.pixels(), co, j) == kernels::sum_from(
        S::zero_val(),
        own,
        g.rows() as nat,
    ));
}

/// The value that a bias adds for an output channel, if there is one.
pub open spec fn biased<B: Backend>(
    sum: B::Scalar,
    bias: Option<&Tensor<B>>,
    bs: spec_fn(Seq<usize>) -> B::Scalar,
    co: usize,
) -> B::Scalar {
    match bias {
        Some(b) => sum.plus(bs(nd::unravel(co as nat, b@.dims()))),
        None => sum,
    }
}

/// What is read of a bias that may be missing.
proof fn lemma_bias<B: Backend>(
    at: spec_fn(B::Storage, nat) -> B::Scalar,
    bias: Option<&Tensor<B>>,
    bs: spec_fn(Seq<usize>) -> B::Scalar,
    b: Option<Vec<B::Scalar>>,
    co: usize,
)
    requires
        model::stores::<B>(at),
        convolve::bias_values(convolve::optional_of(bias), Ok(b)),
        bias matches Some(t) ==> model::has(at, *t, bs) && nd::product(t@.dims()) <= usize::MAX,
        bias matches Some(t) ==> co < nd::product(t@.dims()),
    ensures
        forall|sum: B::Scalar|
            #[trigger] biased(sum, bias, bs, co) == match conv::optional_view(b) {
                Some(v) => sum.plus(v[co as int]),
                None => sum,
            },
{
    if let Some(t) = bias {
        let d = t@.dims();
        nd::lemma_count_fits(d);
        nd::lemma_ravel_of_unravel(co as nat, d);
        let i = nd::unravel(co as nat, d);
        assert(elements::element_is(at, *t, i, bs(i)));
        model::lemma_dense_values(at, *t, b->0, i, bs(i));
    }
}

/// The element of a 2D convolution at a sample, an output channel, a row and a
/// column: over the input channels, the rows and the columns of the kernel the
/// sum of each weight times the pixel below it, where the kernel lies `stride`
/// times the row and column from the corner of the border and the border holds
/// zeros; and the bias of the channel, if there is one.
pub open spec fn conv2d_element<B: Backend>(
    xs: spec_fn(Seq<usize>) -> B::Scalar,
    ws: spec_fn(Seq<usize>) -> B::Scalar,
    bias: Option<&Tensor<B>>,
    bs: spec_fn(Seq<usize>) -> B::Scalar,
    d: Seq<usize>,
    k: Seq<usize>,
    stride: [usize; 2],
    padding: [usize; 2],
    i: Seq<usize>,
) -> B::Scalar {
    let taps = k[2] * k[3];
    biased(
        kernels::sum_from(
            <B::Scalar as Scalar>::zero_val(),
            |p: int|
                {
                    let c = p / taps;
                    let ky = (p % taps) / (k[3] as int);
                    let kx = (p % taps) % (k[3] as int);
                    ws(seq![i[1], c as usize, ky as usize, kx as usize]).times(
                        bordered(
                            xs,
                            i[0],
                            c,
                            i[2] * stride@[0] + ky - padding@[0],
                            i[3] * stride@[1] + kx - padding@[1],
                            d[2],
                            d[3],
                        ),
                    )
                },
            (d[1] * taps) as nat,
        ),
        bias,
        bs,
        i[1],
    )
}

/// One element of a 2D convolution.
proof fn lemma_conv2d_entry<B: Backend>(
    at: spec_fn(B::Storage, nat) -> B::Scalar,
    a: Tensor<B>,
    weight: Tensor<B>,
    bias: Option<&Tensor<B>>,
    stride: [usize; 2],
    padding: [usize; 2],
    xs: spec_fn(Seq<usize>) -> B::Scalar,
    ws: spec_fn(Seq<usize>) -> B::Scalar,
    bs: spec_fn(Seq<usize>) -> B::Scalar,
    input: Vec<B::Scalar>,
    w: Vec<B::Scalar>,
    b: Option<Vec<B::Scalar>>,
    g: Window,
    own: Seq<usize>,
    i: Seq<usize>,
)
    requires
        model::stores::<B>(at),
        a@.dims().len() == 4,
        weight@.dims().len() == 4,
        weight@.dims()[1] == a@.dims()[1],
        g == convolve::window2(
            a@.dims()[1] as int,
            a@.dims()[2],
            a@.dims()[3],
            [weight@.dims()[2], weight@.dims()[3]],
            stride,
            padding,
        ),
        own == seq![a@.dims()[0], weight@.dims()[0], g.h_out, g.w_out],
        nd::product(own) <= usize::MAX,
        nd::in_bounds(i, own),
        model::has(at, a, xs),
        model::has(at, weight, ws),
        bias matches Some(b) ==> model::has(at, *b, bs) && nd::product(b@.dims()) <= usize::MAX,
        nd::product(a@.dims()) <= usize::MAX,
        nd::product(weight@.dims()) <= usize::MAX,
        host::dense_values_result(a, Ok(input)),
        host::dense_values_result(weight, Ok(w)),
        convolve::bias_values(convolve::optional_of(bias), Ok(b)),
        b matches Some(v) ==> v@.len() >= weight@.dims()[0],
    ensures
        conv::conv_result(
            input@,
            w@,
            conv::optional_view(b),
            a@.dims()[0] as int,
            weight@.dims()[0] as int,
            g,
        )[model::place(i, own) as int] == conv2d_element(
            xs,
            ws,
            bias,
            bs,
            a@.dims(),
            weight@.dims(),
            stride,
            padding,
            i,
        ),
{
    let d = a@.dims();
    let k = weight@.dims();
    let taps = k[2] * k[3];
    let size = [k[2], k[3]];
    assert(size@[0] == k[2] && size@[1] == k[3]);
    assert(i[0] < own[0] && i[1] < own[1] && i[2] < own[2] && i[3] < own[3]);
    lemma_place4(i, own);
    let read = |c: int, y: int, x: int| bordered(xs, i[0], c, y, x, d[2], d[3]);
    let term = |p: int|
        {
            let c = p / taps;
            let ky = (p % taps) / (k[3] as int);
            let kx = (p % taps) % (k[3] as int);
            ws(seq![i[1], c as usize, ky as usize, kx as usize]).times(
                bordered(
                    xs,
                    i[0],
                    c,
                    i[2] * stride@[0] + ky - padding@[0],
                    i[3] * stride@[1] + kx - padding@[1],
                    d[2],
                    d[3],
                ),
            )
        };
    assert forall|c: int, y: int, x: int|
        #![trigger read(c, y, x)]
        0 <= c < g.planes implies read(c, y, x) == (if 0 <= y < g.h && 0 <= x < g.w {
        input@[i[0] * g.pixels() + (c * (g.h * g.w) + (y * g.w + x))]
    } else {
        <B::Scalar as Scalar>::zero_val()
    }) by {
        if 0 <= y < g.h && 0 <= x < g.w {
            let j = seq![i[0], c as usize, y as usize, x as usize];
            assert(nd::in_bounds(j, d));
            assert(elements::element_is(at, a, j, xs(j)));
            model::lemma_dense_values(at, a, input, j, xs(j));
            lemma_place4(j, d);
        }
    }
    assert forall|p: int| 0 <= p < g.rows() implies #[trigger] term(p) == w@[i[1] * g.rows()
        + p].times(
        read(
            p / g.taps(),
            i[2] * g.sh + (p % g.taps()) / (g.kw as int) - g.ph,
            i[3] * g.sw + (p % g.taps()) % (g.kw as int) - g.pw,
        ),
    ) by {
        kernels::lemma_table_split(p, g.planes as int, g.taps());
        let c = p / taps;
        let m = p % taps;
        kernels::lemma_table_split(m, g.kh as int, g.kw as int);
        let j = seq![
            i[1],
            c as usize,
            (m / (k[3] as int)) as usize,
            (m % (k[3] as int)) as usize,
        ];
        assert(nd::in_bounds(j, k));
        assert(elements::element_is(at, weight, j, ws(j)));
        model::lemma_dense_values(at, weight, w, j, ws(j));
        lemma_place4(j, k);
    }
    lemma_convolved_entry(
        input@,
        w@,
        conv::optional_view(b),
        d[0] as int,
        k[0] as int,
        g,
        i[0] as int,
        i[1] as int,
        i[2] as int,
        i[3] as int,
        read,
        term,
    );
    lemma_bias(at, bias, bs, b, i[1]);
    let sum = kernels::sum_from(<B::Scalar as Scalar>::zero_val(), term, g.rows() as nat);
    assert(biased(sum, bias, bs, i[1]) == conv2d_element(
        xs,
        ws,
        bias,
        bs,
        d,
        k,
        stride,
        padding,
        i,
    ));
}

/// The lists that a convolution was computed of.
pub proof fn lemma_convolved_parts<B: Backend>(
    a: Tensor<B>,
    weight: Tensor<B>,
    bias: Option<&Tensor<B>>,
    g: Window,
    own: Seq<usize>,
    name: Seq<char>,
    op: Op<B>,
    t: Tensor<B>,
) -> (r: (Vec<B::Scalar>, Vec<B::Scalar>, Option<Vec<B::Scalar>>))
    requires
        convolve::convolved(a, weight, convolve::optional_of(bias), g, own, name, op, Ok(t)),
    ensures
        host::dense_values_result(a, Ok(r.0)),
        host::dense_values_result(weight, Ok(r.1)),
        convolve::bias_values(convolve::optional_of(bias), Ok(r.2)),
        r.2 matches Some(v) ==> v@.len() >= weight@.dims()[0],
        convolve::computed_result(
            conv::conv_result(
                r.0@,
                r.1@,
                conv::optional_view(r.2),
                a@.dims()[0] as int,
                weight@.dims()[0] as int,
                g,
            ),
            own,
            a@.dtype,
            a@.device,
            op,
            Ok(t),
        ),
{
    let n = a@.dims()[0] as int;
    let c_out = weight@.dims()[0] as int;
    let input = choose|input: Result<Vec<B::Scalar>>| #[trigger]
        host::dense_values_result(a, input) && (input matches Ok(input) && exists|
            w: Result<Vec<B::Scalar>>,
        | #[trigger]
            host::dense_values_result(weight, w) && (w matches Ok(w) && exists|
                b: Result<Option<Vec<B::Scalar>>>,
            | #[trigger]
                convolve::bias_values(convolve::optional_of(bias), b) && (b matches Ok(b) && !(b
                    is Some && b->0@.len() < c_out) && convolve::computed_result(
                    conv::conv_result(input@, w@, conv::optional_view(b), n, c_out, g),
                    own,
                    a@.dtype,
                    a@.device,
                    op,
                    Ok(t),
                ))));
    let input = input->Ok_0;
    let w = choose|w: Result<Vec<B::Scalar>>| #[trigger]
        host::dense_values_result(weight, w) && (w matches Ok(w) && exists|
            b: Result<Option<Vec<B::Scalar>>>,
        | #[trigger]
            convolve::bias_values(convolve::optional_of(bias), b) && (b matches Ok(b) && !(b is Some
                && b->0@.len() < c_out) && convolve::computed_result(
                conv::conv_result(input@, w@, conv::optional_view(b), n, c_out, g),
                own,
                a@.dtype,
                a@.device,
                op,
                Ok(t),
            )));
    let w = w->Ok_0;
    let b = choose|b: Result<Option<Vec<B::Scalar>>>| #[trigger]
        convolve::bias_values(convolve::optional_of(bias), b) && (b matches Ok(b) && !(b is Some
            && b->0@.len() < c_out) && convolve::computed_result(
            conv::conv_result(input@, w@, conv::optional_view(b), n, c_out, g),
            own,
            a@.dtype,
            a@.device,
            op,
            Ok(t),
        ));
    let b = b->Ok_0;
    (input, w, b)
}

/// A 2D convolution gives for each sample and output channel as many rows and
/// columns as the kernel has places on the padded input, and at each place the sum
/// of the weights times the pixels below them.
pub proof fn law_conv2d_elements<B: Backend>(
    at: spec_fn(B::Storage, nat) -> B::Scalar,
    a: Tensor<B>,
    weight: Tensor<B>,
    bias: Option<&Tensor<B>>,
    stride: [usize; 2],
    padding: [usize; 2],
    t: Tensor<B>,
    xs: spec_fn(Seq<usize>) -> B::Scalar,
    ws: spec_fn(Seq<usize>) -> B::Scalar,
    bs: spec_fn(Seq<usize>) -> B::Scalar,
)
    requires
        model::stores::<B>(at),
        call_ensures(
            Tensor::conv2d,
            (&a, &weight, bias, stride, padding),
            Ok::<Tensor<B>, Error>(t),
        ),
        stride@[0] > 0,
        stride@[1] > 0,
        model::has(at, a, xs),
        model::has(at, weight, ws),
        bias matches Some(b) ==> model::has(at, *b, bs) && nd::product(b@.dims()) <= usize::MAX,
        nd::product(a@.dims()) <= usize::MAX,
        nd::product(weight@.dims()) <= usize::MAX,
    ensures
        ({
            let d = a@.dims();
            let k = weight@.dims();
            let own = t@.dims();
            &&& d.len() == 4
            &&& k.len() == 4
            &&& k[1] == d[1]
            &&& own.len() == 4
            &&& own[0] == d[0]
            &&& own[1] == k[0]
            &&& is_stop_count(
                own[2] as int,
                d[2] as int,
                k[2] as int,
                stride@[0] as int,
                padding@[0] as int,
            )
            &&& is_stop_count(
                own[3] as int,
                d[3] as int,
                k[3] as int,
                stride@[1] as int,
                padding@[1] as int,
            )
            &&& model::has(
                at,
                t,
                |i: Seq<usize>| conv2d_element(xs, ws, bias, bs, d, k, stride, padding, i),
            )
        }),
{
    let d = a@.dims();
    let k = weight@.dims();
    let op = Op::Conv2d {
        input: a,
        weight,
        bias: convolve::optional_of(bias),
        stride,
        padding,
    };
    let h_out = convolve::out_len(d[2] as int, k[2] as int, stride@[0] as int, padding@[0] as int);
    let w_out = convolve::out_len(d[3] as int, k[3] as int, stride@[1] as int, padding@[1] as int);
    let g = convolve::window2(d[1] as int, d[2], d[3], [k[2], k[3]], stride, padding);
    let own = seq![d[0], k[0], h_out as usize, w_out as usize];
    lemma_stop_count(d[2] as int, k[2] as int, stride@[0] as int, padding@[0] as int);
    lemma_stop_count(d[3] as int, k[3] as int, stride@[1] as int, padding@[1] as int);
    let n = d[0] as int;
    let c_out = k[0] as int;
    let (input, w, b) = lemma_convolved_parts(a, weight, bias, g, own, "conv2d"@, op, t);
    let data = conv::conv_result(input@, w@, conv::optional_view(b), n, c_out, g);
    convolve::lemma_product4(own);
    conv::lemma_counts(g);
    lemma_mul_nonnegative(c_out, g.stops());
    lemma_mul_nonnegative(n, c_out * g.stops());
    lemma_computed(at, data, own, a@.dtype, a@.device, op, t);
    assert forall|i: Seq<usize>| #[trigger] nd::in_bounds(i, own) implies elements::element_is(
        at,
        t,
        i,
        conv2d_element(xs, ws, bias, bs, d, k, stride, padding, i),
    ) by {
        lemma_conv2d_entry(
            at,
            a,
            weight,
            bias,
            stride,
            padding,
            xs,
            ws,
            bs,
            input,
            w,
            b,
            g,
            own,
            i,
        );
    }
}

/// What is read at a place of a row with a border of zeros.
pub open spec fn bordered_row<S: Scalar>(
    xs: spec_fn(Seq<usize>) -> S,
    n: usize,
    c: int,
    x: int,
    l: usize,
) -> S {
    if 0 <= x < l {
        xs(seq![n, c as usize, x as usize])
    } else {
        S::zero_val()
    }
}

/// The element of a 1D convolution at a sample, an output channel and a place:
/// over the input channels and the taps of the kernel the sum of each weight times
/// the number below it, and the bias of the channel, if there is one.
pub open spec fn conv1d_element<B: Backend>(
    xs: spec_fn(Seq<usize>) -> B::Scalar,
    ws: spec_fn(Seq<usize>) -> B::Scalar,
    bias: Option<&Tensor<B>>,
    bs: spec_fn(Seq<usize>) -> B::Scalar,
    d: Seq<usize>,
    k: Seq<usize>,
    stride: usize,
    padding: usize,
    i: Seq<usize>,
) -> B::Scalar {
    biased(
        kernels::sum_from(
            <B::Scalar as Scalar>::zero_val(),
            |p: int|
                {
                    let c = p / (k[2] as int);
                    let m = p % (k[2] as int);
                    ws(seq![i[1], c as usize, m as usize]).times(
                        bordered_row(xs, i[0], c, i[2] * stride + m - padding, d[2]),
                    )
                },
            (d[1] * k[2]) as nat,
        ),
        bias,
        bs,
        i[1],
    )
}

/// One element of a 1D convolution.
proof fn lemma_conv1d_entry<B: Backend>(
    at: spec_fn(B::Storage, nat) -> B::Scalar,
    a: Tensor<B>,
    weight: Tensor<B>,
    bias: Option<&Tensor<B>>,
    stride: usize,
    padding: usize,
    xs: spec_fn(Seq<usize>) -> B::Scalar,
    ws: spec_fn(Seq<usize>) -> B::Scalar,
    bs: spec_fn(Seq<usize>) -> B::Scalar,
    input: Vec<B::Scalar>,
    w: Vec<B::Scalar>,
    b: Option<Vec<B::Scalar>>,
    g: Window,
    own: Seq<usize>,
    i: Seq<usize>,
)
    requires
        model::stores::<B>(at),
        a@.dims().len() == 3,
        weight@.dims().len() == 3,
        weight@.dims()[1] == a@.dims()[1],
        g == convolve::window1(a@.dims()[1], a@.dims()[2], weight@.dims()[2], stride, padding),
        own == seq![a@.dims()[0], weight@.dims()[0], g.w_out],
        nd::product(own) <= usize::MAX,
        nd::in_bounds(i, own),
        model::has(at, a, xs),
        model::has(at, weight, ws),
        bias matches Some(b) ==> model::has(at, *b, bs) && nd::product(b@.dims()) <= usize::MAX,
        nd::product(a@.dims()) <= usize::MAX,
        nd::product(weight@.dims()) <= usize::MAX,
        host::dense_values_result(a, Ok(input)),
        host::dense_values_result(weight, Ok(w)),
        convolve::bias_values(convolve::optional_of(bias), Ok(b)),
        b matches Some(v) ==> v@.len() >= weight@.dims()[0],
    ensures
        conv::conv_result(
            input@,
            w@,
            conv::optional_view(b),
            a@.dims()[0] as int,
            weight@.dims()[0] as int,
            g,
        )[model::place(i, own) as int] == conv1d_element(
            xs,
            ws,
            bias,
            bs,
            a@.dims(),
            weight@.dims(),
            stride,
            padding,
            i,
        ),
{
    let d = a@.dims();
    let k = weight@.dims();
    let taps = k[2] as int;
    lemma_mul_basics(taps);
    lemma_mul_basics(g.w_out as int);
    lemma_mul_basics(d[2] as int);
    assert(g.taps() == taps && g.stops() == g.w_out && g.h * g.w == d[2]);
    assert(i[0] < own[0] && i[1] < own[1] && i[2] < own[2]);
    lemma_place3(i, own);
    let read = |c: int, y: int, x: int|
        if y == 0 {
            bordered_row(xs, i[0], c, x, d[2])
        } else {
            <B::Scalar as Scalar>::zero_val()
        };
    let term = |p: int|
        {
            let c = p / (k[2] as int);
            let m = p % (k[2] as int);
            ws(seq![i[1], c as usize, m as usize]).times(
                bordered_row(xs, i[0], c, i[2] * stride + m - padding, d[2]),
            )
        };
    assert forall|c: int, y: int, x: int|
        #![trigger read(c, y, x)]
        0 <= c < g.planes implies read(c, y, x) == (if 0 <= y < g.h && 0 <= x < g.w {
        input@[i[0] * g.pixels() + (c * (g.h * g.w) + (y * g.w + x))]
    } else {
        <B::Scalar as Scalar>::zero_val()
    }) by {
        if 0 <= y < g.h && 0 <= x < g.w {
            let j = seq![i[0], c as usize, x as usize];
            assert(nd::in_bounds(j, d));
            assert(elements::element_is(at, a, j, xs(j)));
            model::lemma_dense_values(at, a, input, j, xs(j));
            lemma_place3(j, d);
            lemma_mul_basics(g.w as int);
        }
    }
    assert forall|p: int| 0 <= p < g.rows() implies #[trigger] term(p) == w@[i[1] * g.rows()
        + p].times(
        read(
            p / g.taps(),
            0 * g.sh + (p % g.taps()) / (g.kw as int) - g.ph,
            i[2] * g.sw + (p % g.taps()) % (g.kw as int) - g.pw,
        ),
    ) by {
        kernels::lemma_table_split(p, g.planes as int, g.taps());
        let c = p / taps;
        let m = p % taps;
        lemma_basic_div(m, taps);
        lemma_small_mod(m as nat, taps as nat);
        let j = seq![i[1], c as usize, m as usize];
        assert(nd::in_bounds(j, k));
        assert(elements::element_is(at, weight, j, ws(j)));
        model::lemma_dense_values(at, weight, w, j, ws(j));
        lemma_place3(j, k);
    }
    lemma_convolved_entry(
        input@,
        w@,
        conv::optional_view(b),
        d[0] as int,
        k[0] as int,
        g,
        i[0] as int,
        i[1] as int,
        0,
        i[2] as int,
        read,
        term,
    );
    lemma_bias(at, bias, bs, b, i[1]);
    let sum = kernels::sum_from(<B::Scalar as Scalar>::zero_val(), term, g.rows() as nat);
    assert(biased(sum, bias, bs, i[1]) == conv1d_element(
        xs,
        ws,
        bias,
        bs,
        d,
        k,
        stride,
        padding,
        i,
    ));
}

/// A 1D convolution gives for each sample and output channel as many numbers as
/// the kernel has places on the padded input, and at each place the sum of the
/// weights times the numbers below them.
pub proof fn law_conv1d_elements<B: Backend>(
    at: spec_fn(B::Storage, nat) -> B::Scalar,
    a: Tensor<B>,
    weight: Tensor<B>,
    bias: Option<&Tensor<B>>,
    stride: usize,
    padding: usize,
    t: Tensor<B>,
    xs: spec_fn(Seq<usize>) -> B::Scalar,
    ws: spec_fn(Seq<usize>) -> B::Scalar,
    bs: spec_fn(Seq<usize>) -> B::Scalar,
)
    requires
        model::stores::<B>(at),
        call_ensures(
            Tensor::conv1d,
            (&a, &weight, bias, stride, padding),
            Ok::<Tensor<B>, Error>(t),
        ),
        stride > 0,
        model::has(at, a, xs),
        model::has(at, weight, ws),
        bias matches Some(b) ==> model::has(at, *b, bs) && nd::product(b@.dims()) <= usize::MAX,
        nd::product(a@.dims()) <= usize::MAX,
        nd::product(weight@.dims()) <= usize::MAX,
    ensures
        ({
            let d = a@.dims();
            let k = weight@.dims();
            let own = t@.dims();
            &&& d.len() == 3
            &&& k.len() == 3
            &&& k[1] == d[1]
            &&& own.len() == 3
            &&& own[0] == d[0]
            &&& own[1] == k[0]
            &&& is_stop_count(
                own[2] as int,
                d[2] as int,
                k[2] as int,
                stride as int,
                padding as int,
            )
            &&& model::has(
                at,
                t,
                |i: Seq<usize>| conv1d_element(xs, ws, bias, bs, d, k, stride, padding, i),
            )
        }),
{
    let d = a@.dims();
    let k = weight@.dims();
    let op = Op::Conv1d {
        input: a,
        weight,
        bias: convolve::optional_of(bias),
        stride,
        padding,
    };
    let l_out = convolve::out_len(d[2] as int, k[2] as int, stride as int, padding as int);
    let g = convolve::window1(d[1], d[2], k[2], stride, padding);
    let own = seq![d[0], k[0], l_out as usize];
    lemma_stop_count(d[2] as int, k[2] as int, stride as int, padding as int);
    let (input, w, b) = lemma_convolved_parts(a, weight, bias, g, own, "conv1d"@, op, t);
    let n = d[0] as int;
    let c_out = k[0] as int;
    let data = conv::conv_result(input@, w@, conv::optional_view(b), n, c_out, g);
    convolve::lemma_product3(own);
    lemma_mul_basics(g.w_out as int);
    conv::lemma_counts(g);
    lemma_mul_nonnegative(c_out, g.stops());
    lemma_mul_nonnegative(n, c_out * g.stops());
    lemma_computed(at, data, own, a@.dtype, a@.device, op, t);
    assert forall|i: Seq<usize>| #[trigger] nd::in_bounds(i, own) implies elements::element_is(
        at,
        t,
        i,
        conv1d_element(xs, ws, bias, bs, d, k, stride, padding, i),
    ) by {
        lemma_conv1d_entry(
            at,
            a,
            weight,
            bias,
            stride,
            padding,
            xs,
            ws,
            bs,
            input,
            w,
            b,
            g,
            own,
            i,
        );
    }
}

} // verus!
