//! Pooling of tensors and its gradients, element by element.
use crate::backend::Backend;
use crate::contributions;
use crate::conv;
use crate::conv_rules;
use crate::convolve;
use crate::elements;
use crate::error::{Error, Result};
use crate::host;
use crate::kernels::{self, Window};
use crate::model;
use crate::nd;
use crate::op::Op;
use crate::rules;
use crate::scalar::{self, Scalar};
use crate::selection;
use crate::tensor::Tensor;
use crate::windows;
use vstd::arithmetic::mul::*;
use vstd::prelude::*;

verus! {

/// The element of the input [N, C, H, W] that tap `m` of a kernel of `kw` columns
/// lies on for an element of the output, if it is not in the border.
pub open spec fn under(
    d: Seq<usize>,
    kw: usize,
    stride: [usize; 2],
    padding: [usize; 2],
    i: Seq<usize>,
    m: int,
) -> Option<Seq<usize>> {
    let y = i[2] * stride@[0] + m / (kw as int) - padding@[0];
    let x = i[3] * stride@[1] + m % (kw as int) - padding@[1];
    if 0 <= y < d[2] && 0 <= x < d[3] {
        Some(seq![i[0], i[1], y as usize, x as usize])
    } else {
        None
    }
}

/// What a tap reads at an output is the element below it.
proof fn lemma_tapped(
    d: Seq<usize>,
    k: [usize; 2],
    stride: [usize; 2],
    padding: [usize; 2],
    g: Window,
    own: Seq<usize>,
    i: Seq<usize>,
    m: int,
)
    requires
        d.len() == 4,
        g == convolve::window2(d[0] * d[1], d[2], d[3], k, stride, padding),
        d[0] * d[1] <= usize::MAX,
        own == seq![d[0], d[1], g.h_out, g.w_out],
        nd::product(own) <= usize::MAX,
        nd::product(d) <= usize::MAX,
        nd::in_bounds(i, own),
        0 <= m < g.taps(),
    ensures
        0 <= model::place(i, own) < g.planes * g.stops(),
        under(d, k@[1], stride, padding, i, m) matches Some(j) ==> nd::in_bounds(j, d),
        conv::tapped(g, model::place(i, own) as int, m) == match under(
            d,
            k@[1],
            stride,
            padding,
            i,
            m,
        ) {
            Some(j) => Some(model::place(j, d) as int),
            None => None,
        },
{
    assert(i[0] < own[0] && i[1] < own[1] && i[2] < own[2] && i[3] < own[3]);
    let stops = g.stops();
    windows::lemma_place4(i, own);
    kernels::lemma_table_index(i[2] as int, g.h_out as int, i[3] as int, g.w_out as int);
    let j = i[2] * g.w_out + i[3];
    kernels::lemma_table_index(i[0] as int, d[0] as int, i[1] as int, d[1] as int);
    let plane = i[0] * d[1] + i[1];
    lemma_mul_nonnegative(d[0] as int, d[1] as int);
    assert(g.planes == d[0] * d[1]);
    kernels::lemma_table_index(plane, g.planes as int, j, stops);
    let c = d[1] as int;
    let n = i[0] as int;
    let ch = i[1] as int;
    assert(n * (c * stops) + (ch * stops + j) == (n * c + ch) * stops + j) by (nonlinear_arith);
    if let Some(e) = under(d, k@[1], stride, padding, i, m) {
        windows::lemma_place4(e, d);
        let area = d[2] * d[3];
        let rest = e[2] * d[3] + e[3];
        assert(n * (c * area) + (ch * area + rest) == (n * c + ch) * area + rest)
            by (nonlinear_arith);
    }
}

/// The window and the values of a pooling.
pub open spec fn pools<B: Backend>(
    a: Tensor<B>,
    k: [usize; 2],
    stride: [usize; 2],
    padding: [usize; 2],
    g: Window,
    v: Vec<B::Scalar>,
) -> bool {
    let d = a@.dims();
    &&& d.len() == 4
    &&& g == convolve::window2(d[0] * d[1], d[2], d[3], k, stride, padding)
    &&& d[0] * d[1] <= usize::MAX
    &&& d[0] * d[1] * g.stops() <= usize::MAX
    &&& g.planes == d[0] * d[1]
    &&& host::dense_values_result(a, Ok(v))
}

/// The sizes of the output of a pooling: the samples and channels of the input,
/// and as many rows and columns as the kernel has places on the padded input.
pub open spec fn pooled_sizes(
    d: Seq<usize>,
    k: [usize; 2],
    stride: [usize; 2],
    padding: [usize; 2],
    own: Seq<usize>,
) -> bool {
    &&& d.len() == 4
    &&& own.len() == 4
    &&& own[0] == d[0]
    &&& own[1] == d[1]
    &&& windows::is_stop_count(
        own[2] as int,
        d[2] as int,
        k@[0] as int,
        stride@[0] as int,
        padding@[0] as int,
    )
    &&& windows::is_stop_count(
        own[3] as int,
        d[3] as int,
        k@[1] as int,
        stride@[1] as int,
        padding@[1] as int,
    )
}

/// The pixels of the padded input that lie under the kernel for one output have
/// the number `v` as their largest, found first at `position`: no pixel is larger,
/// and it is one of them, the earlier ones being smaller. (Where no pixel is above
/// the lowest number, it is that number, at position 0.)
pub open spec fn is_peak<S: Scalar>(
    xs: spec_fn(Seq<usize>) -> S,
    d: Seq<usize>,
    k: [usize; 2],
    stride: [usize; 2],
    padding: [usize; 2],
    i: Seq<usize>,
    v: S,
    position: int,
) -> bool {
    let taps = k@[0] * k@[1];
    &&& forall|m: int|
        0 <= m < taps ==> (#[trigger] under(d, k@[1], stride, padding, i, m) matches Some(j)
            ==> !v.below(xs(j)))
    &&& {
        ||| exists|m: int|
            0 <= m < taps && (#[trigger] under(d, k@[1], stride, padding, i, m) matches Some(j) && v
                == xs(j) && position == model::place(j, d) && forall|l: int|
                0 <= l < m ==> (#[trigger] under(d, k@[1], stride, padding, i, l) matches Some(e)
                    ==> xs(e).below(v)))
        ||| {
            &&& v == S::bottom()
            &&& position == 0
            &&& forall|m: int|
                0 <= m < taps ==> (#[trigger] under(d, k@[1], stride, padding, i, m) matches Some(j)
                    ==> !S::bottom().below(xs(j)))
        }
    }
}

/// One element of max-pooling.
proof fn lemma_peak<B: Backend>(
    at: spec_fn(B::Storage, nat) -> B::Scalar,
    a: Tensor<B>,
    k: [usize; 2],
    stride: [usize; 2],
    padding: [usize; 2],
    g: Window,
    v: Vec<B::Scalar>,
    xs: spec_fn(Seq<usize>) -> B::Scalar,
    own: Seq<usize>,
    i: Seq<usize>,
)
    requires
        model::stores::<B>(at),
        scalar::orders::<B::Scalar>(),
        scalar::bounded::<B::Scalar>(),
        pools(a, k, stride, padding, g, v),
        model::has(at, a, xs),
        nd::product(a@.dims()) <= usize::MAX,
        own == seq![a@.dims()[0], a@.dims()[1], g.h_out, g.w_out],
        nd::product(own) <= usize::MAX,
        nd::in_bounds(i, own),
    ensures
        ({
            let best = conv::largest_of(v@, g, model::place(i, own) as int, g.taps() as nat);
            &&& 0 <= best.1 <= usize::MAX
            &&& is_peak(xs, a@.dims(), k, stride, padding, i, best.0, best.1)
        }),
{
    let d = a@.dims();
    let x = model::place(i, own) as int;
    let taps = g.taps();
    conv::lemma_counts(g);
    let best = conv::largest_of(v@, g, x, taps as nat);
    conv::law_largest_is_maximum(v@, g, x, taps as nat);
    assert forall|m: int| 0 <= m < taps implies (#[trigger] under(
        d,
        k@[1],
        stride,
        padding,
        i,
        m,
    ) matches Some(j) ==> conv::tapped(g, x, m) == Some(model::place(j, d) as int)
        && model::place(j, d) <= usize::MAX && v@[model::place(j, d) as int] == xs(j)) && (under(
        d,
        k@[1],
        stride,
        padding,
        i,
        m,
    ) is None ==> conv::tapped(g, x, m) is None) by {
        lemma_tapped(d, k, stride, padding, g, own, i, m);
        if let Some(j) = under(d, k@[1], stride, padding, i, m) {
            assert(elements::element_is(at, a, j, xs(j)));
            model::lemma_dense_values(at, a, v, j, xs(j));
        }
    }
    if conv::all_lowest(v@, g, x, taps as nat) {
        assert forall|m: int| 0 <= m < taps implies (#[trigger] under(
            d,
            k@[1],
            stride,
            padding,
            i,
            m,
        ) matches Some(j) ==> !<B::Scalar as Scalar>::bottom().below(xs(j))) by {
            assert(conv::tapped(g, x, m) is Some || conv::tapped(g, x, m) is None);
        }
    } else {
        let m = choose|m: int|
            #[trigger] conv::first_largest(v@, g, x, taps as nat, m) && conv::tapped(g, x, m)
                == Some(best.1) && best.0 == v@[best.1];
        assert(under(d, k@[1], stride, padding, i, m) is Some);
        let j = under(d, k@[1], stride, padding, i, m)->0;
        assert forall|l: int| 0 <= l < m implies (#[trigger] under(
            d,
            k@[1],
            stride,
            padding,
            i,
            l,
        ) matches Some(e) ==> xs(e).below(best.0)) by {
            assert(conv::tapped(g, x, l) is Some || conv::tapped(g, x, l) is None);
        }
        assert(best.0 == xs(j) && best.1 == model::place(j, d));
    }
}

/// Max-pooling gives at each place of the kernel the largest of the pixels below
/// it and records the position of the first of these, if numbers are ordered and
/// have a lowest one.
pub proof fn law_max_pool2d_elements<B: Backend>(
    at: spec_fn(B::Storage, nat) -> B::Scalar,
    a: Tensor<B>,
    k: [usize; 2],
    stride: [usize; 2],
    padding: [usize; 2],
    t: Tensor<B>,
    xs: spec_fn(Seq<usize>) -> B::Scalar,
) -> (r: (spec_fn(Seq<usize>) -> B::Scalar, Seq<usize>))
    requires
        model::stores::<B>(at),
        scalar::orders::<B::Scalar>(),
        scalar::bounded::<B::Scalar>(),
        call_ensures(Tensor::max_pool2d, (&a, k, stride, padding), Ok::<Tensor<B>, Error>(t)),
        stride@[0] > 0,
        stride@[1] > 0,
        model::has(at, a, xs),
        nd::product(a@.dims()) <= usize::MAX,
        nd::product(t@.dims()) <= usize::MAX,
    ensures
        pooled_sizes(a@.dims(), k, stride, padding, t@.dims()),
        model::has(at, t, r.0),
        t@.op matches Op::MaxPool2d { input, indices, .. } && input == a && indices@ == r.1,
        r.1.len() == nd::product(t@.dims()),
        forall|i: Seq<usize>| #[trigger]
            nd::in_bounds(i, t@.dims()) ==> is_peak(
                xs,
                a@.dims(),
                k,
                stride,
                padding,
                i,
                (r.0)(i),
                r.1[model::place(i, t@.dims()) as int] as int,
            ),
{
    let d = a@.dims();
    let g = choose|g: Result<Window>| #[trigger]
        convolve::pool_window(a, k, stride, padding, "max_pool2d"@, g) && (g matches Ok(g)
            && exists|v: Result<Vec<B::Scalar>>| #[trigger]
            host::dense_values_result(a, v) && (v matches Ok(v) && exists|op: Op<B>| #[trigger]
                convolve::is_max_pool_of(
                    op,
                    a,
                    k,
                    stride,
                    padding,
                    convolve::largest_places(v@, g),
                ) && convolve::computed_result(
                    convolve::largest_values(v@, g),
                    seq![d[0], d[1], g.h_out, g.w_out],
                    a@.dtype,
                    a@.device,
                    op,
                    Ok(t),
                )));
    let g = g->Ok_0;
    let own = seq![d[0], d[1], g.h_out, g.w_out];
    let v = choose|v: Result<Vec<B::Scalar>>| #[trigger]
        host::dense_values_result(a, v) && (v matches Ok(v) && exists|op: Op<B>| #[trigger]
            convolve::is_max_pool_of(op, a, k, stride, padding, convolve::largest_places(v@, g))
                && convolve::computed_result(
                convolve::largest_values(v@, g),
                own,
                a@.dtype,
                a@.device,
                op,
                Ok(t),
            ));
    let v = v->Ok_0;
    let op = choose|op: Op<B>| #[trigger]
        convolve::is_max_pool_of(op, a, k, stride, padding, convolve::largest_places(v@, g))
            && convolve::computed_result(
            convolve::largest_values(v@, g),
            own,
            a@.dtype,
            a@.device,
            op,
            Ok(t),
        );
    let data = convolve::largest_values(v@, g);
    let places = convolve::largest_places(v@, g);
    lemma_pool_count(d, g, own);
    windows::lemma_stop_count(d[2] as int, k@[0] as int, stride@[0] as int, padding@[0] as int);
    windows::lemma_stop_count(d[3] as int, k@[1] as int, stride@[1] as int, padding@[1] as int);
    lemma_mul_nonnegative(d[0] as int, d[1] as int);
    windows::lemma_computed(at, data, own, a@.dtype, a@.device, op, t);
    let ts = |i: Seq<usize>| data[model::place(i, own) as int];
    assert forall|i: Seq<usize>| #[trigger] nd::in_bounds(i, own) implies elements::element_is(
        at,
        t,
        i,
        ts(i),
    ) && is_peak(
        xs,
        d,
        k,
        stride,
        padding,
        i,
        ts(i),
        places[model::place(i, own) as int] as int,
    ) by {
        lemma_peak(at, a, k, stride, padding, g, v, xs, own, i);
    }
    (ts, places)
}

/// A pooling has one output for each plane and stop.
proof fn lemma_pool_count(d: Seq<usize>, g: Window, own: Seq<usize>)
    requires
        d.len() == 4,
        g.planes == d[0] * d[1],
        own == seq![d[0], d[1], g.h_out, g.w_out],
    ensures
        nd::product(own) == g.planes * g.stops(),
        g.planes * g.stops() >= 0,
        g.stops() >= 0,
{
    convolve::lemma_product4(own);
    conv::lemma_counts(g);
    lemma_mul_nonnegative(g.planes as int, g.stops());
    lemma_mul_is_associative(d[0] as int, d[1] as int, g.stops());
}

/// The number of the first `n` taps that do not lie in the border.
pub open spec fn covered(
    d: Seq<usize>,
    kw: usize,
    stride: [usize; 2],
    padding: [usize; 2],
    i: Seq<usize>,
    n: nat,
) -> nat
    decreases n,
{
    if n == 0 {
        0
    } else if under(d, kw, stride, padding, i, n - 1) is Some {
        covered(d, kw, stride, padding, i, (n - 1) as nat) + 1
    } else {
        covered(d, kw, stride, padding, i, (n - 1) as nat)
    }
}

/// The element of average-pooling: the sum of the pixels below the kernel over
/// their number, or zero if there are none.
pub open spec fn pooled_mean<S: Scalar>(
    xs: spec_fn(Seq<usize>) -> S,
    d: Seq<usize>,
    k: [usize; 2],
    stride: [usize; 2],
    padding: [usize; 2],
    i: Seq<usize>,
) -> S {
    let taps = (k@[0] * k@[1]) as nat;
    let count = covered(d, k@[1], stride, padding, i, taps);
    if count > 0 {
        selection::sum_where(
            |m: int| under(d, k@[1], stride, padding, i, m) is Some,
            |m: int| xs(under(d, k@[1], stride, padding, i, m)->0),
            taps,
        ).over(S::of_count(count as usize))
    } else {
        S::zero_val()
    }
}

/// The sum and the number of the pixels below the first taps.
proof fn lemma_pool_total<B: Backend>(
    at: spec_fn(B::Storage, nat) -> B::Scalar,
    a: Tensor<B>,
    k: [usize; 2],
    stride: [usize; 2],
    padding: [usize; 2],
    g: Window,
    v: Vec<B::Scalar>,
    xs: spec_fn(Seq<usize>) -> B::Scalar,
    own: Seq<usize>,
    i: Seq<usize>,
    n: nat,
)
    requires
        model::stores::<B>(at),
        pools(a, k, stride, padding, g, v),
        model::has(at, a, xs),
        nd::product(a@.dims()) <= usize::MAX,
        own == seq![a@.dims()[0], a@.dims()[1], g.h_out, g.w_out],
        nd::product(own) <= usize::MAX,
        nd::in_bounds(i, own),
        n <= g.taps(),
    ensures
        conv::total_of(v@, g, model::place(i, own) as int, n) == (
            selection::sum_where(
                |m: int| under(a@.dims(), k@[1], stride, padding, i, m) is Some,
                |m: int| xs(under(a@.dims(), k@[1], stride, padding, i, m)->0),
                n,
            ),
            covered(a@.dims(), k@[1], stride, padding, i, n),
        ),
    decreases n,
{
    let d = a@.dims();
    if n > 0 {
        lemma_pool_total(at, a, k, stride, padding, g, v, xs, own, i, (n - 1) as nat);
        lemma_tapped(d, k, stride, padding, g, own, i, n - 1);
        if let Some(j) = under(d, k@[1], stride, padding, i, n - 1) {
            assert(elements::element_is(at, a, j, xs(j)));
            model::lemma_dense_values(at, a, v, j, xs(j));
        }
    }
}

/// The numbers of taps that are not in the border agree.
proof fn lemma_covered(
    d: Seq<usize>,
    k: [usize; 2],
    stride: [usize; 2],
    padding: [usize; 2],
    g: Window,
    own: Seq<usize>,
    i: Seq<usize>,
    n: nat,
)
    requires
        d.len() == 4,
        g == convolve::window2(d[0] * d[1], d[2], d[3], k, stride, padding),
        d[0] * d[1] <= usize::MAX,
        own == seq![d[0], d[1], g.h_out, g.w_out],
        nd::product(own) <= usize::MAX,
        nd::product(d) <= usize::MAX,
        nd::in_bounds(i, own),
        n <= g.taps(),
    ensures
        conv::taps_inside(g, model::place(i, own) as int, n) == covered(
            d,
            k@[1],
            stride,
            padding,
            i,
            n,
        ),
    decreases n,
{
    if n > 0 {
        lemma_covered(d, k, stride, padding, g, own, i, (n - 1) as nat);
        lemma_tapped(d, k, stride, padding, g, own, i, n - 1);
    }
}

/// Average-pooling gives at each place of the kernel the mean of the pixels below
/// it. The border does not count.
pub proof fn law_avg_pool2d_elements<B: Backend>(
    at: spec_fn(B::Storage, nat) -> B::Scalar,
    a: Tensor<B>,
    k: [usize; 2],
    stride: [usize; 2],
    padding: [usize; 2],
    t: Tensor<B>,
    xs: spec_fn(Seq<usize>) -> B::Scalar,
)
    requires
        model::stores::<B>(at),
        call_ensures(Tensor::avg_pool2d, (&a, k, stride, padding), Ok::<Tensor<B>, Error>(t)),
        stride@[0] > 0,
        stride@[1] > 0,
        model::has(at, a, xs),
        nd::product(a@.dims()) <= usize::MAX,
        nd::product(t@.dims()) <= usize::MAX,
    ensures
        pooled_sizes(a@.dims(), k, stride, padding, t@.dims()),
        model::has(
            at,
            t,
            |i: Seq<usize>| pooled_mean(xs, a@.dims(), k, stride, padding, i),
        ),
{
    let d = a@.dims();
    let op = Op::AvgPool2d { input: a, kernel_size: k, stride, padding };
    let g = choose|g: Result<Window>| #[trigger]
        convolve::pool_window(a, k, stride, padding, "avg_pool2d"@, g) && (g matches Ok(g)
            && exists|v: Result<Vec<B::Scalar>>| #[trigger]
            host::dense_values_result(a, v) && (v matches Ok(v) && convolve::computed_result(
                convolve::mean_values(v@, g),
                seq![d[0], d[1], g.h_out, g.w_out],
                a@.dtype,
                a@.device,
                op,
                Ok(t),
            )));
    let g = g->Ok_0;
    let own = seq![d[0], d[1], g.h_out, g.w_out];
    let v = choose|v: Result<Vec<B::Scalar>>| #[trigger]
        host::dense_values_result(a, v) && (v matches Ok(v) && convolve::computed_result(
            convolve::mean_values(v@, g),
            own,
            a@.dtype,
            a@.device,
            op,
            Ok(t),
        ));
    let v = v->Ok_0;
    let data = convolve::mean_values(v@, g);
    lemma_mul_nonnegative(d[0] as int, d[1] as int);
    lemma_pool_count(d, g, own);
    windows::lemma_stop_count(d[2] as int, k@[0] as int, stride@[0] as int, padding@[0] as int);
    windows::lemma_stop_count(d[3] as int, k@[1] as int, stride@[1] as int, padding@[1] as int);
    windows::lemma_computed(at, data, own, a@.dtype, a@.device, op, t);
    conv::lemma_counts(g);
    assert forall|i: Seq<usize>| #[trigger] nd::in_bounds(i, own) implies elements::element_is(
        at,
        t,
        i,
        pooled_mean(xs, d, k, stride, padding, i),
    ) by {
        lemma_pool_total(at, a, k, stride, padding, g, v, xs, own, i, g.taps() as nat);
    }
}

/// The gradient of an element of the input of max-pooling is the sum of the
/// gradients of exactly those outputs whose largest pixel it was.
pub proof fn law_max_pool2d_gradient<B: Backend>(
    at: spec_fn(B::Storage, nat) -> B::Scalar,
    a: Tensor<B>,
    k: [usize; 2],
    stride: [usize; 2],
    padding: [usize; 2],
    t: Tensor<B>,
    grad: Tensor<B>,
    g: Tensor<B>,
    gs: spec_fn(Seq<usize>) -> B::Scalar,
    places: Seq<usize>,
    e: Seq<usize>,
)
    requires
        model::stores::<B>(at),
        call_ensures(Tensor::max_pool2d, (&a, k, stride, padding), Ok::<Tensor<B>, Error>(t)),
        t@.op matches Op::MaxPool2d { indices, .. } && indices@ == places,
        places.len() == nd::product(t@.dims()),
        contributions::contribution(t@.op, grad, 0, g),
        grad@.dims() == t@.dims(),
        model::has(at, grad, gs),
        nd::product(t@.dims()) <= usize::MAX,
        nd::in_bounds(e, a@.dims()),
    ensures
        contributions::used(t@.op) == seq![a],
        g@.dims() == a@.dims(),
        elements::element_is(
            at,
            g,
            e,
            selection::sum_where(
                |o: int| places[o] == model::place(e, a@.dims()),
                |o: int| gs(nd::unravel(o as nat, t@.dims())),
                nd::product(t@.dims()),
            ),
        ),
{
    let d = a@.dims();
    let own = t@.dims();
    let n = nd::product(own);
    assert(t@.op matches Op::MaxPool2d { input, .. } && input == a) by {
        lemma_max_pool_record(a, k, stride, padding, t);
    }
    assert(contributions::used(t@.op) =~= seq![a]);
    assert(conv_rules::max_pool_rule(grad, a, places, Ok(g)));
    let v = choose|v: Result<Vec<B::Scalar>>| #[trigger]
        host::dense_values_result(grad, v) && (v matches Ok(v) && rules::uploaded_like(
            conv::max_pool_grad_result(v@, places, nd::product(d)),
            a,
            Ok(g),
        ));
    let v = v->Ok_0;
    let data = conv::max_pool_grad_result(v@, places, nd::product(d));
    model::lemma_uploaded(at, data, d, a@.dtype, a@.device, g, e);
    let place = model::place(e, d) as int;
    model::lemma_place(e, d);
    let to = |o: int| conv::max_target(places, nd::product(d) as int, v@.len() as int, o);
    let val = |o: int| v@[o];
    let chosen = |o: int| places[o] == model::place(e, d);
    let f = |o: int| gs(nd::unravel(o as nat, own));
    assert forall|o: int| 0 <= o < n implies {
        &&& (#[trigger] chosen(o) <==> to(o) == Some(place))
        &&& val(o) == f(o)
    } by {
        let p = nd::unravel(o as nat, own);
        selection::lemma_unravelled(o as nat, own);
        assert(elements::element_is(at, grad, p, gs(p)));
        model::lemma_dense_values(at, grad, v, p, gs(p));
    }
    selection::lemma_scattered(nd::product(d), to, val, chosen, f, n, place);
    assert(data =~= kernels::scatter_add(
        kernels::zeros_of::<B::Scalar>(nd::product(d)),
        to,
        val,
        n,
    ));
}

/// The record of max-pooling names its input.
proof fn lemma_max_pool_record<B: Backend>(
    a: Tensor<B>,
    k: [usize; 2],
    stride: [usize; 2],
    padding: [usize; 2],
    t: Tensor<B>,
)
    requires
        call_ensures(Tensor::max_pool2d, (&a, k, stride, padding), Ok::<Tensor<B>, Error>(t)),
    ensures
        t@.op matches Op::MaxPool2d { input, .. } && input == a,
{
    assert(convolve::max_pool2d_result(a, k, stride, padding, Ok(t)));
}

/// The gradient of an element of the input of average-pooling is the sum over the
/// outputs below whose kernel it lies, for each tap on it the gradient of the
/// output over the number of pixels that it is the mean of.
pub proof fn law_avg_pool2d_gradient<B: Backend>(
    at: spec_fn(B::Storage, nat) -> B::Scalar,
    a: Tensor<B>,
    k: [usize; 2],
    stride: [usize; 2],
    padding: [usize; 2],
    t: Tensor<B>,
    grad: Tensor<B>,
    g: Tensor<B>,
    gs: spec_fn(Seq<usize>) -> B::Scalar,
    e: Seq<usize>,
)
    requires
        model::stores::<B>(at),
        call_ensures(Tensor::avg_pool2d, (&a, k, stride, padding), Ok::<Tensor<B>, Error>(t)),
        stride@[0] > 0,
        stride@[1] > 0,
        contributions::contribution(t@.op, grad, 0, g),
        grad@.dims() == t@.dims(),
        model::has(at, grad, gs),
        nd::product(a@.dims()) <= usize::MAX,
        nd::product(t@.dims()) <= usize::MAX,
        nd::in_bounds(e, a@.dims()),
    ensures
        contributions::used(t@.op) == seq![a],
        g@.dims() == a@.dims(),
        elements::element_is(
            at,
            g,
            e,
            ({
                let d = a@.dims();
                let own = t@.dims();
                let taps = k@[0] * k@[1];
                selection::sum_where(
                    |q: int|
                        under(
                            d,
                            k@[1],
                            stride,
                            padding,
                            nd::unravel((q / taps) as nat, own),
                            q % taps,
                        ) == Some(e),
                    |q: int|
                        {
                            let i = nd::unravel((q / taps) as nat, own);
                            let count = covered(d, k@[1], stride, padding, i, taps as nat);
                            gs(i).times(
                                <B::Scalar as Scalar>::one_val().over(
                                    <B::Scalar as Scalar>::of_count(count as usize),
                                ),
                            )
                        },
                    (nd::product(own) * taps) as nat,
                )
            }),
        ),
{
    let d = a@.dims();
    let own = t@.dims();
    let taps = k@[0] * k@[1];
    assert(convolve::avg_pool2d_result(a, k, stride, padding, Ok(t)));
    assert(t@.op == Op::AvgPool2d { input: a, kernel_size: k, stride, padding });
    assert(contributions::used(t@.op) =~= seq![a]);
    assert(conv_rules::avg_pool_rule(grad, a, k, stride, padding, Ok(g)));
    let w = convolve::window2(d[0] * d[1], d[2], d[3], k, stride, padding);
    lemma_mul_nonnegative(d[0] as int, d[1] as int);
    assert(own =~= seq![d[0], d[1], w.h_out, w.w_out]);
    lemma_pool_count(d, w, own);
    let outputs = w.planes * w.stops();
    let v = choose|v: Result<Vec<B::Scalar>>| #[trigger]
        host::dense_values_result(grad, v) && (v matches Ok(v) && v@.len() >= outputs
            && rules::uploaded_like(
            conv::avg_pool_grad_result(v@.take(outputs), w),
            a,
            Ok(g),
        ));
    let v = v->Ok_0;
    let list = v@.take(outputs);
    let data = conv::avg_pool_grad_result(list, w);
    model::lemma_uploaded(at, data, d, a@.dtype, a@.device, g, e);
    model::lemma_place(e, d);
    conv::lemma_counts(w);
    let place = model::place(e, d) as int;
    let n = (outputs * taps) as nat;
    lemma_mul_nonnegative(outputs, taps);
    let to = |m: int|
        w.pixel((m / w.taps()) / w.stops(), m % w.taps(), (m / w.taps()) % w.stops());
    let val = |m: int| conv::share_of(list, w, m / w.taps());
    let chosen = |q: int|
        under(d, k@[1], stride, padding, nd::unravel((q / taps) as nat, own), q % taps) == Some(e);
    let f = |q: int|
        {
            let i = nd::unravel((q / taps) as nat, own);
            let count = covered(d, k@[1], stride, padding, i, taps as nat);
            gs(i).times(
                <B::Scalar as Scalar>::one_val().over(
                    <B::Scalar as Scalar>::of_count(count as usize),
                ),
            )
        };
    assert forall|q: int| 0 <= q < n implies {
        &&& (#[trigger] chosen(q) <==> to(q) == Some(place))
        &&& val(q) == f(q)
    } by {
        kernels::lemma_table_split(q, outputs, taps);
        let o = q / taps;
        let m = q % taps;
        let i = nd::unravel(o as nat, own);
        selection::lemma_unravelled(o as nat, own);
        assert(elements::element_is(at, grad, i, gs(i)));
        model::lemma_dense_values(at, grad, v, i, gs(i));
        lemma_tapped(d, k, stride, padding, w, own, i, m);
        lemma_covered(d, k, stride, padding, w, own, i, taps as nat);
        assert(to(q) == conv::tapped(w, o, m));
        if let Some(j) = under(d, k@[1], stride, padding, i, m) {
            selection::lemma_one_place(j, e, d);
        }
    }
    convolve::lemma_product4(d);
    lemma_mul_is_associative(d[0] as int, d[1] as int, d[2] * d[3]);
    assert(w.pixels() == nd::product(d));
    selection::lemma_scattered(nd::product(d), to, val, chosen, f, n, place);
    assert(data =~= kernels::scatter_add(
        kernels::zeros_of::<B::Scalar>(nd::product(d)),
        to,
        val,
        n,
    ));
}

} // verus!
