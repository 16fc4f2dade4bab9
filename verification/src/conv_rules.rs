//! The chain rule for convolutions and pooling.
use crate::backend::Backend;
use crate::conv::{
    self,
    avg_pool_grad,
    conv_bias_grad,
    conv_input_grad,
    conv_weight_grad,
    max_pool_grad,
};
use crate::convolve::{self, is_too_small, kernel_error, stops_along, window_fits};
use crate::error::{Error, Result};
use crate::host;
use crate::kernels::Window;
use crate::nd;
use crate::rules::{self, upload_like};
use crate::scalar::Scalar;
use crate::tensor::Tensor;
use crate::views;
use vstd::arithmetic::mul::*;
use vstd::prelude::*;

verus! {

/// The gradient of the input of max-pooling: each gradient goes to the
/// position of its maximum.
pub open spec fn max_pool_rule<B: Backend>(
    grad: Tensor<B>,
    x: Tensor<B>,
    indices: Seq<usize>,
    r: Result<Tensor<B>>,
) -> bool {
    exists|v: Result<Vec<B::Scalar>>| #[trigger]
        host::dense_values_result(grad, v) && match v {
            Err(e) => r == Err::<Tensor<B>, _>(e),
            Ok(v) => rules::uploaded_like(
                conv::max_pool_grad_result(v@, indices, nd::product(x@.dims())),
                x,
                r,
            ),
        }
}

/// The gradient of the input of max-pooling, given the positions of the
/// maxima.
pub fn max_pool_input_grad<B: Backend>(grad: &Tensor<B>, x: &Tensor<B>, indices: &[usize]) -> (r:
    Result<Tensor<B>>)
    ensures
        max_pool_rule(*grad, *x, indices@, r),
{
    let v = grad.dense_values()?;
    let data = max_pool_grad(v.as_slice(), indices, x.elem_count());
    upload_like(data.as_slice(), x)
}

/// The error about a window that does not move.
pub open spec fn is_stride_error(e: Error, name: Seq<char>) -> bool {
    e matches Error::Msg(m) && m@ == name + ": stride must be > 0"@
}

fn stride_error(name: &str) -> (r: Error)
    ensures
        is_stride_error(r, name@),
{
    let mut m = String::new();
    m.append(name);
    m.append(": stride must be > 0");
    assert(m@ =~= name@ + ": stride must be > 0"@);
    Error::Msg(m)
}

/// The gradient of the input of average-pooling: each gradient is distributed
/// equally to the pixels under its window.
pub open spec fn avg_pool_rule<B: Backend>(
    grad: Tensor<B>,
    x: Tensor<B>,
    k: [usize; 2],
    stride: [usize; 2],
    padding: [usize; 2],
    r: Result<Tensor<B>>,
) -> bool {
    if stride@[0] == 0 || stride@[1] == 0 {
        r matches Err(e) && is_stride_error(e, "avg_pool2d"@)
    } else {
        exists|g: Result<Window>| #[trigger]
            convolve::pool_window(x, k, stride, padding, "avg_pool2d"@, g) && match g {
                Err(e) => r == Err::<Tensor<B>, _>(e),
                Ok(g) => exists|v: Result<Vec<B::Scalar>>| #[trigger]
                    host::dense_values_result(grad, v) && match v {
                        Err(e) => r == Err::<Tensor<B>, _>(e),
                        Ok(v) => if v@.len() < g.planes * g.stops() {
                            r matches Err(e) && rules::is_shortfall(
                                e,
                                grad@.dims(),
                                (g.planes * g.stops()) as nat,
                                v@.len(),
                            )
                        } else {
                            rules::uploaded_like(
                                conv::avg_pool_grad_result(v@.take(g.planes * g.stops()), g),
                                x,
                                r,
                            )
                        },
                    },
            }
    }
}

/// The gradient of the input of average-pooling.
pub fn avg_pool_input_grad<B: Backend>(
    grad: &Tensor<B>,
    x: &Tensor<B>,
    kernel_size: [usize; 2],
    stride: [usize; 2],
    padding: [usize; 2],
) -> (r: Result<Tensor<B>>)
    ensures
        avg_pool_rule(*grad, *x, kernel_size, stride, padding, r),
{
    if stride[0] == 0 || stride[1] == 0 {
        return Err(stride_error("avg_pool2d"));
    }
    let g = x.pooling_window(kernel_size, stride, padding, "avg_pool2d")?;
    let v = grad.dense_values()?;
    proof {
        lemma_mul_nonnegative(g.h_out as int, g.w_out as int);
        lemma_mul_nonnegative(g.planes as int, g.stops());
    }
    let stops: usize = g.h_out * g.w_out;
    let needed: usize = g.planes * stops;
    if v.len() < needed {
        return Err(
            Error::ElementCountMismatch {
                shape: grad.shape().clone(),
                expected: needed,
                got: v.len(),
            },
        );
    }
    let part = vstd::slice::slice_subrange(v.as_slice(), 0, needed);
    assert(part@ =~= v@.take(g.planes * g.stops()));
    let data = avg_pool_grad(part, &g);
    upload_like(data.as_slice(), x)
}

/// What the gradients of a convolution are computed from: the values of the
/// input, of the weight and of the gradient, the numbers of samples and of
/// output channels, and the window.
pub struct ConvParts<S: Scalar> {
    pub input: Vec<S>,
    pub weight: Vec<S>,
    pub grad: Vec<S>,
    pub n: usize,
    pub c_out: usize,
    pub window: Window,
}

/// The values and sizes of a convolution are these.
pub open spec fn are_parts<S: Scalar>(
    p: ConvParts<S>,
    input: Seq<S>,
    weight: Seq<S>,
    grad: Seq<S>,
    n: usize,
    c_out: usize,
    g: Window,
) -> bool {
    &&& p.input@ == input
    &&& p.weight@ == weight
    &&& p.grad@ == grad
    &&& p.n == n
    &&& p.c_out == c_out
    &&& p.window == g
}

/// All counts of a convolution are machine numbers.
pub open spec fn conv_fits(n: int, c_out: int, g: Window) -> bool {
    &&& g.fits()
    &&& c_out * g.stops() <= usize::MAX
    &&& c_out * g.rows() <= usize::MAX
    &&& n * (c_out * g.stops()) <= usize::MAX
}

/// The parts of a convolution, or why they cannot be had.
pub open spec fn parts_result<B: Backend>(
    grad: Tensor<B>,
    x: Tensor<B>,
    weight: Tensor<B>,
    g: Window,
    r: Result<ConvParts<B::Scalar>>,
) -> bool {
    let n = x@.dims()[0];
    let c_out = weight@.dims()[0];
    let needed = n * (c_out * g.stops());
    if !conv_fits(n as int, c_out as int, g) {
        r matches Err(e) && views::is_too_large(e)
    } else {
        exists|i: Result<Vec<B::Scalar>>| #[trigger]
            host::dense_values_result(x, i) && match i {
                Err(e) => r == Err::<ConvParts<B::Scalar>, _>(e),
                Ok(i) => exists|w: Result<Vec<B::Scalar>>| #[trigger]
                    host::dense_values_result(weight, w) && match w {
                        Err(e) => r == Err::<ConvParts<B::Scalar>, _>(e),
                        Ok(w) => exists|v: Result<Vec<B::Scalar>>| #[trigger]
                            host::dense_values_result(grad, v) && match v {
                                Err(e) => r == Err::<ConvParts<B::Scalar>, _>(e),
                                Ok(v) => if v@.len() < needed {
                                    r matches Err(e) && rules::is_shortfall(
                                        e,
                                        grad@.dims(),
                                        needed as nat,
                                        v@.len(),
                                    )
                                } else {
                                    r matches Ok(p) && are_parts(
                                        p,
                                        i@,
                                        w@,
                                        v@.take(needed),
                                        n,
                                        c_out,
                                        g,
                                    )
                                },
                            },
                    },
            }
    }
}

/// The parts are large enough to compute the gradients of the weight and of
/// the bias.
pub open spec fn parts_valid<S: Scalar>(p: ConvParts<S>) -> bool {
    &&& conv_fits(p.n as int, p.c_out as int, p.window)
    &&& p.input@.len() == p.n * p.window.pixels()
    &&& p.grad@.len() == p.n * (p.c_out * p.window.stops())
}

fn read_parts<B: Backend>(grad: &Tensor<B>, x: &Tensor<B>, weight: &Tensor<B>, g: Window) -> (r:
    Result<ConvParts<B::Scalar>>)
    requires
        x@.dims().len() >= 1,
        weight@.dims().len() >= 1,
        nd::product(x@.dims()) == x@.dims()[0] * g.pixels(),
    ensures
        parts_result(*grad, *x, *weight, g, r),
        r matches Ok(p) ==> parts_valid(p) && p.weight@.len() == nd::product(weight@.dims()),
{
    let n: usize = x.dims()[0];
    let c_out: usize = weight.dims()[0];
    if !window_fits(&g) {
        return Err(views::too_large());
    }
    proof {
        lemma_mul_nonnegative(g.h_out as int, g.w_out as int);
        lemma_mul_nonnegative(g.kh as int, g.kw as int);
        lemma_mul_nonnegative(g.planes as int, g.taps());
        lemma_mul_nonnegative(c_out as int, g.stops());
    }
    let stops: usize = g.h_out * g.w_out;
    let taps: usize = g.kh * g.kw;
    let rows: usize = g.planes * taps;
    if c_out.checked_mul(rows).is_none() {
        return Err(views::too_large());
    }
    let needed: usize = match c_out.checked_mul(stops) {
        None => {
            return Err(views::too_large());
        },
        Some(block) => match n.checked_mul(block) {
            None => {
                return Err(views::too_large());
            },
            Some(total) => total,
        },
    };
    let input = x.dense_values()?;
    let w = weight.dense_values()?;
    let v = grad.dense_values()?;
    if v.len() < needed {
        return Err(
            Error::ElementCountMismatch {
                shape: grad.shape().clone(),
                expected: needed,
                got: v.len(),
            },
        );
    }
    let mut part = v;
    part.truncate(needed);
    assert(part@ =~= v@.take(needed as int));
    Ok(ConvParts { input, weight: w, grad: part, n, c_out, window: g })
}

/// The window of a 2D convolution whose output has the sizes of the gradient.
pub open spec fn window_of_grad(
    d: Seq<usize>,
    k: Seq<usize>,
    own: Seq<usize>,
    stride: [usize; 2],
    padding: [usize; 2],
) -> Window {
    Window {
        planes: d[1],
        h: d[2],
        w: d[3],
        kh: k[2],
        kw: k[3],
        sh: stride@[0],
        sw: stride@[1],
        ph: padding@[0],
        pw: padding@[1],
        h_out: own[2],
        w_out: own[3],
    }
}

/// The window that the gradients of a 2D convolution are computed with is that
/// of the convolution, if the gradient of the output has its sizes.
pub proof fn law_grad_window(
    d: Seq<usize>,
    k: Seq<usize>,
    own: Seq<usize>,
    stride: [usize; 2],
    padding: [usize; 2],
)
    requires
        own[2] == convolve::out_len(
            d[2] as int,
            k[2] as int,
            stride@[0] as int,
            padding@[0] as int,
        ),
        own[3] == convolve::out_len(
            d[3] as int,
            k[3] as int,
            stride@[1] as int,
            padding@[1] as int,
        ),
    ensures
        window_of_grad(d, k, own, stride, padding) == convolve::window2(
            d[1] as int,
            d[2],
            d[3],
            [k[2], k[3]],
            stride,
            padding,
        ),
{
}

/// The parts of a 2D convolution, or why they cannot be had.
pub open spec fn conv2d_parts_result<B: Backend>(
    grad: Tensor<B>,
    x: Tensor<B>,
    weight: Tensor<B>,
    stride: [usize; 2],
    padding: [usize; 2],
    r: Result<ConvParts<B::Scalar>>,
) -> bool {
    let d = x@.dims();
    let k = weight@.dims();
    let own = grad@.dims();
    if d.len() != 4 {
        r == Err::<ConvParts<B::Scalar>, _>(
            Error::RankMismatch { expected: 4, got: d.len() as usize },
        )
    } else if k.len() != 4 {
        r == Err::<ConvParts<B::Scalar>, _>(
            Error::RankMismatch { expected: 4, got: k.len() as usize },
        )
    } else if own.len() != 4 {
        r == Err::<ConvParts<B::Scalar>, _>(
            Error::RankMismatch { expected: 4, got: own.len() as usize },
        )
    } else {
        parts_result(grad, x, weight, window_of_grad(d, k, own, stride, padding), r)
    }
}

/// The parts of a 2D convolution.
pub fn conv2d_parts<B: Backend>(
    grad: &Tensor<B>,
    x: &Tensor<B>,
    weight: &Tensor<B>,
    stride: [usize; 2],
    padding: [usize; 2],
) -> (r: Result<ConvParts<B::Scalar>>)
    ensures
        conv2d_parts_result(*grad, *x, *weight, stride, padding, r),
        r matches Ok(p) ==> parts_valid(p) && p.weight@.len() == nd::product(weight@.dims()),
{
    let d = x.dims();
    let k = weight.dims();
    let own = grad.dims();
    if d.len() != 4 {
        return Err(Error::RankMismatch { expected: 4, got: d.len() });
    }
    if k.len() != 4 {
        return Err(Error::RankMismatch { expected: 4, got: k.len() });
    }
    if own.len() != 4 {
        return Err(Error::RankMismatch { expected: 4, got: own.len() });
    }
    let g = Window {
        planes: d[1],
        h: d[2],
        w: d[3],
        kh: k[2],
        kw: k[3],
        sh: stride[0],
        sw: stride[1],
        ph: padding[0],
        pw: padding[1],
        h_out: own[2],
        w_out: own[3],
    };
    proof {
        convolve::lemma_product4(d@);
        assert(g == window_of_grad(d@, k@, own@, stride, padding));
    }
    read_parts(grad, x, weight, g)
}

/// The parts of a 1D convolution, or why they cannot be had.
pub open spec fn conv1d_parts_result<B: Backend>(
    grad: Tensor<B>,
    x: Tensor<B>,
    weight: Tensor<B>,
    stride: usize,
    padding: usize,
    r: Result<ConvParts<B::Scalar>>,
) -> bool {
    let d = x@.dims();
    let k = weight@.dims();
    if d.len() != 3 {
        r == Err::<ConvParts<B::Scalar>, _>(
            Error::RankMismatch { expected: 3, got: d.len() as usize },
        )
    } else if k.len() != 3 {
        r == Err::<ConvParts<B::Scalar>, _>(
            Error::RankMismatch { expected: 3, got: k.len() as usize },
        )
    } else if stride == 0 {
        r matches Err(e) && is_stride_error(e, "conv1d"@)
    } else if convolve::too_small(d[2] as int, k[2] as int, padding as int) {
        r matches Err(e) && convolve::is_kernel_error(e, "conv1d"@)
    } else if convolve::out_len(d[2] as int, k[2] as int, stride as int, padding as int)
        > usize::MAX {
        r matches Err(e) && views::is_too_large(e)
    } else {
        parts_result(grad, x, weight, convolve::window1(d[1], d[2], k[2], stride, padding), r)
    }
}

/// The parts of a 1D convolution.
pub fn conv1d_parts<B: Backend>(
    grad: &Tensor<B>,
    x: &Tensor<B>,
    weight: &Tensor<B>,
    stride: usize,
    padding: usize,
) -> (r: Result<ConvParts<B::Scalar>>)
    ensures
        conv1d_parts_result(*grad, *x, *weight, stride, padding, r),
        r matches Ok(p) ==> parts_valid(p) && p.weight@.len() == nd::product(weight@.dims()),
{
    let d = x.dims();
    let k = weight.dims();
    if d.len() != 3 {
        return Err(Error::RankMismatch { expected: 3, got: d.len() });
    }
    if k.len() != 3 {
        return Err(Error::RankMismatch { expected: 3, got: k.len() });
    }
    if stride == 0 {
        return Err(stride_error("conv1d"));
    }
    if is_too_small(d[2], k[2], padding) {
        return Err(kernel_error("conv1d"));
    }
    let l_out: usize = match stops_along(d[2], k[2], stride, padding) {
        Some(l) => l,
        None => {
            return Err(views::too_large());
        },
    };
    let g = Window {
        planes: d[1],
        h: 1,
        w: d[2],
        kh: 1,
        kw: k[2],
        sh: 1,
        sw: stride,
        ph: 0,
        pw: padding,
        h_out: 1,
        w_out: l_out,
    };
    proof {
        convolve::lemma_product3(d@);
        lemma_mul_basics(d@[2] as int);
        assert(g == convolve::window1(d@[1], d@[2], k@[2], stride, padding));
    }
    read_parts(grad, x, weight, g)
}

/// The gradient of the weight of a convolution.
pub open spec fn weight_rule<B: Backend>(
    p: ConvParts<B::Scalar>,
    weight: Tensor<B>,
    r: Result<Tensor<B>>,
) -> bool {
    rules::uploaded_like(
        conv::weight_grad_result(p.input@, p.grad@, p.n as int, p.c_out as int, p.window),
        weight,
        r,
    )
}

/// The gradient of the input of a convolution.
pub open spec fn input_rule<B: Backend>(
    p: ConvParts<B::Scalar>,
    x: Tensor<B>,
    r: Result<Tensor<B>>,
) -> bool {
    rules::uploaded_like(
        conv::input_grad_result(p.weight@, p.grad@, p.n as int, p.c_out as int, p.window),
        x,
        r,
    )
}

/// The gradient of the bias of a convolution.
pub open spec fn bias_rule<B: Backend>(
    p: ConvParts<B::Scalar>,
    b: Tensor<B>,
    r: Result<Tensor<B>>,
) -> bool {
    rules::uploaded_like(
        conv::bias_grad_result(p.grad@, p.n as int, p.c_out as int, p.window.stops()),
        b,
        r,
    )
}

/// The gradient of the weight of a convolution.
pub fn weight_grad<B: Backend>(p: &ConvParts<B::Scalar>, weight: &Tensor<B>) -> (r: Result<
    Tensor<B>,
>)
    requires
        parts_valid(*p),
        p.weight@.len() == nd::product(weight@.dims()),
    ensures
        weight_rule(*p, *weight, r),
        r is Ok ==> p.weight@.len() == p.c_out * p.window.rows(),
{
    let data = conv_weight_grad(
        p.input.as_slice(),
        p.grad.as_slice(),
        p.n,
        p.c_out,
        &p.window,
    );
    upload_like(data.as_slice(), weight)
}

/// The gradient of the input of a convolution.
pub fn input_grad<B: Backend>(p: &ConvParts<B::Scalar>, x: &Tensor<B>) -> (r: Result<Tensor<B>>)
    requires
        parts_valid(*p),
        p.weight@.len() == p.c_out * p.window.rows(),
    ensures
        input_rule(*p, *x, r),
{
    let length: usize = p.input.len();
    let data = conv_input_grad(
        p.weight.as_slice(),
        p.grad.as_slice(),
        p.n,
        p.c_out,
        &p.window,
    );
    upload_like(data.as_slice(), x)
}

/// The gradient of the bias of a convolution.
pub fn bias_grad<B: Backend>(p: &ConvParts<B::Scalar>, b: &Tensor<B>) -> (r: Result<Tensor<B>>)
    requires
        parts_valid(*p),
    ensures
        bias_rule(*p, *b, r),
{
    proof {
        lemma_mul_nonnegative(p.window.h_out as int, p.window.w_out as int);
    }
    let stops: usize = p.window.h_out * p.window.w_out;
    let data = conv_bias_grad(p.grad.as_slice(), p.n, p.c_out, stops);
    upload_like(data.as_slice(), b)
}

} // verus!
