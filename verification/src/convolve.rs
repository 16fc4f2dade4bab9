//! Convolution and pooling of tensors.
use crate::backend::Backend;
use crate::conv::{self, avg_pool, conv_forward, max_pool};
use crate::dtype::DType;
use crate::elementwise;
use crate::error::{Error, Result};
use crate::host;
use crate::kernels::Window;
use crate::nd;
use crate::op::Op;
use crate::scalar::Scalar;
use crate::shape::{copy_sizes, Shape};
use crate::tensor::{self, Tensor};
use crate::text::{self, push_usize};
use crate::views;
use vstd::arithmetic::div_mod::*;
use vstd::arithmetic::mul::*;
use vstd::prelude::*;

verus! {

/// The number of places a window stops at along an axis.
pub open spec fn out_len(size: int, k: int, stride: int, pad: int) -> int {
    (size + 2 * pad - k) / stride + 1
}

/// A kernel is larger than the padded input.
pub open spec fn too_small(size: int, k: int, pad: int) -> bool {
    size + 2 * pad < k
}

/// A new tensor with a record of how it was made, around values computed on
/// the host.
pub open spec fn computed_result<B: Backend>(
    data: Seq<B::Scalar>,
    dims: Seq<usize>,
    dtype: DType,
    device: B::Device,
    op: Op<B>,
    r: Result<Tensor<B>>,
) -> bool {
    exists|made: Result<B::Storage>| #[trigger]
        tensor::uploads::<B>(data, dtype, &device, made) && elementwise::stored_result(
            made,
            dims,
            dtype,
            device,
            op,
            r,
        )
}

/// The error about an input of the wrong rank.
pub open spec fn is_rank_error(e: Error, prefix: Seq<char>, rank: nat) -> bool {
    e matches Error::Msg(m) && m@ == prefix + ", got rank "@ + text::decimal(rank)
}

/// The error about channels that differ.
pub open spec fn is_channel_error(e: Error, name: Seq<char>, a: usize, b: usize) -> bool {
    e matches Error::Msg(m) && m@ == name + ": input channels "@ + text::decimal(a as nat)
        + " != weight channels "@ + text::decimal(b as nat)
}

/// The error about a bias of the wrong size.
pub open spec fn is_bias_error(e: Error, name: Seq<char>, size: nat, channels: usize) -> bool {
    e matches Error::Msg(m) && m@ == name + ": bias size "@ + text::decimal(size)
        + " != output channels "@ + text::decimal(channels as nat)
}

/// The error about a kernel that is too large.
pub open spec fn is_kernel_error(e: Error, name: Seq<char>) -> bool {
    e matches Error::Msg(m) && m@ == name + ": kernel larger than padded input"@
}

fn rank_error(prefix: &str, rank: usize) -> (r: Error)
    ensures
        is_rank_error(r, prefix@, rank as nat),
{
    let mut m = String::new();
    m.append(prefix);
    m.append(", got rank ");
    push_usize(&mut m, rank);
    assert(m@ =~= prefix@ + ", got rank "@ + text::decimal(rank as nat));
    Error::Msg(m)
}

fn channel_error(name: &str, a: usize, b: usize) -> (r: Error)
    ensures
        is_channel_error(r, name@, a, b),
{
    let mut m = String::new();
    m.append(name);
    m.append(": input channels ");
    push_usize(&mut m, a);
    m.append(" != weight channels ");
    push_usize(&mut m, b);
    assert(m@ =~= name@ + ": input channels "@ + text::decimal(a as nat) + " != weight channels "@
        + text::decimal(b as nat));
    Error::Msg(m)
}

fn bias_error(name: &str, size: usize, channels: usize) -> (r: Error)
    ensures
        is_bias_error(r, name@, size as nat, channels),
{
    let mut m = String::new();
    m.append(name);
    m.append(": bias size ");
    push_usize(&mut m, size);
    m.append(" != output channels ");
    push_usize(&mut m, channels);
    assert(m@ =~= name@ + ": bias size "@ + text::decimal(size as nat) + " != output channels "@
        + text::decimal(channels as nat));
    Error::Msg(m)
}

pub(crate) fn kernel_error(name: &str) -> (r: Error)
    ensures
        is_kernel_error(r, name@),
{
    let mut m = String::new();
    m.append(name);
    m.append(": kernel larger than padded input");
    assert(m@ =~= name@ + ": kernel larger than padded input"@);
    Error::Msg(m)
}

/// Whether a kernel is larger than the padded input.
pub(crate) fn is_too_small(size: usize, k: usize, pad: usize) -> (r: bool)
    ensures
        r == too_small(size as int, k as int, pad as int),
{
    (size as u128 + 2 * pad as u128) < k as u128
}

/// The number of places a window stops at along an axis, if it is a machine
/// number.
pub(crate) fn stops_along(size: usize, k: usize, stride: usize, pad: usize) -> (r: Option<usize>)
    requires
        !too_small(size as int, k as int, pad as int),
        stride > 0,
    ensures
        match r {
            Some(n) => n == out_len(size as int, k as int, stride as int, pad as int) && n > 0,
            None => out_len(size as int, k as int, stride as int, pad as int) > usize::MAX,
        },
{
    let room: u128 = size as u128 + 2 * pad as u128 - k as u128;
    proof {
        lemma_div_pos_is_pos(room as int, stride as int);
        lemma_div_is_ordered_by_denominator(room as int, 1, stride as int);
        lemma_div_basics(room as int);
    }
    let n: u128 = room / stride as u128 + 1;
    if n <= usize::MAX as u128 {
        Some(n as usize)
    } else {
        None
    }
}

/// Whether all counts of a window are machine numbers.
pub(crate) fn window_fits(g: &Window) -> (r: bool)
    ensures
        r == g.fits(),
{
    match (g.h_out.checked_mul(g.w_out), g.kh.checked_mul(g.kw), g.h.checked_mul(g.w)) {
        (Some(stops), Some(taps), Some(plane)) => match (
            g.planes.checked_mul(taps),
            g.planes.checked_mul(plane),
        ) {
            (Some(rows), Some(_)) => rows.checked_mul(stops).is_some(),
            _ => false,
        },
        _ => false,
    }
}

/// The element count of a shape of four dimensions.
pub(crate) proof fn lemma_product4(d: Seq<usize>)
    requires
        d.len() == 4,
    ensures
        nd::product(d) == d[0] * (d[1] * (d[2] * d[3])),
{
    nd::lemma_product_all(d);
    nd::lemma_product_step(d, 0);
    nd::lemma_product_step(d, 1);
    nd::lemma_product_step(d, 2);
    nd::lemma_product_step(d, 3);
    lemma_mul_basics(d[3] as int);
}

/// The element count of a shape of three dimensions.
pub(crate) proof fn lemma_product3(d: Seq<usize>)
    requires
        d.len() == 3,
    ensures
        nd::product(d) == d[0] * (d[1] * d[2]),
{
    nd::lemma_product_all(d);
    nd::lemma_product_step(d, 0);
    nd::lemma_product_step(d, 1);
    nd::lemma_product_step(d, 2);
    lemma_mul_basics(d[2] as int);
}

/// The window of a 2D convolution or pooling.
pub open spec fn window2(
    planes: int,
    h: usize,
    w: usize,
    k: [usize; 2],
    stride: [usize; 2],
    pad: [usize; 2],
) -> Window {
    Window {
        planes: planes as usize,
        h,
        w,
        kh: k@[0],
        kw: k@[1],
        sh: stride@[0],
        sw: stride@[1],
        ph: pad@[0],
        pw: pad@[1],
        h_out: out_len(h as int, k@[0] as int, stride@[0] as int, pad@[0] as int) as usize,
        w_out: out_len(w as int, k@[1] as int, stride@[1] as int, pad@[1] as int) as usize,
    }
}

/// The window of a 1D convolution: an image of one row.
pub open spec fn window1(planes: usize, l: usize, k: usize, stride: usize, pad: usize) -> Window {
    Window {
        planes,
        h: 1,
        w: l,
        kh: 1,
        kw: k,
        sh: 1,
        sw: stride,
        ph: 0,
        pw: pad,
        h_out: 1,
        w_out: out_len(l as int, k as int, stride as int, pad as int) as usize,
    }
}

/// The values of a bias that may be missing.
pub open spec fn bias_values<B: Backend>(
    bias: Option<Tensor<B>>,
    r: Result<Option<Vec<B::Scalar>>>,
) -> bool {
    match bias {
        None => r == Ok::<Option<Vec<B::Scalar>>, Error>(None),
        Some(b) => match r {
            Err(e) => host::dense_values_result(b, Err(e)),
            Ok(Some(v)) => host::dense_values_result(b, Ok(v)),
            Ok(None) => false,
        },
    }
}

/// The result of a convolution with a window: `n` samples, `c_out` output
/// channels.
pub open spec fn convolved<B: Backend>(
    a: Tensor<B>,
    weight: Tensor<B>,
    bias: Option<Tensor<B>>,
    g: Window,
    dims: Seq<usize>,
    name: Seq<char>,
    op: Op<B>,
    r: Result<Tensor<B>>,
) -> bool {
    let n = a@.dims()[0] as int;
    let c_out = weight@.dims()[0] as int;
    if !g.fits() || c_out * g.stops() > usize::MAX || n * (c_out * g.stops()) > usize::MAX {
        r matches Err(e) && views::is_too_large(e)
    } else {
        exists|input: Result<Vec<B::Scalar>>| #[trigger]
            host::dense_values_result(a, input) && match input {
                Err(e) => r == Err::<Tensor<B>, _>(e),
                Ok(input) => exists|w: Result<Vec<B::Scalar>>| #[trigger]
                    host::dense_values_result(weight, w) && match w {
                        Err(e) => r == Err::<Tensor<B>, _>(e),
                        Ok(w) => exists|b: Result<Option<Vec<B::Scalar>>>| #[trigger]
                            bias_values(bias, b) && match b {
                                Err(e) => r == Err::<Tensor<B>, _>(e),
                                Ok(b) => if b is Some && b->0@.len() < c_out {
                                    r matches Err(e) && is_bias_error(
                                        e,
                                        name,
                                        b->0@.len(),
                                        c_out as usize,
                                    )
                                } else {
                                    computed_result(
                                        conv::conv_result(
                                            input@,
                                            w@,
                                            conv::optional_view(b),
                                            n,
                                            c_out,
                                            g,
                                        ),
                                        dims,
                                        a@.dtype,
                                        a@.device,
                                        op,
                                        r,
                                    )
                                },
                            },
                    },
            }
    }
}

/// A 2D convolution is well posed: everything but the stride is checked.
pub open spec fn conv2d_posed<B: Backend>(a: Tensor<B>, weight: Tensor<B>, padding: [usize; 2]) -> bool {
    let d = a@.dims();
    let k = weight@.dims();
    &&& d.len() == 4
    &&& k.len() == 4
    &&& d[1] == k[1]
    &&& !too_small(d[2] as int, k[2] as int, padding@[0] as int)
    &&& !too_small(d[3] as int, k[3] as int, padding@[1] as int)
}

/// The result of a 2D convolution.
pub open spec fn conv2d_result<B: Backend>(
    a: Tensor<B>,
    weight: Tensor<B>,
    bias: Option<Tensor<B>>,
    stride: [usize; 2],
    padding: [usize; 2],
    r: Result<Tensor<B>>,
) -> bool {
    let d = a@.dims();
    let k = weight@.dims();
    if d.len() != 4 {
        r matches Err(e) && is_rank_error(e, "conv2d input must be 4D [N,C,H,W]"@, d.len())
    } else if k.len() != 4 {
        r matches Err(e) && is_rank_error(
            e,
            "conv2d weight must be 4D [C_out,C_in,kH,kW]"@,
            k.len(),
        )
    } else if d[1] != k[1] {
        r matches Err(e) && is_channel_error(e, "conv2d"@, d[1], k[1])
    } else if !conv2d_posed(a, weight, padding) {
        r matches Err(e) && is_kernel_error(e, "conv2d"@)
    } else {
        let size = [k[2], k[3]];
        let h_out = out_len(d[2] as int, k[2] as int, stride@[0] as int, padding@[0] as int);
        let w_out = out_len(d[3] as int, k[3] as int, stride@[1] as int, padding@[1] as int);
        if h_out > usize::MAX || w_out > usize::MAX {
            r matches Err(e) && views::is_too_large(e)
        } else {
            convolved(
                a,
                weight,
                bias,
                window2(d[1] as int, d[2], d[3], size, stride, padding),
                seq![d[0], k[0], h_out as usize, w_out as usize],
                "conv2d"@,
                Op::Conv2d { input: a, weight, bias, stride, padding },
                r,
            )
        }
    }
}

/// A 1D convolution is well posed: everything but the stride is checked.
pub open spec fn conv1d_posed<B: Backend>(
    a: Tensor<B>,
    weight: Tensor<B>,
    bias: Option<Tensor<B>>,
    padding: usize,
) -> bool {
    let d = a@.dims();
    let k = weight@.dims();
    &&& d.len() == 3
    &&& k.len() == 3
    &&& d[1] == k[1]
    &&& bias matches Some(b) ==> nd::product(b@.dims()) == k[0]
    &&& !too_small(d[2] as int, k[2] as int, padding as int)
}

/// The result of a 1D convolution.
pub open spec fn conv1d_result<B: Backend>(
    a: Tensor<B>,
    weight: Tensor<B>,
    bias: Option<Tensor<B>>,
    stride: usize,
    padding: usize,
    r: Result<Tensor<B>>,
) -> bool {
    let d = a@.dims();
    let k = weight@.dims();
    if d.len() != 3 {
        r matches Err(e) && is_rank_error(e, "conv1d input must be 3D [N,C_in,L]"@, d.len())
    } else if k.len() != 3 {
        r matches Err(e) && is_rank_error(e, "conv1d weight must be 3D [C_out,C_in,K]"@, k.len())
    } else if d[1] != k[1] {
        r matches Err(e) && is_channel_error(e, "conv1d"@, d[1], k[1])
    } else if bias is Some && nd::product(bias->0@.dims()) != k[0] {
        r matches Err(e) && is_bias_error(e, "conv1d"@, nd::product(bias->0@.dims()), k[0])
    } else if too_small(d[2] as int, k[2] as int, padding as int) {
        r matches Err(e) && is_kernel_error(e, "conv1d"@)
    } else {
        let l_out = out_len(d[2] as int, k[2] as int, stride as int, padding as int);
        if l_out > usize::MAX {
            r matches Err(e) && views::is_too_large(e)
        } else {
            convolved(
                a,
                weight,
                bias,
                window1(d[1], d[2], k[2], stride, padding),
                seq![d[0], k[0], l_out as usize],
                "conv1d"@,
                Op::Conv1d { input: a, weight, bias, stride, padding },
                r,
            )
        }
    }
}

/// A pooling is well posed: everything but the stride is checked.
pub open spec fn pool_posed<B: Backend>(a: Tensor<B>, k: [usize; 2], padding: [usize; 2]) -> bool {
    let d = a@.dims();
    &&& d.len() == 4
    &&& !too_small(d[2] as int, k@[0] as int, padding@[0] as int)
    &&& !too_small(d[3] as int, k@[1] as int, padding@[1] as int)
}

/// The part of pooling before the values are read: its errors, or the window
/// over all planes.
pub open spec fn pool_window<B: Backend>(
    a: Tensor<B>,
    k: [usize; 2],
    stride: [usize; 2],
    padding: [usize; 2],
    name: Seq<char>,
    r: Result<Window>,
) -> bool {
    let d = a@.dims();
    if d.len() != 4 {
        r matches Err(e) && is_rank_error(e, name + " input must be 4D [N,C,H,W]"@, d.len())
    } else if !pool_posed(a, k, padding) {
        r matches Err(e) && is_kernel_error(e, name)
    } else {
        let h_out = out_len(d[2] as int, k@[0] as int, stride@[0] as int, padding@[0] as int);
        let w_out = out_len(d[3] as int, k@[1] as int, stride@[1] as int, padding@[1] as int);
        let planes = d[0] * d[1];
        let g = window2(planes, d[2], d[3], k, stride, padding);
        if h_out > usize::MAX || w_out > usize::MAX || planes > usize::MAX || !g.fits() || planes
            * g.stops() > usize::MAX {
            r matches Err(e) && views::is_too_large(e)
        } else {
            r == Ok::<Window, Error>(g)
        }
    }
}

/// The record of max-pooling.
pub open spec fn is_max_pool_of<B: Backend>(
    op: Op<B>,
    a: Tensor<B>,
    k: [usize; 2],
    s: [usize; 2],
    p: [usize; 2],
    places: Seq<usize>,
) -> bool {
    op matches Op::MaxPool2d { input, kernel_size, stride, padding, indices } && input == a
        && kernel_size == k && stride == s && padding == p && indices@ == places
}

/// The largest pixels under a window.
pub open spec fn largest_values<S: Scalar>(input: Seq<S>, g: Window) -> Seq<S> {
    Seq::new(
        (g.planes * g.stops()) as nat,
        |x: int| conv::largest_of(input, g, x, g.taps() as nat).0,
    )
}

/// The positions of the largest pixels under a window.
pub open spec fn largest_places<S: Scalar>(input: Seq<S>, g: Window) -> Seq<usize> {
    Seq::new(
        (g.planes * g.stops()) as nat,
        |x: int| conv::largest_of(input, g, x, g.taps() as nat).1 as usize,
    )
}

/// The means of the pixels under a window.
pub open spec fn mean_values<S: Scalar>(input: Seq<S>, g: Window) -> Seq<S> {
    Seq::new((g.planes * g.stops()) as nat, |x: int| conv::mean_at(input, g, x))
}

/// The result of max-pooling.
pub open spec fn max_pool2d_result<B: Backend>(
    a: Tensor<B>,
    k: [usize; 2],
    stride: [usize; 2],
    padding: [usize; 2],
    r: Result<Tensor<B>>,
) -> bool {
    exists|g: Result<Window>| #[trigger]
        pool_window(a, k, stride, padding, "max_pool2d"@, g) && match g {
            Err(e) => r == Err::<Tensor<B>, _>(e),
            Ok(g) => exists|v: Result<Vec<B::Scalar>>| #[trigger]
                host::dense_values_result(a, v) && match v {
                    Err(e) => r == Err::<Tensor<B>, _>(e),
                    Ok(v) => exists|op: Op<B>| #[trigger]
                        is_max_pool_of(op, a, k, stride, padding, largest_places(v@, g))
                            && computed_result(
                            largest_values(v@, g),
                            seq![a@.dims()[0], a@.dims()[1], g.h_out, g.w_out],
                            a@.dtype,
                            a@.device,
                            op,
                            r,
                        ),
                },
        }
}

/// The result of average-pooling.
pub open spec fn avg_pool2d_result<B: Backend>(
    a: Tensor<B>,
    k: [usize; 2],
    stride: [usize; 2],
    padding: [usize; 2],
    r: Result<Tensor<B>>,
) -> bool {
    exists|g: Result<Window>| #[trigger]
        pool_window(a, k, stride, padding, "avg_pool2d"@, g) && match g {
            Err(e) => r == Err::<Tensor<B>, _>(e),
            Ok(g) => exists|v: Result<Vec<B::Scalar>>| #[trigger]
                host::dense_values_result(a, v) && match v {
                    Err(e) => r == Err::<Tensor<B>, _>(e),
                    Ok(v) => computed_result(
                        mean_values(v@, g),
                        seq![a@.dims()[0], a@.dims()[1], g.h_out, g.w_out],
                        a@.dtype,
                        a@.device,
                        Op::AvgPool2d { input: a, kernel_size: k, stride, padding },
                        r,
                    ),
                },
        }
}

/// A tensor that may be missing.
pub open spec fn optional_of<B: Backend>(t: Option<&Tensor<B>>) -> Option<Tensor<B>> {
    match t {
        Some(b) => Some(*b),
        None => None,
    }
}

fn copy_ref<B: Backend>(t: Option<&Tensor<B>>) -> (r: Option<Tensor<B>>)
    ensures
        r == optional_of(t),
{
    match t {
        Some(b) => Some(b.clone()),
        None => None,
    }
}

impl<B: Backend> Tensor<B> {
    /// A tensor with a record of how it was made, around values computed on
    /// the host.
    fn computed(
        data: &[B::Scalar],
        dims: Vec<usize>,
        dtype: DType,
        device: &B::Device,
        op: Op<B>,
    ) -> (r: Result<Self>)
        ensures
            computed_result(data@, dims@, dtype, *device, op, r),
    {
        let made = B::from_f64_slice(data, dtype, device);
        assert(tensor::uploads::<B>(data@, dtype, device, made));
        Self::store(made, Shape::new(dims), dtype, device, op)
    }

    /// The values of a tensor that may be missing.
    fn optional_values(t: Option<&Self>) -> (r: Result<Option<Vec<B::Scalar>>>)
        ensures
            bias_values(optional_of(t), r),
    {
        match t {
            None => Ok(None),
            Some(b) => {
                let v = b.dense_values()?;
                Ok(Some(v))
            },
        }
    }

    /// The convolution of samples with a window.
    fn convolve(
        &self,
        weight: &Self,
        bias: Option<&Self>,
        g: Window,
        dims: Vec<usize>,
        name: &str,
        op: Op<B>,
    ) -> (r: Result<Self>)
        requires
            self@.dims().len() >= 1,
            weight@.dims().len() >= 1,
            nd::product(self@.dims()) == self@.dims()[0] * g.pixels(),
            nd::product(weight@.dims()) == weight@.dims()[0] * g.rows(),
        ensures
            convolved(*self, *weight, optional_of(bias), g, dims@, name@, op, r),
    {
        let n: usize = self.dims()[0];
        let c_out: usize = weight.dims()[0];
        if !window_fits(&g) {
            return Err(views::too_large());
        }
        proof {
            lemma_mul_nonnegative(g.h_out as int, g.w_out as int);
            lemma_mul_nonnegative(c_out as int, g.stops());
        }
        let stops: usize = g.h_out * g.w_out;
        match c_out.checked_mul(stops) {
            None => {
                return Err(views::too_large());
            },
            Some(block) => {
                if n.checked_mul(block).is_none() {
                    return Err(views::too_large());
                }
            },
        }
        let input = self.dense_values()?;
        let w = weight.dense_values()?;
        let b = Self::optional_values(bias)?;
        match &b {
            Some(v) => {
                if v.len() < c_out {
                    return Err(bias_error(name, v.len(), c_out));
                }
            },
            None => {},
        }
        let out = conv_forward(input.as_slice(), w.as_slice(), &b, n, c_out, &g);
        Self::computed(out.as_slice(), dims, self.dtype(), self.device(), op)
    }

    /// 2D convolution of an input [N, C_in, H, W] with a weight
    /// [C_out, C_in, kH, kW] and an optional bias [C_out].
    ///
    /// The result is [N, C_out, H_out, W_out], where H_out is
    /// (H + 2 * pH - kH) / sH + 1.
    pub fn conv2d(
        &self,
        weight: &Self,
        bias: Option<&Self>,
        stride: [usize; 2],
        padding: [usize; 2],
    ) -> (r: Result<Self>)
        requires
            conv2d_posed(*self, *weight, padding) ==> stride@[0] > 0 && stride@[1] > 0,
        ensures
            conv2d_result(*self, *weight, optional_of(bias), stride, padding, r),
    {
        let d = self.dims();
        let k = weight.dims();
        if d.len() != 4 {
            return Err(rank_error("conv2d input must be 4D [N,C,H,W]", d.len()));
        }
        if k.len() != 4 {
            return Err(rank_error("conv2d weight must be 4D [C_out,C_in,kH,kW]", k.len()));
        }
        if d[1] != k[1] {
            return Err(channel_error("conv2d", d[1], k[1]));
        }
        if is_too_small(d[2], k[2], padding[0]) || is_too_small(d[3], k[3], padding[1]) {
            return Err(kernel_error("conv2d"));
        }
        let (h_out, w_out) = match (
            stops_along(d[2], k[2], stride[0], padding[0]),
            stops_along(d[3], k[3], stride[1], padding[1]),
        ) {
            (Some(a), Some(b)) => (a, b),
            _ => {
                return Err(views::too_large());
            },
        };
        let g = Window {
            planes: d[1],
            h: d[2],
            w: d[3],
            kh: k[2],
            kw: k[3],
            sh: stride[0],
            sw: stride[1],
            ph: padding[0],
            pw: padding[1],
            h_out,
            w_out,
        };
        proof {
            lemma_product4(d@);
            lemma_product4(k@);
            let size = [k@[2], k@[3]];
            assert(size@[0] == k@[2] && size@[1] == k@[3]);
            assert(g == window2(d@[1] as int, d@[2], d@[3], size, stride, padding));
        }
        let dims: Vec<usize> = vec![d[0], k[0], h_out, w_out];
        assert(dims@ =~= seq![d@[0], k@[0], h_out, w_out]);
        let op = Op::Conv2d {
            input: self.clone(),
            weight: weight.clone(),
            bias: copy_ref(bias),
            stride,
            padding,
        };
        self.convolve(weight, bias, g, dims, "conv2d", op)
    }

    /// 1D convolution of an input [N, C_in, L] with a weight
    /// [C_out, C_in, K] and an optional bias [C_out].
    pub fn conv1d(&self, weight: &Self, bias: Option<&Self>, stride: usize, padding: usize) -> (r:
        Result<Self>)
        requires
            conv1d_posed(*self, *weight, optional_of(bias), padding) ==> stride > 0,
        ensures
            conv1d_result(*self, *weight, optional_of(bias), stride, padding, r),
    {
        let d = self.dims();
        let k = weight.dims();
        if d.len() != 3 {
            return Err(rank_error("conv1d input must be 3D [N,C_in,L]", d.len()));
        }
        if k.len() != 3 {
            return Err(rank_error("conv1d weight must be 3D [C_out,C_in,K]", k.len()));
        }
        if d[1] != k[1] {
            return Err(channel_error("conv1d", d[1], k[1]));
        }
        match bias {
            Some(b) => {
                if b.elem_count() != k[0] {
                    return Err(bias_error("conv1d", b.elem_count(), k[0]));
                }
            },
            None => {},
        }
        if is_too_small(d[2], k[2], padding) {
            return Err(kernel_error("conv1d"));
        }
        let l_out: usize = match stops_along(d[2], k[2], stride, padding) {
            Some(l) => l,
            None => {
                return Err(views::too_large());
            },
        };
        let g = Window {
            planes: d[1],
            h: 1,
            w: d[2],
            kh: 1,
            kw: k[2],
            sh: 1,
            sw: stride,
            ph: 0,
            pw: padding,
            h_out: 1,
            w_out: l_out,
        };
        proof {
            lemma_product3(d@);
            lemma_product3(k@);
            lemma_mul_basics(d@[2] as int);
            lemma_mul_basics(k@[2] as int);
            assert(g == window1(d@[1], d@[2], k@[2], stride, padding));
        }
        let dims: Vec<usize> = vec![d[0], k[0], l_out];
        assert(dims@ =~= seq![d@[0], k@[0], l_out]);
        let op = Op::Conv1d {
            input: self.clone(),
            weight: weight.clone(),
            bias: copy_ref(bias),
            stride,
            padding,
        };
        self.convolve(weight, bias, g, dims, "conv1d", op)
    }

    /// The window of a pooling, over all planes of all samples.
    pub(crate) fn pooling_window(
        &self,
        kernel_size: [usize; 2],
        stride: [usize; 2],
        padding: [usize; 2],
        name: &str,
    ) -> (r: Result<Window>)
        requires
            pool_posed(*self, kernel_size, padding) ==> stride@[0] > 0 && stride@[1] > 0,
        ensures
            pool_window(*self, kernel_size, stride, padding, name@, r),
            r matches Ok(g) ==> self@.dims().len() == 4 && g.fits() && g.planes * g.stops()
                <= usize::MAX && nd::product(self@.dims()) == g.pixels(),
    {
        let d = self.dims();
        if d.len() != 4 {
            let mut prefix = String::new();
            prefix.append(name);
            prefix.append(" input must be 4D [N,C,H,W]");
            assert(prefix@ =~= name@ + " input must be 4D [N,C,H,W]"@);
            return Err(rank_error(prefix.as_str(), d.len()));
        }
        if is_too_small(d[2], kernel_size[0], padding[0]) || is_too_small(
            d[3],
            kernel_size[1],
            padding[1],
        ) {
            return Err(kernel_error(name));
        }
        let (h_out, w_out) = match (
            stops_along(d[2], kernel_size[0], stride[0], padding[0]),
            stops_along(d[3], kernel_size[1], stride[1], padding[1]),
        ) {
            (Some(a), Some(b)) => (a, b),
            _ => {
                return Err(views::too_large());
            },
        };
        let planes: usize = match d[0].checked_mul(d[1]) {
            Some(p) => p,
            None => {
                return Err(views::too_large());
            },
        };
        let g = Window {
            planes,
            h: d[2],
            w: d[3],
            kh: kernel_size[0],
            kw: kernel_size[1],
            sh: stride[0],
            sw: stride[1],
            ph: padding[0],
            pw: padding[1],
            h_out,
            w_out,
        };
        proof {
            lemma_product4(d@);
            lemma_mul_is_associative(d@[0] as int, d@[1] as int, d@[2] * d@[3]);
            assert(g == window2(d@[0] * d@[1], d@[2], d@[3], kernel_size, stride, padding));
            lemma_mul_nonnegative(h_out as int, w_out as int);
        }
        if !window_fits(&g) {
            return Err(views::too_large());
        }
        let stops: usize = h_out * w_out;
        if planes.checked_mul(stops).is_none() {
            return Err(views::too_large());
        }
        Ok(g)
    }

    /// 2D max pooling of an input [N, C, H, W]. The positions of the maxima
    /// are kept for the gradient.
    pub fn max_pool2d(
        &self,
        kernel_size: [usize; 2],
        stride: [usize; 2],
        padding: [usize; 2],
    ) -> (r: Result<Self>)
        requires
            pool_posed(*self, kernel_size, padding) ==> stride@[0] > 0 && stride@[1] > 0,
        ensures
            max_pool2d_result(*self, kernel_size, stride, padding, r),
    {
        match self.max_pool2d_with_indices(kernel_size, stride, padding) {
            Ok((output, _)) => Ok(output),
            Err(e) => Err(e),
        }
    }

    /// 2D max pooling of an input [N, C, H, W]: the output, and for each of its
    /// elements the position of the maximum among the elements of the input.
    pub fn max_pool2d_with_indices(
        &self,
        kernel_size: [usize; 2],
        stride: [usize; 2],
        padding: [usize; 2],
    ) -> (r: Result<(Self, Vec<usize>)>)
        requires
            pool_posed(*self, kernel_size, padding) ==> stride@[0] > 0 && stride@[1] > 0,
        ensures
            match r {
                Ok((output, indices)) => {
                    &&& max_pool2d_result(*self, kernel_size, stride, padding, Ok(output))
                    &&& is_max_pool_of(
                        output@.op,
                        *self,
                        kernel_size,
                        stride,
                        padding,
                        indices@,
                    )
                },
                Err(e) => max_pool2d_result(*self, kernel_size, stride, padding, Err(e)),
            },
    {
        let g = self.pooling_window(kernel_size, stride, padding, "max_pool2d")?;
        let data = self.dense_values()?;
        let (values, places) = max_pool(data.as_slice(), &g);
        let d = self.dims();
        let dims: Vec<usize> = vec![d[0], d[1], g.h_out, g.w_out];
        assert(dims@ =~= seq![d@[0], d@[1], g.h_out, g.w_out]);
        let indices = copy_sizes(places.as_slice());
        let op = Op::MaxPool2d { input: self.clone(), kernel_size, stride, padding, indices };
        assert(is_max_pool_of(op, *self, kernel_size, stride, padding, largest_places(data@, g)));
        let output = Self::computed(values.as_slice(), dims, self.dtype(), self.device(), op)?;
        Ok((output, places))
    }

    /// 2D average pooling of an input [N, C, H, W]. Padding does not count.
    pub fn avg_pool2d(
        &self,
        kernel_size: [usize; 2],
        stride: [usize; 2],
        padding: [usize; 2],
    ) -> (r: Result<Self>)
        requires
            pool_posed(*self, kernel_size, padding) ==> stride@[0] > 0 && stride@[1] > 0,
        ensures
            avg_pool2d_result(*self, kernel_size, stride, padding, r),
    {
        let g = self.pooling_window(kernel_size, stride, padding, "avg_pool2d")?;
        let data = self.dense_values()?;
        let values = avg_pool(data.as_slice(), &g);
        let d = self.dims();
        let dims: Vec<usize> = vec![d[0], d[1], g.h_out, g.w_out];
        assert(dims@ =~= seq![d@[0], d@[1], g.h_out, g.w_out]);
        let op = Op::AvgPool2d { input: self.clone(), kernel_size, stride, padding };
        Self::computed(values.as_slice(), dims, self.dtype(), self.device(), op)
    }
}

/// Two tensors of which the same values can be read.
pub open spec fn read_alike<B: Backend>(a: Tensor<B>, b: Tensor<B>) -> bool {
    forall|v: Result<Vec<B::Scalar>>| #[trigger]
        host::dense_values_result(a, v) ==> host::dense_values_result(b, v)
}

/// The values of a convolution with a window, of what is read of the tensors.
pub open spec fn conv_values<B: Backend>(
    a: Tensor<B>,
    weight: Tensor<B>,
    bias: Option<Tensor<B>>,
    g: Window,
    data: Seq<B::Scalar>,
) -> bool {
    exists|input: Vec<B::Scalar>, w: Vec<B::Scalar>, b: Option<Vec<B::Scalar>>|
        {
            &&& #[trigger] host::dense_values_result(a, Ok(input))
            &&& #[trigger] host::dense_values_result(weight, Ok(w))
            &&& #[trigger] bias_values(bias, Ok(b))
            &&& data == conv::conv_result(
                input@,
                w@,
                conv::optional_view(b),
                a@.dims()[0] as int,
                weight@.dims()[0] as int,
                g,
            )
        }
}

/// A 1D convolution is the 2D convolution of images of one row with kernels
/// of one row: the sizes of the output are the same but for the row, and its
/// values are those of the 2D convolution of tensors with the row added of
/// which the same values are read.
pub proof fn law_conv1d_is_conv2d<B: Backend>(
    a: Tensor<B>,
    weight: Tensor<B>,
    bias: Option<Tensor<B>>,
    stride: usize,
    padding: usize,
    a2: Tensor<B>,
    weight2: Tensor<B>,
    y: Tensor<B>,
)
    requires
        stride > 0,
        conv1d_result(a, weight, bias, stride, padding, Ok(y)),
        a2@.dims() == seq![a@.dims()[0], a@.dims()[1], 1, a@.dims()[2]],
        weight2@.dims() == seq![weight@.dims()[0], weight@.dims()[1], 1, weight@.dims()[2]],
        read_alike(a, a2),
        read_alike(weight, weight2),
    ensures
        ({
            let d = a2@.dims();
            let k = weight2@.dims();
            let g = window2(d[1] as int, d[2], d[3], [k[2], k[3]], [1, stride], [0, padding]);
            &&& conv2d_posed(a2, weight2, [0, padding])
            &&& g.h_out == 1
            &&& y@.dims() == seq![d[0], k[0], g.w_out]
            &&& exists|data: Seq<B::Scalar>, made: B::Storage|
                {
                    &&& #[trigger] conv_values(a2, weight2, bias, g, data)
                    &&& #[trigger] tensor::uploads::<B>(data, a@.dtype, &a@.device, Ok(made))
                    &&& y@.storage.starts_with(made)
                }
        }),
{
    let d = a2@.dims();
    let k = weight2@.dims();
    let g = window1(a@.dims()[1], a@.dims()[2], weight@.dims()[2], stride, padding);
    let h = window2(d[1] as int, d[2], d[3], [k[2], k[3]], [1, stride], [0, padding]);
    assert(out_len(1, 1, 1, 0) == 1);
    assert(g == h);
    let n = a@.dims()[0] as int;
    let c_out = weight@.dims()[0] as int;
    let (input, w, b) = choose|
        input: Vec<B::Scalar>,
        w: Vec<B::Scalar>,
        b: Option<Vec<B::Scalar>>,
    |
        {
            &&& #[trigger] host::dense_values_result(a, Ok(input))
            &&& #[trigger] host::dense_values_result(weight, Ok(w))
            &&& #[trigger] bias_values(bias, Ok(b))
            &&& computed_result(
                conv::conv_result(input@, w@, conv::optional_view(b), n, c_out, g),
                seq![a@.dims()[0], weight@.dims()[0], g.w_out],
                a@.dtype,
                a@.device,
                Op::Conv1d { input: a, weight, bias, stride, padding },
                Ok(y),
            )
        };
    let data = conv::conv_result(input@, w@, conv::optional_view(b), n, c_out, g);
    assert(host::dense_values_result(a2, Ok(input)));
    assert(host::dense_values_result(weight2, Ok(w)));
    assert(conv_values(a2, weight2, bias, h, data));
}

} // verus!
