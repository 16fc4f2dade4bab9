//! Convolution and pooling of samples on the host, and their gradients.
use crate::kernels::{self, col2im, gemm, gemm_a_bt, gemm_at_b, im2col, pixel_of, zero_vec, Window};
use crate::scalar::{self, Scalar};
use vstd::arithmetic::div_mod::*;
use vstd::arithmetic::mul::*;
use vstd::prelude::*;

verus! {

/// Sums of the same terms are the same.
pub proof fn lemma_sum_same<S: Scalar>(acc: S, f: spec_fn(int) -> S, g: spec_fn(int) -> S, n: nat)
    requires
        forall|i: int| 0 <= i < n ==> #[trigger] f(i) == g(i),
    ensures
        kernels::sum_from(acc, f, n) == kernels::sum_from(acc, g, n),
    decreases n,
{
    if n > 0 {
        lemma_sum_same(acc, f, g, (n - 1) as nat);
        assert(f(n - 1) == g(n - 1));
    }
}

/// Adding the same values at the same positions gives the same list.
proof fn lemma_scatter_same<S: Scalar>(
    out: Seq<S>,
    at: spec_fn(int) -> Option<int>,
    f: spec_fn(int) -> S,
    g: spec_fn(int) -> S,
    n: nat,
)
    requires
        forall|i: int| 0 <= i < n ==> #[trigger] f(i) == g(i),
    ensures
        kernels::scatter_add(out, at, f, n) == kernels::scatter_add(out, at, g, n),
    decreases n,
{
    if n > 0 {
        lemma_scatter_same(out, at, f, g, (n - 1) as nat);
        assert(f(n - 1) == g(n - 1));
    }
}

/// A block of a list of blocks.
proof fn lemma_block(ni: int, n: int, size: int)
    requires
        0 <= ni < n,
        0 <= size,
    ensures
        0 <= ni * size <= ni * size + size <= n * size,
        (ni + 1) * size == ni * size + size,
{
    lemma_mul_inequality(ni + 1, n, size);
    lemma_mul_is_distributive_add_other_way(size, ni, 1);
    lemma_mul_nonnegative(ni, size);
}

/// The counts of a window are not negative.
pub proof fn lemma_counts(g: Window)
    ensures
        g.stops() >= 0,
        g.taps() >= 0,
        g.rows() >= 0,
        g.pixels() >= 0,
        g.rows() * g.stops() >= 0,
{
    lemma_mul_nonnegative(g.h_out as int, g.w_out as int);
    lemma_mul_nonnegative(g.kh as int, g.kw as int);
    lemma_mul_nonnegative(g.h as int, g.w as int);
    lemma_mul_nonnegative(g.planes as int, g.taps());
    lemma_mul_nonnegative(g.planes as int, g.h * g.w);
    lemma_mul_nonnegative(g.rows(), g.stops());
}

/// One term of a convolution: a weight times what its tap reads.
pub open spec fn conv_term<S: Scalar>(
    input: Seq<S>,
    weight: Seq<S>,
    g: Window,
    first: int,
    co: int,
    j: int,
    p: int,
) -> S {
    weight[co * g.rows() + p].times(kernels::column_at(input, first, g, p * g.stops() + j))
}

/// A convolution at stop `j` of a sample, for one output channel: the terms
/// of all planes and taps, in order.
pub open spec fn conv_sum<S: Scalar>(
    input: Seq<S>,
    weight: Seq<S>,
    g: Window,
    first: int,
    co: int,
    j: int,
) -> S {
    kernels::sum_from(
        S::zero_val(),
        |p: int| conv_term(input, weight, g, first, co, j, p),
        g.rows() as nat,
    )
}

/// Element `y` of the output of the sample that starts at `first`.
pub open spec fn conv_at<S: Scalar>(
    input: Seq<S>,
    weight: Seq<S>,
    bias: Option<Seq<S>>,
    g: Window,
    first: int,
    y: int,
) -> S {
    let sum = conv_sum(input, weight, g, first, y / g.stops(), y % g.stops());
    match bias {
        Some(b) => sum.plus(b[y / g.stops()]),
        None => sum,
    }
}

/// The convolution of `n` samples with `c_out` output channels: sample by
/// sample, channel by channel, stop by stop.
pub open spec fn conv_result<S: Scalar>(
    input: Seq<S>,
    weight: Seq<S>,
    bias: Option<Seq<S>>,
    n: int,
    c_out: int,
    g: Window,
) -> Seq<S> {
    let block = c_out * g.stops();
    Seq::new(
        (n * block) as nat,
        |x: int| conv_at(input, weight, bias, g, (x / block) * g.pixels(), x % block),
    )
}

/// The values of an optional list.
pub open spec fn optional_view<S: Scalar>(v: Option<Vec<S>>) -> Option<Seq<S>> {
    match v {
        Some(b) => Some(b@),
        None => None,
    }
}

/// The output of one sample, without bias.
fn conv_sample<S: Scalar>(input: &[S], weight: &[S], first: usize, c_out: usize, g: &Window) -> (r:
    Vec<S>)
    requires
        g.fits(),
        first + g.pixels() <= input@.len(),
        weight@.len() == c_out * g.rows(),
        c_out * g.stops() <= usize::MAX,
    ensures
        r@.len() == c_out * g.stops(),
        forall|y: int|
            0 <= y < c_out * g.stops() ==> #[trigger] r@[y] == conv_sum(
                input@,
                weight@,
                *g,
                first as int,
                y / g.stops(),
                y % g.stops(),
            ),
{
    proof {
        lemma_counts(*g);
        lemma_mul_nonnegative(c_out as int, g.stops());
    }
    let columns = im2col(input, first, g);
    let stops: usize = g.h_out * g.w_out;
    let taps: usize = g.kh * g.kw;
    let rows: usize = g.planes * taps;
    let block: usize = c_out * stops;
    let mut out: Vec<S> = zero_vec(block);
    let ghost zeros = out@;
    gemm(weight, columns.as_slice(), &mut out, c_out, stops, rows);
    proof {
        assert forall|y: int| 0 <= y < block implies #[trigger] out@[y] == conv_sum(
            input@,
            weight@,
            *g,
            first as int,
            y / g.stops(),
            y % g.stops(),
        ) by {
            let (co, j) = (y / g.stops(), y % g.stops());
            lemma_table(y, c_out as int, g.stops());
            let f = |p: int|
                kernels::gemm_term(weight@, columns@, stops as int, rows as int, y, p);
            let h = |p: int| conv_term(input@, weight@, *g, first as int, co, j, p);
            assert forall|p: int| 0 <= p < rows implies #[trigger] f(p) == h(p) by {
                kernels::lemma_table_index(p, rows as int, j, g.stops());
                assert(columns@[p * stops + j] == kernels::column_at(
                    input@,
                    first as int,
                    *g,
                    p * g.stops() + j,
                ));
            }
            lemma_sum_same(zeros[y], f, h, rows as nat);
        }
    }
    out
}

/// The row and the entry of a position in a table.
proof fn lemma_table(x: int, m: int, n: int)
    requires
        0 <= x < m * n,
        0 <= n,
        0 <= m,
    ensures
        0 < n,
        0 <= x / n < m,
        0 <= x % n < n,
{
    kernels::lemma_table_split(x, m, n);
}

/// Convolution of `n` samples: the sliding-window patches of each sample
/// are unrolled into columns and multiplied by the weights.
///
/// The input is [n, planes, h, w], the weight [c_out, planes, kh, kw], the
/// bias [c_out] and the output [n, c_out, h_out, w_out].
pub fn conv_forward<S: Scalar>(
    input: &[S],
    weight: &[S],
    bias: &Option<Vec<S>>,
    n: usize,
    c_out: usize,
    g: &Window,
) -> (r: Vec<S>)
    requires
        g.fits(),
        input@.len() == n * g.pixels(),
        weight@.len() == c_out * g.rows(),
        bias matches Some(b) ==> b@.len() >= c_out,
        c_out * g.stops() <= usize::MAX,
        n * (c_out * g.stops()) <= usize::MAX,
    ensures
        r@ == conv_result(input@, weight@, optional_view(*bias), n as int, c_out as int, *g),
{
    proof {
        lemma_counts(*g);
        lemma_mul_nonnegative(c_out as int, g.stops());
    }
    let ghost want = conv_result(
        input@,
        weight@,
        optional_view(*bias),
        n as int,
        c_out as int,
        *g,
    );
    let length: usize = input.len();
    let stops: usize = g.h_out * g.w_out;
    let pixels: usize = g.planes * (g.h * g.w);
    let block: usize = c_out * stops;
    let mut out: Vec<S> = Vec::new();
    let mut ni: usize = 0;
    while ni < n
        invariant
            g.fits(),
            length == input@.len(),
            input@.len() == n * g.pixels(),
            weight@.len() == c_out * g.rows(),
            bias matches Some(b) ==> b@.len() >= c_out,
            stops == g.stops(),
            pixels == g.pixels(),
            block == c_out * g.stops(),
            n * block <= usize::MAX,
            want == conv_result(
                input@,
                weight@,
                optional_view(*bias),
                n as int,
                c_out as int,
                *g,
            ),
            want.len() == n * block,
            ni <= n,
            out@.len() == ni * block,
            forall|x: int| 0 <= x < ni * block ==> #[trigger] out@[x] == want[x],
        decreases n - ni,
    {
        proof {
            lemma_block(ni as int, n as int, pixels as int);
            lemma_block(ni as int, n as int, block as int);
        }
        let sample = conv_sample(input, weight, ni * pixels, c_out, g);
        let mut y: usize = 0;
        while y < block
            invariant
                g.fits(),
                bias matches Some(b) ==> b@.len() >= c_out,
                stops == g.stops(),
                block == c_out * g.stops(),
                pixels == g.pixels(),
                ni < n,
                0 <= ni * block <= ni * block + block <= n * block,
                want == conv_result(
                    input@,
                    weight@,
                    optional_view(*bias),
                    n as int,
                    c_out as int,
                    *g,
                ),
                want.len() == n * block,
                y <= block,
                sample@.len() == block,
                forall|z: int|
                    0 <= z < block ==> #[trigger] sample@[z] == conv_sum(
                        input@,
                        weight@,
                        *g,
                        ni * g.pixels(),
                        z / g.stops(),
                        z % g.stops(),
                    ),
                out@.len() == ni * block + y,
                forall|x: int| 0 <= x < ni * block + y ==> #[trigger] out@[x] == want[x],
            decreases block - y,
        {
            proof {
                lemma_table(y as int, c_out as int, stops as int);
                kernels::lemma_table_index(ni as int, n as int, y as int, block as int);
            }
            let value: S = match bias {
                Some(b) => sample[y].add(b[y / stops]),
                None => sample[y],
            };
            assert(value == want[ni * block + y]);
            out.push(value);
            y += 1;
        }
        ni += 1;
    }
    assert(out@ =~= want);
    out
}

/// One term of the gradient of a weight: what its tap read at a stop times
/// the gradient there.
pub open spec fn weight_term<S: Scalar>(
    input: Seq<S>,
    grad: Seq<S>,
    g: Window,
    c_out: int,
    ni: int,
    x: int,
    j: int,
) -> S {
    grad[ni * (c_out * g.stops()) + ((x / g.rows()) * g.stops() + j)].times(
        kernels::column_at(input, ni * g.pixels(), g, (x % g.rows()) * g.stops() + j),
    )
}

/// The gradient of weight `x` over the first `n` samples: for each sample
/// the sum over all stops.
pub open spec fn weight_grad_at<S: Scalar>(
    input: Seq<S>,
    grad: Seq<S>,
    g: Window,
    c_out: int,
    n: nat,
    x: int,
) -> S
    decreases n,
{
    if n == 0 {
        S::zero_val()
    } else {
        weight_grad_at(input, grad, g, c_out, (n - 1) as nat, x).plus(
            kernels::sum_from(
                S::zero_val(),
                |j: int| weight_term(input, grad, g, c_out, n - 1, x, j),
                g.stops() as nat,
            ),
        )
    }
}

/// The gradient of the weights of a convolution.
pub open spec fn weight_grad_result<S: Scalar>(
    input: Seq<S>,
    grad: Seq<S>,
    n: int,
    c_out: int,
    g: Window,
) -> Seq<S> {
    Seq::new(
        (c_out * g.rows()) as nat,
        |x: int| weight_grad_at(input, grad, g, c_out, n as nat, x),
    )
}

/// The gradient of the weights: over all samples, the output gradient times
/// the columns transposed.
pub fn conv_weight_grad<S: Scalar>(
    input: &[S],
    grad: &[S],
    n: usize,
    c_out: usize,
    g: &Window,
) -> (r: Vec<S>)
    requires
        g.fits(),
        input@.len() == n * g.pixels(),
        grad@.len() == n * (c_out * g.stops()),
        c_out * g.stops() <= usize::MAX,
        c_out * g.rows() <= usize::MAX,
    ensures
        r@ == weight_grad_result(input@, grad@, n as int, c_out as int, *g),
{
    proof {
        lemma_counts(*g);
        lemma_mul_nonnegative(c_out as int, g.stops());
        lemma_mul_nonnegative(c_out as int, g.rows());
    }
    let length: usize = input.len();
    let grad_length: usize = grad.len();
    let stops: usize = g.h_out * g.w_out;
    let taps: usize = g.kh * g.kw;
    let rows: usize = g.planes * taps;
    let pixels: usize = g.planes * (g.h * g.w);
    let block: usize = c_out * stops;
    let total: usize = c_out * rows;
    let mut out: Vec<S> = zero_vec(total);
    assert(out@ =~= weight_grad_result(input@, grad@, 0, c_out as int, *g));
    let mut ni: usize = 0;
    while ni < n
        invariant
            g.fits(),
            length == input@.len(),
            grad_length == grad@.len(),
            input@.len() == n * g.pixels(),
            grad@.len() == n * block,
            stops == g.stops(),
            rows == g.rows(),
            pixels == g.pixels(),
            block == c_out * g.stops(),
            total == c_out * g.rows(),
            ni <= n,
            out@ == weight_grad_result(input@, grad@, ni as int, c_out as int, *g),
        decreases n - ni,
    {
        proof {
            lemma_block(ni as int, n as int, pixels as int);
            lemma_block(ni as int, n as int, block as int);
        }
        let columns = im2col(input, ni * pixels, g);
        let part = vstd::slice::slice_subrange(grad, ni * block, ni * block + block);
        let ghost before = out@;
        gemm_a_bt(part, columns.as_slice(), &mut out, c_out, rows, stops);
        proof {
            let next = weight_grad_result(input@, grad@, ni + 1, c_out as int, *g);
            assert forall|x: int| 0 <= x < total implies #[trigger] out@[x] == next[x] by {
                lemma_table(x, c_out as int, rows as int);
                let f = |j: int|
                    kernels::gemm_a_bt_term(part@, columns@, rows as int, stops as int, x, j);
                let h = |j: int| weight_term(input@, grad@, *g, c_out as int, ni as int, x, j);
                assert forall|j: int| 0 <= j < stops implies #[trigger] f(j) == h(j) by {
                    kernels::lemma_table_index(x / g.rows(), c_out as int, j, stops as int);
                    kernels::lemma_table_index(x % g.rows(), rows as int, j, stops as int);
                }
                lemma_sum_same(S::zero_val(), f, h, stops as nat);
                assert(before[x] == weight_grad_at(
                    input@,
                    grad@,
                    *g,
                    c_out as int,
                    ni as nat,
                    x,
                ));
            }
            assert(out@ =~= next);
        }
        ni += 1;
    }
    out
}

/// One term of the gradient of a column entry.
pub open spec fn column_term<S: Scalar>(
    weight: Seq<S>,
    grad: Seq<S>,
    g: Window,
    first: int,
    q: int,
    co: int,
) -> S {
    weight[co * g.rows() + q / g.stops()].times(grad[first + (co * g.stops() + q % g.stops())])
}

/// The gradient of a column entry: over all output channels, the weight of
/// its row times the gradient at its stop.
pub open spec fn column_grad<S: Scalar>(
    weight: Seq<S>,
    grad: Seq<S>,
    g: Window,
    c_out: int,
    first: int,
    q: int,
) -> S {
    kernels::sum_from(
        S::zero_val(),
        |co: int| column_term(weight, grad, g, first, q, co),
        c_out as nat,
    )
}

/// The gradient of a sample: the gradients of the column entries, added up
/// at the pixels that they come from.
pub open spec fn sample_grad<S: Scalar>(
    weight: Seq<S>,
    grad: Seq<S>,
    g: Window,
    c_out: int,
    ni: int,
) -> Seq<S> {
    kernels::scatter_add(
        kernels::zeros_of(g.pixels() as nat),
        |q: int| g.source(q),
        |q: int| column_grad(weight, grad, g, c_out, ni * (c_out * g.stops()), q),
        (g.rows() * g.stops()) as nat,
    )
}

/// The gradient of the input of a convolution.
pub open spec fn input_grad_result<S: Scalar>(
    weight: Seq<S>,
    grad: Seq<S>,
    n: int,
    c_out: int,
    g: Window,
) -> Seq<S> {
    Seq::new(
        (n * g.pixels()) as nat,
        |x: int| sample_grad(weight, grad, g, c_out, x / g.pixels())[x % g.pixels()],
    )
}

/// The gradient of the input: for each sample the weights transposed times
/// the output gradient, scattered back into the image.
pub fn conv_input_grad<S: Scalar>(
    weight: &[S],
    grad: &[S],
    n: usize,
    c_out: usize,
    g: &Window,
) -> (r: Vec<S>)
    requires
        g.fits(),
        weight@.len() == c_out * g.rows(),
        grad@.len() == n * (c_out * g.stops()),
        c_out * g.stops() <= usize::MAX,
        n * g.pixels() <= usize::MAX,
    ensures
        r@ == input_grad_result(weight@, grad@, n as int, c_out as int, *g),
{
    proof {
        lemma_counts(*g);
        lemma_mul_nonnegative(c_out as int, g.stops());
    }
    let grad_length: usize = grad.len();
    let stops: usize = g.h_out * g.w_out;
    let taps: usize = g.kh * g.kw;
    let rows: usize = g.planes * taps;
    let pixels: usize = g.planes * (g.h * g.w);
    let block: usize = c_out * stops;
    let entries: usize = rows * stops;
    let ghost want = input_grad_result(weight@, grad@, n as int, c_out as int, *g);
    let mut out: Vec<S> = Vec::new();
    let mut ni: usize = 0;
    while ni < n
        invariant
            g.fits(),
            grad_length == grad@.len(),
            weight@.len() == c_out * g.rows(),
            grad@.len() == n * block,
            n * pixels <= usize::MAX,
            stops == g.stops(),
            rows == g.rows(),
            pixels == g.pixels(),
            block == c_out * g.stops(),
            entries == g.rows() * g.stops(),
            want == input_grad_result(weight@, grad@, n as int, c_out as int, *g),
            want.len() == n * pixels,
            ni <= n,
            out@.len() == ni * pixels,
            forall|x: int| 0 <= x < ni * pixels ==> #[trigger] out@[x] == want[x],
        decreases n - ni,
    {
        proof {
            lemma_block(ni as int, n as int, pixels as int);
            lemma_block(ni as int, n as int, block as int);
        }
        let part = vstd::slice::slice_subrange(grad, ni * block, ni * block + block);
        let mut columns: Vec<S> = zero_vec(entries);
        let ghost zeros = columns@;
        gemm_at_b(weight, part, &mut columns, rows, stops, c_out);
        let mut image: Vec<S> = zero_vec(pixels);
        let ghost blank = image@;
        col2im(columns.as_slice(), &mut image, g);
        let ghost before = out@;
        proof {
            let first = ni * block;
            let val = |q: int| column_grad(weight@, grad@, *g, c_out as int, first, q);
            let got = |q: int| columns@[q];
            assert forall|q: int| 0 <= q < entries implies #[trigger] got(q) == val(q) by {
                lemma_table(q, rows as int, stops as int);
                let f = |p: int|
                    kernels::gemm_at_b_term(weight@, part@, rows as int, stops as int, q, p);
                let h = |p: int| column_term(weight@, grad@, *g, first, q, p);
                assert forall|p: int| 0 <= p < c_out implies #[trigger] f(p) == h(p) by {
                    kernels::lemma_table_index(p, c_out as int, q % g.stops(), stops as int);
                }
                lemma_sum_same(zeros[q], f, h, c_out as nat);
            }
            lemma_scatter_same(blank, |q: int| g.source(q), got, val, entries as nat);
            assert(image@ == sample_grad(weight@, grad@, *g, c_out as int, ni as int));
        }
        let ghost made = image@;
        out.append(&mut image);
        proof {
            assert(out@ =~= before + made);
            assert forall|x: int| 0 <= x < (ni + 1) * pixels implies #[trigger] out@[x]
                == want[x] by {
                if x >= ni * pixels {
                    let y = x - ni * pixels;
                    kernels::lemma_table_index(ni as int, n as int, y, pixels as int);
                    assert(out@[x] == made[y]);
                }
            }
        }
        ni += 1;
    }
    assert(out@ =~= want);
    out
}

/// The output gradient at the `m`-th stop of a channel over all samples.
pub open spec fn bias_term<S: Scalar>(grad: Seq<S>, c_out: int, stops: int, co: int, m: int) -> S {
    grad[(m / stops) * (c_out * stops) + (co * stops + m % stops)]
}

/// The gradient of the bias: for each channel the sum over all samples and
/// stops.
pub open spec fn bias_grad_result<S: Scalar>(grad: Seq<S>, n: int, c_out: int, stops: int) -> Seq<
    S,
> {
    Seq::new(
        c_out as nat,
        |co: int|
            kernels::sum_from(
                S::zero_val(),
                |m: int| bias_term(grad, c_out, stops, co, m),
                (n * stops) as nat,
            ),
    )
}

/// The gradient of the bias of a convolution.
pub fn conv_bias_grad<S: Scalar>(grad: &[S], n: usize, c_out: usize, stops: usize) -> (r: Vec<S>)
    requires
        grad@.len() == n * (c_out * stops),
        c_out * stops <= usize::MAX,
    ensures
        r@ == bias_grad_result(grad@, n as int, c_out as int, stops as int),
{
    let length: usize = grad.len();
    let ghost want = bias_grad_result(grad@, n as int, c_out as int, stops as int);
    let mut out: Vec<S> = Vec::with_capacity(c_out);
    let mut co: usize = 0;
    while co < c_out
        invariant
            length == grad@.len(),
            grad@.len() == n * (c_out * stops),
            c_out * stops <= usize::MAX,
            want == bias_grad_result(grad@, n as int, c_out as int, stops as int),
            co <= c_out,
            out@ == want.take(co as int),
        decreases c_out - co,
    {
        let ghost f = |m: int| bias_term(grad@, c_out as int, stops as int, co as int, m);
        proof {
            let block = c_out * stops;
            assert(n * stops <= n * block && 0 <= n * stops) by (nonlinear_arith)
                requires
                    block == c_out * stops,
                    c_out >= 1,
                    n >= 0,
                    stops >= 0,
            ;
        }
        let count: usize = n * stops;
        let block: usize = c_out * stops;
        let mut acc: S = S::zero();
        let mut m: usize = 0;
        while m < count
            invariant
                length == grad@.len(),
                grad@.len() == n * block,
                block == c_out * stops,
                count == n * stops,
                co < c_out,
                f == (|m: int| bias_term(grad@, c_out as int, stops as int, co as int, m)),
                m <= count,
                acc == kernels::sum_from(S::zero_val(), f, m as nat),
            decreases count - m,
        {
            proof {
                lemma_table(m as int, n as int, stops as int);
                kernels::lemma_table_index(
                    co as int,
                    c_out as int,
                    m as int % stops as int,
                    stops as int,
                );
                kernels::lemma_table_index(
                    m as int / stops as int,
                    n as int,
                    co * stops + m as int % stops as int,
                    block as int,
                );
            }
            acc = acc.add(grad[(m / stops) * block + (co * stops + m % stops)]);
            m += 1;
            assert(acc == kernels::sum_from(S::zero_val(), f, m as nat));
        }
        out.push(acc);
        assert(out@ =~= want.take(co + 1));
        co += 1;
    }
    assert(out@ =~= want);
    out
}

/// The largest of the pixels that the first `n` taps read at output `x`, and
/// its position; of equal ones the first.
pub open spec fn largest_of<S: Scalar>(input: Seq<S>, g: Window, x: int, n: nat) -> (S, int)
    decreases n,
{
    if n == 0 {
        (S::bottom(), 0)
    } else {
        let best = largest_of(input, g, x, (n - 1) as nat);
        match g.pixel(x / g.stops(), n - 1, x % g.stops()) {
            Some(p) => if best.0.below(input[p]) {
                (input[p], p)
            } else {
                best
            },
            None => best,
        }
    }
}

/// The pixel that tap `t` reads at output `x`, if it is not in the border.
pub open spec fn tapped(g: Window, x: int, t: int) -> Option<int> {
    g.pixel(x / g.stops(), t, x % g.stops())
}

/// Tap `t` is the first of `n` that reads a pixel of the largest value: no
/// pixel is larger, and those read before are smaller.
pub open spec fn first_largest<S: Scalar>(
    input: Seq<S>,
    g: Window,
    x: int,
    n: nat,
    t: int,
) -> bool {
    &&& 0 <= t < n
    &&& tapped(g, x, t) matches Some(p) && {
        &&& forall|u: int|
            0 <= u < n ==> (#[trigger] tapped(g, x, u) matches Some(q) ==> !input[p].below(
                input[q],
            ))
        &&& forall|u: int|
            0 <= u < t ==> (#[trigger] tapped(g, x, u) matches Some(q) ==> input[q].below(
                input[p],
            ))
    }
}

/// All pixels that the first `n` taps read are as low as a number can be.
pub open spec fn all_lowest<S: Scalar>(input: Seq<S>, g: Window, x: int, n: nat) -> bool {
    forall|u: int|
        0 <= u < n ==> (#[trigger] tapped(g, x, u) matches Some(q) ==> !S::bottom().below(input[q]))
}

/// The value that a maximum pooling gives is the largest of the pixels that
/// the window covers, and its position that of the first of these, if numbers
/// are ordered and have a lowest one. (Where no pixel is above the lowest
/// number, it is that number, at position 0.)
pub proof fn law_largest_is_maximum<S: Scalar>(input: Seq<S>, g: Window, x: int, n: nat)
    requires
        scalar::orders::<S>(),
        scalar::bounded::<S>(),
    ensures
        forall|u: int|
            0 <= u < n ==> (#[trigger] tapped(g, x, u) matches Some(q) ==> !largest_of(
                input,
                g,
                x,
                n,
            ).0.below(input[q])),
        all_lowest(input, g, x, n) ==> largest_of(input, g, x, n) == (S::bottom(), 0int),
        !all_lowest(input, g, x, n) ==> exists|t: int|
            #[trigger] first_largest(input, g, x, n, t) && tapped(g, x, t) == Some(
                largest_of(input, g, x, n).1,
            ) && largest_of(input, g, x, n).0 == input[largest_of(input, g, x, n).1],
    decreases n,
{
    if n > 0 {
        let m = (n - 1) as nat;
        law_largest_is_maximum(input, g, x, m);
        let old = largest_of(input, g, x, m);
        let new = largest_of(input, g, x, n);
        match tapped(g, x, n - 1) {
            Some(p) if old.0.below(input[p]) => {
                assert(S::bottom().below(input[p])) by {
                    assert(!old.0.below(S::bottom()));
                }
                assert forall|u: int| 0 <= u < m implies (#[trigger] tapped(g, x, u) matches Some(
                    q,
                ) ==> input[q].below(input[p])) by {
                    if tapped(g, x, u) is Some {
                        let q = tapped(g, x, u)->0;
                        assert(!old.0.below(input[q]));
                        if !input[q].below(input[p]) {
                            assert(!old.0.below(input[p]));
                        }
                    }
                }
                assert forall|u: int| 0 <= u < n implies (#[trigger] tapped(g, x, u) matches Some(
                    q,
                ) ==> !input[p].below(input[q])) by {
                    if u < m && tapped(g, x, u) is Some {
                        let q = tapped(g, x, u)->0;
                        assert(input[q].below(input[p]));
                        if input[p].below(input[q]) {
                            assert(input[q].below(input[q]));
                        }
                    }
                }
                assert(first_largest(input, g, x, n, m as int));
            },
            _ => {
                assert(new == old);
                if all_lowest(input, g, x, m) {
                    assert(all_lowest(input, g, x, n));
                } else {
                    let t = choose|t: int|
                        #[trigger] first_largest(input, g, x, m, t) && tapped(g, x, t) == Some(
                            old.1,
                        ) && old.0 == input[old.1];
                    assert(first_largest(input, g, x, n, t));
                    assert(!all_lowest(input, g, x, n)) by {
                        let u = choose|u: int|
                            0 <= u < m && (#[trigger] tapped(g, x, u) matches Some(q)
                                && S::bottom().below(input[q]));
                        assert(tapped(g, x, u) is Some);
                    }
                }
            },
        }
    }
}

/// The sum of the pixels that the first `n` taps read at output `x`, and
/// their number.
pub open spec fn total_of<S: Scalar>(input: Seq<S>, g: Window, x: int, n: nat) -> (S, nat)
    decreases n,
{
    if n == 0 {
        (S::zero_val(), 0)
    } else {
        let before = total_of(input, g, x, (n - 1) as nat);
        match g.pixel(x / g.stops(), n - 1, x % g.stops()) {
            Some(p) => (before.0.plus(input[p]), before.1 + 1),
            None => before,
        }
    }
}

/// The number of taps among the first `n` that read a pixel at output `x`.
pub open spec fn taps_inside(g: Window, x: int, n: nat) -> nat
    decreases n,
{
    if n == 0 {
        0
    } else {
        taps_inside(g, x, (n - 1) as nat) + if g.pixel(x / g.stops(), n - 1, x % g.stops()) is Some {
            1nat
        } else {
            0nat
        }
    }
}

pub proof fn lemma_total_count<S: Scalar>(input: Seq<S>, g: Window, x: int, n: nat)
    ensures
        total_of(input, g, x, n).1 == taps_inside(g, x, n),
        taps_inside(g, x, n) <= n,
    decreases n,
{
    if n > 0 {
        lemma_total_count(input, g, x, (n - 1) as nat);
    }
}

/// Everything that pooling divides by is positive.
proof fn lemma_output_split(g: Window, x: int, t: int)
    requires
        0 <= x < g.planes * g.stops(),
        0 <= t < g.taps(),
    ensures
        g.stops() > 0,
        g.w_out > 0,
        g.kw > 0,
        0 <= x / g.stops() < g.planes,
        0 <= x % g.stops() < g.stops(),
{
    lemma_counts(g);
    lemma_table(x, g.planes as int, g.stops());
    if g.w_out == 0 {
        assert(g.h_out * g.w_out == 0) by (nonlinear_arith)
            requires
                g.w_out == 0,
        ;
    }
    if g.kw == 0 {
        assert(g.kh * g.kw == 0) by (nonlinear_arith)
            requires
                g.kw == 0,
        ;
    }
}

/// Max-pooling of planes: the largest pixel under the window at each stop,
/// and the positions of the largest pixels.
pub fn max_pool<S: Scalar>(input: &[S], g: &Window) -> (r: (Vec<S>, Vec<usize>))
    requires
        g.fits(),
        input@.len() == g.pixels(),
        g.planes * g.stops() <= usize::MAX,
    ensures
        r.0@ == Seq::new(
            (g.planes * g.stops()) as nat,
            |x: int| largest_of(input@, *g, x, g.taps() as nat).0,
        ),
        r.1@ == Seq::new(
            (g.planes * g.stops()) as nat,
            |x: int| largest_of(input@, *g, x, g.taps() as nat).1 as usize,
        ),
{
    proof {
        lemma_counts(*g);
        lemma_mul_nonnegative(g.planes as int, g.stops());
    }
    let stops: usize = g.h_out * g.w_out;
    let taps: usize = g.kh * g.kw;
    let total: usize = g.planes * stops;
    let ghost tops = Seq::new(
        (g.planes * g.stops()) as nat,
        |x: int| largest_of(input@, *g, x, g.taps() as nat).0,
    );
    let ghost places = Seq::new(
        (g.planes * g.stops()) as nat,
        |x: int| largest_of(input@, *g, x, g.taps() as nat).1 as usize,
    );
    let mut values: Vec<S> = Vec::with_capacity(total);
    let mut indices: Vec<usize> = Vec::with_capacity(total);
    let mut x: usize = 0;
    while x < total
        invariant
            g.fits(),
            input@.len() == g.pixels(),
            stops == g.stops(),
            taps == g.taps(),
            total == g.planes * g.stops(),
            x <= total,
            tops == Seq::new(
                (g.planes * g.stops()) as nat,
                |x: int| largest_of(input@, *g, x, g.taps() as nat).0,
            ),
            places == Seq::new(
                (g.planes * g.stops()) as nat,
                |x: int| largest_of(input@, *g, x, g.taps() as nat).1 as usize,
            ),
            values@ == tops.take(x as int),
            indices@ == places.take(x as int),
        decreases total - x,
    {
        let mut best: S = S::lowest();
        let mut at: usize = 0;
        let mut t: usize = 0;
        while t < taps
            invariant
                g.fits(),
                input@.len() == g.pixels(),
                stops == g.stops(),
                taps == g.taps(),
                x < g.planes * g.stops(),
                t <= taps,
                (best, at as int) == largest_of(input@, *g, x as int, t as nat),
            decreases taps - t,
        {
            proof {
                lemma_output_split(*g, x as int, t as int);
            }
            match pixel_of(g, x / stops, t, x % stops) {
                Some(p) => {
                    let v: S = input[p];
                    if best.lt(v) {
                        best = v;
                        at = p;
                    }
                },
                None => {},
            }
            t += 1;
        }
        values.push(best);
        indices.push(at);
        assert(values@ =~= tops.take(x + 1));
        assert(indices@ =~= places.take(x + 1));
        x += 1;
    }
    assert(values@ =~= tops);
    assert(indices@ =~= places);
    (values, indices)
}

/// The mean of the pixels under the window at output `x`, or 0 if there are
/// none.
pub open spec fn mean_at<S: Scalar>(input: Seq<S>, g: Window, x: int) -> S {
    let (sum, count) = total_of(input, g, x, g.taps() as nat);
    if count > 0 {
        sum.over(S::of_count(count as usize))
    } else {
        S::zero_val()
    }
}

/// Average-pooling of planes: the mean of the pixels under the window at
/// each stop. The border does not count.
pub fn avg_pool<S: Scalar>(input: &[S], g: &Window) -> (r: Vec<S>)
    requires
        g.fits(),
        input@.len() == g.pixels(),
        g.planes * g.stops() <= usize::MAX,
    ensures
        r@ == Seq::new((g.planes * g.stops()) as nat, |x: int| mean_at(input@, *g, x)),
{
    proof {
        lemma_counts(*g);
        lemma_mul_nonnegative(g.planes as int, g.stops());
    }
    let stops: usize = g.h_out * g.w_out;
    let taps: usize = g.kh * g.kw;
    let total: usize = g.planes * stops;
    let ghost want = Seq::new((g.planes * g.stops()) as nat, |x: int| mean_at(input@, *g, x));
    let mut out: Vec<S> = Vec::with_capacity(total);
    let mut x: usize = 0;
    while x < total
        invariant
            g.fits(),
            input@.len() == g.pixels(),
            stops == g.stops(),
            taps == g.taps(),
            total == g.planes * g.stops(),
            x <= total,
            want == Seq::new((g.planes * g.stops()) as nat, |x: int| mean_at(input@, *g, x)),
            out@ == want.take(x as int),
        decreases total - x,
    {
        let mut sum: S = S::zero();
        let mut count: usize = 0;
        let mut t: usize = 0;
        while t < taps
            invariant
                g.fits(),
                input@.len() == g.pixels(),
                stops == g.stops(),
                taps == g.taps(),
                x < g.planes * g.stops(),
                t <= taps,
                (sum, count as nat) == total_of(input@, *g, x as int, t as nat),
                count <= t,
            decreases taps - t,
        {
            proof {
                lemma_output_split(*g, x as int, t as int);
            }
            match pixel_of(g, x / stops, t, x % stops) {
                Some(p) => {
                    sum = sum.add(input[p]);
                    count += 1;
                },
                None => {},
            }
            t += 1;
        }
        let mean: S = if count > 0 {
            sum.div(S::from_usize(count))
        } else {
            S::zero()
        };
        out.push(mean);
        assert(out@ =~= want.take(x + 1));
        x += 1;
    }
    assert(out@ =~= want);
    out
}

/// Where the gradient of an output of max-pooling goes.
pub open spec fn max_target(indices: Seq<usize>, size: int, outputs: int, o: int) -> Option<int> {
    if indices[o] < size && o < outputs {
        Some(indices[o] as int)
    } else {
        None
    }
}

/// The gradient of the input of max-pooling.
pub open spec fn max_pool_grad_result<S: Scalar>(
    grad: Seq<S>,
    indices: Seq<usize>,
    size: nat,
) -> Seq<S> {
    kernels::scatter_add(
        kernels::zeros_of(size),
        |o: int| max_target(indices, size as int, grad.len() as int, o),
        |o: int| grad[o],
        indices.len(),
    )
}

/// The gradient of the input of max-pooling: each output's gradient goes to
/// the position of its maximum.
pub fn max_pool_grad<S: Scalar>(grad: &[S], indices: &[usize], size: usize) -> (r: Vec<S>)
    ensures
        r@ == max_pool_grad_result(grad@, indices@, size as nat),
        r@.len() == size,
{
    let mut out: Vec<S> = zero_vec(size);
    let ghost zeros = out@;
    let ghost at = |o: int| max_target(indices@, size as int, grad@.len() as int, o);
    let ghost val = |o: int| grad@[o];
    let n: usize = indices.len();
    let outputs: usize = grad.len();
    let mut o: usize = 0;
    while o < n
        invariant
            n == indices@.len(),
            outputs == grad@.len(),
            at == (|o: int| max_target(indices@, size as int, grad@.len() as int, o)),
            val == (|o: int| grad@[o]),
            o <= n,
            out@ == kernels::scatter_add(zeros, at, val, o as nat),
            out@.len() == size,
        decreases n - o,
    {
        let i: usize = indices[o];
        if i < size && o < outputs {
            let sum: S = out[i].add(grad[o]);
            out[i] = sum;
        }
        o += 1;
    }
    out
}

/// The share of an output's gradient that each pixel under the window gets.
pub open spec fn share_of<S: Scalar>(grad: Seq<S>, g: Window, x: int) -> S {
    grad[x].times(S::one_val().over(S::of_count(taps_inside(g, x, g.taps() as nat) as usize)))
}

/// The gradient of the input of average-pooling.
pub open spec fn avg_pool_grad_result<S: Scalar>(grad: Seq<S>, g: Window) -> Seq<S> {
    kernels::scatter_add(
        kernels::zeros_of(g.pixels() as nat),
        |m: int| g.pixel((m / g.taps()) / g.stops(), m % g.taps(), (m / g.taps()) % g.stops()),
        |m: int| share_of(grad, g, m / g.taps()),
        (g.planes * g.stops() * g.taps()) as nat,
    )
}

/// The number of taps that read a pixel at an output.
fn count_inside(g: &Window, stops: usize, taps: usize, x: usize) -> (r: usize)
    requires
        g.fits(),
        stops == g.stops(),
        taps == g.taps(),
        x < g.planes * g.stops(),
    ensures
        r == taps_inside(*g, x as int, g.taps() as nat),
{
    let mut count: usize = 0;
    let mut t: usize = 0;
    while t < taps
        invariant
            g.fits(),
            stops == g.stops(),
            taps == g.taps(),
            x < g.planes * g.stops(),
            t <= taps,
            count == taps_inside(*g, x as int, t as nat),
            count <= t,
        decreases taps - t,
    {
        proof {
            lemma_output_split(*g, x as int, t as int);
        }
        if pixel_of(g, x / stops, t, x % stops).is_some() {
            count += 1;
        }
        t += 1;
    }
    count
}

/// The gradient of the input of average-pooling: each output's gradient is
/// distributed equally to the pixels under its window.
pub fn avg_pool_grad<S: Scalar>(grad: &[S], g: &Window) -> (r: Vec<S>)
    requires
        g.fits(),
        grad@.len() == g.planes * g.stops(),
    ensures
        r@ == avg_pool_grad_result(grad@, *g),
        r@.len() == g.pixels(),
{
    proof {
        lemma_counts(*g);
    }
    let outputs: usize = grad.len();
    let stops: usize = g.h_out * g.w_out;
    let taps: usize = g.kh * g.kw;
    let pixels: usize = g.planes * (g.h * g.w);
    let ghost at = |m: int|
        g.pixel((m / g.taps()) / g.stops(), m % g.taps(), (m / g.taps()) % g.stops());
    let ghost val = |m: int| share_of(grad@, *g, m / g.taps());
    let mut out: Vec<S> = zero_vec(pixels);
    let ghost zeros = out@;
    let mut x: usize = 0;
    while x < outputs
        invariant
            g.fits(),
            outputs == grad@.len(),
            grad@.len() == g.planes * g.stops(),
            stops == g.stops(),
            taps == g.taps(),
            pixels == g.pixels(),
            at == (|m: int|
                g.pixel((m / g.taps()) / g.stops(), m % g.taps(), (m / g.taps()) % g.stops())),
            val == (|m: int| share_of(grad@, *g, m / g.taps())),
            x <= outputs,
            x * g.taps() >= 0,
            out@ == kernels::scatter_add(zeros, at, val, (x * g.taps()) as nat),
            out@.len() == pixels,
        decreases outputs - x,
    {
        let count: usize = count_inside(g, stops, taps, x);
        let share: S = grad[x].mul(S::one().div(S::from_usize(count)));
        let mut t: usize = 0;
        while t < taps
            invariant
                g.fits(),
                outputs == grad@.len(),
                grad@.len() == g.planes * g.stops(),
                stops == g.stops(),
                taps == g.taps(),
                pixels == g.pixels(),
                x < outputs,
                at == (|m: int|
                    g.pixel((m / g.taps()) / g.stops(), m % g.taps(), (m / g.taps()) % g.stops())),
                val == (|m: int| share_of(grad@, *g, m / g.taps())),
                share == share_of(grad@, *g, x as int),
                t <= taps,
                x * g.taps() >= 0,
                out@ == kernels::scatter_add(zeros, at, val, (x * g.taps() + t) as nat),
                out@.len() == pixels,
            decreases taps - t,
        {
            proof {
                lemma_output_split(*g, x as int, t as int);
                kernels::lemma_table_index(x as int, outputs as int, t as int, taps as int);
            }
            let ghost m = x * g.taps() + t;
            assert(at(m) == g.pixel(x as int / g.stops(), t as int, x as int % g.stops()));
            assert(val(m) == share);
            match pixel_of(g, x / stops, t, x % stops) {
                Some(p) => {
                    let sum: S = out[p].add(share);
                    out[p] = sum;
                },
                None => {},
            }
            t += 1;
        }
        proof {
            lemma_mul_is_distributive_add_other_way(taps as int, x as int, 1);
        }
        x += 1;
    }
    out
}

} // verus!
