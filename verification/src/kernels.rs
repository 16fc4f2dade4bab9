//! Host-side kernels: matrix products, sliding windows, convolution and
//! pooling, and their gradients.
//!
//! Numbers are added in a fixed order, which the contracts state: the
//! arithmetic of a number type need not be associative.
use crate::scalar::Scalar;
use vstd::arithmetic::div_mod::*;
use vstd::arithmetic::mul::*;
use vstd::prelude::*;

verus! {

/// A number to which `f(0)`, `f(1)`, ..., `f(n - 1)` are added one by one.
pub open spec fn sum_from<S: Scalar>(acc: S, f: spec_fn(int) -> S, n: nat) -> S
    decreases n,
{
    if n == 0 {
        acc
    } else {
        sum_from(acc, f, (n - 1) as nat).plus(f(n - 1))
    }
}

/// A list to which values are added one by one: `val(0)` at the position
/// `at(0)`, and so on; a value without a position in the list is dropped.
pub open spec fn scatter_add<S: Scalar>(
    out: Seq<S>,
    at: spec_fn(int) -> Option<int>,
    val: spec_fn(int) -> S,
    n: nat,
) -> Seq<S>
    decreases n,
{
    if n == 0 {
        out
    } else {
        let before = scatter_add(out, at, val, (n - 1) as nat);
        match at(n - 1) {
            Some(p) => if 0 <= p < before.len() {
                before.update(p, before[p].plus(val(n - 1)))
            } else {
                before
            },
            None => before,
        }
    }
}

/// A list of zeros.
pub open spec fn zeros_of<S: Scalar>(n: nat) -> Seq<S> {
    Seq::new(n, |i: int| S::zero_val())
}

/// A position in a table of `m` rows of `n` entries.
pub proof fn lemma_table_index(i: int, m: int, j: int, n: int)
    requires
        0 <= i < m,
        0 <= j < n,
    ensures
        0 <= i * n + j < m * n,
        (i * n + j) / n == i,
        (i * n + j) % n == j,
        i * n >= 0,
{
    lemma_mul_inequality(i + 1, m, n);
    lemma_mul_is_distributive_add_other_way(n, i, 1);
    lemma_mul_nonnegative(i, n);
    lemma_fundamental_div_mod_converse(i * n + j, n, i, j);
}

/// The row and the entry of a position in a table.
pub proof fn lemma_table_split(x: int, m: int, n: int)
    requires
        0 <= x < m * n,
        0 <= n,
        0 <= m,
    ensures
        0 < n,
        0 < m,
        0 <= x / n < m,
        0 <= x % n < n,
        x == (x / n) * n + x % n,
{
    if n == 0 {
        assert(m * n == 0) by (nonlinear_arith)
            requires
                n == 0,
        ;
    }
    lemma_fundamental_div_mod(x, n);
    lemma_mod_bound(x, n);
    lemma_mul_is_commutative(n, x / n);
    lemma_div_pos_is_pos(x, n);
    let q = x / n;
    assert(q < m) by (nonlinear_arith)
        requires
            q * n <= x,
            x < m * n,
            n > 0,
    ;
}

/// A vector of zeros.
pub fn zero_vec<S: Scalar>(n: usize) -> (r: Vec<S>)
    ensures
        r@ == zeros_of::<S>(n as nat),
{
    let mut out: Vec<S> = Vec::with_capacity(n);
    let mut i: usize = 0;
    while i < n
        invariant
            i <= n,
            out@ == zeros_of::<S>(i as nat),
        decreases n - i,
    {
        out.push(S::zero());
        i += 1;
        assert(out@ =~= zeros_of::<S>(i as nat));
    }
    out
}

/// One term of an entry of A times B.
pub open spec fn gemm_term<S: Scalar>(a: Seq<S>, b: Seq<S>, n: int, k: int, x: int, p: int) -> S {
    a[(x / n) * k + p].times(b[p * n + x % n])
}

/// C + A times B: each entry is increased by the terms in order.
pub open spec fn gemm_result<S: Scalar>(
    a: Seq<S>,
    b: Seq<S>,
    c: Seq<S>,
    m: int,
    n: int,
    k: int,
) -> Seq<S> {
    Seq::new(
        (m * n) as nat,
        |x: int| sum_from(c[x], |p: int| gemm_term(a, b, n, k, x, p), k as nat),
    )
}

/// General matrix multiply: C += A times B.
///
/// A is [m, k], B is [k, n] and C is [m, n], all row-major.
pub fn gemm<S: Scalar>(a: &[S], b: &[S], c: &mut Vec<S>, m: usize, n: usize, k: usize)
    requires
        a@.len() == m * k,
        b@.len() == k * n,
        old(c)@.len() == m * n,
    ensures
        final(c)@ == gemm_result(a@, b@, old(c)@, m as int, n as int, k as int),
{
    let ghost c0 = c@;
    let ghost want = gemm_result(a@, b@, c0, m as int, n as int, k as int);
    let total: usize = c.len();
    let la: usize = a.len();
    let lb: usize = b.len();
    let mut x: usize = 0;
    while x < total
        invariant
            a@.len() == la == m * k,
            b@.len() == lb == k * n,
            c0.len() == m * n,
            total == m * n,
            c@.len() == total,
            x <= total,
            want == gemm_result(a@, b@, c0, m as int, n as int, k as int),
            forall|y: int| 0 <= y < x ==> #[trigger] c@[y] == want[y],
            forall|y: int| x <= y < total ==> #[trigger] c@[y] == c0[y],
        decreases total - x,
    {
        proof {
            lemma_table_split(x as int, m as int, n as int);
        }
        let i: usize = x / n;
        let j: usize = x % n;
        let ghost f = |p: int| gemm_term(a@, b@, n as int, k as int, x as int, p);
        let mut acc: S = c[x];
        let mut p: usize = 0;
        while p < k
            invariant
                a@.len() == la == m * k,
                b@.len() == lb == k * n,
                p <= k,
                i < m,
                j < n,
                i == x as int / n as int,
                j == x as int % n as int,
                f == (|p: int| gemm_term(a@, b@, n as int, k as int, x as int, p)),
                acc == sum_from(c0[x as int], f, p as nat),
            decreases k - p,
        {
            proof {
                lemma_table_index(i as int, m as int, p as int, k as int);
                lemma_table_index(p as int, k as int, j as int, n as int);
            }
            acc = acc.add(a[i * k + p].mul(b[p * n + j]));
            p += 1;
            assert(acc == sum_from(c0[x as int], f, p as nat));
        }
        c[x] = acc;
        assert(acc == want[x as int]);
        x += 1;
    }
    assert(c@ =~= want);
}

/// One term of an entry of A transposed times B.
pub open spec fn gemm_at_b_term<S: Scalar>(a: Seq<S>, b: Seq<S>, m: int, n: int, x: int, p: int) -> S {
    a[p * m + x / n].times(b[p * n + x % n])
}

/// C + A transposed times B.
pub open spec fn gemm_at_b_result<S: Scalar>(
    a: Seq<S>,
    b: Seq<S>,
    c: Seq<S>,
    m: int,
    n: int,
    k: int,
) -> Seq<S> {
    Seq::new(
        (m * n) as nat,
        |x: int| sum_from(c[x], |p: int| gemm_at_b_term(a, b, m, n, x, p), k as nat),
    )
}

/// C += A transposed times B.
///
/// A is [k, m], B is [k, n] and C is [m, n].
pub fn gemm_at_b<S: Scalar>(a: &[S], b: &[S], c: &mut Vec<S>, m: usize, n: usize, k: usize)
    requires
        a@.len() == k * m,
        b@.len() == k * n,
        old(c)@.len() == m * n,
    ensures
        final(c)@ == gemm_at_b_result(a@, b@, old(c)@, m as int, n as int, k as int),
{
    let ghost c0 = c@;
    let ghost want = gemm_at_b_result(a@, b@, c0, m as int, n as int, k as int);
    let total: usize = c.len();
    let la: usize = a.len();
    let lb: usize = b.len();
    let mut x: usize = 0;
    while x < total
        invariant
            a@.len() == la == k * m,
            b@.len() == lb == k * n,
            c0.len() == m * n,
            total == m * n,
            c@.len() == total,
            x <= total,
            want == gemm_at_b_result(a@, b@, c0, m as int, n as int, k as int),
            forall|y: int| 0 <= y < x ==> #[trigger] c@[y] == want[y],
            forall|y: int| x <= y < total ==> #[trigger] c@[y] == c0[y],
        decreases total - x,
    {
        proof {
            lemma_table_split(x as int, m as int, n as int);
        }
        let i: usize = x / n;
        let j: usize = x % n;
        let ghost f = |p: int| gemm_at_b_term(a@, b@, m as int, n as int, x as int, p);
        let mut acc: S = c[x];
        let mut p: usize = 0;
        while p < k
            invariant
                a@.len() == la == k * m,
                b@.len() == lb == k * n,
                p <= k,
                i < m,
                j < n,
                i == x as int / n as int,
                j == x as int % n as int,
                f == (|p: int| gemm_at_b_term(a@, b@, m as int, n as int, x as int, p)),
                acc == sum_from(c0[x as int], f, p as nat),
            decreases k - p,
        {
            proof {
                lemma_table_index(p as int, k as int, i as int, m as int);
                lemma_table_index(p as int, k as int, j as int, n as int);
            }
            acc = acc.add(a[p * m + i].mul(b[p * n + j]));
            p += 1;
            assert(acc == sum_from(c0[x as int], f, p as nat));
        }
        c[x] = acc;
        assert(acc == want[x as int]);
        x += 1;
    }
    assert(c@ =~= want);
}

/// One term of an entry of A times B transposed.
pub open spec fn gemm_a_bt_term<S: Scalar>(a: Seq<S>, b: Seq<S>, n: int, k: int, x: int, p: int) -> S {
    a[(x / n) * k + p].times(b[(x % n) * k + p])
}

/// C + A times B transposed: each entry is increased by the sum of its
/// terms.
pub open spec fn gemm_a_bt_result<S: Scalar>(
    a: Seq<S>,
    b: Seq<S>,
    c: Seq<S>,
    m: int,
    n: int,
    k: int,
) -> Seq<S> {
    Seq::new(
        (m * n) as nat,
        |x: int|
            c[x].plus(
                sum_from(S::zero_val(), |p: int| gemm_a_bt_term(a, b, n, k, x, p), k as nat),
            ),
    )
}

/// C += A times B transposed.
///
/// A is [m, k], B is [n, k] and C is [m, n].
pub fn gemm_a_bt<S: Scalar>(a: &[S], b: &[S], c: &mut Vec<S>, m: usize, n: usize, k: usize)
    requires
        a@.len() == m * k,
        b@.len() == n * k,
        old(c)@.len() == m * n,
    ensures
        final(c)@ == gemm_a_bt_result(a@, b@, old(c)@, m as int, n as int, k as int),
{
    let ghost c0 = c@;
    let ghost want = gemm_a_bt_result(a@, b@, c0, m as int, n as int, k as int);
    let total: usize = c.len();
    let la: usize = a.len();
    let lb: usize = b.len();
    let mut x: usize = 0;
    while x < total
        invariant
            a@.len() == la == m * k,
            b@.len() == lb == n * k,
            c0.len() == m * n,
            total == m * n,
            c@.len() == total,
            x <= total,
            want == gemm_a_bt_result(a@, b@, c0, m as int, n as int, k as int),
            forall|y: int| 0 <= y < x ==> #[trigger] c@[y] == want[y],
            forall|y: int| x <= y < total ==> #[trigger] c@[y] == c0[y],
        decreases total - x,
    {
        proof {
            lemma_table_split(x as int, m as int, n as int);
        }
        let i: usize = x / n;
        let j: usize = x % n;
        let ghost f = |p: int| gemm_a_bt_term(a@, b@, n as int, k as int, x as int, p);
        let mut acc: S = S::zero();
        let mut p: usize = 0;
        while p < k
            invariant
                a@.len() == la == m * k,
                b@.len() == lb == n * k,
                p <= k,
                i < m,
                j < n,
                i == x as int / n as int,
                j == x as int % n as int,
                f == (|p: int| gemm_a_bt_term(a@, b@, n as int, k as int, x as int, p)),
                acc == sum_from(S::zero_val(), f, p as nat),
            decreases k - p,
        {
            proof {
                lemma_table_index(i as int, m as int, p as int, k as int);
                lemma_table_index(j as int, n as int, p as int, k as int);
            }
            acc = acc.add(a[i * k + p].mul(b[j * k + p]));
            p += 1;
            assert(acc == sum_from(S::zero_val(), f, p as nat));
        }
        c[x] = c[x].add(acc);
        assert(c@[x as int] == want[x as int]);
        x += 1;
    }
    assert(c@ =~= want);
}

/// A sliding window: `planes` images of `h` by `w`, a kernel of `kh` by `kw`
/// that moves in steps of `sh` and `sw` over the images with a border of
/// `ph` and `pw`, and `h_out` by `w_out` places that it stops at.
#[derive(Debug, Clone, Copy)]
pub struct Window {
    pub planes: usize,
    pub h: usize,
    pub w: usize,
    pub kh: usize,
    pub kw: usize,
    pub sh: usize,
    pub sw: usize,
    pub ph: usize,
    pub pw: usize,
    pub h_out: usize,
    pub w_out: usize,
}

/// The coordinate that tap `k` of a window at stop `o` reads, if it lies in
/// the image and not in its border.
pub open spec fn axis_at(o: int, stride: int, k: int, pad: int, size: int) -> Option<int> {
    let i = o * stride + k - pad;
    if 0 <= i < size {
        Some(i)
    } else {
        None
    }
}

impl Window {
    /// The number of places the window stops at.
    pub open spec fn stops(self) -> int {
        self.h_out * self.w_out
    }

    /// The number of taps of the kernel.
    pub open spec fn taps(self) -> int {
        self.kh * self.kw
    }

    /// The number of kernel entries over all planes.
    pub open spec fn rows(self) -> int {
        self.planes * self.taps()
    }

    /// The number of pixels of all planes.
    pub open spec fn pixels(self) -> int {
        self.planes * (self.h * self.w)
    }

    /// The pixel of a plane that tap `t` reads at stop `j`, if it is not in
    /// the border.
    pub open spec fn pixel(self, plane: int, t: int, j: int) -> Option<int> {
        match (
            axis_at(
                j / (self.w_out as int),
                self.sh as int,
                t / (self.kw as int),
                self.ph as int,
                self.h as int,
            ),
            axis_at(
                j % (self.w_out as int),
                self.sw as int,
                t % (self.kw as int),
                self.pw as int,
                self.w as int,
            ),
        ) {
            (Some(ih), Some(iw)) => Some(plane * (self.h * self.w) + (ih * self.w + iw)),
            _ => None,
        }
    }

    /// The pixel that entry `q` of the column matrix comes from: row by row
    /// the planes and taps, in a row the stops.
    pub open spec fn source(self, q: int) -> Option<int> {
        let row = q / self.stops();
        self.pixel(row / self.taps(), row % self.taps(), q % self.stops())
    }

    /// All counts are machine numbers.
    pub open spec fn fits(self) -> bool {
        &&& self.stops() <= usize::MAX
        &&& self.taps() <= usize::MAX
        &&& self.h * self.w <= usize::MAX
        &&& self.rows() <= usize::MAX
        &&& self.pixels() <= usize::MAX
        &&& self.rows() * self.stops() <= usize::MAX
    }
}

/// The coordinate that a tap reads.
fn axis(o: usize, stride: usize, k: usize, pad: usize, size: usize) -> (r: Option<usize>)
    ensures
        match r {
            Some(i) => axis_at(o as int, stride as int, k as int, pad as int, size as int) == Some(
                i as int,
            ),
            None => axis_at(
                o as int,
                stride as int,
                k as int,
                pad as int,
                size as int,
            ) is None,
        },
{
    assert(o * stride <= 0xffff_ffff_ffff_ffff * 0xffff_ffff_ffff_ffff) by (nonlinear_arith)
        requires
            0 <= o <= 0xffff_ffff_ffff_ffff,
            0 <= stride <= 0xffff_ffff_ffff_ffff,
    ;
    proof {
        lemma_mul_nonnegative(o as int, stride as int);
    }
    let at: u128 = o as u128 * stride as u128 + k as u128;
    if at < pad as u128 {
        return None;
    }
    let i: u128 = at - pad as u128;
    if i < size as u128 {
        Some(i as usize)
    } else {
        None
    }
}

/// The first pixel of a plane and all of its pixels are machine numbers.
proof fn lemma_plane_bound(g: Window, plane: int, ih: int, iw: int)
    requires
        0 <= plane < g.planes,
        0 <= ih < g.h,
        0 <= iw < g.w,
        g.pixels() <= usize::MAX,
    ensures
        0 <= ih * g.w + iw < g.h * g.w <= usize::MAX,
        0 <= plane * (g.h * g.w) <= plane * (g.h * g.w) + (ih * g.w + iw) < g.pixels(),
        ih * g.w >= 0,
{
    lemma_table_index(ih, g.h as int, iw, g.w as int);
    let size = g.h * g.w;
    lemma_table_index(plane, g.planes as int, ih * g.w + iw, size);
    assert(size <= g.planes * size) by (nonlinear_arith)
        requires
            g.planes >= 1,
            size >= 0,
    ;
}

/// A pixel that a tap reads lies in its plane.
pub proof fn lemma_pixel_bound(g: Window, plane: int, t: int, j: int)
    requires
        0 <= plane < g.planes,
        g.pixels() <= usize::MAX,
    ensures
        g.pixel(plane, t, j) matches Some(p) ==> 0 <= p < g.pixels(),
{
    match (
        axis_at(
            j / (g.w_out as int),
            g.sh as int,
            t / (g.kw as int),
            g.ph as int,
            g.h as int,
        ),
        axis_at(
            j % (g.w_out as int),
            g.sw as int,
            t % (g.kw as int),
            g.pw as int,
            g.w as int,
        ),
    ) {
        (Some(ih), Some(iw)) => {
            lemma_plane_bound(g, plane, ih, iw);
        },
        _ => {},
    }
}

/// The pixel of a plane that tap `t` reads at stop `j`.
pub(crate) fn pixel_of(g: &Window, plane: usize, t: usize, j: usize) -> (r: Option<usize>)
    requires
        plane < g.planes,
        g.pixels() <= usize::MAX,
        g.w_out > 0,
        g.kw > 0,
    ensures
        match r {
            Some(p) => g.pixel(plane as int, t as int, j as int) == Some(p as int) && p
                < g.pixels(),
            None => g.pixel(plane as int, t as int, j as int) is None,
        },
{
    match axis(j / g.w_out, g.sh, t / g.kw, g.ph, g.h) {
        None => None,
        Some(ih) => match axis(j % g.w_out, g.sw, t % g.kw, g.pw, g.w) {
            None => None,
            Some(iw) => {
                proof {
                    lemma_plane_bound(*g, plane as int, ih as int, iw as int);
                }
                Some(plane * (g.h * g.w) + (ih * g.w + iw))
            },
        },
    }
}

/// The planes and taps of a column entry.
pub proof fn lemma_source_split(g: Window, q: int)
    requires
        g.fits(),
        0 <= q < g.rows() * g.stops(),
    ensures
        g.stops() > 0,
        g.taps() > 0,
        g.w_out > 0,
        g.kw > 0,
        0 <= q / g.stops() < g.rows(),
        0 <= q / g.stops() / g.taps() < g.planes,
        0 <= q / g.stops() % g.taps() < g.taps(),
        0 <= q % g.stops() < g.stops(),
        g.source(q) matches Some(p) ==> 0 <= p < g.pixels(),
{
    lemma_mul_nonnegative(g.h_out as int, g.w_out as int);
    lemma_mul_nonnegative(g.kh as int, g.kw as int);
    lemma_mul_nonnegative(g.planes as int, g.taps());
    lemma_table_split(q, g.rows(), g.stops());
    lemma_table_split(q / g.stops(), g.planes as int, g.taps());
    if g.w_out == 0 {
        assert(g.h_out * g.w_out == 0) by (nonlinear_arith)
            requires
                g.w_out == 0,
        ;
    }
    if g.kw == 0 {
        assert(g.kh * g.kw == 0) by (nonlinear_arith)
            requires
                g.kw == 0,
        ;
    }
    lemma_pixel_bound(g, q / g.stops() / g.taps(), q / g.stops() % g.taps(), q % g.stops());
}

/// The pixel that a column entry comes from.
fn source_of(g: &Window, stops: usize, taps: usize, q: usize) -> (r: Option<usize>)
    requires
        g.fits(),
        stops == g.stops(),
        taps == g.taps(),
        q < g.rows() * g.stops(),
    ensures
        match r {
            Some(p) => g.source(q as int) == Some(p as int) && p < g.pixels(),
            None => g.source(q as int) is None,
        },
{
    proof {
        lemma_source_split(*g, q as int);
    }
    let row: usize = q / stops;
    pixel_of(g, row / taps, row % taps, q % stops)
}

/// The entry of the column matrix of an image.
pub open spec fn column_at<S: Scalar>(image: Seq<S>, first: int, g: Window, q: int) -> S {
    match g.source(q) {
        Some(p) => image[first + p],
        None => S::zero_val(),
    }
}

/// The column matrix of an image.
pub open spec fn columns_of<S: Scalar>(image: Seq<S>, first: int, g: Window) -> Seq<S> {
    Seq::new((g.rows() * g.stops()) as nat, |q: int| column_at(image, first, g, q))
}

/// Extract all sliding-window patches of a sample, which starts at `first`:
/// one row for each plane and tap, one column for each stop. The border
/// reads as 0.
pub fn im2col<S: Scalar>(image: &[S], first: usize, g: &Window) -> (r: Vec<S>)
    requires
        g.fits(),
        first + g.pixels() <= image@.len(),
    ensures
        r@ == columns_of(image@, first as int, *g),
{
    proof {
        lemma_mul_nonnegative(g.h_out as int, g.w_out as int);
        lemma_mul_nonnegative(g.kh as int, g.kw as int);
        lemma_mul_nonnegative(g.planes as int, g.taps());
        lemma_mul_nonnegative(g.rows(), g.stops());
    }
    let length: usize = image.len();
    let stops: usize = g.h_out * g.w_out;
    let taps: usize = g.kh * g.kw;
    let rows: usize = g.planes * taps;
    let total: usize = rows * stops;
    let mut out: Vec<S> = Vec::with_capacity(total);
    let mut q: usize = 0;
    while q < total
        invariant
            g.fits(),
            stops == g.stops(),
            taps == g.taps(),
            rows == g.rows(),
            total == g.rows() * g.stops(),
            length == image@.len(),
            first + g.pixels() <= image@.len(),
            q <= total,
            out@ == columns_of(image@, first as int, *g).take(q as int),
        decreases total - q,
    {
        let value: S = match source_of(g, stops, taps, q) {
            Some(p) => image[first + p],
            None => S::zero(),
        };
        out.push(value);
        assert(out@ =~= columns_of(image@, first as int, *g).take(q + 1));
        q += 1;
    }
    assert(out@ =~= columns_of(image@, first as int, *g));
    out
}

/// The image that a column matrix adds up to: each entry is added to the
/// pixel that it comes from.
pub open spec fn image_of<S: Scalar>(columns: Seq<S>, image: Seq<S>, g: Window) -> Seq<S> {
    scatter_add(image, |q: int| g.source(q), |q: int| columns[q], (g.rows() * g.stops()) as nat)
}

/// Scatter columns back into an image: overlapping contributions are added
/// to what the image holds.
pub fn col2im<S: Scalar>(columns: &[S], image: &mut Vec<S>, g: &Window)
    requires
        g.fits(),
        columns@.len() == g.rows() * g.stops(),
        old(image)@.len() == g.pixels(),
    ensures
        final(image)@ == image_of(columns@, old(image)@, *g),
        final(image)@.len() == g.pixels(),
{
    let ghost image0 = image@;
    let ghost at = |q: int| g.source(q);
    let ghost val = |q: int| columns@[q];
    proof {
        lemma_mul_nonnegative(g.h_out as int, g.w_out as int);
        lemma_mul_nonnegative(g.kh as int, g.kw as int);
    }
    let stops: usize = g.h_out * g.w_out;
    let taps: usize = g.kh * g.kw;
    let total: usize = columns.len();
    let mut q: usize = 0;
    while q < total
        invariant
            g.fits(),
            stops == g.stops(),
            taps == g.taps(),
            total == g.rows() * g.stops(),
            total == columns@.len(),
            at == (|q: int| g.source(q)),
            val == (|q: int| columns@[q]),
            q <= total,
            image@ == scatter_add(image0, at, val, q as nat),
            image@.len() == g.pixels(),
        decreases total - q,
    {
        match source_of(g, stops, taps, q) {
            Some(p) => {
                let sum: S = image[p].add(columns[q]);
                image[p] = sum;
            },
            None => {},
        }
        q += 1;
    }
}

/// Tap `(ki, kj)` of plane `ci` at stop `(oh, ow)` reads the pixel
/// `(oh * sh + ki - ph, ow * sw + kj - pw)` of the plane, or the border.
pub proof fn law_column_entry(g: Window, ci: int, ki: int, kj: int, oh: int, ow: int)
    requires
        0 <= ci < g.planes,
        0 <= ki < g.kh,
        0 <= kj < g.kw,
        0 <= oh < g.h_out,
        0 <= ow < g.w_out,
    ensures
        ({
            let q = (ci * g.taps() + (ki * g.kw + kj)) * g.stops() + (oh * g.w_out + ow);
            let ih = oh * g.sh + ki - g.ph;
            let iw = ow * g.sw + kj - g.pw;
            &&& 0 <= q < g.rows() * g.stops()
            &&& g.source(q) == if 0 <= ih < g.h && 0 <= iw < g.w {
                Some(ci * (g.h * g.w) + (ih * g.w + iw))
            } else {
                None
            }
        }),
{
    let t = ki * g.kw + kj;
    let j = oh * g.w_out + ow;
    lemma_table_index(ki, g.kh as int, kj, g.kw as int);
    lemma_table_index(oh, g.h_out as int, ow, g.w_out as int);
    lemma_table_index(ci, g.planes as int, t, g.taps());
    lemma_table_index(ci * g.taps() + t, g.rows(), j, g.stops());
}

/// Entry `(i, j)` of a matrix product is what was there plus row `i` of the first
/// matrix times column `j` of the second; of the product with the first matrix
/// transposed, plus its column `i` times column `j`; of the product with the second
/// transposed, plus row `i` times its row `j`.
pub proof fn law_matrix_entries<S: Scalar>(
    a: Seq<S>,
    b: Seq<S>,
    c: Seq<S>,
    m: int,
    n: int,
    k: nat,
    i: int,
    j: int,
)
    requires
        0 <= i < m,
        0 <= j < n,
    ensures
        0 <= i * n + j < m * n,
        gemm_result(a, b, c, m, n, k as int)[i * n + j] == sum_from(
            c[i * n + j],
            |p: int| a[i * k + p].times(b[p * n + j]),
            k,
        ),
        gemm_at_b_result(a, b, c, m, n, k as int)[i * n + j] == sum_from(
            c[i * n + j],
            |p: int| a[p * m + i].times(b[p * n + j]),
            k,
        ),
        gemm_a_bt_result(a, b, c, m, n, k as int)[i * n + j] == c[i * n + j].plus(
            sum_from(S::zero_val(), |p: int| a[i * k + p].times(b[j * k + p]), k),
        ),
{
    lemma_table_index(i, m, j, n);
    let x = i * n + j;
    assert((|p: int| gemm_term(a, b, n, k as int, x, p)) =~= (|p: int|
        a[i * k + p].times(b[p * n + j])));
    assert((|p: int| gemm_at_b_term(a, b, m, n, x, p)) =~= (|p: int|
        a[p * m + i].times(b[p * n + j])));
    assert((|p: int| gemm_a_bt_term(a, b, n, k as int, x, p)) =~= (|p: int|
        a[i * k + p].times(b[j * k + p])));
}

} // verus!
