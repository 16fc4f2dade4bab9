//! What the elements of created tensors are.
use crate::backend::Backend;
use crate::dtype::DType;
use crate::elements;
use crate::error::{Error, Result};
use crate::model;
use crate::nd;
use crate::numeric;
use crate::scalar::Scalar;
use crate::shape::Shape;
use crate::sums;
use crate::tensor::{self, Tensor};
use vstd::arithmetic::div_mod::*;
use vstd::arithmetic::mul::*;
use vstd::prelude::*;

verus! {

/// The position of an element of a matrix.
proof fn lemma_matrix_place(i: usize, j: usize, n: usize, m: usize)
    requires
        i < n,
        j < m,
    ensures
        nd::in_bounds(seq![i, j], seq![n, m]),
        model::place(seq![i, j], seq![n, m]) == i * m + j,
        nd::product(seq![n, m]) == n * m,
        (i * m + j) / m as int == i,
        (i * m + j) % m as int == j,
        0 <= i * m + j < n * m,
{
    let d = seq![n, m];
    let index = seq![i, j];
    let s = nd::row_major(d);
    assert(d.skip(1) =~= seq![m]);
    assert(d.skip(2) =~= seq![]);
    assert(seq![m].skip(1) =~= seq![]);
    assert(nd::product(seq![m]) == m as nat * nd::product(seq![m].skip(1)));
    assert(nd::product(seq![m].skip(1)) == 1);
    lemma_mul_basics(m as int);
    assert(nd::product(d.skip(2)) == 1);
    assert(s[0] == m && s[1] == 1);
    assert(index.skip(1) =~= seq![j] && s.skip(1) =~= seq![1usize]);
    assert(seq![j].skip(1) =~= seq![] && seq![1usize].skip(1) =~= seq![]);
    assert(nd::dot(seq![j], seq![1usize]) == j as nat * 1 + nd::dot(
        seq![j].skip(1),
        seq![1usize].skip(1),
    ));
    assert(nd::dot(index, s) == i as nat * m as nat + nd::dot(index.skip(1), s.skip(1)));
    lemma_fundamental_div_mod_converse(i * m + j, m as int, i as int, j as int);
    lemma_mul_is_commutative(i as int, m as int);
    assert(i * m + j < n * m) by (nonlinear_arith)
        requires
            i < n,
            j < m,
    ;
    lemma_mul_nonnegative(i as int, m as int);
}

/// The position of an element of a vector.
proof fn lemma_vector_place(i: usize, n: usize)
    requires
        i < n,
    ensures
        nd::in_bounds(seq![i], seq![n]),
        model::place(seq![i], seq![n]) == i,
        nd::product(seq![n]) == n,
{
    let d = seq![n];
    let s = nd::row_major(d);
    assert(d.skip(1) =~= seq![]);
    assert(s[0] == 1);
    assert(seq![i].skip(1) =~= seq![] && s.skip(1) =~= seq![]);
    assert(nd::dot(seq![i], s) == i as nat * 1 + nd::dot(seq![i].skip(1), s.skip(1)));
    assert(nd::product(d) == n as nat * nd::product(d.skip(1)));
}

/// The element in row `i` and column `j` of a lower triangular mask is 1 if it
/// stands on or below the diagonal that is asked for, else 0.
pub proof fn law_tril_elements<B: Backend>(
    at: spec_fn(B::Storage, nat) -> B::Scalar,
    n: usize,
    m: usize,
    diagonal: i64,
    dtype: DType,
    device: B::Device,
    t: Tensor<B>,
    i: usize,
    j: usize,
)
    requires
        model::stores::<B>(at),
        call_ensures(
            Tensor::tril,
            (n, m, diagonal, dtype, &device),
            Ok::<Tensor<B>, Error>(t),
        ),
        i < n,
        j < m,
    ensures
        t@.dims() == seq![n, m],
        j <= i + diagonal ==> elements::element_is(
            at,
            t,
            seq![i, j],
            <B::Scalar as Scalar>::one_val(),
        ),
        j > i + diagonal ==> elements::element_is(
            at,
            t,
            seq![i, j],
            <B::Scalar as Scalar>::zero_val(),
        ),
{
    lemma_matrix_place(i, j, n, m);
    let data = numeric::triangle::<B::Scalar>(n as int, m as int, diagonal as int, false);
    model::lemma_uploaded(at, data, seq![n, m], dtype, device, t, seq![i, j]);
}

/// The element in row `i` and column `j` of an upper triangular mask is 1 if it
/// stands on or above the diagonal that is asked for, else 0.
pub proof fn law_triu_elements<B: Backend>(
    at: spec_fn(B::Storage, nat) -> B::Scalar,
    n: usize,
    m: usize,
    diagonal: i64,
    dtype: DType,
    device: B::Device,
    t: Tensor<B>,
    i: usize,
    j: usize,
)
    requires
        model::stores::<B>(at),
        call_ensures(
            Tensor::triu,
            (n, m, diagonal, dtype, &device),
            Ok::<Tensor<B>, Error>(t),
        ),
        i < n,
        j < m,
    ensures
        t@.dims() == seq![n, m],
        j >= i + diagonal ==> elements::element_is(
            at,
            t,
            seq![i, j],
            <B::Scalar as Scalar>::one_val(),
        ),
        j < i + diagonal ==> elements::element_is(
            at,
            t,
            seq![i, j],
            <B::Scalar as Scalar>::zero_val(),
        ),
{
    lemma_matrix_place(i, j, n, m);
    let data = numeric::triangle::<B::Scalar>(n as int, m as int, diagonal as int, true);
    model::lemma_uploaded(at, data, seq![n, m], dtype, device, t, seq![i, j]);
}

/// A lower triangular mask and the upper one from the next diagonal on are
/// complementary: at each position exactly one of them is 1, the other 0.
pub proof fn law_triangles_complement<B: Backend>(
    at: spec_fn(B::Storage, nat) -> B::Scalar,
    n: usize,
    m: usize,
    diagonal: i64,
    next: i64,
    dtype: DType,
    device: B::Device,
    lower: Tensor<B>,
    upper: Tensor<B>,
    i: usize,
    j: usize,
) -> (r: (B::Scalar, B::Scalar))
    requires
        model::stores::<B>(at),
        next == diagonal + 1,
        call_ensures(
            Tensor::tril,
            (n, m, diagonal, dtype, &device),
            Ok::<Tensor<B>, Error>(lower),
        ),
        call_ensures(
            Tensor::triu,
            (n, m, next, dtype, &device),
            Ok::<Tensor<B>, Error>(upper),
        ),
        i < n,
        j < m,
    ensures
        elements::element_is(at, lower, seq![i, j], r.0),
        elements::element_is(at, upper, seq![i, j], r.1),
        (r.0 == <B::Scalar as Scalar>::one_val() && r.1 == <B::Scalar as Scalar>::zero_val()) || (
        r.0 == <B::Scalar as Scalar>::zero_val() && r.1 == <B::Scalar as Scalar>::one_val()),
{
    law_tril_elements(at, n, m, diagonal, dtype, device, lower, i, j);
    law_triu_elements(at, n, m, next, dtype, device, upper, i, j);
    if j <= i + diagonal {
        (<B::Scalar as Scalar>::one_val(), <B::Scalar as Scalar>::zero_val())
    } else {
        (<B::Scalar as Scalar>::zero_val(), <B::Scalar as Scalar>::one_val())
    }
}

/// The identity matrix is 1 on the diagonal and 0 elsewhere.
pub proof fn law_eye_elements<B: Backend>(
    at: spec_fn(B::Storage, nat) -> B::Scalar,
    n: usize,
    dtype: DType,
    device: B::Device,
    t: Tensor<B>,
    i: usize,
    j: usize,
)
    requires
        model::stores::<B>(at),
        call_ensures(Tensor::eye, (n, dtype, &device), Ok::<Tensor<B>, Error>(t)),
        i < n,
        j < n,
    ensures
        t@.dims() == seq![n, n],
        i == j ==> elements::element_is(at, t, seq![i, j], <B::Scalar as Scalar>::one_val()),
        i != j ==> elements::element_is(at, t, seq![i, j], <B::Scalar as Scalar>::zero_val()),
{
    lemma_matrix_place(i, j, n, n);
    let data = numeric::identity::<B::Scalar>(n as int);
    model::lemma_uploaded(at, data, seq![n, n], dtype, device, t, seq![i, j]);
}

/// The elements of a range of counts are the counts.
pub proof fn law_arange_elements<B: Backend>(
    at: spec_fn(B::Storage, nat) -> B::Scalar,
    n: usize,
    dtype: DType,
    device: B::Device,
    t: Tensor<B>,
    i: usize,
)
    requires
        model::stores::<B>(at),
        call_ensures(Tensor::arange, (n, dtype, &device), Ok::<Tensor<B>, Error>(t)),
        i < n,
    ensures
        t@.dims() == seq![n],
        elements::element_is(at, t, seq![i], <B::Scalar as Scalar>::of_count(i)),
{
    lemma_vector_place(i, n);
    let data = numeric::counting::<B::Scalar>(n as nat);
    model::lemma_uploaded(at, data, seq![n], dtype, device, t, seq![i]);
}

/// A number lies before the end of a range: below it if the step is positive,
/// else above it.
pub open spec fn ahead_of<S: Scalar>(v: S, end: S, step: S) -> bool {
    (S::zero_val().below(step) && v.below(end)) || (!S::zero_val().below(step) && end.below(v))
}

/// A range starts with its start, each number is the one before plus the step,
/// all lie before the end, and the one that would come next does not.
pub proof fn law_arange_step_elements<B: Backend>(
    at: spec_fn(B::Storage, nat) -> B::Scalar,
    start: B::Scalar,
    end: B::Scalar,
    step: B::Scalar,
    dtype: DType,
    device: B::Device,
    t: Tensor<B>,
    i: usize,
) -> (v: B::Scalar)
    requires
        model::stores::<B>(at),
        call_ensures(
            Tensor::arange_step,
            (start, end, step, dtype, &device),
            Ok::<Tensor<B>, Error>(t),
        ),
    ensures
        t@.dims().len() == 1,
        t@.dims()[0] == 0 <==> !ahead_of(start, end, step),
        i == 0 ==> v == start,
        i < t@.dims()[0] ==> elements::element_is(at, t, seq![i], v) && ahead_of(v, end, step),
        i < t@.dims()[0] - 1 ==> elements::element_is(
            at,
            t,
            seq![(i + 1) as usize],
            v.plus(step),
        ),
        i == t@.dims()[0] - 1 ==> !ahead_of(v.plus(step), end, step),
{
    let n = choose|n: usize| #[trigger]
        numeric::ranges_over(start, end, step, n as nat) && tensor::uploaded(
            numeric::ranged(start, step, n as nat),
            seq![n],
            dtype,
            device,
            Ok(t),
        );
    let data = numeric::ranged(start, step, n as nat);
    let v = numeric::ranged_at(start, step, i as nat);
    assert(t@.dims() == seq![n]);
    assert(numeric::ranged_at(start, step, 0) == start);
    assert(numeric::before_end(start, end, step, 0) == ahead_of(start, end, step));
    if i < n {
        lemma_vector_place(i, n);
        model::lemma_uploaded(at, data, seq![n], dtype, device, t, seq![i]);
        assert(numeric::before_end(start, end, step, i as nat));
        assert(numeric::ranged_at(start, step, (i + 1) as nat) == v.plus(step));
    }
    if i < n - 1 {
        let next = (i + 1) as usize;
        lemma_vector_place(next, n);
        model::lemma_uploaded(at, data, seq![n], dtype, device, t, seq![next]);
    }
    if i == n - 1 {
        assert(!numeric::before_end(start, end, step, (i + 1) as nat));
    }
    v
}

/// The laws of a field for a number and a divisor that is not 0.
pub open spec fn division_laws<S: Scalar>(a: S, b: S) -> bool {
    &&& S::one_val().times(a) == a
    &&& a.plus(b).minus(b) == a
    &&& a.minus(b).plus(b) == a
    &&& b != S::zero_val() ==> a.over(b).times(b) == a
}

/// The counts are the sums of ones, and none but the first is 0.
pub open spec fn counts_ones<S: Scalar>(n: usize) -> bool {
    &&& S::of_count(0) == S::zero_val()
    &&& n > 0 ==> S::of_count(n) == S::of_count((n - 1) as usize).plus(S::one_val())
    &&& n > 0 ==> S::of_count(n) != S::zero_val()
}

/// The numbers form a field in which counts are the sums of ones, as those of
/// the rational numbers are. (Floating-point numbers do up to rounding.)
pub open spec fn field<S: Scalar>() -> bool {
    &&& sums::ring::<S>()
    &&& forall|a: S, b: S| #[trigger] division_laws(a, b)
    &&& forall|n: usize| #[trigger] counts_ones::<S>(n)
}

/// One step is the start.
pub proof fn law_linspace_single<B: Backend>(
    at: spec_fn(B::Storage, nat) -> B::Scalar,
    start: B::Scalar,
    end: B::Scalar,
    dtype: DType,
    device: B::Device,
    t: Tensor<B>,
)
    requires
        model::stores::<B>(at),
        call_ensures(
            Tensor::linspace,
            (start, end, 1usize, dtype, &device),
            Ok::<Tensor<B>, Error>(t),
        ),
    ensures
        t@.dims() == seq![1usize],
        elements::element_is(at, t, seq![0usize], start),
{
    lemma_vector_place(0, 1);
    model::lemma_uploaded(at, seq![start], seq![1usize], dtype, device, t, seq![0usize]);
}

/// Evenly spaced numbers: over a field the first is the start, the last the
/// end, and each differs from the one before by the same fraction of the way.
pub proof fn law_linspace_elements<B: Backend>(
    at: spec_fn(B::Storage, nat) -> B::Scalar,
    start: B::Scalar,
    end: B::Scalar,
    steps: usize,
    dtype: DType,
    device: B::Device,
    t: Tensor<B>,
    i: usize,
) -> (r: (B::Scalar, B::Scalar))
    requires
        model::stores::<B>(at),
        field::<B::Scalar>(),
        call_ensures(
            Tensor::linspace,
            (start, end, steps, dtype, &device),
            Ok::<Tensor<B>, Error>(t),
        ),
        steps >= 2,
        i < steps - 1,
    ensures
        t@.dims() == seq![steps],
        elements::element_is(at, t, seq![0usize], start),
        elements::element_is(at, t, seq![(steps - 1) as usize], end),
        elements::element_is(at, t, seq![i], r.0),
        elements::element_is(at, t, seq![(i + 1) as usize], r.1),
        r.1.minus(r.0) == end.minus(start).over(
            <B::Scalar as Scalar>::of_count((steps - 1) as usize),
        ),
{
    let step = numeric::spacing(start, end, steps);
    let data = numeric::spaced(start, step, steps as nat);
    let last = (steps - 1) as usize;
    let next = (i + 1) as usize;
    let count = |k: usize| <B::Scalar as Scalar>::of_count(k);
    let zero = <B::Scalar as Scalar>::zero_val();
    let one = <B::Scalar as Scalar>::one_val();
    lemma_vector_place(0, steps);
    lemma_vector_place(last, steps);
    lemma_vector_place(i, steps);
    lemma_vector_place(next, steps);
    model::lemma_uploaded(at, data, seq![steps], dtype, device, t, seq![0usize]);
    model::lemma_uploaded(at, data, seq![steps], dtype, device, t, seq![last]);
    model::lemma_uploaded(at, data, seq![steps], dtype, device, t, seq![i]);
    model::lemma_uploaded(at, data, seq![steps], dtype, device, t, seq![next]);
    // The spacing.
    assert(counts_ones::<B::Scalar>(steps));
    assert(counts_ones::<B::Scalar>(last));
    assert(division_laws(count(last), one));
    assert(step == end.minus(start).over(count(last)));
    // The first.
    assert(sums::ring_laws(step, zero, zero));
    assert(sums::ring_laws(zero, step, step));
    assert(sums::ring_laws(start, zero, zero));
    assert(data[0] == start);
    // The last.
    assert(division_laws(end.minus(start), count(last)));
    assert(division_laws(end, start));
    assert(sums::ring_laws(start, end.minus(start), zero));
    assert(data[last as int] == end);
    // Neighbours.
    let (v, w) = (data[i as int], data[next as int]);
    assert(counts_ones::<B::Scalar>(next));
    assert(sums::ring_laws(step, count(i), one));
    assert(sums::ring_laws(step, one, one));
    assert(division_laws(step, v));
    assert(sums::ring_laws(start, step.times(count(i)), step));
    assert(sums::ring_laws(v, step, step));
    assert(w == v.plus(step));
    (v, w)
}

/// A tensor of zeros, of ones or of one value has the asked sizes and number type,
/// and that value at every index.
pub proof fn law_filled_elements<B: Backend, S: Into<Shape>>(
    at: spec_fn(B::Storage, nat) -> B::Scalar,
    asked: S,
    v: B::Scalar,
    dtype: DType,
    device: B::Device,
    t: Tensor<B>,
) -> (s: Shape)
    requires
        model::stores::<B>(at),
        ({
            let r = Ok::<Tensor<B>, Error>(t);
            ||| v == <B::Scalar as Scalar>::zero_val() && call_ensures(
                Tensor::<B>::zeros::<S>,
                (asked, dtype, &device),
                r,
            )
            ||| v == <B::Scalar as Scalar>::one_val() && call_ensures(
                Tensor::<B>::ones::<S>,
                (asked, dtype, &device),
                r,
            )
            ||| call_ensures(Tensor::<B>::full::<S>, (asked, v, dtype, &device), r)
        }),
    ensures
        call_ensures(<S as Into<Shape>>::into, (asked,), s),
        t@.dims() == s@,
        t@.dtype == dtype,
        model::has(at, t, |i: Seq<usize>| v),
{
    let r = Ok::<Tensor<B>, Error>(t);
    let full = call_ensures(Tensor::<B>::full::<S>, (asked, v, dtype, &device), r);
    let zeros = v == <B::Scalar as Scalar>::zero_val() && call_ensures(
        Tensor::<B>::zeros::<S>,
        (asked, dtype, &device),
        r,
    );
    if full {
        let s = choose|s: Shape| #[trigger]
            call_ensures(<S as Into<Shape>>::into, (asked,), s) && tensor::full_result(
                s,
                v,
                dtype,
                device,
                r,
            );
        lemma_filled(
            at,
            |s: Shape, made: Result<B::Storage>|
                call_ensures(B::full, (&s, v, dtype, &device), made),
            s,
            v,
            dtype,
            device,
            t,
        );
        s
    } else if zeros {
        let s = choose|s: Shape| #[trigger]
            call_ensures(<S as Into<Shape>>::into, (asked,), s) && tensor::zeros_result(
                s,
                dtype,
                device,
                r,
            );
        lemma_filled(
            at,
            |s: Shape, made: Result<B::Storage>| call_ensures(B::zeros, (&s, dtype, &device), made),
            s,
            v,
            dtype,
            device,
            t,
        );
        s
    } else {
        let s = choose|s: Shape| #[trigger]
            call_ensures(<S as Into<Shape>>::into, (asked,), s) && tensor::ones_result(
                s,
                dtype,
                device,
                r,
            );
        lemma_filled(
            at,
            |s: Shape, made: Result<B::Storage>| call_ensures(B::ones, (&s, dtype, &device), made),
            s,
            v,
            dtype,
            device,
            t,
        );
        s
    }
}

/// A leaf around storage that was filled with a value.
proof fn lemma_filled<B: Backend>(
    at: spec_fn(B::Storage, nat) -> B::Scalar,
    ask: spec_fn(Shape, Result<B::Storage>) -> bool,
    s: Shape,
    v: B::Scalar,
    dtype: DType,
    device: B::Device,
    t: Tensor<B>,
)
    requires
        model::stores::<B>(at),
        tensor::created(ask, s, dtype, device, Ok(t)),
        forall|made: B::Storage| #[trigger]
            ask(s, Ok(made)) ==> elements::filled_with::<B>(at, made, s@, v),
    ensures
        t@.dims() == s@,
        t@.dtype == dtype,
        model::has(at, t, |i: Seq<usize>| v),
{
    let made = choose|made: Result<B::Storage>| #[trigger]
        ask(s, made) && tensor::leaf_result(made, s@, dtype, device, Ok(t));
    let m = made->Ok_0;
    assert forall|i: Seq<usize>| #[trigger] nd::in_bounds(i, s@) implies elements::element_is(
        at,
        t,
        i,
        v,
    ) by {
        model::lemma_around_storage(at, t, m, i);
    }
}

/// A tensor that is made of a list has the asked sizes and number type, as many
/// elements as the list has numbers, and these in row-major order.
pub proof fn law_from_slice_elements<B: Backend, S: Into<Shape>>(
    at: spec_fn(B::Storage, nat) -> B::Scalar,
    data: &[B::Scalar],
    asked: S,
    dtype: DType,
    device: B::Device,
    t: Tensor<B>,
) -> (s: Shape)
    requires
        model::stores::<B>(at),
        call_ensures(
            Tensor::<B>::from_f64_slice::<S>,
            (data, asked, dtype, &device),
            Ok::<Tensor<B>, Error>(t),
        ),
    ensures
        call_ensures(<S as Into<Shape>>::into, (asked,), s),
        t@.dims() == s@,
        t@.dtype == dtype,
        data@.len() == nd::product(s@),
        forall|k: int|
            0 <= k < data@.len() ==> elements::element_is(
                at,
                t,
                nd::unravel(k as nat, s@),
                #[trigger] data@[k],
            ),
{
    let s = choose|s: Shape| #[trigger]
        call_ensures(<S as Into<Shape>>::into, (asked,), s) && tensor::uploaded(
            data@,
            s@,
            dtype,
            device,
            Ok(t),
        );
    assert forall|k: int| 0 <= k < data@.len() implies elements::element_is(
        at,
        t,
        nd::unravel(k as nat, s@),
        #[trigger] data@[k],
    ) by {
        nd::lemma_count_fits(s@);
        nd::lemma_ravel_of_unravel(k as nat, s@);
        model::lemma_uploaded(at, data@, s@, dtype, device, t, nd::unravel(k as nat, s@));
    }
    s
}

/// What is read back of a tensor that was made of a list of numbers is the list.
pub proof fn law_read_back<B: Backend, S: Into<Shape>>(
    at: spec_fn(B::Storage, nat) -> B::Scalar,
    data: &[B::Scalar],
    asked: S,
    dtype: DType,
    device: B::Device,
    t: Tensor<B>,
    v: Vec<B::Scalar>,
)
    requires
        model::stores::<B>(at),
        call_ensures(
            Tensor::<B>::from_f64_slice::<S>,
            (data, asked, dtype, &device),
            Ok::<Tensor<B>, Error>(t),
        ),
        call_ensures(Tensor::to_f64_vec, (&t,), Ok::<Vec<B::Scalar>, Error>(v)),
        data@.len() > 0,
    ensures
        v@ == data@,
{
    let s = law_from_slice_elements(at, data, asked, dtype, device, t);
    assert forall|k: int| 0 <= k < data@.len() implies v@.len() == data@.len() && #[trigger] v@[k]
        == data@[k] by {
        let i = nd::unravel(k as nat, s@);
        nd::lemma_count_fits(s@);
        nd::lemma_ravel_of_unravel(k as nat, s@);
        model::lemma_read(at, t, v, i, data@[k]);
    }
    assert(v@[0] == data@[0]);
    assert(v@ =~= data@);
}

/// New data replaces that of a tensor only if there is one number for each element;
/// the storage then holds these numbers, in row-major order.
pub proof fn law_update_stores<B: Backend>(
    at: spec_fn(B::Storage, nat) -> B::Scalar,
    t: Tensor<B>,
    data: &[B::Scalar],
    r: Result<()>,
)
    requires
        model::stores::<B>(at),
        call_ensures(Tensor::update_data_inplace, (&t, data), r),
    ensures
        r is Ok ==> data@.len() == nd::product(t@.dims()),
        r is Ok ==> exists|s: B::Storage| #[trigger]
            t@.storage.takes(s) && forall|k: int|
                0 <= k < data@.len() ==> #[trigger] data@[k] == at(s, k as nat),
{
    if r is Ok {
        let made = choose|made: Result<B::Storage>| #[trigger]
            call_ensures(B::from_f64_slice, (data, t@.dtype, &t@.device), made) && made is Ok
                && t@.storage.takes(made->Ok_0);
        let s = made->Ok_0;
        assert(t@.storage.takes(s));
        assert forall|k: int| 0 <= k < data@.len() implies #[trigger] data@[k] == at(
            s,
            k as nat,
        ) by {}
    }
}

} // verus!
