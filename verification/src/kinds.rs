//! Which number type the results of operations have.
use crate::backend::Backend;
use crate::error::Error;
use crate::joining;
use crate::numeric;
use crate::shape::Shape;
use crate::shaping;
use crate::tensor::Tensor;
use vstd::prelude::*;

verus! {

/// Another form of a tensor has its number type: transposed, narrowed, with a
/// dimension more or less, with its dimensions in another order, reshaped,
/// flattened, expanded, or contiguous.
pub proof fn law_views_keep_type<B: Backend, S: Into<Shape>>(
    a: Tensor<B>,
    dim0: usize,
    dim1: usize,
    len: usize,
    order: &[usize],
    asked: S,
    t: Tensor<B>,
)
    requires
        ({
            let r = Ok::<Tensor<B>, Error>(t);
            ||| call_ensures(Tensor::transpose, (&a, dim0, dim1), r)
            ||| call_ensures(Tensor::t, (&a,), r)
            ||| call_ensures(Tensor::narrow, (&a, dim0, dim1, len), r)
            ||| call_ensures(Tensor::unsqueeze, (&a, dim0), r)
            ||| call_ensures(Tensor::squeeze, (&a, dim0), r)
            ||| call_ensures(Tensor::squeeze_all, (&a,), t)
            ||| call_ensures(Tensor::permute, (&a, order), r)
            ||| call_ensures(Tensor::reshape::<S>, (&a, asked), r)
            ||| call_ensures(Tensor::flatten, (&a, dim0, dim1), r)
            ||| call_ensures(Tensor::expand::<S>, (&a, asked), r)
            ||| call_ensures(Tensor::contiguous, (&a,), r)
        }),
    ensures
        t@.dtype == a@.dtype,
{
    let r = Ok::<Tensor<B>, Error>(t);
    if call_ensures(Tensor::contiguous, (&a,), r) {
        lemma_contiguous(a, t);
    } else if call_ensures(Tensor::reshape::<S>, (&a, asked), r) {
        let s = choose|s: Shape| #[trigger]
            call_ensures(<S as Into<Shape>>::into, (asked,), s) && shaping::reshape_result(
                a,
                s@,
                r,
            );
        lemma_reshape(a, s@, t);
    } else if call_ensures(Tensor::flatten, (&a, dim0, dim1), r) {
        lemma_reshape(
            a,
            shaping::flattened_dims(a@.dims(), dim0 as int, dim1 as int),
            t,
        );
    } else if call_ensures(Tensor::t, (&a,), r) {
        assert(call_ensures(Tensor::transpose, (&a, 0usize, 1usize), r));
    } else if call_ensures(Tensor::expand::<S>, (&a, asked), r) {
        let s = choose|s: Shape| #[trigger]
            call_ensures(<S as Into<Shape>>::into, (asked,), s) && shaping::expand_result(a, s@, r);
    } else if call_ensures(Tensor::permute, (&a, order), r) {
        assert(shaping::permute_result(a, order@, r));
    }
}

proof fn lemma_contiguous<B: Backend>(a: Tensor<B>, t: Tensor<B>)
    requires
        call_ensures(Tensor::contiguous, (&a,), Ok::<Tensor<B>, Error>(t)),
    ensures
        t@.dtype == a@.dtype,
        t@.dims() == a@.dims(),
{
}

proof fn lemma_reshape<B: Backend>(a: Tensor<B>, dims: Seq<usize>, t: Tensor<B>)
    requires
        shaping::reshape_result(a, dims, Ok(t)),
    ensures
        t@.dtype == a@.dtype,
{
    let c = choose|c: Tensor<B>|
        #[trigger] call_ensures(Tensor::contiguous, (&a,), Ok::<Tensor<B>, Error>(c))
            && t@.dtype == c@.dtype;
    lemma_contiguous(a, c);
}

/// What is computed of the elements of a tensor, or chosen from them, has its number
/// type: powers, clamped and scaled elements, sums and means of all elements, running
/// sums, matrix products, gathered and selected elements, convolutions and pooling.
pub proof fn law_results_keep_type<B: Backend>(
    a: Tensor<B>,
    b: Tensor<B>,
    bias: Option<&Tensor<B>>,
    x: B::Scalar,
    y: B::Scalar,
    dim: usize,
    pad: usize,
    k: [usize; 2],
    stride: [usize; 2],
    padding: [usize; 2],
    t: Tensor<B>,
)
    requires
        ({
            let r = Ok::<Tensor<B>, Error>(t);
            ||| call_ensures(Tensor::powf, (&a, x), r)
            ||| call_ensures(Tensor::clamp, (&a, x, y), r)
            ||| call_ensures(Tensor::affine, (&a, x, y), r)
            ||| call_ensures(Tensor::sum_all, (&a,), r)
            ||| call_ensures(Tensor::mean_all, (&a,), r)
            ||| call_ensures(Tensor::cumsum, (&a, dim), r)
            ||| call_ensures(Tensor::matmul, (&a, &b), r)
            ||| call_ensures(Tensor::gather, (&a, dim, &b), r)
            ||| call_ensures(Tensor::index_select, (&a, dim, &b), r)
            ||| call_ensures(Tensor::conv2d, (&a, &b, bias, stride, padding), r)
            ||| call_ensures(Tensor::conv1d, (&a, &b, bias, dim, pad), r)
            ||| call_ensures(Tensor::max_pool2d, (&a, k, stride, padding), r)
            ||| call_ensures(Tensor::avg_pool2d, (&a, k, stride, padding), r)
        }),
    ensures
        t@.dtype == a@.dtype,
{
    let r = Ok::<Tensor<B>, Error>(t);
    if call_ensures(Tensor::cumsum, (&a, dim), r) {
        assert forall|c: Tensor<B>| #[trigger]
            call_ensures(Tensor::contiguous, (&a,), Ok::<Tensor<B>, Error>(c)) implies c@.dtype
            == a@.dtype by {
            lemma_contiguous(a, c);
        }
    }
}

/// Sorted values, their former places and the largest values have the number type of
/// the tensor.
pub proof fn law_sorting_keeps_type<B: Backend>(
    a: Tensor<B>,
    dim: usize,
    descending: bool,
    sorted: (Tensor<B>, Tensor<B>),
    k: usize,
    top: (Tensor<B>, Vec<usize>),
)
    requires
        call_ensures(
            Tensor::sort,
            (&a, dim, descending),
            Ok::<(Tensor<B>, Tensor<B>), Error>(sorted),
        ),
        call_ensures(Tensor::topk, (&a, k, dim), Ok::<(Tensor<B>, Vec<usize>), Error>(top)),
    ensures
        sorted.0@.dtype == a@.dtype,
        sorted.1@.dtype == a@.dtype,
        top.0@.dtype == a@.dtype,
{
    assert forall|c: Tensor<B>| #[trigger]
        call_ensures(Tensor::contiguous, (&a,), Ok::<Tensor<B>, Error>(c)) implies c@.dtype
        == a@.dtype by {
        lemma_contiguous(a, c);
    }
    assert(numeric::sort_result(a, dim, descending, Ok(sorted)));
    assert(numeric::topk_result(a, k, dim, Ok(top)));
}

/// Joined tensors have the number type of the first, and a choice between two that
/// of the first.
pub proof fn law_joins_keep_type<B: Backend>(
    ts: &[Tensor<B>],
    dim: usize,
    mask: Tensor<B>,
    a: Tensor<B>,
    b: Tensor<B>,
    t: Tensor<B>,
)
    requires
        ({
            let r = Ok::<Tensor<B>, Error>(t);
            ||| ts@.len() > 0 && a == ts@[0] && call_ensures(Tensor::cat, (ts, dim), r)
            ||| ts@.len() > 0 && a == ts@[0] && call_ensures(Tensor::stack, (ts, dim), r)
            ||| call_ensures(Tensor::where_cond, (&mask, &a, &b), r)
        }),
    ensures
        t@.dtype == a@.dtype,
{
    let r = Ok::<Tensor<B>, Error>(t);
    if ts@.len() > 0 && a == ts@[0] && call_ensures(Tensor::cat, (ts, dim), r) {
        assert(joining::cat_result(ts@, dim, r));
    } else if ts@.len() > 0 && a == ts@[0] && call_ensures(Tensor::stack, (ts, dim), r) {
        assert(joining::stack_result(ts@, dim, r));
        let us = choose|us: Seq<Tensor<B>>| #[trigger]
            joining::all_unsqueezed(ts@, dim, us) && joining::cat_result(us, dim, r);
        assert(call_ensures(Tensor::unsqueeze, (&ts@[0], dim), Ok::<Tensor<B>, Error>(us[0])));
        assert(us[0]@.dtype == a@.dtype);
    }
}

} // verus!
