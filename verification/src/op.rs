//! The computation graph: how each tensor was made.
//!
//! Every tensor records the operation that made it, with its inputs. The
//! inputs keep the graph alive, and `backward` walks it.
use crate::backend::{Backend, BinaryOp, ReduceOp, UnaryOp};
use crate::dtype::DType;
use crate::scalar::Real;
use crate::shape::{copy_sizes, Shape};
use crate::tensor::Tensor;
use crate::text::{self, push_bool, push_list, push_number, push_usize};
use std::sync::atomic::AtomicU64;
use vstd::prelude::*;

verus! {

/// Identifies a tensor.
#[derive(Debug, Clone, Copy, PartialEq, Eq, Hash, Structural)]
pub struct TensorId(pub(crate) u64);

impl TensorId {
    /// The number of the tensor.
    pub closed spec fn number(self) -> u64 {
        self.0
    }

    /// The identifier with the next number of a counter.
    pub fn new(counter: &AtomicU64) -> (r: Self)
        ensures
            call_ensures(next_number, (counter,), r.number()),
    {
        TensorId(next_number(counter))
    }

    /// The number as a key.
    pub(crate) fn key(&self) -> (r: u64)
        ensures
            r == self.number(),
    {
        self.0
    }
}

/// The number that a counter stands at: what `fetch_add` of 1 gives. The
/// counter is advanced by 1, so that no other caller gets the number.
pub fn next_number(counter: &AtomicU64) -> (r: u64)
    ensures
        call_ensures(
            AtomicU64::fetch_add,
            (counter, 1, std::sync::atomic::Ordering::Relaxed),
            r,
        ),
{
    counter.fetch_add(1, std::sync::atomic::Ordering::Relaxed)
}

/// The operation that made a tensor, with its inputs.
#[verifier::reject_recursive_types(B)]
#[allow(inconsistent_fields)]
pub enum Op<B: Backend> {
    /// No operation: input data or a trainable parameter.
    Leaf,
    /// Element-wise binary: op(lhs, rhs).
    Binary { lhs: Tensor<B>, rhs: Tensor<B>, op: BinaryOp },
    /// Element-wise unary: op(input).
    Unary { input: Tensor<B>, op: UnaryOp },
    /// Reduction of the input along dimensions.
    Reduce { input: Tensor<B>, op: ReduceOp, dims: Vec<usize>, keep_dim: bool },
    /// Matrix product of lhs and rhs.
    Matmul { lhs: Tensor<B>, rhs: Tensor<B> },
    /// The same data with another shape; `src_shape` is the shape before.
    Reshape { input: Tensor<B>, src_shape: Shape },
    /// Two dimensions exchanged.
    Transpose { input: Tensor<B>, dim0: usize, dim1: usize },
    /// The dimensions in another order: the i-th is `dims[i]` of the input.
    Permute { input: Tensor<B>, dims: Vec<usize> },
    /// A slice along a dimension.
    Narrow { input: Tensor<B>, dim: usize, start: usize, len: usize },
    /// input * mul + add.
    Affine { input: Tensor<B>, mul: B::Scalar, add: B::Scalar },
    /// A contiguous copy.
    Contiguous { input: Tensor<B> },
    /// 2D convolution of [N, C_in, H, W] with [C_out, C_in, kH, kW].
    Conv2d {
        input: Tensor<B>,
        weight: Tensor<B>,
        bias: Option<Tensor<B>>,
        stride: [usize; 2],
        padding: [usize; 2],
    },
    /// 2D max-pooling; `indices` are the positions of the maxima.
    MaxPool2d {
        input: Tensor<B>,
        kernel_size: [usize; 2],
        stride: [usize; 2],
        padding: [usize; 2],
        indices: Vec<usize>,
    },
    /// Concatenation along `dim`; `sizes` are the inputs' sizes there.
    Cat { inputs: Vec<Tensor<B>>, dim: usize, sizes: Vec<usize> },
    /// Element-wise power.
    Powf { input: Tensor<B>, exponent: B::Scalar },
    /// Element-wise clamp to [min, max].
    Clamp { input: Tensor<B>, min: B::Scalar, max: B::Scalar },
    /// Element-wise selection by a mask.
    WhereCond { mask: Tensor<B>, on_true: Tensor<B>, on_false: Tensor<B> },
    /// Elements gathered along a dimension.
    Gather { input: Tensor<B>, index: Tensor<B>, dim: usize },
    /// Constant padding: before and after each dimension.
    Pad { input: Tensor<B>, padding: Vec<[usize; 2]> },
    /// 2D average-pooling.
    AvgPool2d {
        input: Tensor<B>,
        kernel_size: [usize; 2],
        stride: [usize; 2],
        padding: [usize; 2],
    },
    /// 1D convolution of [N, C_in, L] with [C_out, C_in, K].
    Conv1d {
        input: Tensor<B>,
        weight: Tensor<B>,
        bias: Option<Tensor<B>>,
        stride: usize,
        padding: usize,
    },
    /// Entries selected along a dimension.
    IndexSelect { input: Tensor<B>, indices: Tensor<B>, dim: usize },
    /// Conversion from the dtype `src_dtype`.
    ToDtype { input: Tensor<B>, src_dtype: DType },
}

/// Two records of the same operation on the same inputs.
pub open spec fn same_op<B: Backend>(a: Op<B>, b: Op<B>) -> bool {
    match a {
        Op::Leaf => b is Leaf,
        Op::Binary { lhs, rhs, op } => b matches Op::Binary { lhs: o_lhs, rhs: o_rhs, op: o_op }
            && lhs == o_lhs && rhs == o_rhs && op == o_op,
        Op::Unary { input, op } => b matches Op::Unary { input: o_input, op: o_op }
            && input == o_input && op == o_op,
        Op::Reduce { input, op, dims, keep_dim } => b matches Op::Reduce {
            input: o_input,
            op: o_op,
            dims: o_dims,
            keep_dim: o_keep_dim,
        } && input == o_input && op == o_op && dims@ == o_dims@ && keep_dim == o_keep_dim,
        Op::Matmul { lhs, rhs } => b matches Op::Matmul { lhs: o_lhs, rhs: o_rhs }
            && lhs == o_lhs && rhs == o_rhs,
        Op::Reshape { input, src_shape } => b matches Op::Reshape {
            input: o_input,
            src_shape: o_src_shape,
        } && input == o_input && src_shape@ == o_src_shape@,
        Op::Transpose { input, dim0, dim1 } => b matches Op::Transpose {
            input: o_input,
            dim0: o_dim0,
            dim1: o_dim1,
        } && input == o_input && dim0 == o_dim0 && dim1 == o_dim1,
        Op::Permute { input, dims } => b matches Op::Permute { input: o_input, dims: o_dims }
            && input == o_input && dims@ == o_dims@,
        Op::Narrow { input, dim, start, len } => b matches Op::Narrow {
            input: o_input,
            dim: o_dim,
            start: o_start,
            len: o_len,
        } && input == o_input && dim == o_dim && start == o_start && len == o_len,
        Op::Affine { input, mul, add } => b matches Op::Affine {
            input: o_input,
            mul: o_mul,
            add: o_add,
        } && input == o_input && mul == o_mul && add == o_add,
        Op::Contiguous { input } => b matches Op::Contiguous { input: o_input } && input == o_input,
        Op::Conv2d { input, weight, bias, stride, padding } => b matches Op::Conv2d {
            input: o_input,
            weight: o_weight,
            bias: o_bias,
            stride: o_stride,
            padding: o_padding,
        } && input == o_input && weight == o_weight && bias == o_bias && stride == o_stride
            && padding == o_padding,
        Op::MaxPool2d { input, kernel_size, stride, padding, indices } => b matches Op::MaxPool2d {
            input: o_input,
            kernel_size: o_kernel_size,
            stride: o_stride,
            padding: o_padding,
            indices: o_indices,
        } && input == o_input && kernel_size == o_kernel_size && stride == o_stride
            && padding == o_padding && indices@ == o_indices@,
        Op::Cat { inputs, dim, sizes } => b matches Op::Cat {
            inputs: o_inputs,
            dim: o_dim,
            sizes: o_sizes,
        } && inputs@ == o_inputs@ && dim == o_dim && sizes@ == o_sizes@,
        Op::Powf { input, exponent } => b matches Op::Powf {
            input: o_input,
            exponent: o_exponent,
        } && input == o_input && exponent == o_exponent,
        Op::Clamp { input, min, max } => b matches Op::Clamp {
            input: o_input,
            min: o_min,
            max: o_max,
        } && input == o_input && min == o_min && max == o_max,
        Op::WhereCond { mask, on_true, on_false } => b matches Op::WhereCond {
            mask: o_mask,
            on_true: o_on_true,
            on_false: o_on_false,
        } && mask == o_mask && on_true == o_on_true && on_false == o_on_false,
        Op::Gather { input, index, dim } => b matches Op::Gather {
            input: o_input,
            index: o_index,
            dim: o_dim,
        } && input == o_input && index == o_index && dim == o_dim,
        Op::Pad { input, padding } => b matches Op::Pad { input: o_input, padding: o_padding }
            && input == o_input && padding@ == o_padding@,
        Op::AvgPool2d { input, kernel_size, stride, padding } => b matches Op::AvgPool2d {
            input: o_input,
            kernel_size: o_kernel_size,
            stride: o_stride,
            padding: o_padding,
        } && input == o_input && kernel_size == o_kernel_size && stride == o_stride
            && padding == o_padding,
        Op::Conv1d { input, weight, bias, stride, padding } => b matches Op::Conv1d {
            input: o_input,
            weight: o_weight,
            bias: o_bias,
            stride: o_stride,
            padding: o_padding,
        } && input == o_input && weight == o_weight && bias == o_bias && stride == o_stride
            && padding == o_padding,
        Op::IndexSelect { input, indices, dim } => b matches Op::IndexSelect {
            input: o_input,
            indices: o_indices,
            dim: o_dim,
        } && input == o_input && indices == o_indices && dim == o_dim,
        Op::ToDtype { input, src_dtype } => b matches Op::ToDtype {
            input: o_input,
            src_dtype: o_src_dtype,
        } && input == o_input && src_dtype == o_src_dtype,
    }
}

/// Copies a list of tensors.
pub(crate) fn copy_tensors<B: Backend>(v: &[Tensor<B>]) -> (r: Vec<Tensor<B>>)
    ensures
        r@ == v@,
{
    let n: usize = v.len();
    let mut out: Vec<Tensor<B>> = Vec::with_capacity(n);
    let mut i: usize = 0;
    while i < n
        invariant
            n == v@.len(),
            i <= n,
            out@ == v@.take(i as int),
        decreases n - i,
    {
        out.push(v[i].clone());
        assert(out@ =~= v@.take(i + 1));
        i += 1;
    }
    assert(out@ =~= v@);
    out
}

/// Copies a list of pairs.
pub(crate) fn copy_pairs(v: &[[usize; 2]]) -> (r: Vec<[usize; 2]>)
    ensures
        r@ == v@,
{
    let n: usize = v.len();
    let mut out: Vec<[usize; 2]> = Vec::with_capacity(n);
    let mut i: usize = 0;
    while i < n
        invariant
            n == v@.len(),
            i <= n,
            out@ == v@.take(i as int),
        decreases n - i,
    {
        out.push(v[i]);
        assert(out@ =~= v@.take(i + 1));
        i += 1;
    }
    assert(out@ =~= v@);
    out
}

/// Copies a tensor that may be missing.
pub(crate) fn copy_optional<B: Backend>(t: &Option<Tensor<B>>) -> (r: Option<Tensor<B>>)
    ensures
        r == *t,
{
    match t {
        Some(b) => Some(b.clone()),
        None => None,
    }
}

impl<B: Backend> Clone for Op<B> {
    fn clone(&self) -> (r: Self)
        ensures
            same_op(*self, r),
    {
        match self {
            Op::Leaf => Op::Leaf,
            Op::Binary { lhs, rhs, op } => Op::Binary {
                lhs: lhs.clone(),
                rhs: rhs.clone(),
                op: *op,
            },
            Op::Unary { input, op } => Op::Unary { input: input.clone(), op: *op },
            Op::Reduce { input, op, dims, keep_dim } => Op::Reduce {
                input: input.clone(),
                op: *op,
                dims: copy_sizes(dims.as_slice()),
                keep_dim: *keep_dim,
            },
            Op::Matmul { lhs, rhs } => Op::Matmul { lhs: lhs.clone(), rhs: rhs.clone() },
            Op::Reshape { input, src_shape } => Op::Reshape {
                input: input.clone(),
                src_shape: src_shape.clone(),
            },
            Op::Transpose { input, dim0, dim1 } => Op::Transpose {
                input: input.clone(),
                dim0: *dim0,
                dim1: *dim1,
            },
            Op::Permute { input, dims } => Op::Permute {
                input: input.clone(),
                dims: copy_sizes(dims.as_slice()),
            },
            Op::Narrow { input, dim, start, len } => Op::Narrow {
                input: input.clone(),
                dim: *dim,
                start: *start,
                len: *len,
            },
            Op::Affine { input, mul, add } => Op::Affine {
                input: input.clone(),
                mul: *mul,
                add: *add,
            },
            Op::Contiguous { input } => Op::Contiguous { input: input.clone() },
            Op::Conv2d { input, weight, bias, stride, padding } => Op::Conv2d {
                input: input.clone(),
                weight: weight.clone(),
                bias: copy_optional(bias),
                stride: *stride,
                padding: *padding,
            },
            Op::MaxPool2d { input, kernel_size, stride, padding, indices } => Op::MaxPool2d {
                input: input.clone(),
                kernel_size: *kernel_size,
                stride: *stride,
                padding: *padding,
                indices: copy_sizes(indices.as_slice()),
            },
            Op::Cat { inputs, dim, sizes } => Op::Cat {
                inputs: copy_tensors(inputs.as_slice()),
                dim: *dim,
                sizes: copy_sizes(sizes.as_slice()),
            },
            Op::Powf { input, exponent } => Op::Powf { input: input.clone(), exponent: *exponent },
            Op::Clamp { input, min, max } => Op::Clamp {
                input: input.clone(),
                min: *min,
                max: *max,
            },
            Op::WhereCond { mask, on_true, on_false } => Op::WhereCond {
                mask: mask.clone(),
                on_true: on_true.clone(),
                on_false: on_false.clone(),
            },
            Op::Gather { input, index, dim } => Op::Gather {
                input: input.clone(),
                index: index.clone(),
                dim: *dim,
            },
            Op::Pad { input, padding } => Op::Pad {
                input: input.clone(),
                padding: copy_pairs(padding.as_slice()),
            },
            Op::AvgPool2d { input, kernel_size, stride, padding } => Op::AvgPool2d {
                input: input.clone(),
                kernel_size: *kernel_size,
                stride: *stride,
                padding: *padding,
            },
            Op::Conv1d { input, weight, bias, stride, padding } => Op::Conv1d {
                input: input.clone(),
                weight: weight.clone(),
                bias: copy_optional(bias),
                stride: *stride,
                padding: *padding,
            },
            Op::IndexSelect { input, indices, dim } => Op::IndexSelect {
                input: input.clone(),
                indices: indices.clone(),
                dim: *dim,
            },
            Op::ToDtype { input, src_dtype } => Op::ToDtype {
                input: input.clone(),
                src_dtype: *src_dtype,
            },
        }
    }
}

/// An identifier as text: `TensorId(7)`.
pub open spec fn id_text(id: TensorId) -> Seq<char> {
    "TensorId("@ + text::decimal(id.number() as nat) + ")"@
}

/// The first `n` identifiers of a list of tensors, separated by `", "`.
pub open spec fn ids_upto<B: Backend>(v: Seq<Tensor<B>>, n: nat) -> Seq<char>
    decreases n,
{
    if n == 0 {
        seq![]
    } else if n == 1 {
        id_text(v[0]@.id)
    } else {
        ids_upto(v, (n - 1) as nat) + ", "@ + id_text(v[n - 1]@.id)
    }
}

/// The identifiers of a list of tensors in square brackets.
pub open spec fn ids_text<B: Backend>(v: Seq<Tensor<B>>) -> Seq<char> {
    "["@ + ids_upto(v, v.len()) + "]"@
}

/// The first `n` pairs of a list, separated by `", "`.
pub open spec fn pairs_upto(v: Seq<[usize; 2]>, n: nat) -> Seq<char>
    decreases n,
{
    if n == 0 {
        seq![]
    } else if n == 1 {
        text::list_text(v[0]@)
    } else {
        pairs_upto(v, (n - 1) as nat) + ", "@ + text::list_text(v[n - 1]@)
    }
}

/// A list of pairs in square brackets: `[[0, 1], [2, 2]]`.
pub open spec fn pairs_text(v: Seq<[usize; 2]>) -> Seq<char> {
    "["@ + pairs_upto(v, v.len()) + "]"@
}

/// The text that a number type gives for a number in a record.
pub open spec fn number_text<S: Real>(x: S, t: String) -> bool {
    call_ensures(S::to_record_text, (x,), t)
}

pub(crate) fn push_id(out: &mut String, id: TensorId)
    ensures
        final(out)@ == old(out)@ + id_text(id),
{
    out.append("TensorId(");
    push_number(out, id.key() as u128);
    out.append(")");
}

fn push_ids<B: Backend>(out: &mut String, v: &[Tensor<B>])
    ensures
        final(out)@ == old(out)@ + ids_text(v@),
{
    let ghost start = out@;
    out.append("[");
    let n: usize = v.len();
    let mut i: usize = 0;
    while i < n
        invariant
            n == v@.len(),
            i <= n,
            out@ == start + "["@ + ids_upto(v@, i as nat),
        decreases n - i,
    {
        if i > 0 {
            out.append(", ");
        }
        push_id(out, v[i].id());
        i += 1;
    }
    out.append("]");
}

fn push_pairs(out: &mut String, v: &[[usize; 2]])
    ensures
        final(out)@ == old(out)@ + pairs_text(v@),
{
    let ghost start = out@;
    out.append("[");
    let n: usize = v.len();
    let mut i: usize = 0;
    while i < n
        invariant
            n == v@.len(),
            i <= n,
            out@ == start + "["@ + pairs_upto(v@, i as nat),
        decreases n - i,
    {
        if i > 0 {
            out.append(", ");
        }
        let pair: [usize; 2] = v[i];
        push_list(out, pair.as_slice());
        i += 1;
    }
    out.append("]");
}

impl<B: Backend> Op<B> {
    /// A description of the operation: its name, its parameters and the
    /// identifiers of its inputs.
    pub open spec fn described_by(self, t: Seq<char>) -> bool {
        match self {
            Op::Leaf => t == "None"@,
            Op::Binary { lhs, rhs, op } => t == "Binary("@ + op.name() + ", id="@
                + id_text(lhs@.id) + ", id="@ + id_text(rhs@.id) + ")"@,
            Op::Unary { input, op } => t == "Unary("@ + op.name() + ", id="@ + id_text(input@.id)
                + ")"@,
            Op::Reduce { input, op, dims, .. } => t == "Reduce("@ + op.name() + ", dims="@
                + text::list_text(dims@) + ", id="@ + id_text(input@.id) + ")"@,
            Op::Matmul { lhs, rhs } => t == "Matmul(id="@ + id_text(lhs@.id) + ", id="@
                + id_text(rhs@.id) + ")"@,
            Op::Reshape { input, src_shape } => t == "Reshape("@ + text::list_text(src_shape@)
                + " → ?, id="@ + id_text(input@.id) + ")"@,
            Op::Transpose { input, dim0, dim1 } => t == "Transpose("@
                + text::decimal(dim0 as nat) + ", "@ + text::decimal(dim1 as nat) + ", id="@
                + id_text(input@.id) + ")"@,
            Op::Permute { input, dims } => t == "Permute("@ + text::list_text(dims@) + ", id="@
                + id_text(input@.id) + ")"@,
            Op::Narrow { input, dim, start, len } => t == "Narrow(dim="@
                + text::decimal(dim as nat) + ", "@ + text::decimal(start as nat) + ".."@
                + text::decimal((start + len) as nat) + ", id="@ + id_text(input@.id) + ")"@,
            Op::Affine { input, mul, add } => exists|mul_text: String, add_text: String|
                #[trigger] number_text(mul, mul_text)
                && #[trigger] number_text(add, add_text)
                && t == "Affine(*"@ + mul_text@ + " +"@ + add_text@ + ", id="@ + id_text(input@.id)
                    + ")"@,
            Op::Contiguous { input } => t == "Contiguous(id="@ + id_text(input@.id) + ")"@,
            Op::Conv2d { input, weight, bias, stride, padding } => t == "Conv2d(in="@
                + id_text(input@.id) + ", w="@ + id_text(weight@.id) + ", bias="@
                + text::bool_text(bias is Some) + ", s="@ + text::list_text(stride@) + ", p="@
                + text::list_text(padding@) + ")"@,
            Op::MaxPool2d { input, kernel_size, stride, padding, .. } => t == "MaxPool2d(in="@
                + id_text(input@.id) + ", k="@ + text::list_text(kernel_size@) + ", s="@
                + text::list_text(stride@) + ", p="@ + text::list_text(padding@) + ")"@,
            Op::Cat { inputs, dim, .. } => t == "Cat(dim="@ + text::decimal(dim as nat)
                + ", ids="@ + ids_text(inputs@) + ")"@,
            Op::Powf { input, exponent } => exists|exponent_text: String|
                #[trigger] number_text(exponent, exponent_text)
                && t == "Powf(exp="@ + exponent_text@ + ", id="@ + id_text(input@.id) + ")"@,
            Op::Clamp { input, min, max } => exists|min_text: String, max_text: String|
                #[trigger] number_text(min, min_text)
                && #[trigger] number_text(max, max_text)
                && t == "Clamp(min="@ + min_text@ + ", max="@ + max_text@ + ", id="@
                    + id_text(input@.id) + ")"@,
            Op::WhereCond { mask, on_true, on_false } => t == "WhereCond(mask="@
                + id_text(mask@.id) + ", true="@ + id_text(on_true@.id) + ", false="@
                + id_text(on_false@.id) + ")"@,
            Op::Gather { input, index, dim } => t == "Gather(dim="@ + text::decimal(dim as nat)
                + ", input="@ + id_text(input@.id) + ", index="@ + id_text(index@.id) + ")"@,
            Op::Pad { input, padding } => t == "Pad(pad="@ + pairs_text(padding@) + ", id="@
                + id_text(input@.id) + ")"@,
            Op::AvgPool2d { input, kernel_size, stride, padding } => t == "AvgPool2d(in="@
                + id_text(input@.id) + ", k="@ + text::list_text(kernel_size@) + ", s="@
                + text::list_text(stride@) + ", p="@ + text::list_text(padding@) + ")"@,
            Op::Conv1d { input, weight, bias, stride, padding } => t == "Conv1d(in="@
                + id_text(input@.id) + ", w="@ + id_text(weight@.id) + ", bias="@
                + text::bool_text(bias is Some) + ", s="@ + text::decimal(stride as nat)
                + ", p="@ + text::decimal(padding as nat) + ")"@,
            Op::IndexSelect { input, indices, dim } => t == "IndexSelect(dim="@
                + text::decimal(dim as nat) + ", input="@ + id_text(input@.id) + ", indices="@
                + id_text(indices@.id) + ")"@,
            Op::ToDtype { input, src_dtype } => t == "ToDtype(from="@ + src_dtype.variant_name()
                + ", id="@ + id_text(input@.id) + ")"@,
        }
    }

    /// A description of the operation for inspection.
    pub fn to_text(&self) -> (r: String)
        ensures
            self.described_by(r@),
    {
        let mut out = String::new();
        match self {
            Op::Leaf => {
                out.append("None");
                assert(out@ =~= "None"@);
            },
            Op::Binary { lhs, rhs, op } => {
                out.append("Binary(");
                out.append(op.name_str());
                out.append(", id=");
                push_id(&mut out, lhs.id());
                out.append(", id=");
                push_id(&mut out, rhs.id());
                out.append(")");
                assert(out@ =~= "Binary("@ + op.name() + ", id="@ + id_text(lhs@.id) + ", id="@
                    + id_text(rhs@.id) + ")"@);
            },
            Op::Unary { input, op } => {
                out.append("Unary(");
                out.append(op.name_str());
                out.append(", id=");
                push_id(&mut out, input.id());
                out.append(")");
                assert(out@ =~= "Unary("@ + op.name() + ", id="@ + id_text(input@.id) + ")"@);
            },
            Op::Reduce { input, op, dims, .. } => {
                out.append("Reduce(");
                out.append(op.name_str());
                out.append(", dims=");
                push_list(&mut out, dims.as_slice());
                out.append(", id=");
                push_id(&mut out, input.id());
                out.append(")");
                assert(out@ =~= "Reduce("@ + op.name() + ", dims="@ + text::list_text(dims@)
                    + ", id="@ + id_text(input@.id) + ")"@);
            },
            Op::Matmul { lhs, rhs } => {
                out.append("Matmul(id=");
                push_id(&mut out, lhs.id());
                out.append(", id=");
                push_id(&mut out, rhs.id());
                out.append(")");
                assert(out@ =~= "Matmul(id="@ + id_text(lhs@.id) + ", id="@ + id_text(rhs@.id)
                    + ")"@);
            },
            Op::Reshape { input, src_shape } => {
                out.append("Reshape(");
                push_list(&mut out, src_shape.dims());
                out.append(" → ?, id=");
                push_id(&mut out, input.id());
                out.append(")");
                assert(out@ =~= "Reshape("@ + text::list_text(src_shape@) + " → ?, id="@
                    + id_text(input@.id) + ")"@);
            },
            Op::Transpose { input, dim0, dim1 } => {
                out.append("Transpose(");
                push_usize(&mut out, *dim0);
                out.append(", ");
                push_usize(&mut out, *dim1);
                out.append(", id=");
                push_id(&mut out, input.id());
                out.append(")");
                assert(out@ =~= "Transpose("@ + text::decimal(dim0 as nat) + ", "@
                    + text::decimal(dim1 as nat) + ", id="@ + id_text(input@.id) + ")"@);
            },
            Op::Permute { input, dims } => {
                out.append("Permute(");
                push_list(&mut out, dims.as_slice());
                out.append(", id=");
                push_id(&mut out, input.id());
                out.append(")");
                assert(out@ =~= "Permute("@ + text::list_text(dims@) + ", id="@
                    + id_text(input@.id) + ")"@);
            },
            Op::Narrow { input, dim, start, len } => {
                out.append("Narrow(dim=");
                push_usize(&mut out, *dim);
                out.append(", ");
                push_usize(&mut out, *start);
                out.append("..");
                push_number(&mut out, *start as u128 + *len as u128);
                out.append(", id=");
                push_id(&mut out, input.id());
                out.append(")");
                assert(out@ =~= "Narrow(dim="@ + text::decimal(dim as nat) + ", "@
                    + text::decimal(start as nat) + ".."@
                    + text::decimal((*start + *len) as nat) + ", id="@ + id_text(input@.id)
                    + ")"@);
            },
            Op::Affine { input, mul, add } => {
                out.append("Affine(*");
                let mul_text = mul.to_record_text();
                out.append(mul_text.as_str());
                out.append(" +");
                let add_text = add.to_record_text();
                out.append(add_text.as_str());
                out.append(", id=");
                push_id(&mut out, input.id());
                out.append(")");
                assert(number_text(*mul, mul_text));
                assert(number_text(*add, add_text));
                assert(out@ =~= "Affine(*"@ + mul_text@ + " +"@ + add_text@ + ", id="@
                    + id_text(input@.id) + ")"@);
            },
            Op::Contiguous { input } => {
                out.append("Contiguous(id=");
                push_id(&mut out, input.id());
                out.append(")");
                assert(out@ =~= "Contiguous(id="@ + id_text(input@.id) + ")"@);
            },
            Op::Conv2d { input, weight, bias, stride, padding } => {
                out.append("Conv2d(in=");
                push_id(&mut out, input.id());
                out.append(", w=");
                push_id(&mut out, weight.id());
                out.append(", bias=");
                push_bool(&mut out, bias.is_some());
                out.append(", s=");
                push_list(&mut out, stride.as_slice());
                out.append(", p=");
                push_list(&mut out, padding.as_slice());
                out.append(")");
                assert(out@ =~= "Conv2d(in="@ + id_text(input@.id) + ", w="@
                    + id_text(weight@.id) + ", bias="@ + text::bool_text(*bias is Some)
                    + ", s="@ + text::list_text(stride@) + ", p="@ + text::list_text(padding@)
                    + ")"@);
            },
            Op::MaxPool2d { input, kernel_size, stride, padding, .. } => {
                out.append("MaxPool2d(in=");
                push_id(&mut out, input.id());
                out.append(", k=");
                push_list(&mut out, kernel_size.as_slice());
                out.append(", s=");
                push_list(&mut out, stride.as_slice());
                out.append(", p=");
                push_list(&mut out, padding.as_slice());
                out.append(")");
                assert(out@ =~= "MaxPool2d(in="@ + id_text(input@.id) + ", k="@
                    + text::list_text(kernel_size@) + ", s="@ + text::list_text(stride@)
                    + ", p="@ + text::list_text(padding@) + ")"@);
            },
            Op::Cat { inputs, dim, .. } => {
                out.append("Cat(dim=");
                push_usize(&mut out, *dim);
                out.append(", ids=");
                push_ids(&mut out, inputs.as_slice());
                out.append(")");
                assert(out@ =~= "Cat(dim="@ + text::decimal(dim as nat) + ", ids="@
                    + ids_text(inputs@) + ")"@);
            },
            Op::Powf { input, exponent } => {
                out.append("Powf(exp=");
                let exponent_text = exponent.to_record_text();
                out.append(exponent_text.as_str());
                out.append(", id=");
                push_id(&mut out, input.id());
                out.append(")");
                assert(number_text(*exponent, exponent_text));
                assert(out@ =~= "Powf(exp="@ + exponent_text@ + ", id="@ + id_text(input@.id)
                    + ")"@);
            },
            Op::Clamp { input, min, max } => {
                out.append("Clamp(min=");
                let min_text = min.to_record_text();
                out.append(min_text.as_str());
                out.append(", max=");
                let max_text = max.to_record_text();
                out.append(max_text.as_str());
                out.append(", id=");
                push_id(&mut out, input.id());
                out.append(")");
                assert(number_text(*min, min_text));
                assert(number_text(*max, max_text));
                assert(out@ =~= "Clamp(min="@ + min_text@ + ", max="@ + max_text@ + ", id="@
                    + id_text(input@.id) + ")"@);
            },
            Op::WhereCond { mask, on_true, on_false } => {
                out.append("WhereCond(mask=");
                push_id(&mut out, mask.id());
                out.append(", true=");
                push_id(&mut out, on_true.id());
                out.append(", false=");
                push_id(&mut out, on_false.id());
                out.append(")");
                assert(out@ =~= "WhereCond(mask="@ + id_text(mask@.id) + ", true="@
                    + id_text(on_true@.id) + ", false="@ + id_text(on_false@.id) + ")"@);
            },
            Op::Gather { input, index, dim } => {
                out.append("Gather(dim=");
                push_usize(&mut out, *dim);
                out.append(", input=");
                push_id(&mut out, input.id());
                out.append(", index=");
                push_id(&mut out, index.id());
                out.append(")");
                assert(out@ =~= "Gather(dim="@ + text::decimal(dim as nat) + ", input="@
                    + id_text(input@.id) + ", index="@ + id_text(index@.id) + ")"@);
            },
            Op::Pad { input, padding } => {
                out.append("Pad(pad=");
                push_pairs(&mut out, padding.as_slice());
                out.append(", id=");
                push_id(&mut out, input.id());
                out.append(")");
                assert(out@ =~= "Pad(pad="@ + pairs_text(padding@) + ", id="@
                    + id_text(input@.id) + ")"@);
            },
            Op::AvgPool2d { input, kernel_size, stride, padding } => {
                out.append("AvgPool2d(in=");
                push_id(&mut out, input.id());
                out.append(", k=");
                push_list(&mut out, kernel_size.as_slice());
                out.append(", s=");
                push_list(&mut out, stride.as_slice());
                out.append(", p=");
                push_list(&mut out, padding.as_slice());
                out.append(")");
                assert(out@ =~= "AvgPool2d(in="@ + id_text(input@.id) + ", k="@
                    + text::list_text(kernel_size@) + ", s="@ + text::list_text(stride@)
                    + ", p="@ + text::list_text(padding@) + ")"@);
            },
            Op::Conv1d { input, weight, bias, stride, padding } => {
                out.append("Conv1d(in=");
                push_id(&mut out, input.id());
                out.append(", w=");
                push_id(&mut out, weight.id());
                out.append(", bias=");
                push_bool(&mut out, bias.is_some());
                out.append(", s=");
                push_usize(&mut out, *stride);
                out.append(", p=");
                push_usize(&mut out, *padding);
                out.append(")");
                assert(out@ =~= "Conv1d(in="@ + id_text(input@.id) + ", w="@
                    + id_text(weight@.id) + ", bias="@ + text::bool_text(*bias is Some)
                    + ", s="@ + text::decimal(stride as nat) + ", p="@
                    + text::decimal(padding as nat) + ")"@);
            },
            Op::IndexSelect { input, indices, dim } => {
                out.append("IndexSelect(dim=");
                push_usize(&mut out, *dim);
                out.append(", input=");
                push_id(&mut out, input.id());
                out.append(", indices=");
                push_id(&mut out, indices.id());
                out.append(")");
                assert(out@ =~= "IndexSelect(dim="@ + text::decimal(dim as nat) + ", input="@
                    + id_text(input@.id) + ", indices="@ + id_text(indices@.id) + ")"@);
            },
            Op::ToDtype { input, src_dtype } => {
                out.append("ToDtype(from=");
                out.append(src_dtype.variant_str());
                out.append(", id=");
                push_id(&mut out, input.id());
                out.append(")");
                assert(out@ =~= "ToDtype(from="@ + src_dtype.variant_name() + ", id="@
                    + id_text(input@.id) + ")"@);
            },
        }
        out
    }

    /// The tensors that the operation was applied to.
    pub open spec fn input_list(self) -> Seq<Tensor<B>> {
        match self {
            Op::Leaf => seq![],
            Op::Binary { lhs, rhs, .. } => seq![lhs, rhs],
            Op::Unary { input, .. } => seq![input],
            Op::Reduce { input, .. } => seq![input],
            Op::Matmul { lhs, rhs } => seq![lhs, rhs],
            Op::Reshape { input, .. } => seq![input],
            Op::Transpose { input, .. } => seq![input],
            Op::Permute { input, .. } => seq![input],
            Op::Narrow { input, .. } => seq![input],
            Op::Affine { input, .. } => seq![input],
            Op::Contiguous { input } => seq![input],
            Op::Conv2d { input, weight, bias, .. } => match bias {
                Some(b) => seq![input, weight, b],
                None => seq![input, weight],
            },
            Op::MaxPool2d { input, .. } => seq![input],
            Op::Cat { inputs, .. } => inputs@,
            Op::Powf { input, .. } => seq![input],
            Op::Clamp { input, .. } => seq![input],
            Op::WhereCond { mask, on_true, on_false } => seq![mask, on_true, on_false],
            Op::Gather { input, index, .. } => seq![input, index],
            Op::Pad { input, .. } => seq![input],
            Op::AvgPool2d { input, .. } => seq![input],
            Op::Conv1d { input, weight, bias, .. } => match bias {
                Some(b) => seq![input, weight, b],
                None => seq![input, weight],
            },
            Op::IndexSelect { input, indices, .. } => seq![input, indices],
            Op::ToDtype { input, .. } => seq![input],
        }
    }

    /// References to all input tensors of this operation.
    pub fn inputs(&self) -> (r: Vec<&Tensor<B>>)
        ensures
            Seq::new(r@.len(), |i: int| *r@[i]) == self.input_list(),
    {
        let mut v: Vec<&Tensor<B>> = Vec::new();
        match self {
            Op::Leaf => {},
            Op::Binary { lhs, rhs, .. } => {
                v.push(lhs);
                v.push(rhs);
            },
            Op::Unary { input, .. } => {
                v.push(input);
            },
            Op::Reduce { input, .. } => {
                v.push(input);
            },
            Op::Matmul { lhs, rhs } => {
                v.push(lhs);
                v.push(rhs);
            },
            Op::Reshape { input, .. } => {
                v.push(input);
            },
            Op::Transpose { input, .. } => {
                v.push(input);
            },
            Op::Permute { input, .. } => {
                v.push(input);
            },
            Op::Narrow { input, .. } => {
                v.push(input);
            },
            Op::Affine { input, .. } => {
                v.push(input);
            },
            Op::Contiguous { input } => {
                v.push(input);
            },
            Op::Conv2d { input, weight, bias, .. } => {
                v.push(input);
                v.push(weight);
                match bias {
                    Some(b) => {
                        v.push(b);
                    },
                    None => {},
                }
            },
            Op::MaxPool2d { input, .. } => {
                v.push(input);
            },
            Op::Cat { inputs, .. } => {
                let n: usize = inputs.len();
                let mut i: usize = 0;
                while i < n
                    invariant
                        n == inputs@.len(),
                        i <= n,
                        v@.len() == i,
                        forall|k: int| 0 <= k < i ==> *(#[trigger] v@[k]) == inputs@[k],
                    decreases n - i,
                {
                    v.push(&inputs[i]);
                    i += 1;
                }
            },
            Op::Powf { input, .. } => {
                v.push(input);
            },
            Op::Clamp { input, .. } => {
                v.push(input);
            },
            Op::WhereCond { mask, on_true, on_false } => {
                v.push(mask);
                v.push(on_true);
                v.push(on_false);
            },
            Op::Gather { input, index, .. } => {
                v.push(input);
                v.push(index);
            },
            Op::Pad { input, .. } => {
                v.push(input);
            },
            Op::AvgPool2d { input, .. } => {
                v.push(input);
            },
            Op::Conv1d { input, weight, bias, .. } => {
                v.push(input);
                v.push(weight);
                match bias {
                    Some(b) => {
                        v.push(b);
                    },
                    None => {},
                }
            },
            Op::IndexSelect { input, indices, .. } => {
                v.push(input);
                v.push(indices);
            },
            Op::ToDtype { input, .. } => {
                v.push(input);
            },
        }
        assert(Seq::new(v@.len(), |i: int| *v@[i]) =~= self.input_list());
        v
    }

    /// The record of an operation is larger than its inputs.
    pub proof fn lemma_input_smaller(self, i: int)
        requires
            0 <= i < self.input_list().len(),
        ensures
            decreases_to!(self => self.input_list()[i]),
    {
        match self {
            Op::Leaf => {},
            Op::Binary { lhs, rhs, .. } => {
                assert(decreases_to!(self => lhs));
                assert(decreases_to!(self => rhs));
            },
            Op::Unary { input, .. } => {
                assert(decreases_to!(self => input));
            },
            Op::Reduce { input, .. } => {
                assert(decreases_to!(self => input));
            },
            Op::Matmul { lhs, rhs } => {
                assert(decreases_to!(self => lhs));
                assert(decreases_to!(self => rhs));
            },
            Op::Reshape { input, .. } => {
                assert(decreases_to!(self => input));
            },
            Op::Transpose { input, .. } => {
                assert(decreases_to!(self => input));
            },
            Op::Permute { input, .. } => {
                assert(decreases_to!(self => input));
            },
            Op::Narrow { input, .. } => {
                assert(decreases_to!(self => input));
            },
            Op::Affine { input, .. } => {
                assert(decreases_to!(self => input));
            },
            Op::Contiguous { input } => {
                assert(decreases_to!(self => input));
            },
            Op::Conv2d { input, weight, bias, .. } => {
                assert(decreases_to!(self => input));
                assert(decreases_to!(self => weight));
                assert(decreases_to!(self => bias));
                if let Some(b) = bias {
                    assert(decreases_to!(bias => b));
                }
            },
            Op::MaxPool2d { input, .. } => {
                assert(decreases_to!(self => input));
            },
            Op::Cat { inputs, .. } => {
                assert(decreases_to!(self => inputs@[i]));
            },
            Op::Powf { input, .. } => {
                assert(decreases_to!(self => input));
            },
            Op::Clamp { input, .. } => {
                assert(decreases_to!(self => input));
            },
            Op::WhereCond { mask, on_true, on_false } => {
                assert(decreases_to!(self => mask));
                assert(decreases_to!(self => on_true));
                assert(decreases_to!(self => on_false));
            },
            Op::Gather { input, index, .. } => {
                assert(decreases_to!(self => input));
                assert(decreases_to!(self => index));
            },
            Op::Pad { input, .. } => {
                assert(decreases_to!(self => input));
            },
            Op::AvgPool2d { input, .. } => {
                assert(decreases_to!(self => input));
            },
            Op::Conv1d { input, weight, bias, .. } => {
                assert(decreases_to!(self => input));
                assert(decreases_to!(self => weight));
                assert(decreases_to!(self => bias));
                if let Some(b) = bias {
                    assert(decreases_to!(bias => b));
                }
            },
            Op::IndexSelect { input, indices, .. } => {
                assert(decreases_to!(self => input));
                assert(decreases_to!(self => indices));
            },
            Op::ToDtype { input, .. } => {
                assert(decreases_to!(self => input));
            },
        }
    }
}

} // verus!
