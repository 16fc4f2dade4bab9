//! The error type of the library.
use crate::dtype::DType;
use crate::shape::Shape;
use crate::text::{self, push_list, push_usize};
use vstd::prelude::*;

verus! {

/// All errors that can occur: shape, rank and dtype mismatches, dimensions
/// and slices out of range, and messages of a backend.
#[derive(Debug)]
#[allow(inconsistent_fields)]
pub enum Error {
    /// Shape mismatch between two tensors.
    ShapeMismatch { expected: Shape, got: Shape },
    /// An operation requires a specific number of dimensions.
    RankMismatch { expected: usize, got: usize },
    /// DType mismatch between the tensors of an operation.
    DTypeMismatch { expected: DType, got: DType },
    /// Dimension index out of range for the tensor's rank.
    DimOutOfRange { dim: usize, rank: usize },
    /// A slice along a dimension reaches past its end.
    NarrowOutOfBounds { dim: usize, start: usize, len: usize, dim_size: usize },
    /// A scalar was asked of a tensor that is not one.
    NotAScalar { shape: Shape },
    /// The number of values does not fill the shape.
    ElementCountMismatch { shape: Shape, expected: usize, got: usize },
    /// The inner dimensions of a matrix product differ.
    MatmulShapeMismatch { m: usize, k1: usize, k2: usize, n: usize },
    /// A reshape to a shape with another number of elements.
    ReshapeElementMismatch { src: usize, dst: usize, dst_shape: Shape },
    /// Any other failure.
    Msg(String),
}

/// The result type used throughout the library.
pub type Result<T> = std::result::Result<T, Error>;

impl Error {
    /// The error's message.
    pub open spec fn text(self) -> Seq<char> {
        match self {
            Error::ShapeMismatch { expected, got } => "shape mismatch: expected "@
                + text::list_text(expected@) + ", got "@ + text::list_text(got@),
            Error::RankMismatch { expected, got } => "rank mismatch: expected rank "@
                + text::decimal(expected as nat) + ", got "@ + text::decimal(got as nat),
            Error::DTypeMismatch { expected, got } => "dtype mismatch: expected "@
                + expected.variant_name() + ", got "@ + got.variant_name(),
            Error::DimOutOfRange { dim, rank } => "dimension out of range: dim "@
                + text::decimal(dim as nat) + " for tensor with "@ + text::decimal(rank as nat)
                + " dimensions"@,
            Error::NarrowOutOfBounds { dim, start, len, dim_size } => "narrow out of bounds: dim "@
                + text::decimal(dim as nat) + ", start "@ + text::decimal(start as nat)
                + ", len "@ + text::decimal(len as nat) + ", dim_size "@
                + text::decimal(dim_size as nat),
            Error::NotAScalar { shape } => "not a scalar: tensor has shape "@
                + text::list_text(shape@),
            Error::ElementCountMismatch { shape, expected, got } =>
                "element count mismatch: shape "@ + text::list_text(shape@) + " requires "@
                + text::decimal(expected as nat) + " elements, got "@ + text::decimal(got as nat),
            Error::MatmulShapeMismatch { m, k1, k2, n } => "matmul shape mismatch: ["@
                + text::decimal(m as nat) + "x"@ + text::decimal(k1 as nat) + "] @ ["@
                + text::decimal(k2 as nat) + "x"@ + text::decimal(n as nat)
                + "] — inner dims must match"@,
            Error::ReshapeElementMismatch { src, dst, dst_shape } =>
                "cannot reshape: source has "@ + text::decimal(src as nat)
                + " elements, target shape "@ + text::list_text(dst_shape@) + " has "@
                + text::decimal(dst as nat) + " elements"@,
            Error::Msg(s) => s@,
        }
    }

    /// Create an error from a message.
    pub fn msg<S: Into<String>>(s: S) -> (r: Self)
        ensures
            r matches Error::Msg(m) && call_ensures(<S as Into<String>>::into, (s,), m),
    {
        Error::Msg(s.into())
    }

    /// The error's message as a string.
    pub fn to_string(&self) -> (r: String)
        ensures
            r@ == self.text(),
    {
        let mut out = String::new();
        match self {
            Error::ShapeMismatch { expected, got } => {
                out.append("shape mismatch: expected ");
                push_list(&mut out, expected.dims());
                out.append(", got ");
                push_list(&mut out, got.dims());
            },
            Error::RankMismatch { expected, got } => {
                out.append("rank mismatch: expected rank ");
                push_usize(&mut out, *expected);
                out.append(", got ");
                push_usize(&mut out, *got);
            },
            Error::DTypeMismatch { expected, got } => {
                out.append("dtype mismatch: expected ");
                out.append(expected.variant_str());
                out.append(", got ");
                out.append(got.variant_str());
            },
            Error::DimOutOfRange { dim, rank } => {
                out.append("dimension out of range: dim ");
                push_usize(&mut out, *dim);
                out.append(" for tensor with ");
                push_usize(&mut out, *rank);
                out.append(" dimensions");
            },
            Error::NarrowOutOfBounds { dim, start, len, dim_size } => {
                out.append("narrow out of bounds: dim ");
                push_usize(&mut out, *dim);
                out.append(", start ");
                push_usize(&mut out, *start);
                out.append(", len ");
                push_usize(&mut out, *len);
                out.append(", dim_size ");
                push_usize(&mut out, *dim_size);
            },
            Error::NotAScalar { shape } => {
                out.append("not a scalar: tensor has shape ");
                push_list(&mut out, shape.dims());
            },
            Error::ElementCountMismatch { shape, expected, got } => {
                out.append("element count mismatch: shape ");
                push_list(&mut out, shape.dims());
                out.append(" requires ");
                push_usize(&mut out, *expected);
                out.append(" elements, got ");
                push_usize(&mut out, *got);
            },
            Error::MatmulShapeMismatch { m, k1, k2, n } => {
                out.append("matmul shape mismatch: [");
                push_usize(&mut out, *m);
                out.append("x");
                push_usize(&mut out, *k1);
                out.append("] @ [");
                push_usize(&mut out, *k2);
                out.append("x");
                push_usize(&mut out, *n);
                out.append("] — inner dims must match");
            },
            Error::ReshapeElementMismatch { src, dst, dst_shape } => {
                out.append("cannot reshape: source has ");
                push_usize(&mut out, *src);
                out.append(" elements, target shape ");
                push_list(&mut out, dst_shape.dims());
                out.append(" has ");
                push_usize(&mut out, *dst);
                out.append(" elements");
            },
            Error::Msg(s) => {
                out.append(s.as_str());
            },
        }
        assert(out@ =~= self.text());
        out
    }
}

/// `String::from` on a string slice: the new string holds the same text.
pub assume_specification<'a>[ <String as From<&'a str>>::from ](s: &str) -> (r: String)
    ensures
        r@ == s@,
;

} // verus!
