//! Passing values between a tensor and the host.
use crate::backend::Backend;
use crate::dtype::DType;
use crate::elementwise;
use crate::error::{Error, Result};
use crate::nd;
use crate::op::Op;
use crate::scalar::Real;
use crate::tensor::{self, Tensor};
use crate::text::{self, push_list};
use vstd::prelude::*;

verus! {

/// The elements of a tensor, one for each position of its shape.
pub open spec fn values_result<B: Backend>(a: Tensor<B>, r: Result<Vec<B::Scalar>>) -> bool {
    exists|read: Result<Vec<B::Scalar>>| #[trigger]
        call_ensures(Tensor::to_f64_vec, (&a,), read) && match read {
            Err(e) => r == Err::<Vec<B::Scalar>, _>(e),
            Ok(v) => if v@.len() == nd::product(a@.dims()) {
                r == Ok::<Vec<B::Scalar>, Error>(v)
            } else {
                r matches Err(e) && tensor::is_count_mismatch(e, a@.dims(), v@.len())
            },
        }
}

/// The elements of the contiguous form of a tensor.
pub open spec fn dense_values_result<B: Backend>(a: Tensor<B>, r: Result<Vec<B::Scalar>>) -> bool {
    exists|c: Result<Tensor<B>>| #[trigger]
        call_ensures(Tensor::contiguous, (&a,), c) && match c {
            Err(e) => r == Err::<Vec<B::Scalar>, _>(e),
            Ok(c) => values_result(c, r),
        }
}

/// The first `n` texts, separated by `", "`.
pub open spec fn joined_texts(texts: Seq<String>, n: nat) -> Seq<char>
    decreases n,
{
    if n == 0 {
        seq![]
    } else if n == 1 {
        texts[0]@
    } else {
        joined_texts(texts, (n - 1) as nat) + ", "@ + texts[n - 1]@
    }
}

/// The text that a number type gives for an element.
pub open spec fn element_text<S: Real>(x: S, t: String) -> bool {
    call_ensures(S::to_text, (x,), t)
}

/// Each text is that of the number at its place.
pub open spec fn texts_of<S: Real>(texts: Seq<String>, vals: Seq<S>) -> bool {
    &&& texts.len() == vals.len()
    &&& forall|i: int| 0 <= i < vals.len() ==> element_text(vals[i], #[trigger] texts[i])
}

/// The texts of numbers.
fn number_texts<S: Real>(vals: &[S]) -> (r: Vec<String>)
    ensures
        texts_of(r@, vals@),
{
    let n: usize = vals.len();
    let mut texts: Vec<String> = Vec::with_capacity(n);
    let mut i: usize = 0;
    while i < n
        invariant
            n == vals@.len(),
            i <= n,
            texts@.len() == i,
            forall|k: int| 0 <= k < i ==> element_text(vals@[k], #[trigger] texts@[k]),
        decreases n - i,
    {
        let x: S = vals[i];
        let t = x.to_text();
        assert(element_text(x, t));
        texts.push(t);
        i += 1;
    }
    texts
}

fn push_texts(out: &mut String, texts: &[String])
    ensures
        final(out)@ == old(out)@ + joined_texts(texts@, texts@.len()),
{
    let ghost start = out@;
    let n: usize = texts.len();
    let mut i: usize = 0;
    assert(out@ =~= start + joined_texts(texts@, 0));
    while i < n
        invariant
            n == texts@.len(),
            i <= n,
            out@ == start + joined_texts(texts@, i as nat),
        decreases n - i,
    {
        if i > 0 {
            out.append(", ");
        }
        out.append(texts[i].as_str());
        i += 1;
        assert(out@ =~= start + joined_texts(texts@, i as nat));
    }
}

impl<B: Backend> Tensor<B> {
    /// Extract all elements, in row-major order.
    pub fn to_f64_vec(&self) -> (r: Result<Vec<B::Scalar>>)
        ensures
            ({
                ||| tensor::refused(*self, r)
                ||| exists|s: B::Storage|
                    self@.storage.can_hold(s) && #[trigger] call_ensures(
                        B::to_f64_vec,
                        (&s, &self@.layout),
                        r,
                    )
            }),
    {
        let guard = self.storage()?;
        B::to_f64_vec(self.contents(&guard), self.layout())
    }

    /// All elements. It is an error if the backend does not give one for
    /// each position.
    pub(crate) fn values(&self) -> (r: Result<Vec<B::Scalar>>)
        ensures
            values_result(*self, r),
            r matches Ok(v) ==> v@.len() == nd::product(self@.dims()),
    {
        let v = self.to_f64_vec()?;
        let expected: usize = self.elem_count();
        if v.len() != expected {
            return Err(
                Error::ElementCountMismatch {
                    shape: self.shape().clone(),
                    expected,
                    got: v.len(),
                },
            );
        }
        Ok(v)
    }

    /// All elements of the contiguous form.
    pub(crate) fn dense_values(&self) -> (r: Result<Vec<B::Scalar>>)
        ensures
            dense_values_result(*self, r),
            r matches Ok(v) ==> v@.len() == nd::product(self@.dims()),
    {
        let c = self.contiguous()?;
        c.values()
    }

    /// Extract a scalar value (the tensor must have exactly 1 element).
    pub fn to_scalar_f64(&self) -> (r: Result<B::Scalar>)
        ensures
            if nd::product(self@.dims()) != 1 {
                r matches Err(Error::NotAScalar { shape }) && shape@ == self@.dims()
            } else {
                exists|v: Result<Vec<B::Scalar>>| #[trigger]
                    values_result(*self, v) && match v {
                        Err(e) => r == Err::<B::Scalar, _>(e),
                        Ok(v) => v@.len() == 1 && r == Ok::<B::Scalar, Error>(v@[0]),
                    }
            },
    {
        if self.elem_count() != 1 {
            return Err(Error::NotAScalar { shape: self.shape().clone() });
        }
        let v = self.values()?;
        Ok(v[0])
    }

    /// Convert to a different dtype. The tensor itself if it has the dtype.
    /// The conversion is recorded, so that gradients flow back through it.
    pub fn to_dtype(&self, dtype: DType) -> (r: Result<Self>)
        ensures
            if self@.dtype == dtype {
                r == Ok::<Self, Error>(*self)
            } else {
                ||| tensor::refused(*self, r)
                ||| exists|s: B::Storage, made: Result<B::Storage>|
                    self@.storage.can_hold(s) && #[trigger] call_ensures(
                        B::cast,
                        (&s, &self@.layout, dtype, &self@.device),
                        made,
                    ) && elementwise::stored_result(
                        made,
                        self@.dims(),
                        dtype,
                        self@.device,
                        Op::ToDtype { input: *self, src_dtype: self@.dtype },
                        r,
                    )
            },
    {
        if self.dtype() == dtype {
            return Ok(self.clone());
        }
        let guard = self.storage()?;
        let made = B::cast(self.contents(&guard), self.layout(), dtype, self.device());
        let record = Op::ToDtype { input: self.clone(), src_dtype: self.dtype() };
        Self::store(made, self.shape().clone(), dtype, self.device(), record)
    }

    /// The tensor with its contents in a human-readable format.
    pub fn to_string_with_data(&self) -> (r: Result<String>)
        ensures
            exists|v: Result<Vec<B::Scalar>>| #[trigger]
                call_ensures(Self::to_f64_vec, (self,), v) && match v {
                    Err(e) => r == Err::<String, _>(e),
                    Ok(v) => r matches Ok(s) && exists|texts: Seq<String>| #[trigger]
                        texts_of(texts, v@) && s@ == "Tensor(shape="@ + text::list_text(self@.dims())
                            + ", dtype="@ + self@.dtype.name() + ", data=["@ + joined_texts(
                            texts,
                            texts.len(),
                        ) + "])"@,
                },
    {
        let data = self.to_f64_vec()?;
        let texts = number_texts(data.as_slice());
        let mut out = String::new();
        out.append("Tensor(shape=");
        push_list(&mut out, self.dims());
        out.append(", dtype=");
        out.append(self.dtype().as_str());
        out.append(", data=[");
        push_texts(&mut out, texts.as_slice());
        out.append("])");
        assert(texts_of(texts@, data@));
        assert(out@ =~= "Tensor(shape="@ + text::list_text(self@.dims()) + ", dtype="@
            + self@.dtype.name() + ", data=["@ + joined_texts(texts@, texts@.len()) + "])"@);
        Ok(out)
    }
}

} // verus!
