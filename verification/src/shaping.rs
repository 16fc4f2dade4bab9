//! Operations on the shape of a tensor: views, reshapes and repeats.
use crate::backend::Backend;
use crate::elementwise;
use crate::error::{Error, Result};
use crate::layout::LayoutView;
use crate::nd;
use crate::op::Op;
use crate::shape::{copy_sizes, count_elements, Shape};
use crate::tensor::{self, Tensor};
use crate::text::{self, push_list, push_usize};
use crate::views::{
    self,
    contiguous_layout,
    count_fits,
    expanded_layout,
    narrowed_layout,
    permuted_layout,
    squeezed_all_layout,
    squeezed_layout,
    too_large,
    transposed_layout,
    unsqueezed_layout,
};
use vstd::arithmetic::div_mod::*;
use vstd::arithmetic::mul::*;
use vstd::prelude::*;

verus! {

/// The record of a change of shape.
pub open spec fn is_reshape_of<B: Backend>(op: Op<B>, a: Tensor<B>) -> bool {
    op matches Op::Reshape { input, src_shape } && input == a && src_shape@ == a@.dims()
}

/// The message about a dimension that cannot be removed.
pub open spec fn squeeze_text(dim: usize, size: usize) -> Seq<char> {
    "squeeze: dimension "@ + text::decimal(dim as nat) + " has size "@ + text::decimal(size as nat)
        + ", expected 1"@
}

/// The message about a wrong number of dimensions in a permutation.
pub open spec fn permute_count_text(rank: nat, got: nat) -> Seq<char> {
    "permute: expected "@ + text::decimal(rank) + " dimensions, got "@ + text::decimal(got)
}

/// The message about a dimension that a permutation names twice.
pub open spec fn permute_twice_text(dim: usize) -> Seq<char> {
    "permute: duplicate dimension "@ + text::decimal(dim as nat)
}

/// The first entry of a list that is no dimension, or names one again.
pub open spec fn permute_stops_at(p: Seq<usize>, rank: nat, i: int) -> bool {
    &&& 0 <= i < p.len()
    &&& p[i] >= rank || p.take(i).contains(p[i])
    &&& forall|j: int| 0 <= j < i ==> #[trigger] p[j] < rank && !p.take(j).contains(p[j])
}

/// The result of a permutation of the dimensions.
pub open spec fn permute_result<B: Backend>(
    a: Tensor<B>,
    p: Seq<usize>,
    r: Result<Tensor<B>>,
) -> bool {
    let rank = a@.dims().len();
    if p.len() != rank {
        r matches Err(Error::Msg(m)) && m@ == permute_count_text(rank, p.len())
    } else {
        match r {
            Ok(t) => {
                &&& views::is_permutation(p)
                &&& tensor::viewed(t, a, a@.layout@.permuted(p))
                &&& t@.op matches Op::Permute { input, dims } && input == a && dims@ == p
            },
            Err(e) => exists|i: int|
                {
                    &&& #[trigger] permute_stops_at(p, rank, i)
                    &&& if p[i] >= rank {
                        e == (Error::DimOutOfRange { dim: p[i], rank: rank as usize })
                    } else {
                        e matches Error::Msg(m) && m@ == permute_twice_text(p[i])
                    }
                },
        }
    }
}

/// The message about a range of dimensions that cannot be flattened.
pub open spec fn flatten_text(start: usize, end: usize, rank: nat) -> Seq<char> {
    "flatten: invalid range ["@ + text::decimal(start as nat) + ", "@ + text::decimal(end as nat)
        + "] for rank "@ + text::decimal(rank)
}

/// The sizes with a range of dimensions merged into one.
pub open spec fn flattened_dims(dims: Seq<usize>, start: int, end: int) -> Seq<usize> {
    dims.take(start) + seq![nd::product(dims.subrange(start, end + 1)) as usize] + dims.skip(
        end + 1,
    )
}

/// The message about an expansion to another rank.
pub open spec fn expand_rank_text(dims: Seq<usize>, target: Seq<usize>) -> Seq<char> {
    "expand: rank mismatch — self "@ + text::list_text(dims) + " vs target "@ + text::list_text(
        target,
    )
}

/// The message about a dimension that cannot be repeated.
pub open spec fn expand_size_text(i: int, size: usize) -> Seq<char> {
    "expand: can only expand size-1 dims, but dim "@ + text::decimal(i as nat) + " has size "@
        + text::decimal(size as nat)
}

/// The sizes of an expansion: the largest number stands for the size that a
/// dimension has.
pub open spec fn expand_sizes(dims: Seq<usize>, asked: Seq<usize>) -> Seq<usize> {
    Seq::new(
        asked.len(),
        |i: int|
            if asked[i] == usize::MAX {
                dims[i]
            } else {
                asked[i]
            },
    )
}

/// The result of an expansion to a shape.
pub open spec fn expand_result<B: Backend>(
    a: Tensor<B>,
    asked: Seq<usize>,
    r: Result<Tensor<B>>,
) -> bool {
    let dims = a@.dims();
    let target = expand_sizes(dims, asked);
    if dims.len() != asked.len() {
        r matches Err(Error::Msg(m)) && m@ == expand_rank_text(dims, asked)
    } else if !a@.layout@.expandable(target) {
        r matches Err(Error::Msg(m)) && exists|i: int|
            {
                &&& 0 <= i < dims.len()
                &&& #[trigger] dims[i] != target[i] && dims[i] != 1
                &&& forall|j: int| 0 <= j < i ==> #[trigger] dims[j] == target[j] || dims[j] == 1
                &&& m@ == expand_size_text(i, dims[i])
            }
    } else if nd::product(target) > usize::MAX {
        r matches Err(e) && views::is_too_large(e)
    } else {
        r matches Ok(t) && tensor::viewed(t, a, a@.layout@.expanded(target)) && t@.op is Leaf
    }
}

/// The result of a reshape to a shape.
pub open spec fn reshape_result<B: Backend>(
    a: Tensor<B>,
    dims: Seq<usize>,
    r: Result<Tensor<B>>,
) -> bool {
    if !nd::fits(dims) {
        r matches Err(e) && views::is_too_large(e)
    } else if nd::product(dims) != nd::product(a@.dims()) {
        r matches Err(Error::ReshapeElementMismatch { src, dst, dst_shape }) && src == nd::product(
            a@.dims(),
        ) && dst == nd::product(dims) && dst_shape@ == dims
    } else {
        exists|c: Result<Tensor<B>>| #[trigger]
            call_ensures(Tensor::contiguous, (&a,), c) && match c {
                Err(e) => r == Err::<Tensor<B>, _>(e),
                Ok(c) => r matches Ok(t) && tensor::viewed(t, c, LayoutView::contiguous(dims))
                    && is_reshape_of(t@.op, c),
            }
    }
}

/// The number of pieces of `size` slices that a dimension is cut into.
pub open spec fn piece_count(total: nat, size: nat) -> nat {
    if total == 0 {
        0
    } else {
        ((total - 1) / size as int + 1) as nat
    }
}

/// The length of a piece: the last one may be shorter.
pub open spec fn piece_len(total: nat, size: nat, k: int) -> nat {
    if total - k * size < size {
        (total - k * size) as nat
    } else {
        size
    }
}

/// The `k`-th piece is what `narrow` gives for its range.
pub open spec fn piece<B: Backend>(
    a: Tensor<B>,
    dim: usize,
    size: nat,
    k: int,
    p: Result<Tensor<B>>,
) -> bool {
    call_ensures(
        Tensor::narrow,
        (
            &a,
            dim,
            (k * size) as usize,
            piece_len(a@.dims()[dim as int] as nat, size, k) as usize,
        ),
        p,
    )
}

/// The pieces of `size` slices along a dimension, in order.
pub open spec fn pieces_result<B: Backend>(
    a: Tensor<B>,
    dim: usize,
    size: nat,
    r: Result<Vec<Tensor<B>>>,
) -> bool {
    let count = piece_count(a@.dims()[dim as int] as nat, size);
    match r {
        Ok(v) => v@.len() == count && forall|k: int|
            0 <= k < count ==> piece(a, dim, size, k, Ok(#[trigger] v@[k])),
        Err(e) => exists|k: int| 0 <= k < count && #[trigger] piece(a, dim, size, k, Err(e)),
    }
}

/// Cutting a dimension into pieces loses and repeats nothing: every slice
/// lies in exactly one piece, and every piece has a slice.
pub proof fn law_pieces_cover(total: nat, size: nat, c: int)
    requires
        size > 0,
        0 <= c < total,
    ensures
        0 <= c / (size as int) < piece_count(total, size),
        forall|k: int|
            0 <= k < piece_count(total, size) ==> ({
                &&& #[trigger] piece_len(total, size, k) >= 1
                &&& k * size <= c < k * size + piece_len(total, size, k) <==> k == c / size as int
            }),
{
    let s = size as int;
    lemma_fundamental_div_mod(c, s);
    lemma_fundamental_div_mod(total - 1, s);
    lemma_div_is_ordered(c, total - 1, s);
    lemma_div_pos_is_pos(c, s);
    let q = c / s;
    let last = (total - 1) / s;
    lemma_mod_bound(c, s);
    lemma_mod_bound(total - 1, s);
    assert forall|k: int| 0 <= k < piece_count(total, size) implies ({
        &&& #[trigger] piece_len(total, size, k) >= 1
        &&& k * s <= c < k * s + piece_len(total, size, k) <==> k == q
    }) by {
        lemma_mul_is_commutative(s, q);
        lemma_mul_is_commutative(s, last);
        lemma_mul_inequality(k, last, s);
        if k < q {
            lemma_mul_inequality(k + 1, q, s);
            lemma_mul_is_distributive_add_other_way(s, k, 1);
        } else if k > q {
            lemma_mul_inequality(q + 1, k, s);
            lemma_mul_is_distributive_add_other_way(s, q, 1);
        }
    }
}

/// A dimension that is cut into `n` equal pieces, the last one perhaps
/// shorter, gives at most `n` pieces.
pub proof fn law_chunks_at_most(total: nat, n: nat)
    requires
        n > 0,
        total > 0,
    ensures
        piece_count(total, piece_count(total, n)) <= n,
        piece_count(total, n) > 0,
{
    let s = piece_count(total, n) as int;
    let m = n as int;
    let t = total as int;
    lemma_fundamental_div_mod(t - 1, m);
    lemma_mod_bound(t - 1, m);
    lemma_div_pos_is_pos(t - 1, m);
    // total <= s * n, so (total - 1) / s < n
    assert(t - 1 < s * m) by (nonlinear_arith)
        requires
            t - 1 == m * (s - 1) + (t - 1) % m,
            (t - 1) % m < m,
    ;
    lemma_fundamental_div_mod(t - 1, s);
    lemma_mod_bound(t - 1, s);
    let q = (t - 1) / s;
    assert(q < m) by (nonlinear_arith)
        requires
            s * q <= t - 1,
            t - 1 < s * m,
            s > 0,
    ;
}

impl<B: Backend> Tensor<B> {
    /// Transpose two dimensions (no data copy).
    pub fn transpose(&self, dim0: usize, dim1: usize) -> (r: Result<Self>)
        ensures
            match r {
                Ok(t) => {
                    &&& dim0 < self@.dims().len() && dim1 < self@.dims().len()
                    &&& tensor::viewed(
                        t,
                        *self,
                        self@.layout@.transposed(dim0 as int, dim1 as int),
                    )
                    &&& t@.op == Op::<B>::Transpose { input: *self, dim0, dim1 }
                },
                Err(e) => {
                    &&& dim0 >= self@.dims().len() || dim1 >= self@.dims().len()
                    &&& e == (Error::DimOutOfRange {
                        dim: if dim0 >= dim1 {
                            dim0
                        } else {
                            dim1
                        },
                        rank: self@.dims().len() as usize,
                    })
                },
            },
    {
        let layout = transposed_layout(self.layout(), dim0, dim1)?;
        let op = Op::Transpose { input: self.clone(), dim0, dim1 };
        Ok(self.view_with_layout(layout, op))
    }

    /// Transpose a 2D matrix.
    pub fn t(&self) -> (r: Result<Self>)
        ensures
            if self@.dims().len() != 2 {
                r == Err::<Self, _>(
                    Error::RankMismatch { expected: 2, got: self@.dims().len() as usize },
                )
            } else {
                call_ensures(Self::transpose, (self, 0usize, 1usize), r)
            },
    {
        let rank: usize = self.rank();
        if rank != 2 {
            return Err(Error::RankMismatch { expected: 2, got: rank });
        }
        self.transpose(0, 1)
    }

    /// Narrow (slice) along a dimension (no data copy).
    pub fn narrow(&self, dim: usize, start: usize, len: usize) -> (r: Result<Self>)
        ensures
            match r {
                Ok(t) => {
                    &&& dim < self@.dims().len() && start + len <= self@.dims()[dim as int]
                    &&& tensor::viewed(t, *self, self@.layout@.narrowed(dim as int, start, len))
                    &&& t@.op == Op::<B>::Narrow { input: *self, dim, start, len }
                },
                Err(e) => if dim >= self@.dims().len() {
                    e == (Error::DimOutOfRange { dim, rank: self@.dims().len() as usize })
                } else if start + len > self@.dims()[dim as int] {
                    e == (Error::NarrowOutOfBounds {
                        dim,
                        start,
                        len,
                        dim_size: self@.dims()[dim as int],
                    })
                } else {
                    &&& views::is_too_large(e)
                    &&& self@.layout@.offset + start * self@.layout@.strides[dim as int]
                        > usize::MAX
                },
            },
    {
        let layout = narrowed_layout(self.layout(), dim, start, len)?;
        let op = Op::Narrow { input: self.clone(), dim, start, len };
        Ok(self.view_with_layout(layout, op))
    }

    /// Ensure the tensor is contiguous in memory: the tensor itself if it
    /// is, and else a copy.
    pub fn contiguous(&self) -> (r: Result<Self>)
        ensures
            if nd::fits(self@.dims()) && self@.layout@ == LayoutView::contiguous(self@.dims()) {
                r == Ok::<Self, Error>(*self)
            } else {
                elementwise::applied(
                    *self,
                    |s: B::Storage, made: Result<B::Storage>|
                        call_ensures(B::to_contiguous, (&s, &self@.layout), made),
                    Op::Contiguous { input: *self },
                    r,
                )
            },
    {
        if self.is_contiguous() {
            return Ok(self.clone());
        }
        let guard = self.storage()?;
        let ghost call = |s: B::Storage, made: Result<B::Storage>|
            call_ensures(B::to_contiguous, (&s, &self@.layout), made);
        let s = self.contents(&guard);
        let made = B::to_contiguous(s, self.layout());
        assert(call(*s, made));
        Self::store(
            made,
            self.shape().clone(),
            self.dtype(),
            self.device(),
            Op::Contiguous { input: self.clone() },
        )
    }

    /// Reshape to a new shape with the same number of elements. A tensor
    /// that is not contiguous is copied first.
    pub fn reshape<S: Into<Shape>>(&self, new_shape: S) -> (r: Result<Self>)
        ensures
            exists|s: Shape| #[trigger]
                call_ensures(<S as Into<Shape>>::into, (new_shape,), s) && reshape_result(
                    *self,
                    s@,
                    r,
                ),
    {
        let shape: Shape = new_shape.into();
        self.reshape_to(shape)
    }

    /// The same for a shape that needs no conversion.
    pub(crate) fn reshape_to(&self, shape: Shape) -> (r: Result<Self>)
        ensures
            reshape_result(*self, shape@, r),
    {
        if !views::sizes_fit(shape.dims()) {
            return Err(views::too_large());
        }
        let src: usize = self.elem_count();
        let dst: usize = shape.elem_count();
        if src != dst {
            return Err(Error::ReshapeElementMismatch { src, dst, dst_shape: shape });
        }
        let c = self.contiguous()?;
        let layout = contiguous_layout(shape)?;
        let op = Op::Reshape { input: c.clone(), src_shape: c.shape().clone() };
        Ok(c.view_with_layout(layout, op))
    }

    /// Add a dimension of size 1 at the given position.
    pub fn unsqueeze(&self, dim: usize) -> (r: Result<Self>)
        ensures
            if dim > self@.dims().len() {
                r == Err::<Self, _>(
                    Error::DimOutOfRange { dim, rank: (self@.dims().len() + 1) as usize },
                )
            } else {
                r matches Ok(t) && tensor::viewed(t, *self, self@.layout@.unsqueezed(dim as int))
                    && is_reshape_of(t@.op, *self)
            },
    {
        let rank: usize = self.rank();
        if dim > rank {
            return Err(Error::DimOutOfRange { dim, rank: rank + 1 });
        }
        let layout = unsqueezed_layout(self.layout(), dim);
        let op = Op::Reshape { input: self.clone(), src_shape: self.shape().clone() };
        Ok(self.view_with_layout(layout, op))
    }

    /// Remove dimensions of size 1.
    pub fn squeeze_all(&self) -> (r: Self)
        ensures
            tensor::viewed(r, *self, self@.layout@.squeezed_all()),
            is_reshape_of(r@.op, *self),
    {
        let layout = squeezed_all_layout(self.layout());
        let op = Op::Reshape { input: self.clone(), src_shape: self.shape().clone() };
        self.view_with_layout(layout, op)
    }

    /// Remove a specific dimension of size 1.
    pub fn squeeze(&self, dim: usize) -> (r: Result<Self>)
        ensures
            if dim >= self@.dims().len() {
                r == Err::<Self, _>(
                    Error::DimOutOfRange { dim, rank: self@.dims().len() as usize },
                )
            } else if self@.dims()[dim as int] != 1 {
                r matches Err(Error::Msg(m)) && m@ == squeeze_text(dim, self@.dims()[dim as int])
            } else {
                r matches Ok(t) && tensor::viewed(t, *self, self@.layout@.squeezed(dim as int))
                    && is_reshape_of(t@.op, *self)
            },
    {
        let rank: usize = self.rank();
        if dim >= rank {
            return Err(Error::DimOutOfRange { dim, rank });
        }
        let size: usize = self.dims()[dim];
        if size != 1 {
            let mut m = String::new();
            m.append("squeeze: dimension ");
            push_usize(&mut m, dim);
            m.append(" has size ");
            push_usize(&mut m, size);
            m.append(", expected 1");
            assert(m@ =~= squeeze_text(dim, size));
            return Err(Error::Msg(m));
        }
        let layout = squeezed_layout(self.layout(), dim);
        let op = Op::Reshape { input: self.clone(), src_shape: self.shape().clone() };
        Ok(self.view_with_layout(layout, op))
    }

    /// Permute the dimensions (no data copy): dimension `i` of the result is
    /// dimension `dims[i]` of this tensor.
    pub fn permute(&self, dims: &[usize]) -> (r: Result<Self>)
        ensures
            permute_result(*self, dims@, r),
    {
        let rank: usize = self.rank();
        if dims.len() != rank {
            let mut m = String::new();
            m.append("permute: expected ");
            push_usize(&mut m, rank);
            m.append(" dimensions, got ");
            push_usize(&mut m, dims.len());
            assert(m@ =~= permute_count_text(rank as nat, dims@.len()));
            return Err(Error::Msg(m));
        }
        let mut seen: Vec<bool> = vec![false; rank];
        let mut i: usize = 0;
        while i < rank
            invariant
                rank == self@.dims().len(),
                rank == dims@.len(),
                rank == seen@.len(),
                i <= rank,
                forall|j: int|
                    0 <= j < i ==> #[trigger] dims@[j] < rank && !dims@.take(j).contains(dims@[j]),
                forall|d: int|
                    0 <= d < rank ==> (#[trigger] seen@[d] <==> dims@.take(i as int).contains(
                        d as usize,
                    )),
            decreases rank - i,
        {
            let d: usize = dims[i];
            if d >= rank {
                assert(permute_stops_at(dims@, self@.dims().len(), i as int));
                return Err(Error::DimOutOfRange { dim: d, rank });
            }
            if seen[d] {
                assert(permute_stops_at(dims@, self@.dims().len(), i as int));
                let mut m = String::new();
                m.append("permute: duplicate dimension ");
                push_usize(&mut m, d);
                assert(m@ =~= permute_twice_text(d));
                return Err(Error::Msg(m));
            }
            let ghost before = seen@;
            seen[d] = true;
            proof {
                let head = dims@.take(i as int);
                let next = dims@.take(i + 1);
                assert(next =~= head.push(d));
                assert forall|e: int| 0 <= e < rank implies (#[trigger] seen@[e] <==> next.contains(
                    e as usize,
                )) by {
                    if head.contains(e as usize) {
                        let k = choose|k: int| 0 <= k < head.len() && head[k] == e as usize;
                        assert(next[k] == e as usize);
                    }
                    if next.contains(e as usize) && e != d {
                        let k = choose|k: int| 0 <= k < next.len() && next[k] == e as usize;
                        assert(head[k] == e as usize);
                    }
                    if e == d {
                        assert(next[i as int] == e as usize);
                    }
                    assert(before[e] <==> head.contains(e as usize));
                }
            }
            i += 1;
        }
        proof {
            assert forall|a: int, b: int|
                0 <= a < dims@.len() && 0 <= b < dims@.len() && a != b implies dims@[a]
                != dims@[b] by {
                if dims@[a] == dims@[b] {
                    let (lo, hi) = if a < b {
                        (a, b)
                    } else {
                        (b, a)
                    };
                    assert(dims@.take(hi)[lo] == dims@[hi]);
                    assert(dims@.take(hi).contains(dims@[hi]));
                }
            }
        }
        let layout = permuted_layout(self.layout(), dims);
        let op = Op::Permute { input: self.clone(), dims: copy_sizes(dims) };
        Ok(self.view_with_layout(layout, op))
    }

    /// Flatten the dimensions `start_dim..=end_dim` into a single one.
    pub fn flatten(&self, start_dim: usize, end_dim: usize) -> (r: Result<Self>)
        ensures
            if end_dim >= self@.dims().len() || start_dim > end_dim {
                r matches Err(Error::Msg(m)) && m@ == flatten_text(
                    start_dim,
                    end_dim,
                    self@.dims().len(),
                )
            } else if nd::product(self@.dims().subrange(start_dim as int, end_dim + 1))
                > usize::MAX {
                r matches Err(e) && views::is_too_large(e)
            } else {
                reshape_result(
                    *self,
                    flattened_dims(self@.dims(), start_dim as int, end_dim as int),
                    r,
                )
            },
    {
        let rank: usize = self.rank();
        if start_dim >= rank || end_dim >= rank || start_dim > end_dim {
            let mut m = String::new();
            m.append("flatten: invalid range [");
            push_usize(&mut m, start_dim);
            m.append(", ");
            push_usize(&mut m, end_dim);
            m.append("] for rank ");
            push_usize(&mut m, rank);
            assert(m@ =~= flatten_text(start_dim, end_dim, rank as nat));
            return Err(Error::Msg(m));
        }
        let dims = self.dims();
        let ghost d = dims@;
        let middle = vstd::slice::slice_subrange(dims, start_dim, end_dim + 1);
        if !count_fits(middle) {
            return Err(too_large());
        }
        let flat: usize = count_elements(middle);
        let mut sizes = copy_sizes(vstd::slice::slice_subrange(dims, 0, start_dim));
        sizes.push(flat);
        sizes.extend_from_slice(vstd::slice::slice_subrange(dims, end_dim + 1, rank));
        proof {
            assert(d.subrange(0, start_dim as int) =~= d.take(start_dim as int));
            assert(d.subrange(end_dim + 1, rank as int) =~= d.skip(end_dim + 1));
            assert(sizes@ =~= flattened_dims(d, start_dim as int, end_dim as int));
        }
        self.reshape_to(Shape::new(sizes))
    }

    /// Expand to a larger shape by repeating dimensions of size 1 (no data
    /// copy). A size of `usize::MAX` keeps the dimension as it is.
    pub fn expand<S: Into<Shape>>(&self, target_shape: S) -> (r: Result<Self>)
        ensures
            exists|s: Shape| #[trigger]
                call_ensures(<S as Into<Shape>>::into, (target_shape,), s) && expand_result(
                    *self,
                    s@,
                    r,
                ),
    {
        let target: Shape = target_shape.into();
        self.expand_to(target)
    }

    /// The same for a shape that needs no conversion.
    fn expand_to(&self, asked: Shape) -> (r: Result<Self>)
        ensures
            expand_result(*self, asked@, r),
    {
        let dims = self.dims();
        let wanted = asked.dims();
        let n: usize = dims.len();
        if n != wanted.len() {
            let mut m = String::new();
            m.append("expand: rank mismatch — self ");
            push_list(&mut m, dims);
            m.append(" vs target ");
            push_list(&mut m, wanted);
            assert(m@ =~= expand_rank_text(dims@, wanted@));
            return Err(Error::Msg(m));
        }
        let ghost target = expand_sizes(dims@, wanted@);
        let mut sizes: Vec<usize> = Vec::with_capacity(n);
        let mut i: usize = 0;
        while i < n
            invariant
                n == dims@.len(),
                n == wanted@.len(),
                dims@ == self@.dims(),
                wanted@ == asked@,
                target == expand_sizes(dims@, wanted@),
                i <= n,
                sizes@ == target.take(i as int),
                forall|j: int| 0 <= j < i ==> #[trigger] dims@[j] == target[j] || dims@[j] == 1,
            decreases n - i,
        {
            let size: usize = if wanted[i] == usize::MAX {
                dims[i]
            } else {
                wanted[i]
            };
            if dims[i] != size && dims[i] != 1 {
                let mut m = String::new();
                m.append("expand: can only expand size-1 dims, but dim ");
                push_usize(&mut m, i);
                m.append(" has size ");
                push_usize(&mut m, dims[i]);
                assert(m@ =~= expand_size_text(i as int, dims@[i as int]));
                assert(self@.dims()[i as int] != target[i as int]);
                return Err(Error::Msg(m));
            }
            sizes.push(size);
            i += 1;
            assert(sizes@ =~= target.take(i as int));
        }
        assert(sizes@ =~= target);
        let layout = expanded_layout(self.layout(), Shape::new(sizes))?;
        Ok(self.view_with_layout(layout, Op::Leaf))
    }

    /// Split into `n` equal chunks along a dimension. The last chunk is
    /// smaller if the dimension is not evenly divisible.
    pub fn chunk(&self, n: usize, dim: usize) -> (r: Result<Vec<Self>>)
        requires
            n > 0 || dim >= self@.dims().len(),
        ensures
            if dim >= self@.dims().len() {
                r == Err::<Vec<Self>, _>(
                    Error::DimOutOfRange { dim, rank: self@.dims().len() as usize },
                )
            } else {
                pieces_result(
                    *self,
                    dim,
                    piece_count(self@.dims()[dim as int] as nat, n as nat),
                    r,
                )
            },
    {
        let rank: usize = self.rank();
        if dim >= rank {
            return Err(Error::DimOutOfRange { dim, rank });
        }
        let total: usize = self.dims()[dim];
        let size: usize = if total == 0 {
            0
        } else {
            proof {
                lemma_div_is_ordered_by_denominator((total - 1) as int, 1, n as int);
                lemma_div_basics((total - 1) as int);
                lemma_div_pos_is_pos((total - 1) as int, n as int);
            }
            (total - 1) / n + 1
        };
        self.pieces(size, dim)
    }

    /// Split into chunks of `split_size` along `dim`. The last chunk may be
    /// smaller.
    pub fn split(&self, split_size: usize, dim: usize) -> (r: Result<Vec<Self>>)
        ensures
            if dim >= self@.dims().len() {
                r == Err::<Vec<Self>, _>(
                    Error::DimOutOfRange { dim, rank: self@.dims().len() as usize },
                )
            } else if split_size == 0 {
                r matches Err(Error::Msg(m)) && m@ == "split: split_size must be > 0"@
            } else {
                pieces_result(*self, dim, split_size as nat, r)
            },
    {
        let rank: usize = self.rank();
        if dim >= rank {
            return Err(Error::DimOutOfRange { dim, rank });
        }
        if split_size == 0 {
            return Err(Error::Msg("split: split_size must be > 0".to_owned()));
        }
        self.pieces(split_size, dim)
    }

    /// The pieces of `size` slices along a dimension.
    fn pieces(&self, size: usize, dim: usize) -> (r: Result<Vec<Self>>)
        requires
            dim < self@.dims().len(),
            size > 0 || self@.dims()[dim as int] == 0,
        ensures
            pieces_result(*self, dim, size as nat, r),
    {
        let total: usize = self.dims()[dim];
        let mut parts: Vec<Self> = Vec::new();
        let mut start: usize = 0;
        let ghost s = size as int;
        let ghost count = piece_count(total as nat, size as nat);
        while start < total
            invariant
                total == self@.dims()[dim as int],
                s == size,
                size > 0 || total == 0,
                count == piece_count(total as nat, size as nat),
                parts@.len() <= count,
                start == if parts@.len() < count {
                    parts@.len() * s
                } else {
                    total as int
                },
                forall|k: int|
                    0 <= k < parts@.len() ==> piece(
                        *self,
                        dim,
                        size as nat,
                        k,
                        Ok(#[trigger] parts@[k]),
                    ),
            decreases total - start,
        {
            let ghost k = parts@.len() as int;
            proof {
                if k >= count {
                    assert(start == total);
                }
                lemma_fundamental_div_mod(total - 1, s);
                lemma_mod_bound(total - 1, s);
                let last = (total - 1) / s;
                lemma_mul_is_commutative(s, last);
                lemma_mul_is_distributive_add_other_way(s, k, 1);
                if k < last {
                    lemma_mul_inequality(k + 1, last, s);
                } else {
                    assert(k == last);
                }
            }
            let rest: usize = total - start;
            let len: usize = if size < rest {
                size
            } else {
                rest
            };
            let p = self.narrow(dim, start, len);
            assert(len == piece_len(total as nat, size as nat, k));
            assert(piece(*self, dim, size as nat, k, p));
            parts.push(p?);
            start += len;
        }
        proof {
            if total > 0 {
                lemma_fundamental_div_mod(total - 1, s);
                lemma_mod_bound(total - 1, s);
                let last = (total - 1) / s;
                let k = parts@.len() as int;
                if k < count {
                    lemma_mul_is_commutative(s, last);
                    lemma_mul_inequality(k, last, s);
                }
            }
        }
        Ok(parts)
    }
}

} // verus!
