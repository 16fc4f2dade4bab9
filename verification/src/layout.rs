//! Memory layout of a tensor: shape, strides and offset into flat storage.
//!
//! The layout decouples the logical shape of a tensor from how its data is
//! arranged in memory: transposing and slicing change the layout alone.
use crate::error::{Error, Result};
use crate::nd;
use crate::shape::{copy_sizes, same_sizes, Shape};
use vstd::arithmetic::mul::*;
use vstd::prelude::*;

verus! {

/// What a layout says: the size and the stride of each dimension and the
/// position of the first element.
#[verifier::ext_equal]
pub struct LayoutView {
    pub dims: Seq<usize>,
    pub strides: Seq<usize>,
    pub offset: usize,
}

/// The largest coordinate of each dimension.
pub open spec fn last_index(dims: Seq<usize>) -> Seq<usize> {
    Seq::new(dims.len(), |i: int| (dims[i] - 1) as usize)
}

impl LayoutView {
    /// The row-major layout of a shape.
    pub open spec fn contiguous(dims: Seq<usize>) -> LayoutView {
        LayoutView { dims, strides: nd::row_major(dims), offset: 0 }
    }

    /// Every dimension has a stride.
    pub open spec fn wf(self) -> bool {
        self.dims.len() <= self.strides.len()
    }

    /// The position in storage of the element at `index`.
    pub open spec fn address(self, index: Seq<usize>) -> nat {
        self.offset as nat + nd::dot(index, self.strides)
    }

    /// Every element's position in storage is a machine number.
    pub open spec fn addressable(self) -> bool {
        nd::product(self.dims) > 0 ==> self.address(last_index(self.dims)) <= usize::MAX
    }

    /// The layout of a tensor: one stride per dimension, machine-sized counts
    /// and positions.
    pub open spec fn valid(self) -> bool {
        &&& self.strides.len() == self.dims.len()
        &&& nd::product(self.dims) <= usize::MAX
        &&& self.addressable()
    }

    /// The layout with two dimensions exchanged.
    pub open spec fn transposed(self, dim0: int, dim1: int) -> LayoutView {
        LayoutView {
            dims: nd::swapped(self.dims, dim0, dim1),
            strides: nd::swapped(self.strides, dim0, dim1),
            offset: self.offset,
        }
    }

    /// The layout of `len` slices along `dim`, from the slice `start` on.
    pub open spec fn narrowed(self, dim: int, start: usize, len: usize) -> LayoutView {
        LayoutView {
            dims: self.dims.update(dim, len),
            strides: self.strides,
            offset: (self.offset + start * self.strides[dim]) as usize,
        }
    }

    /// The storage position of the `k`-th element in row-major order.
    pub open spec fn position_of(self, k: nat) -> nat {
        self.address(nd::unravel(k, self.dims))
    }

    /// The storage positions of all elements, in row-major order.
    pub open spec fn positions(self) -> Seq<usize> {
        Seq::new(nd::product(self.dims), |k: int| self.position_of(k as nat) as usize)
    }
}

/// How a tensor's logical shape maps to flat storage.
#[derive(Debug, PartialEq, Eq)]
pub struct Layout {
    shape: Shape,
    strides: Vec<usize>,
    offset: usize,
}

impl View for Layout {
    type V = LayoutView;

    closed spec fn view(&self) -> LayoutView {
        LayoutView { dims: self.shape@, strides: self.strides@, offset: self.offset }
    }
}

impl Clone for Layout {
    fn clone(&self) -> (r: Self)
        ensures
            r@ == self@,
    {
        let strides = copy_sizes(self.strides.as_slice());
        Layout { shape: self.shape.clone(), strides, offset: self.offset }
    }
}

impl Layout {
    /// The contiguous (row-major) layout of a shape.
    pub fn contiguous(shape: Shape) -> (r: Self)
        requires
            nd::strides_fit(shape@),
        ensures
            r@ == LayoutView::contiguous(shape@),
    {
        let strides = shape.stride_contiguous();
        Layout { shape, strides, offset: 0 }
    }

    /// A layout with explicit strides and offset (for views).
    pub fn new(shape: Shape, strides: Vec<usize>, offset: usize) -> (r: Self)
        ensures
            r@ == (LayoutView { dims: shape@, strides: strides@, offset }),
    {
        Layout { shape, strides, offset }
    }

    /// The shape.
    pub fn shape(&self) -> (r: &Shape)
        ensures
            r@ == self@.dims,
    {
        &self.shape
    }

    /// How far apart neighbours along each dimension are in storage.
    pub fn strides(&self) -> (r: &[usize])
        ensures
            r@ == self@.strides,
    {
        self.strides.as_slice()
    }

    /// Where in storage the first element stands.
    pub fn offset(&self) -> (r: usize)
        ensures
            r == self@.offset,
    {
        self.offset
    }

    /// Number of dimensions.
    pub fn rank(&self) -> (r: usize)
        ensures
            r == self@.dims.len(),
    {
        self.shape.rank()
    }

    /// The dimension sizes as a slice.
    pub fn dims(&self) -> (r: &[usize])
        ensures
            r@ == self@.dims,
    {
        self.shape.dims()
    }

    /// Total number of elements.
    pub fn elem_count(&self) -> (r: usize)
        requires
            nd::product(self@.dims) <= usize::MAX,
        ensures
            r == nd::product(self@.dims),
    {
        self.shape.elem_count()
    }

    /// Whether the strides are the default strides of the shape and the
    /// offset is 0.
    pub fn is_contiguous(&self) -> (r: bool)
        requires
            nd::strides_fit(self@.dims),
        ensures
            r <==> self@ == LayoutView::contiguous(self@.dims),
    {
        let own = self.shape.stride_contiguous();
        let same: bool = same_sizes(self.strides.as_slice(), own.as_slice());
        self.offset == 0 && same
    }

    /// Exchange two dimensions. Nothing is copied but the layout.
    pub fn transpose(&self, dim0: usize, dim1: usize) -> (r: Result<Layout>)
        requires
            self@.wf(),
        ensures
            match r {
                Ok(l) => {
                    &&& dim0 < self@.dims.len() && dim1 < self@.dims.len()
                    &&& l@ == self@.transposed(dim0 as int, dim1 as int)
                },
                Err(e) => {
                    &&& dim0 >= self@.dims.len() || dim1 >= self@.dims.len()
                    &&& e == (Error::DimOutOfRange {
                        dim: if dim0 >= dim1 {
                            dim0
                        } else {
                            dim1
                        },
                        rank: self@.dims.len() as usize,
                    })
                },
            },
    {
        let rank: usize = self.rank();
        if dim0 >= rank || dim1 >= rank {
            let dim: usize = if dim0 >= dim1 {
                dim0
            } else {
                dim1
            };
            return Err(Error::DimOutOfRange { dim, rank });
        }
        let mut dims: Vec<usize> = copy_sizes(self.shape.dims());
        let mut strides: Vec<usize> = copy_sizes(self.strides.as_slice());
        exchange(&mut dims, dim0, dim1);
        exchange(&mut strides, dim0, dim1);
        Ok(Layout { shape: Shape::new(dims), strides, offset: self.offset })
    }

    /// A slice along one dimension: a view of the same storage with adjusted
    /// shape and offset.
    pub fn narrow(&self, dim: usize, start: usize, len: usize) -> (r: Result<Layout>)
        requires
            self@.wf(),
            dim < self@.dims.len() && start + len <= self@.dims[dim as int] ==> self@.offset + start
                * self@.strides[dim as int] <= usize::MAX,
        ensures
            match r {
                Ok(l) => {
                    &&& dim < self@.dims.len() && start + len <= self@.dims[dim as int]
                    &&& l@ == self@.narrowed(dim as int, start, len)
                },
                Err(e) => if dim >= self@.dims.len() {
                    e == (Error::DimOutOfRange { dim, rank: self@.dims.len() as usize })
                } else {
                    &&& start + len > self@.dims[dim as int]
                    &&& e == (Error::NarrowOutOfBounds {
                        dim,
                        start,
                        len,
                        dim_size: self@.dims[dim as int],
                    })
                },
            },
    {
        let rank: usize = self.rank();
        if dim >= rank {
            return Err(Error::DimOutOfRange { dim, rank });
        }
        let dim_size: usize = self.shape.dims()[dim];
        if len > dim_size || start > dim_size - len {
            return Err(Error::NarrowOutOfBounds { dim, start, len, dim_size });
        }
        let mut dims: Vec<usize> = copy_sizes(self.shape.dims());
        dims[dim] = len;
        proof {
            lemma_mul_nonnegative(start as int, self.strides@[dim as int] as int);
        }
        let offset: usize = self.offset + start * self.strides[dim];
        let strides = copy_sizes(self.strides.as_slice());
        Ok(Layout { shape: Shape::new(dims), strides, offset })
    }

    /// The storage position of a multi-dimensional index: the offset plus
    /// each coordinate times its stride.
    pub fn flat_index(&self, index: &[usize]) -> (r: usize)
        requires
            index@.len() <= self@.strides.len(),
            self@.address(index@) <= usize::MAX,
        ensures
            r == self@.address(index@),
    {
        address_of(index, self.strides.as_slice(), self.offset)
    }

    /// The storage positions of all elements, in logical order.
    pub fn strided_indices(&self) -> (r: StridedIter)
        requires
            self@.wf(),
            nd::product(self@.dims) <= usize::MAX,
            self@.addressable(),
        ensures
            r.inv(),
            r.layout() == self@,
            r.yielded() == 0,
    {
        StridedIter::new(self)
    }
}

/// Exchanges two entries of a vector.
pub(crate) fn exchange(v: &mut Vec<usize>, i: usize, j: usize)
    requires
        i < old(v)@.len(),
        j < old(v)@.len(),
    ensures
        final(v)@ == nd::swapped(old(v)@, i as int, j as int),
{
    let a: usize = v[i];
    let b: usize = v[j];
    v[i] = b;
    v[j] = a;
}

/// The offset plus the products of coordinates and strides.
pub(crate) fn address_of(index: &[usize], strides: &[usize], offset: usize) -> (r: usize)
    requires
        index@.len() <= strides@.len(),
        offset + nd::dot(index@, strides@) <= usize::MAX,
    ensures
        r == offset + nd::dot(index@, strides@),
{
    let n: usize = index.len();
    let mut flat: usize = offset;
    let mut i: usize = 0;
    proof {
        nd::lemma_dot_prefix(index@, strides@);
        assert(index@.take(n as int) =~= index@);
        assert(index@.take(0).len() == 0);
    }
    while i < n
        invariant
            n == index@.len(),
            n <= strides@.len(),
            i <= n,
            flat == offset + nd::dot(index@.take(i as int), strides@.take(i as int)),
            offset + nd::dot(index@.take(n as int), strides@.take(n as int)) <= usize::MAX,
        decreases n - i,
    {
        proof {
            nd::lemma_dot_take(index@, strides@, i as int);
            nd::lemma_dot_take_le(index@, strides@, i + 1, n as int);
            lemma_mul_nonnegative(index@[i as int] as int, strides@[i as int] as int);
        }
        flat += index[i] * strides[i];
        i += 1;
    }
    flat
}

/// Walks through the elements of a layout in row-major order and hands out
/// the storage position of each.
pub struct StridedIter {
    current: Vec<usize>,
    dims: Vec<usize>,
    strides: Vec<usize>,
    offset: usize,
    remaining: usize,
    started: bool,
}

impl StridedIter {
    /// The layout that is walked through.
    pub closed spec fn layout(self) -> LayoutView {
        LayoutView { dims: self.dims@, strides: self.strides@, offset: self.offset }
    }

    /// How many positions were handed out.
    pub closed spec fn yielded(self) -> int {
        nd::product(self.dims@) - self.remaining
    }

    /// The walk stands at the element it handed out last.
    pub closed spec fn inv(self) -> bool {
        let count = nd::product(self.dims@);
        &&& self.layout().wf()
        &&& self.layout().addressable()
        &&& count <= usize::MAX
        &&& self.remaining <= count
        &&& self.current@.len() == self.dims@.len()
        &&& self.started <==> self.remaining < count
        &&& count > 0 ==> self.current@ == nd::unravel(
            if self.started {
                (count - self.remaining - 1) as nat
            } else {
                0
            },
            self.dims@,
        )
    }

    fn new(layout: &Layout) -> (r: Self)
        requires
            layout@.wf(),
            nd::product(layout@.dims) <= usize::MAX,
            layout@.addressable(),
        ensures
            r.inv(),
            r.layout() == layout@,
            r.yielded() == 0,
    {
        let rank: usize = layout.rank();
        let current: Vec<usize> = vec![0usize; rank];
        proof {
            if nd::product(layout@.dims) > 0 {
                lemma_unravel_zero(layout@.dims);
                assert(current@ =~= Seq::new(rank as nat, |i: int| 0usize));
            }
        }
        StridedIter {
            current,
            dims: copy_sizes(layout.dims()),
            strides: copy_sizes(layout.strides()),
            offset: layout.offset(),
            remaining: layout.elem_count(),
            started: false,
        }
    }

    /// The storage position of the current element.
    fn flat_index(&self) -> (r: usize)
        requires
            self.current@.len() <= self.strides@.len(),
            self.layout().address(self.current@) <= usize::MAX,
        ensures
            r == self.layout().address(self.current@),
    {
        address_of(self.current.as_slice(), self.strides.as_slice(), self.offset)
    }

    /// Moves to the next element, rightmost dimension first; from the last
    /// element to the first.
    fn advance(&mut self)
        requires
            nd::in_bounds(old(self).current@, old(self).dims@),
            nd::strides_fit(old(self).dims@),
        ensures
            final(self).dims == old(self).dims,
            final(self).strides == old(self).strides,
            final(self).offset == old(self).offset,
            final(self).remaining == old(self).remaining,
            final(self).started == old(self).started,
            nd::in_bounds(final(self).current@, old(self).dims@),
            ({
                let at = nd::dot(old(self).current@, nd::row_major(old(self).dims@)) + 1;
                nd::dot(final(self).current@, nd::row_major(old(self).dims@)) == if at
                    == nd::product(old(self).dims@) {
                    0
                } else {
                    at
                }
            }),
    {
        let ghost dims = self.dims@;
        let ghost rm = nd::row_major(dims);
        let ghost k = nd::dot(self.current@, rm);
        let rank: usize = self.dims.len();
        let mut i: usize = rank;
        proof {
            nd::lemma_product_all(dims);
            nd::lemma_unravel_of_ravel(self.current@, dims);
        }
        while i > 0
            invariant
                rank == dims.len(),
                i <= rank,
                dims == old(self).dims@,
                rm == nd::row_major(dims),
                nd::strides_fit(dims),
                self.dims == old(self).dims,
                self.strides == old(self).strides,
                self.offset == old(self).offset,
                self.remaining == old(self).remaining,
                self.started == old(self).started,
                nd::in_bounds(self.current@, dims),
                k == nd::dot(old(self).current@, rm),
                k < nd::product(dims),
                nd::dot(self.current@, rm) + nd::product(dims.skip(i as int)) == k + 1,
            decreases i,
        {
            let j: usize = i - 1;
            let ghost before = self.current@;
            proof {
                assert(before[j as int] < dims[j as int]);
                nd::lemma_product_step(dims, j as int);
                assert(rm[j as int] == nd::product(dims.skip(i as int)));
                nd::lemma_dot_update(before, rm, j as int, (before[j as int] + 1) as usize);
                let a = before[j as int] as int;
                let p = rm[j as int] as int;
                assert((a + 1) * p == a * p + p) by (nonlinear_arith);
            }
            let next: usize = self.current[j] + 1;
            self.current[j] = next;
            assert(self.current@ == before.update(j as int, next));
            if next < self.dims[j] {
                proof {
                    nd::lemma_unravel_of_ravel(self.current@, dims);
                }
                return;
            }
            proof {
                let mid = self.current@;
                nd::lemma_dot_update(mid, rm, j as int, 0);
                assert(0 * rm[j as int] as int == 0);
                assert(mid.update(j as int, 0) =~= before.update(j as int, 0));
            }
            self.current[j] = 0;
            i = j;
        }
        proof {
            assert(dims.skip(0) =~= dims);
        }
    }

    /// The next storage position, if one is left.
    pub fn next(&mut self) -> (r: Option<usize>)
        requires
            old(self).inv(),
        ensures
            final(self).inv(),
            final(self).layout() == old(self).layout(),
            match r {
                Some(p) => {
                    &&& old(self).yielded() < nd::product(old(self).layout().dims)
                    &&& p == old(self).layout().positions()[old(self).yielded()]
                    &&& final(self).yielded() == old(self).yielded() + 1
                },
                None => {
                    &&& old(self).yielded() == nd::product(old(self).layout().dims)
                    &&& final(self).yielded() == old(self).yielded()
                },
            },
    {
        if self.remaining == 0 {
            return None;
        }
        let ghost dims = self.dims@;
        let ghost count = nd::product(dims);
        let ghost k = (count - self.remaining) as nat;
        proof {
            nd::lemma_count_fits(dims);
        }
        if self.started {
            proof {
                nd::lemma_ravel_of_unravel((k - 1) as nat, dims);
            }
            self.advance();
        }
        self.started = true;
        self.remaining -= 1;
        proof {
            if k > 0 {
                nd::lemma_unravel_of_ravel(self.current@, dims);
            }
            assert(self.current@ == nd::unravel(k, dims));
            lemma_position_bound(self.layout(), k);
        }
        Some(self.flat_index())
    }

    /// How many positions are left.
    pub fn len(&self) -> (r: usize)
        requires
            self.inv(),
        ensures
            r == nd::product(self.layout().dims) - self.yielded(),
    {
        self.remaining
    }

    /// All positions that are left, in order.
    pub fn collect(self) -> (r: Vec<usize>)
        requires
            self.inv(),
        ensures
            r@ == self.layout().positions().skip(self.yielded()),
    {
        let mut it = self;
        let n: usize = it.len();
        let mut out: Vec<usize> = Vec::with_capacity(n);
        let mut i: usize = 0;
        while i < n
            invariant
                i <= n,
                it.inv(),
                it.layout() == self.layout(),
                it.yielded() == self.yielded() + i,
                self.inv(),
                n == nd::product(self.layout().dims) - self.yielded(),
                out@ =~= self.layout().positions().subrange(self.yielded(), self.yielded() + i),
                self.yielded() >= 0,
            decreases n - i,
        {
            match it.next() {
                Some(p) => {
                    out.push(p);
                },
                None => {},
            }
            i += 1;
        }
        assert(out@ =~= self.layout().positions().skip(self.yielded()));
        out
    }
}

/// The first element has coordinate 0 everywhere.
proof fn lemma_unravel_zero(dims: Seq<usize>)
    requires
        nd::product(dims) > 0,
    ensures
        nd::unravel(0, dims) == Seq::new(dims.len(), |i: int| 0usize),
    decreases dims.len(),
{
    if dims.len() > 0 {
        let rest = dims.skip(1);
        nd::lemma_product_zero(dims);
        nd::lemma_product_zero(rest);
        lemma_unravel_zero(rest);
        let step = nd::product(rest);
        vstd::arithmetic::div_mod::lemma_div_basics(step as int);
        vstd::arithmetic::div_mod::lemma_small_mod(0, step);
        assert(nd::unravel(0, dims) =~= Seq::new(dims.len(), |i: int| 0usize));
    }
}

/// No element lies beyond the last one.
pub proof fn lemma_address_bound(l: LayoutView, index: Seq<usize>)
    requires
        l.wf(),
        nd::in_bounds(index, l.dims),
    ensures
        l.address(index) <= l.address(last_index(l.dims)),
{
    let n = l.dims.len();
    let s = l.strides.take(n as int);
    nd::lemma_dot_prefix(index, l.strides);
    nd::lemma_dot_prefix(last_index(l.dims), l.strides);
    assert forall|i: int| 0 <= i < n implies #[trigger] index[i] <= last_index(l.dims)[i] by {
        assert(index[i] < l.dims[i]);
    }
    nd::lemma_dot_mono(index, last_index(l.dims), s);
}

/// The position of every element is a machine number.
pub proof fn lemma_position_bound(l: LayoutView, k: nat)
    requires
        l.wf(),
        l.addressable(),
        k < nd::product(l.dims) <= usize::MAX,
    ensures
        l.position_of(k) <= usize::MAX,
{
    nd::lemma_count_fits(l.dims);
    nd::lemma_ravel_of_unravel(k, l.dims);
    lemma_address_bound(l, nd::unravel(k, l.dims));
}

/// The row-major layout of a shape that fits is valid.
pub proof fn lemma_contiguous_valid(dims: Seq<usize>)
    requires
        nd::fits(dims),
    ensures
        LayoutView::contiguous(dims).valid(),
{
    if nd::product(dims) > 0 {
        nd::lemma_product_zero(dims);
        let last = last_index(dims);
        assert forall|i: int| 0 <= i < dims.len() implies #[trigger] last[i] < dims[i] by {
            assert(dims[i] > 0);
        }
        nd::lemma_unravel_of_ravel(last, dims);
    }
}

/// In a contiguous layout the elements stand one after another from 0 on.
pub proof fn law_contiguous_positions(dims: Seq<usize>)
    requires
        nd::product(dims) <= usize::MAX,
    ensures
        LayoutView::contiguous(dims).positions() == Seq::new(
            nd::product(dims),
            |k: int| k as usize,
        ),
{
    let l = LayoutView::contiguous(dims);
    assert forall|k: int| 0 <= k < nd::product(dims) implies #[trigger] l.positions()[k]
        == k as usize by {
        nd::lemma_count_fits(dims);
        nd::lemma_ravel_of_unravel(k as nat, dims);
    }
    assert(l.positions() =~= Seq::new(nd::product(dims), |k: int| k as usize));
}

/// In a contiguous layout different indices have different positions, all
/// below the element count.
pub proof fn law_contiguous_injective(dims: Seq<usize>, i: Seq<usize>, j: Seq<usize>)
    requires
        nd::strides_fit(dims),
        nd::in_bounds(i, dims),
        nd::in_bounds(j, dims),
        LayoutView::contiguous(dims).address(i) == LayoutView::contiguous(dims).address(j),
    ensures
        i == j,
        LayoutView::contiguous(dims).address(i) < nd::product(dims),
{
    nd::lemma_unravel_of_ravel(i, dims);
    nd::lemma_unravel_of_ravel(j, dims);
}

/// Transposing the same two dimensions twice gives the layout back.
pub proof fn law_transpose_involution(l: LayoutView, dim0: int, dim1: int)
    requires
        l.wf(),
        0 <= dim0 < l.dims.len(),
        0 <= dim1 < l.dims.len(),
    ensures
        l.transposed(dim0, dim1).transposed(dim0, dim1) == l,
{
    let t = l.transposed(dim0, dim1).transposed(dim0, dim1);
    assert(t.dims =~= l.dims);
    assert(t.strides =~= l.strides);
}

/// A transposed layout finds at an exchanged index the element that the
/// layout finds at the index.
pub proof fn law_transpose_addresses(l: LayoutView, dim0: int, dim1: int, index: Seq<usize>)
    requires
        l.strides.len() == l.dims.len(),
        index.len() == l.dims.len(),
        0 <= dim0 < l.dims.len(),
        0 <= dim1 < l.dims.len(),
    ensures
        l.transposed(dim0, dim1).address(nd::swapped(index, dim0, dim1)) == l.address(index),
        nd::in_bounds(index, l.dims) <==> nd::in_bounds(
            nd::swapped(index, dim0, dim1),
            l.transposed(dim0, dim1).dims,
        ),
{
    nd::lemma_dot_swapped(index, l.strides, dim0, dim1);
    let si = nd::swapped(index, dim0, dim1);
    let sd = nd::swapped(l.dims, dim0, dim1);
    if nd::in_bounds(index, l.dims) {
        assert forall|i: int| 0 <= i < sd.len() implies #[trigger] si[i] < sd[i] by {
            assert(index[i] < l.dims[i]);
            assert(index[dim0] < l.dims[dim0]);
            assert(index[dim1] < l.dims[dim1]);
        }
    }
    if nd::in_bounds(si, sd) {
        assert forall|i: int| 0 <= i < l.dims.len() implies #[trigger] index[i] < l.dims[i] by {
            assert(si[i] < sd[i]);
            assert(si[dim0] < sd[dim0]);
            assert(si[dim1] < sd[dim1]);
        }
    }
}

/// A narrowed layout finds at an index the element that the layout finds
/// `start` further along the dimension.
pub proof fn law_narrow_addresses(
    l: LayoutView,
    dim: int,
    start: usize,
    len: usize,
    index: Seq<usize>,
)
    requires
        l.strides.len() == l.dims.len(),
        0 <= dim < l.dims.len(),
        start + len <= l.dims[dim],
        l.offset + start * l.strides[dim] <= usize::MAX,
        nd::in_bounds(index, l.narrowed(dim, start, len).dims),
    ensures
        nd::in_bounds(index.update(dim, (index[dim] + start) as usize), l.dims),
        l.narrowed(dim, start, len).address(index) == l.address(
            index.update(dim, (index[dim] + start) as usize),
        ),
{
    let n = l.narrowed(dim, start, len);
    assert(index[dim] < n.dims[dim]);
    let x = (index[dim] + start) as usize;
    nd::lemma_dot_update(index, l.strides, dim, x);
    let s = l.strides[dim] as int;
    lemma_mul_is_distributive_add_other_way(s, index[dim] as int, start as int);
    lemma_mul_nonnegative(start as int, s);
    assert forall|i: int| 0 <= i < l.dims.len() implies #[trigger] index.update(dim, x)[i]
        < l.dims[i] by {
        assert(index[i] < n.dims[i]);
    }
}

/// Narrowing a slice is narrowing by the sum of the starts.
pub proof fn law_narrow_composes(
    l: LayoutView,
    dim: int,
    start1: usize,
    len1: usize,
    start2: usize,
    len2: usize,
)
    requires
        l.wf(),
        0 <= dim < l.dims.len(),
        start1 + len1 <= l.dims[dim],
        start2 + len2 <= len1,
        l.offset + (start1 + start2) * l.strides[dim] <= usize::MAX,
    ensures
        l.narrowed(dim, start1, len1).narrowed(dim, start2, len2) == l.narrowed(
            dim,
            (start1 + start2) as usize,
            len2,
        ),
{
    let s = l.strides[dim] as int;
    lemma_mul_is_distributive_add_other_way(s, start1 as int, start2 as int);
    lemma_mul_nonnegative(start1 as int, s);
    lemma_mul_nonnegative(start2 as int, s);
    let a = l.narrowed(dim, start1, len1).narrowed(dim, start2, len2);
    let b = l.narrowed(dim, (start1 + start2) as usize, len2);
    assert(a.dims =~= b.dims);
    assert(a.offset == b.offset);
}

} // verus!
