//! Tensors: n-dimensional arrays on a backend.
//!
//! A tensor is a handle to storage, a layout that says how the storage is
//! read, and a record of how the tensor was made.
use crate::backend::{Backend, BackendDevice};
use crate::dtype::DType;
use crate::error::{Error, Result};
use crate::layout::{Layout, LayoutView};
use crate::nd;
use crate::op::{self, next_number, push_id, Op, TensorId};
use crate::shape::Shape;
use crate::shared::{self, Shared};
use crate::text::{self, push_list, push_usize};
use crate::views::{self, contiguous_layout};
use std::sync::atomic::AtomicU64;
use std::sync::{Arc, RwLockReadGuard};
use vstd::prelude::*;

verus! {

/// The data of a tensor, shared between its handles.
#[verifier::reject_recursive_types(B)]
struct TensorInner<B: Backend> {
    id: TensorId,
    storage: Shared<B::Storage>,
    layout: Layout,
    dtype: DType,
    device: B::Device,
    op: Op<B>,
    is_variable: bool,
}

/// An n-dimensional array of numbers on a backend. Cloning a tensor copies a
/// pointer; several tensors can read the same storage with different layouts.
#[verifier::reject_recursive_types(B)]
pub struct Tensor<B: Backend> {
    inner: Arc<TensorInner<B>>,
}

/// What a tensor is: its identity, the storage it reads and how, and how it
/// was made.
#[verifier::reject_recursive_types(B)]
pub struct TensorView<B: Backend> {
    pub id: TensorId,
    pub storage: Shared<B::Storage>,
    pub layout: Layout,
    pub dtype: DType,
    pub device: B::Device,
    pub op: Op<B>,
    pub variable: bool,
}

impl<B: Backend> TensorView<B> {
    /// The sizes of the dimensions.
    pub open spec fn dims(self) -> Seq<usize> {
        self.layout@.dims
    }
}

impl<B: Backend> View for Tensor<B> {
    type V = TensorView<B>;

    closed spec fn view(&self) -> TensorView<B> {
        TensorView {
            id: self.inner.id,
            storage: self.inner.storage,
            layout: self.inner.layout,
            dtype: self.inner.dtype,
            device: self.inner.device,
            op: self.inner.op,
            variable: self.inner.is_variable,
        }
    }
}

/// An identifier taken from the backend's counter.
pub open spec fn new_id<B: Backend>(id: TensorId) -> bool {
    exists|counter: &'static AtomicU64| #[trigger]
        call_ensures(B::id_counter, (), counter) && call_ensures(
            next_number,
            (counter,),
            id.number(),
        )
}

/// A new contiguous tensor of the given shape around storage.
pub open spec fn stored<B: Backend>(
    t: Tensor<B>,
    storage: B::Storage,
    dims: Seq<usize>,
    dtype: DType,
    device: B::Device,
) -> bool {
    &&& t@.storage.starts_with(storage)
    &&& t@.layout@ == LayoutView::contiguous(dims)
    &&& t@.dtype == dtype
    &&& cloned(device, t@.device)
    &&& !t@.variable
    &&& new_id::<B>(t@.id)
}

/// A new tensor that reads the storage of `source` with another layout.
pub open spec fn viewed<B: Backend>(t: Tensor<B>, source: Tensor<B>, layout: LayoutView) -> bool {
    &&& t@.storage == source@.storage
    &&& t@.layout@ == layout
    &&& t@.dtype == source@.dtype
    &&& cloned(source@.device, t@.device)
    &&& !t@.variable
    &&& new_id::<B>(t@.id)
}

/// The same tensor, marked or not marked as a variable.
pub open spec fn remarked<B: Backend>(t: Tensor<B>, source: Tensor<B>, variable: bool) -> bool {
    &&& t@.id == source@.id
    &&& t@.storage == source@.storage
    &&& t@.layout@ == source@.layout@
    &&& t@.dtype == source@.dtype
    &&& cloned(source@.device, t@.device)
    &&& op::same_op(source@.op, t@.op)
    &&& t@.variable == variable
}

/// A leaf of the given shape around what a backend returned.
pub open spec fn leaf_result<B: Backend>(
    made: Result<B::Storage>,
    dims: Seq<usize>,
    dtype: DType,
    device: B::Device,
    r: Result<Tensor<B>>,
) -> bool {
    match made {
        Ok(storage) => r matches Ok(t) && stored(t, storage, dims, dtype, device) && t@.op is Leaf,
        Err(e) => r == Err::<Tensor<B>, _>(e),
    }
}

/// A leaf of the given shape, if it can be addressed, around what the
/// backend returns when it is asked for storage of the shape.
pub open spec fn created<B: Backend>(
    ask: spec_fn(Shape, Result<B::Storage>) -> bool,
    shape: Shape,
    dtype: DType,
    device: B::Device,
    r: Result<Tensor<B>>,
) -> bool {
    if nd::fits(shape@) {
        exists|made: Result<B::Storage>| #[trigger]
            ask(shape, made) && leaf_result(made, shape@, dtype, device, r)
    } else {
        r matches Err(e) && views::is_too_large(e)
    }
}

/// The result of asking for zeros.
pub open spec fn zeros_result<B: Backend>(
    shape: Shape,
    dtype: DType,
    device: B::Device,
    r: Result<Tensor<B>>,
) -> bool {
    created::<B>(
        |s: Shape, made: Result<B::Storage>| call_ensures(B::zeros, (&s, dtype, &device), made),
        shape,
        dtype,
        device,
        r,
    )
}

/// The result of asking for ones.
pub open spec fn ones_result<B: Backend>(
    shape: Shape,
    dtype: DType,
    device: B::Device,
    r: Result<Tensor<B>>,
) -> bool {
    created::<B>(
        |s: Shape, made: Result<B::Storage>| call_ensures(B::ones, (&s, dtype, &device), made),
        shape,
        dtype,
        device,
        r,
    )
}

/// The result of asking for a constant value.
pub open spec fn full_result<B: Backend>(
    shape: Shape,
    val: B::Scalar,
    dtype: DType,
    device: B::Device,
    r: Result<Tensor<B>>,
) -> bool {
    created::<B>(
        |s: Shape, made: Result<B::Storage>|
            call_ensures(B::full, (&s, val, dtype, &device), made),
        shape,
        dtype,
        device,
        r,
    )
}

/// The error about a number of values that does not fill a shape.
pub open spec fn is_count_mismatch(e: Error, dims: Seq<usize>, got: nat) -> bool {
    e matches Error::ElementCountMismatch { shape, expected, got: g } && shape@ == dims && expected
        == nd::product(dims) && g == got
}

/// The backend is handed these values.
pub open spec fn uploads<B: Backend>(
    data: Seq<B::Scalar>,
    dtype: DType,
    device: &B::Device,
    made: Result<B::Storage>,
) -> bool {
    exists|d: &[B::Scalar]|
        d@ == data && #[trigger] call_ensures(B::from_f64_slice, (d, dtype, device), made)
}

/// A leaf of the given shape that holds these values.
pub open spec fn uploaded<B: Backend>(
    data: Seq<B::Scalar>,
    dims: Seq<usize>,
    dtype: DType,
    device: B::Device,
    r: Result<Tensor<B>>,
) -> bool {
    if !nd::fits(dims) {
        r matches Err(e) && views::is_too_large(e)
    } else if data.len() != nd::product(dims) {
        r matches Err(e) && is_count_mismatch(e, dims, data.len())
    } else {
        exists|made: Result<B::Storage>| #[trigger]
            uploads::<B>(data, dtype, &device, made) && leaf_result(made, dims, dtype, device, r)
    }
}

/// A lock was found poisoned.
pub open spec fn refused<B: Backend, T>(t: Tensor<B>, r: Result<T>) -> bool {
    t@.storage.can_refuse() && (r matches Err(e) && shared::is_poisoned(e))
}

impl<B: Backend> Clone for Tensor<B> {
    fn clone(&self) -> (r: Self)
        ensures
            r == *self,
    {
        proof {
            use_type_invariant(self);
        }
        Tensor { inner: Arc::clone(&self.inner) }
    }
}

impl<B: Backend> Tensor<B> {
    #[verifier::type_invariant]
    spec fn layout_valid(self) -> bool {
        self.inner.layout@.valid()
    }

    /// A tensor is larger than the tensors it was made from.
    pub proof fn lemma_input_smaller(self, i: int)
        requires
            0 <= i < self@.op.input_list().len(),
        ensures
            decreases_to!(self => self@.op.input_list()[i]),
    {
        assert(decreases_to!(self => self.inner));
        assert(decreases_to!(self.inner => self.inner.op));
        self@.op.lemma_input_smaller(i);
    }

    /// Create a tensor from existing storage and layout.
    pub(crate) fn from_storage(
        storage: B::Storage,
        layout: Layout,
        dtype: DType,
        device: B::Device,
        op: Op<B>,
    ) -> (r: Self)
        requires
            layout@.valid(),
        ensures
            r@.storage.starts_with(storage),
            r@.layout == layout,
            r@.dtype == dtype,
            r@.device == device,
            r@.op == op,
            !r@.variable,
            new_id::<B>(r@.id),
    {
        let counter = B::id_counter();
        let id = TensorId::new(counter);
        Tensor {
            inner: Arc::new(
                TensorInner {
                    id,
                    storage: Shared::new(storage),
                    layout,
                    dtype,
                    device,
                    op,
                    is_variable: false,
                },
            ),
        }
    }

    /// Create a view tensor sharing the same storage but with a different
    /// layout.
    pub(crate) fn view_with_layout(&self, layout: Layout, op: Op<B>) -> (r: Self)
        requires
            layout@.valid(),
        ensures
            viewed(r, *self, layout@),
            r@.op == op,
    {
        let counter = B::id_counter();
        let id = TensorId::new(counter);
        Tensor {
            inner: Arc::new(
                TensorInner {
                    id,
                    storage: self.inner.storage.share(),
                    layout,
                    dtype: self.inner.dtype,
                    device: self.inner.device.clone(),
                    op,
                    is_variable: false,
                },
            ),
        }
    }

    /// Unique tensor ID.
    pub fn id(&self) -> (r: TensorId)
        ensures
            r == self@.id,
    {
        self.inner.id
    }

    /// The shape of this tensor.
    pub fn shape(&self) -> (r: &Shape)
        ensures
            r@ == self@.dims(),
            self@.layout@.valid(),
    {
        proof {
            use_type_invariant(self);
        }
        self.inner.layout.shape()
    }

    /// The dimensions as a slice.
    pub fn dims(&self) -> (r: &[usize])
        ensures
            r@ == self@.dims(),
            self@.layout@.valid(),
    {
        proof {
            use_type_invariant(self);
        }
        self.inner.layout.dims()
    }

    /// Number of dimensions (rank).
    pub fn rank(&self) -> (r: usize)
        ensures
            r == self@.dims().len(),
    {
        self.inner.layout.rank()
    }

    /// Total number of elements.
    pub fn elem_count(&self) -> (r: usize)
        ensures
            r == nd::product(self@.dims()),
    {
        proof {
            use_type_invariant(self);
        }
        self.inner.layout.elem_count()
    }

    /// Data type of the elements.
    pub fn dtype(&self) -> (r: DType)
        ensures
            r == self@.dtype,
    {
        self.inner.dtype
    }

    /// The device this tensor is on.
    pub fn device(&self) -> (r: &B::Device)
        ensures
            *r == self@.device,
    {
        &self.inner.device
    }

    /// The memory layout (shape, strides and offset).
    pub fn layout(&self) -> (r: &Layout)
        ensures
            *r == self@.layout,
            r@.valid(),
    {
        proof {
            use_type_invariant(self);
        }
        &self.inner.layout
    }

    /// Whether this tensor is contiguous in memory.
    pub fn is_contiguous(&self) -> (r: bool)
        ensures
            r <==> nd::fits(self@.dims()) && self@.layout@ == LayoutView::contiguous(self@.dims()),
    {
        views::sizes_fit(self.dims()) && self.inner.layout.is_contiguous()
    }

    /// Whether this tensor tracks gradients.
    pub fn is_variable(&self) -> (r: bool)
        ensures
            r == self@.variable,
    {
        self.inner.is_variable
    }

    /// The op that created this tensor.
    pub fn op(&self) -> (r: &Op<B>)
        ensures
            *r == self@.op,
    {
        &self.inner.op
    }

    /// Access the underlying storage, held for reading. It is an error if a
    /// writer panicked.
    pub fn storage(&self) -> (r: Result<RwLockReadGuard<'_, B::Storage>>)
        ensures
            match r {
                Ok(guard) => self@.storage.read_by(guard),
                Err(_) => refused(*self, r),
            },
    {
        self.inner.storage.read()
    }

    /// The storage behind a guard of this tensor.
    pub(crate) fn contents<'b>(&self, guard: &'b RwLockReadGuard<'_, B::Storage>) -> (r:
        &'b B::Storage)
        requires
            self@.storage.read_by(*guard),
        ensures
            self@.storage.can_hold(*r),
    {
        self.inner.storage.value(guard)
    }

    /// Holds the storage for reading, beside the storage of a tensor that is
    /// held already. There is no second guard if the two share their storage:
    /// a thread that reads a lock twice may block or panic.
    pub(crate) fn storage_beside(&self, held: &Self) -> (r: Result<
        Option<RwLockReadGuard<'_, B::Storage>>,
    >)
        ensures
            match r {
                Ok(Some(guard)) => self@.storage.read_by(guard),
                Ok(None) => self@.storage == held@.storage,
                Err(_) => refused(*self, r),
            },
    {
        if self.shares_storage(held) {
            return Ok(None);
        }
        match self.storage() {
            Ok(guard) => Ok(Some(guard)),
            Err(e) => Err(e),
        }
    }

    /// The storage behind a guard of this tensor, or else behind that of a
    /// tensor that it shares its storage with.
    pub(crate) fn contents_beside<'b>(
        &self,
        own: &'b Option<RwLockReadGuard<'_, B::Storage>>,
        held: &'b RwLockReadGuard<'_, B::Storage>,
    ) -> (r: &'b B::Storage)
        requires
            match *own {
                Some(guard) => self@.storage.read_by(guard),
                None => self@.storage.read_by(*held),
            },
        ensures
            self@.storage.can_hold(*r),
    {
        match own {
            Some(guard) => self.contents(guard),
            None => self.contents(held),
        }
    }

    /// Whether two tensors are found to share their storage.
    pub(crate) fn shares_storage(&self, other: &Self) -> (r: bool)
        ensures
            r ==> self@.storage == other@.storage,
    {
        self.inner.storage.shares_with(&other.inner.storage)
    }

    /// Update the underlying storage data in place.
    ///
    /// Every tensor that shares this storage sees the new values. There must
    /// be as many values as elements; the shape is not changed.
    pub fn update_data_inplace(&self, new_data: &[B::Scalar]) -> (r: Result<()>)
        ensures
            if new_data@.len() != nd::product(self@.dims()) {
                r matches Err(Error::Msg(m)) && m@ == update_text(
                    nd::product(self@.dims()),
                    new_data@.len(),
                )
            } else {
                exists|made: Result<B::Storage>| #[trigger]
                    call_ensures(B::from_f64_slice, (new_data, self@.dtype, &self@.device), made)
                        && match made {
                        Err(e) => r == Err::<(), _>(e),
                        Ok(s) => match r {
                            Ok(()) => self@.storage.takes(s),
                            Err(e) => self@.storage.can_refuse_value(s) && shared::is_poisoned(e),
                        },
                    }
            },
    {
        let expected: usize = self.elem_count();
        if new_data.len() != expected {
            let mut m = String::new();
            m.append("update_data_inplace: expected ");
            push_usize(&mut m, expected);
            m.append(" elements, got ");
            push_usize(&mut m, new_data.len());
            assert(m@ =~= update_text(expected as nat, new_data@.len()));
            return Err(Error::Msg(m));
        }
        let made = B::from_f64_slice(new_data, self.dtype(), self.device());
        match made {
            Err(e) => Err(e),
            Ok(s) => self.inner.storage.replace(s),
        }
    }

    /// Mark this tensor as a variable (trainable parameter). Variables
    /// accumulate gradients during `backward`.
    pub fn set_variable(self) -> (r: Self)
        ensures
            remarked(r, self, true),
    {
        self.marked(true)
    }

    /// Freeze this tensor: the same data and ID, but not a variable. A frozen
    /// leaf accumulates no gradient during `backward`.
    pub fn freeze(&self) -> (r: Self)
        ensures
            remarked(r, *self, false),
    {
        self.marked(false)
    }

    /// Unfreeze this tensor: the same data and ID, as a variable.
    pub fn unfreeze(&self) -> (r: Self)
        ensures
            remarked(r, *self, true),
    {
        self.marked(true)
    }

    /// The same tensor, marked or not marked as a variable.
    fn marked(&self, is_variable: bool) -> (r: Self)
        ensures
            remarked(r, *self, is_variable),
    {
        proof {
            use_type_invariant(self);
        }
        Tensor {
            inner: Arc::new(
                TensorInner {
                    id: self.inner.id,
                    storage: self.inner.storage.share(),
                    layout: self.inner.layout.clone(),
                    dtype: self.inner.dtype,
                    device: self.inner.device.clone(),
                    op: self.inner.op.clone(),
                    is_variable,
                },
            ),
        }
    }

    /// A detached tensor: the same data, without a record of how it was made
    /// and with a fresh ID.
    pub fn detach(&self) -> (r: Self)
        ensures
            viewed(r, *self, self@.layout@),
            r@.op is Leaf,
    {
        self.view_with_layout(self.layout().clone(), Op::Leaf)
    }

    /// A leaf around what a backend returned.
    pub(crate) fn leaf(
        made: Result<B::Storage>,
        layout: Layout,
        dtype: DType,
        device: &B::Device,
    ) -> (r: Result<Self>)
        requires
            layout@ == LayoutView::contiguous(layout@.dims),
            layout@.valid(),
        ensures
            leaf_result(made, layout@.dims, dtype, *device, r),
    {
        match made {
            Ok(storage) => Ok(Self::from_storage(storage, layout, dtype, device.clone(), Op::Leaf)),
            Err(e) => Err(e),
        }
    }

    /// Create a tensor filled with zeros.
    pub fn zeros<S: Into<Shape>>(
        shape: S,
        dtype: DType,
        device: &B::Device,
    ) -> (r: Result<Self>)
        ensures
            exists|s: Shape| #[trigger]
                call_ensures(<S as Into<Shape>>::into, (shape,), s) && zeros_result(
                    s,
                    dtype,
                    *device,
                    r,
                ),
    {
        let shape: Shape = shape.into();
        Self::filled_zeros(shape, dtype, device)
    }

    /// The same for a shape that needs no conversion.
    pub(crate) fn filled_zeros(
        shape: Shape,
        dtype: DType,
        device: &B::Device,
    ) -> (r: Result<Self>)
        ensures
            zeros_result(shape, dtype, *device, r),
    {
        let ghost ask = |s: Shape, made: Result<B::Storage>|
            call_ensures(B::zeros, (&s, dtype, device), made);
        let layout = contiguous_layout(shape.clone())?;
        let made = B::zeros(&shape, dtype, device);
        assert(ask(shape, made));
        Self::leaf(made, layout, dtype, device)
    }

    /// Create a tensor filled with ones.
    pub fn ones<S: Into<Shape>>(
        shape: S,
        dtype: DType,
        device: &B::Device,
    ) -> (r: Result<Self>)
        ensures
            exists|s: Shape| #[trigger]
                call_ensures(<S as Into<Shape>>::into, (shape,), s) && ones_result(
                    s,
                    dtype,
                    *device,
                    r,
                ),
    {
        let shape: Shape = shape.into();
        Self::filled_ones(shape, dtype, device)
    }

    /// The same for a shape that needs no conversion.
    pub(crate) fn filled_ones(
        shape: Shape,
        dtype: DType,
        device: &B::Device,
    ) -> (r: Result<Self>)
        ensures
            ones_result(shape, dtype, *device, r),
    {
        let ghost ask = |s: Shape, made: Result<B::Storage>|
            call_ensures(B::ones, (&s, dtype, device), made);
        let layout = contiguous_layout(shape.clone())?;
        let made = B::ones(&shape, dtype, device);
        assert(ask(shape, made));
        Self::leaf(made, layout, dtype, device)
    }

    /// Create a tensor filled with a constant value.
    pub fn full<S: Into<Shape>>(
        shape: S,
        val: B::Scalar,
        dtype: DType,
        device: &B::Device,
    ) -> (r: Result<Self>)
        ensures
            exists|s: Shape| #[trigger]
                call_ensures(<S as Into<Shape>>::into, (shape,), s) && full_result(
                    s, val,
                    dtype,
                    *device,
                    r,
                ),
    {
        let shape: Shape = shape.into();
        Self::filled(shape, val, dtype, device)
    }

    /// The same for a shape that needs no conversion.
    pub(crate) fn filled(
        shape: Shape,
        val: B::Scalar,
        dtype: DType,
        device: &B::Device,
    ) -> (r: Result<Self>)
        ensures
            full_result(shape, val, dtype, *device, r),
    {
        let ghost ask = |s: Shape, made: Result<B::Storage>|
            call_ensures(B::full, (&s, val, dtype, device), made);
        let layout = contiguous_layout(shape.clone())?;
        let made = B::full(&shape, val, dtype, device);
        assert(ask(shape, made));
        Self::leaf(made, layout, dtype, device)
    }

    /// Create a tensor with random uniform values in [0, 1).
    pub fn rand<S: Into<Shape>>(shape: S, dtype: DType, device: &B::Device) -> (r: Result<Self>)
        ensures
            exists|s: Shape| #[trigger]
                call_ensures(<S as Into<Shape>>::into, (shape,), s) && created::<B>(
                    |s: Shape, made: Result<B::Storage>|
                        call_ensures(B::rand_uniform, (&s, dtype, device), made),
                    s,
                    dtype,
                    *device,
                    r,
                ),
    {
        let shape: Shape = shape.into();
        let ghost ask = |s: Shape, made: Result<B::Storage>|
            call_ensures(B::rand_uniform, (&s, dtype, device), made);
        let layout = contiguous_layout(shape.clone())?;
        let made = B::rand_uniform(&shape, dtype, device);
        assert(ask(shape, made));
        Self::leaf(made, layout, dtype, device)
    }

    /// Create a tensor with random normal values (mean 0, standard
    /// deviation 1).
    pub fn randn<S: Into<Shape>>(shape: S, dtype: DType, device: &B::Device) -> (r: Result<Self>)
        ensures
            exists|s: Shape| #[trigger]
                call_ensures(<S as Into<Shape>>::into, (shape,), s) && created::<B>(
                    |s: Shape, made: Result<B::Storage>|
                        call_ensures(B::rand_normal, (&s, dtype, device), made),
                    s,
                    dtype,
                    *device,
                    r,
                ),
    {
        let shape: Shape = shape.into();
        let ghost ask = |s: Shape, made: Result<B::Storage>|
            call_ensures(B::rand_normal, (&s, dtype, device), made);
        let layout = contiguous_layout(shape.clone())?;
        let made = B::rand_normal(&shape, dtype, device);
        assert(ask(shape, made));
        Self::leaf(made, layout, dtype, device)
    }

    /// Create a tensor from a flat slice of numbers, in row-major order. The
    /// numbers are converted to the dtype.
    pub fn from_f64_slice<S: Into<Shape>>(
        data: &[B::Scalar],
        shape: S,
        dtype: DType,
        device: &B::Device,
    ) -> (r: Result<Self>)
        ensures
            exists|s: Shape| #[trigger]
                call_ensures(<S as Into<Shape>>::into, (shape,), s) && uploaded(
                    data@,
                    s@,
                    dtype,
                    *device,
                    r,
                ),
    {
        let shape: Shape = shape.into();
        Self::upload(data, shape, dtype, device)
    }

    /// The same for a shape that needs no conversion.
    pub(crate) fn upload(
        data: &[B::Scalar],
        shape: Shape,
        dtype: DType,
        device: &B::Device,
    ) -> (r: Result<Self>)
        ensures
            uploaded(data@, shape@, dtype, *device, r),
    {
        if !views::sizes_fit(shape.dims()) {
            return Err(views::too_large());
        }
        let expected: usize = shape.elem_count();
        if data.len() != expected {
            return Err(Error::ElementCountMismatch { shape, expected, got: data.len() });
        }
        let layout = contiguous_layout(shape)?;
        let made = B::from_f64_slice(data, dtype, device);
        assert(uploads::<B>(data@, dtype, device, made));
        Self::leaf(made, layout, dtype, device)
    }

    /// Create a tensor of zeros with the shape, dtype and device of `other`.
    pub fn zeros_like(other: &Self) -> (r: Result<Self>)
        ensures
            exists|s: Shape|
                s@ == other@.dims() && #[trigger] zeros_result(
                    s,
                    other@.dtype,
                    other@.device,
                    r,
                ),
    {
        Self::filled_zeros(other.shape().clone(), other.dtype(), other.device())
    }

    /// Create a tensor of ones with the shape, dtype and device of `other`.
    pub fn ones_like(other: &Self) -> (r: Result<Self>)
        ensures
            exists|s: Shape|
                s@ == other@.dims() && #[trigger] ones_result(
                    s,
                    other@.dtype,
                    other@.device,
                    r,
                ),
    {
        Self::filled_ones(other.shape().clone(), other.dtype(), other.device())
    }

    /// Create a tensor filled with `val`, with the shape, dtype and device
    /// of `other`.
    pub fn full_like(other: &Self, val: B::Scalar) -> (r: Result<Self>)
        ensures
            exists|s: Shape|
                s@ == other@.dims() && #[trigger] full_result(
                    s,
                    val,
                    other@.dtype,
                    other@.device,
                    r,
                ),
    {
        Self::filled(other.shape().clone(), val, other.dtype(), other.device())
    }

    /// A short description: ID, shape, dtype and device.
    pub fn to_text(&self) -> (r: String)
        ensures
            exists|d: String| #[trigger]
                call_ensures(<B::Device as BackendDevice>::describe, (&self@.device,), d) && r@
                    == "Tensor(id="@ + op::id_text(self@.id) + ", shape="@ + text::list_text(
                    self@.dims(),
                ) + ", dtype="@ + self@.dtype.name() + ", device="@ + d@ + ")"@,
    {
        let device = self.device().describe();
        let mut out = String::new();
        out.append("Tensor(id=");
        push_id(&mut out, self.id());
        out.append(", shape=");
        push_list(&mut out, self.dims());
        out.append(", dtype=");
        out.append(self.dtype().as_str());
        out.append(", device=");
        out.append(device.as_str());
        out.append(")");
        assert(out@ =~= "Tensor(id="@ + op::id_text(self@.id) + ", shape="@ + text::list_text(
            self@.dims(),
        ) + ", dtype="@ + self@.dtype.name() + ", device="@ + device@ + ")"@);
        out
    }
}

/// The message about a wrong number of values in an update.
pub open spec fn update_text(expected: nat, got: nat) -> Seq<char> {
    "update_data_inplace: expected "@ + text::decimal(expected) + " elements, got "@
        + text::decimal(got)
}

/// Freezing and unfreezing change nothing but the mark: a tensor that was
/// frozen and then unfrozen has the ID, the storage, the layout and the
/// record of the first.
pub proof fn law_freeze_unfreeze<B: Backend>(a: Tensor<B>, b: Tensor<B>, c: Tensor<B>)
    requires
        remarked(b, a, false),
        remarked(c, b, true),
    ensures
        c@.id == a@.id,
        c@.storage == a@.storage,
        c@.layout@ == a@.layout@,
        c@.dtype == a@.dtype,
        op::same_op(a@.op, c@.op),
        c@.variable && !b@.variable,
{
}

} // verus!
