//! Gradient checkpointing: trading compute for memory.
//!
//! A deep stack of layers is cut into segments. The tensors at the boundaries
//! of segments are variables of their own, whose records lead back to the
//! segment before.
use crate::backend::Backend;
use crate::error::{Error, Result};
use crate::graph;
use crate::op::Op;
use crate::rules::{self, upload_like};
use crate::shaping;
use crate::tensor::{self, Tensor};
use vstd::arithmetic::div_mod::*;
use vstd::prelude::*;

verus! {

/// Whether a computation is a recomputation for a checkpoint. Modules with
/// random behaviour look at it to repeat what they did before.
#[derive(Clone, Copy)]
pub struct CheckpointMode {
    active: bool,
}

impl View for CheckpointMode {
    type V = bool;

    closed spec fn view(&self) -> bool {
        self.active
    }
}

impl CheckpointMode {
    /// The mode outside of any recomputation.
    pub fn new() -> (r: Self)
        ensures
            !r@,
    {
        CheckpointMode { active: false }
    }
}

/// Returns true inside a checkpoint recomputation.
pub fn is_checkpointing(mode: &CheckpointMode) -> (r: bool)
    ensures
        r == mode@,
{
    mode.active
}

/// Run a closure with the checkpointing mode set. Afterwards the mode is what
/// it was before, so that calls can be nested.
pub fn with_checkpoint_mode<F: FnOnce(CheckpointMode) -> T, T>(
    mode: &mut CheckpointMode,
    f: F,
) -> (r: T)
    requires
        forall|m: CheckpointMode| m@ ==> #[trigger] call_requires(f, (m,)),
    ensures
        exists|m: CheckpointMode| m@ && #[trigger] call_ensures(f, (m,), r),
        final(mode)@ == old(mode)@,
{
    let before = mode.active;
    mode.active = true;
    let result = f(*mode);
    mode.active = before;
    result
}

/// The result of a computation whose values can be read and stored again.
pub open spec fn checkpointed<B: Backend>(made: Result<Tensor<B>>, r: Result<Tensor<B>>) -> bool {
    match made {
        Err(e) => r == Err::<Tensor<B>, _>(e),
        Ok(t) => exists|v: Result<Vec<B::Scalar>>| #[trigger]
            call_ensures(Tensor::to_f64_vec, (&t,), v) && match v {
                Err(e) => r == Err::<Tensor<B>, _>(e),
                Ok(v) => exists|copy: Result<Tensor<B>>| #[trigger]
                    rules::uploaded_like(v@, t, copy) && match copy {
                        Err(e) => r == Err::<Tensor<B>, _>(e),
                        Ok(_) => r == Ok::<Tensor<B>, Error>(t),
                    },
            },
    }
}

/// Run a forward computation as a checkpoint.
///
/// The result of `func` is returned with the graph that `func` recorded, and
/// `backward` follows it: the gradients of what `func` used are those that a
/// second run would give. A record holds tensors and numbers, but no closure,
/// so `func` itself is not run again. It is an error if the values of the
/// result cannot be copied.
pub fn checkpoint<B: Backend, F: Fn() -> Result<Tensor<B>>>(func: F, inputs: &[&Tensor<B>]) -> (r:
    Result<Tensor<B>>)
    requires
        call_requires(func, ()),
    ensures
        exists|made: Result<Tensor<B>>| #[trigger]
            call_ensures(func, (), made) && checkpointed(made, r),
{
    let result = func()?;
    let data = result.to_f64_vec()?;
    let copy = upload_like(data.as_slice(), &result)?;
    Ok(result)
}

/// The layers from `i` to `end` are applied one after the other.
pub open spec fn layers_run<B: Backend, F: Fn(&Tensor<B>) -> Result<Tensor<B>>>(
    layers: Seq<F>,
    i: nat,
    end: nat,
    h: Tensor<B>,
    r: Result<Tensor<B>>,
) -> bool
    decreases end - i,
{
    if i >= end {
        r == Ok::<Tensor<B>, Error>(h)
    } else {
        exists|x: Result<Tensor<B>>| #[trigger]
            call_ensures(layers[i as int], (&h,), x) && match x {
                Err(e) => r == Err::<Tensor<B>, _>(e),
                Ok(x) => layers_run(layers, i + 1, end, x, r),
            }
    }
}

/// The input of a segment: a variable of its own that reads what came before,
/// with a record that leads back to it.
pub open spec fn boundary<B: Backend>(cur: Tensor<B>, s: Tensor<B>) -> bool {
    exists|d: Tensor<B>| #[trigger]
        tensor::viewed(d, cur, cur@.layout@) && shaping::is_reshape_of(d@.op, cur)
            && tensor::remarked(s, d, true)
}

/// Gradients flow from the input of a segment to the segment before: the
/// input is a variable with the shape and the storage of what came before,
/// and was made from nothing else.
pub proof fn law_segments_are_linked<B: Backend>(cur: Tensor<B>, s: Tensor<B>)
    requires
        boundary(cur, s),
    ensures
        s@.variable,
        s@.dims() == cur@.dims(),
        s@.storage == cur@.storage,
        graph::inputs_of(s) == seq![cur],
        shaping::is_reshape_of(s@.op, cur),
{
}

/// Where a segment of `size` layers ends.
pub open spec fn segment_end(start: nat, size: nat, n: nat) -> nat {
    if start + size < n {
        start + size
    } else {
        n
    }
}

/// The segments of `size` layers from the layer `start` on.
pub open spec fn segments_run<B: Backend, F: Fn(&Tensor<B>) -> Result<Tensor<B>>>(
    layers: Seq<F>,
    size: nat,
    start: nat,
    cur: Tensor<B>,
    r: Result<Tensor<B>>,
) -> bool
    decreases layers.len() - start,
{
    if start >= layers.len() || size == 0 {
        r == Ok::<Tensor<B>, Error>(cur)
    } else {
        exists|s: Tensor<B>, h: Result<Tensor<B>>|
            {
                &&& #[trigger] boundary(cur, s)
                &&& #[trigger] layers_run(
                    layers,
                    start,
                    segment_end(start, size, layers.len()),
                    s,
                    h,
                )
                &&& match h {
                    Err(e) => r == Err::<Tensor<B>, _>(e),
                    Ok(h) => segments_run(
                        layers,
                        size,
                        segment_end(start, size, layers.len()),
                        h,
                        r,
                    ),
                }
            }
    }
}

/// Applies the layers from `from` to `end` one after the other.
fn run_layers<B: Backend, F: Fn(&Tensor<B>) -> Result<Tensor<B>>>(
    layers: &[F],
    from: usize,
    end: usize,
    start: Tensor<B>,
) -> (r: Result<Tensor<B>>)
    requires
        from <= end <= layers@.len(),
        forall|i: int, t: &Tensor<B>|
            0 <= i < layers@.len() ==> #[trigger] call_requires(layers@[i], (t,)),
    ensures
        layers_run(layers@, from as nat, end as nat, start, r),
{
    let mut h = start.clone();
    let mut i: usize = from;
    while i < end
        invariant
            from <= i <= end <= layers@.len(),
            forall|i: int, t: &Tensor<B>|
                0 <= i < layers@.len() ==> #[trigger] call_requires(layers@[i], (t,)),
            forall|y: Result<Tensor<B>>| #[trigger]
                layers_run(layers@, i as nat, end as nat, h, y) ==> layers_run(
                    layers@,
                    from as nat,
                    end as nat,
                    start,
                    y,
                ),
        decreases end - i,
    {
        let ghost before = h;
        let at: usize = i;
        i += 1;
        let layer = &layers[at];
        let x = layer(&h);
        assert(call_ensures(layers@[at as int], (&before,), x));
        match x {
            Err(e) => {
                assert(layers_run(layers@, at as nat, end as nat, before, Err(e)));
                return Err(e);
            },
            Ok(next) => {
                h = next;
            },
        }
        assert forall|y: Result<Tensor<B>>| #[trigger]
            layers_run(layers@, i as nat, end as nat, h, y) implies layers_run(
            layers@,
            at as nat,
            end as nat,
            before,
            y,
        ) by {}
    }
    assert(layers_run(layers@, end as nat, end as nat, h, Ok(h)));
    Ok(h)
}

/// Apply checkpointing to a sequence of layers.
///
/// The layers are cut into at most `segments` segments of equal length, the
/// last one perhaps shorter. The input of each segment is a variable of its
/// own, linked to the segment before it, so that gradients reach `input` and
/// all layers. The tensors within a segment stay in the graph.
pub fn checkpoint_sequential<B: Backend, F: Fn(&Tensor<B>) -> Result<Tensor<B>>>(
    input: &Tensor<B>,
    layers: &[F],
    segments: usize,
) -> (r: Result<Tensor<B>>)
    requires
        segments > 0 || layers@.len() == 0,
        forall|i: int, t: &Tensor<B>|
            0 <= i < layers@.len() ==> #[trigger] call_requires(layers@[i], (t,)),
    ensures
        segments_run(
            layers@,
            shaping::piece_count(layers@.len(), segments as nat),
            0,
            *input,
            r,
        ),
{
    let n: usize = layers.len();
    if n == 0 {
        return Ok(input.clone());
    }
    proof {
        lemma_div_is_ordered_by_denominator((n - 1) as int, 1, segments as int);
        lemma_div_basics((n - 1) as int);
        lemma_div_pos_is_pos((n - 1) as int, segments as int);
    }
    let size: usize = (n - 1) / segments + 1;
    let mut current = input.clone();
    let mut start: usize = 0;
    while start < n
        invariant
            n == layers@.len(),
            start <= n,
            size > 0,
            size == shaping::piece_count(layers@.len(), segments as nat),
            forall|i: int, t: &Tensor<B>|
                0 <= i < layers@.len() ==> #[trigger] call_requires(layers@[i], (t,)),
            forall|y: Result<Tensor<B>>| #[trigger]
                segments_run(layers@, size as nat, start as nat, current, y) ==> segments_run(
                    layers@,
                    size as nat,
                    0,
                    *input,
                    y,
                ),
        decreases n - start,
    {
        let ghost before = current;
        let from: usize = start;
        let end: usize = if size < n - from {
            from + size
        } else {
            n
        };
        start = end;
        let record = Op::Reshape {
            input: current.clone(),
            src_shape: current.shape().clone(),
        };
        let linked = current.view_with_layout(current.layout().clone(), record);
        let ghost link = linked;
        let fresh = linked.set_variable();
        let ghost s = fresh;
        assert(tensor::viewed(link, before, before@.layout@));
        assert(boundary(before, s));
        assert(end == segment_end(from as nat, size as nat, layers@.len()));
        let h = run_layers(layers, from, end, fresh);
        match h {
            Err(e) => {
                assert(segments_run(layers@, size as nat, from as nat, before, Err(e)));
                return Err(e);
            },
            Ok(next) => {
                assert(layers_run(layers@, from as nat, end as nat, s, Ok(next)));
                current = next;
            },
        }
        assert forall|y: Result<Tensor<B>>| #[trigger]
            segments_run(layers@, size as nat, start as nat, current, y) implies segments_run(
            layers@,
            size as nat,
            from as nat,
            before,
            y,
        ) by {}
    }
    assert(segments_run(layers@, size as nat, n as nat, current, Ok(current)));
    Ok(current)
}

/// A checkpoint gives what the computation gives, with nothing changed.
pub proof fn law_checkpoint_returns<B: Backend, F: Fn() -> Result<Tensor<B>>>(
    func: F,
    inputs: &[&Tensor<B>],
    r: Result<Tensor<B>>,
    t: Tensor<B>,
)
    requires
        call_ensures(checkpoint::<B, F>, (func, inputs), r),
        r == Ok::<Tensor<B>, Error>(t),
    ensures
        call_ensures(func, (), r),
{
}

/// A sequence of layers is applied whole and in order, however it is cut into
/// segments: what holds of the input, is passed on by each layer to the next and
/// depends on the storage, the layout and the number type alone, holds of the
/// result behind the last layer. Where there is an error, a layer gave it.
pub proof fn law_layers_in_order<B: Backend, F: Fn(&Tensor<B>) -> Result<Tensor<B>>>(
    input: &Tensor<B>,
    layers: &[F],
    segments: usize,
    r: Result<Tensor<B>>,
    holds: spec_fn(int, Tensor<B>) -> bool,
)
    requires
        segments > 0,
        call_ensures(checkpoint_sequential::<B, F>, (input, layers, segments), r),
        holds(0, *input),
        forall|k: int, a: Tensor<B>, b: Tensor<B>| #[trigger]
            holds(k, a) && b@.storage == a@.storage && b@.layout@ == a@.layout@ && b@.dtype
                == a@.dtype ==> #[trigger] holds(k, b),
        forall|k: int, a: Tensor<B>, b: Tensor<B>|
            0 <= k < layers@.len() && holds(k, a) && #[trigger] call_ensures(
                layers@[k],
                (&a,),
                Ok::<Tensor<B>, Error>(b),
            ) ==> holds(k + 1, b),
    ensures
        r matches Ok(t) ==> holds(layers@.len() as int, t),
        r matches Err(e) ==> exists|k: int, a: Tensor<B>|
            0 <= k < layers@.len() && holds(k, a) && #[trigger] call_ensures(
                layers@[k],
                (&a,),
                Err::<Tensor<B>, Error>(e),
            ),
{
    let n = layers@.len();
    let size = shaping::piece_count(n, segments as nat);
    assert(n > 0 ==> size > 0) by {
        if n > 0 {
            vstd::arithmetic::div_mod::lemma_div_pos_is_pos(n - 1, segments as int);
        }
    }
    lemma_segments_in_order(layers@, size, 0, *input, r, holds);
}

proof fn lemma_segments_in_order<B: Backend, F: Fn(&Tensor<B>) -> Result<Tensor<B>>>(
    layers: Seq<F>,
    size: nat,
    start: nat,
    cur: Tensor<B>,
    r: Result<Tensor<B>>,
    holds: spec_fn(int, Tensor<B>) -> bool,
)
    requires
        start < layers.len() ==> size > 0,
        start <= layers.len(),
        segments_run(layers, size, start, cur, r),
        holds(start as int, cur),
        forall|k: int, a: Tensor<B>, b: Tensor<B>| #[trigger]
            holds(k, a) && b@.storage == a@.storage && b@.layout@ == a@.layout@ && b@.dtype
                == a@.dtype ==> #[trigger] holds(k, b),
        forall|k: int, a: Tensor<B>, b: Tensor<B>|
            0 <= k < layers.len() && holds(k, a) && #[trigger] call_ensures(
                layers[k],
                (&a,),
                Ok::<Tensor<B>, Error>(b),
            ) ==> holds(k + 1, b),
    ensures
        r matches Ok(t) ==> holds(layers.len() as int, t),
        r matches Err(e) ==> exists|k: int, a: Tensor<B>|
            0 <= k < layers.len() && holds(k, a) && #[trigger] call_ensures(
                layers[k],
                (&a,),
                Err::<Tensor<B>, Error>(e),
            ),
    decreases layers.len() - start,
{
    if start < layers.len() {
        let end = segment_end(start, size, layers.len());
        let (s, h) = choose|s: Tensor<B>, h: Result<Tensor<B>>|
            {
                &&& #[trigger] boundary(cur, s)
                &&& #[trigger] layers_run(layers, start, end, s, h)
                &&& match h {
                    Err(e) => r == Err::<Tensor<B>, _>(e),
                    Ok(h) => segments_run(layers, size, end, h, r),
                }
            };
        assert(holds(start as int, s));
        lemma_layers_in_order(layers, start, end, s, h, holds);
        if let Ok(h) = h {
            lemma_segments_in_order(layers, size, end, h, r, holds);
        }
    }
}

proof fn lemma_layers_in_order<B: Backend, F: Fn(&Tensor<B>) -> Result<Tensor<B>>>(
    layers: Seq<F>,
    i: nat,
    end: nat,
    h: Tensor<B>,
    r: Result<Tensor<B>>,
    holds: spec_fn(int, Tensor<B>) -> bool,
)
    requires
        i <= end <= layers.len(),
        layers_run(layers, i, end, h, r),
        holds(i as int, h),
        forall|k: int, a: Tensor<B>, b: Tensor<B>|
            0 <= k < layers.len() && holds(k, a) && #[trigger] call_ensures(
                layers[k],
                (&a,),
                Ok::<Tensor<B>, Error>(b),
            ) ==> holds(k + 1, b),
    ensures
        r matches Ok(t) ==> holds(end as int, t),
        r matches Err(e) ==> exists|k: int, a: Tensor<B>|
            0 <= k < layers.len() && holds(k, a) && #[trigger] call_ensures(
                layers[k],
                (&a,),
                Err::<Tensor<B>, Error>(e),
            ),
    decreases end - i,
{
    if i < end {
        let x = choose|x: Result<Tensor<B>>| #[trigger]
            call_ensures(layers[i as int], (&h,), x) && match x {
                Err(e) => r == Err::<Tensor<B>, _>(e),
                Ok(x) => layers_run(layers, i + 1, end, x, r),
            };
        if let Ok(x) = x {
            assert(holds((i + 1) as int, x));
            lemma_layers_in_order(layers, i + 1, end, x, r, holds);
        }
    }
}

} // verus!
