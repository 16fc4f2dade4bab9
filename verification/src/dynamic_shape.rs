//! Symbolic shapes: patterns with fixed, named and unknown dimensions, the
//! environment that binds the names, and guards that check tensors against a
//! pattern.
//!
//! A pattern such as `[Batch, SeqLen, 768]` is resolved to a concrete shape
//! once its names are bound, or unified with a concrete shape, which binds
//! them.
use crate::error::{Error, Result};
use crate::shape::{self, Shape};
use crate::text::{self, push_list, push_usize};
use vstd::prelude::*;

verus! {

/// What a dimension pattern says.
pub enum SymDimView {
    Fixed(usize),
    Symbolic(Seq<char>),
    Dynamic,
}

/// A dimension that is concrete, named, or unknown until runtime.
#[derive(Debug, PartialEq, Eq, Hash)]
pub enum SymDim {
    /// A known size.
    Fixed(usize),
    /// A named size, bound by a `ShapeEnv`.
    Symbolic(String),
    /// Any size.
    Dynamic,
}

impl View for SymDim {
    type V = SymDimView;

    open spec fn view(&self) -> SymDimView {
        match *self {
            SymDim::Fixed(n) => SymDimView::Fixed(n),
            SymDim::Symbolic(s) => SymDimView::Symbolic(s@),
            SymDim::Dynamic => SymDimView::Dynamic,
        }
    }
}

impl Clone for SymDim {
    fn clone(&self) -> (r: Self)
        ensures
            r@ == self@,
    {
        match self {
            SymDim::Fixed(n) => SymDim::Fixed(*n),
            SymDim::Symbolic(s) => SymDim::Symbolic(s.clone()),
            SymDim::Dynamic => SymDim::Dynamic,
        }
    }
}

/// The bindings of names to sizes.
pub type Bindings = Map<Seq<char>, usize>;

impl SymDimView {
    /// The size that the pattern stands for, if it is known.
    pub open spec fn resolved(self, env: Bindings) -> Option<usize> {
        match self {
            SymDimView::Fixed(n) => Some(n),
            SymDimView::Symbolic(name) => if env.contains_key(name) {
                Some(env[name])
            } else {
                None
            },
            SymDimView::Dynamic => None,
        }
    }

    /// Whether a size matches the pattern: a known size matches only itself,
    /// an unknown one matches everything.
    pub open spec fn accepts(self, value: usize, env: Bindings) -> bool {
        match self.resolved(env) {
            Some(n) => value == n,
            None => true,
        }
    }

    /// The pattern as text: a number, a name or `?`.
    pub open spec fn text(self) -> Seq<char> {
        match self {
            SymDimView::Fixed(n) => text::decimal(n as nat),
            SymDimView::Symbolic(name) => name,
            SymDimView::Dynamic => "?"@,
        }
    }
}

/// Appends the text of a dimension pattern.
fn push_dim(out: &mut String, d: &SymDim)
    ensures
        final(out)@ == old(out)@ + d@.text(),
{
    match d {
        SymDim::Fixed(n) => {
            push_usize(out, *n);
        },
        SymDim::Symbolic(s) => {
            out.append(s.as_str());
        },
        SymDim::Dynamic => {
            out.append("?");
        },
    }
}

impl SymDim {
    /// Create a fixed dimension.
    pub fn fixed(n: usize) -> (r: Self)
        ensures
            r == SymDim::Fixed(n),
    {
        SymDim::Fixed(n)
    }

    /// Create a named symbolic dimension.
    pub fn symbolic<S: Into<String>>(name: S) -> (r: Self)
        ensures
            r matches SymDim::Symbolic(s) && call_ensures(<S as Into<String>>::into, (name,), s),
    {
        SymDim::Symbolic(name.into())
    }

    /// Create a dynamic (wildcard) dimension.
    pub fn dynamic() -> (r: Self)
        ensures
            r == SymDim::Dynamic,
    {
        SymDim::Dynamic
    }

    /// Is this a concrete (fixed) dimension?
    pub fn is_fixed(&self) -> (r: bool)
        ensures
            r <==> self is Fixed,
    {
        match self {
            SymDim::Fixed(_) => true,
            _ => false,
        }
    }

    /// Is this a symbolic (named) dimension?
    pub fn is_symbolic(&self) -> (r: bool)
        ensures
            r <==> self is Symbolic,
    {
        match self {
            SymDim::Symbolic(_) => true,
            _ => false,
        }
    }

    /// Is this fully dynamic?
    pub fn is_dynamic(&self) -> (r: bool)
        ensures
            r <==> self is Dynamic,
    {
        match self {
            SymDim::Dynamic => true,
            _ => false,
        }
    }

    /// Try to resolve this dimension to a concrete value: a fixed dimension
    /// to its size, a named one to its binding, a dynamic one to nothing.
    pub fn resolve(&self, env: &ShapeEnv) -> (r: Option<usize>)
        requires
            env.wf(),
        ensures
            r == self@.resolved(env@),
    {
        match self {
            SymDim::Fixed(n) => Some(*n),
            SymDim::Symbolic(name) => env.get(name.as_str()),
            SymDim::Dynamic => None,
        }
    }

    /// Check if a concrete value matches this pattern. An unbound name
    /// matches any value.
    pub fn matches(&self, value: usize, env: &ShapeEnv) -> (r: bool)
        requires
            env.wf(),
        ensures
            r == self@.accepts(value, env@),
    {
        match self {
            SymDim::Fixed(n) => value == *n,
            SymDim::Symbolic(name) => match env.get(name.as_str()) {
                Some(bound) => value == bound,
                None => true,
            },
            SymDim::Dynamic => true,
        }
    }

    /// Try to unify this pattern with a concrete value, binding an unbound
    /// name. Returns whether the value matches; if not, nothing is bound.
    pub fn unify(&self, value: usize, env: &mut ShapeEnv) -> (r: bool)
        requires
            old(env).wf(),
        ensures
            final(env).wf(),
            r == self@.accepts(value, old(env)@),
            final(env)@ == match self@ {
                SymDimView::Symbolic(name) => if old(env)@.contains_key(name) {
                    old(env)@
                } else {
                    old(env)@.insert(name, value)
                },
                _ => old(env)@,
            },
    {
        match self {
            SymDim::Fixed(n) => value == *n,
            SymDim::Symbolic(name) => match env.get(name.as_str()) {
                Some(bound) => value == bound,
                None => {
                    env.bind_text(name.as_str(), value);
                    true
                },
            },
            SymDim::Dynamic => true,
        }
    }

    /// The pattern as text: a number, a name or `?`.
    pub fn to_string(&self) -> (r: String)
        ensures
            r@ == self@.text(),
    {
        let mut out = String::new();
        push_dim(&mut out, self);
        assert(out@ =~= self@.text());
        out
    }
}

impl vstd::std_specs::convert::FromSpecImpl<usize> for SymDim {
    open spec fn obeys_from_spec() -> bool {
        true
    }

    open spec fn from_spec(v: usize) -> SymDim {
        SymDim::Fixed(v)
    }
}

impl From<usize> for SymDim {
    fn from(v: usize) -> (r: Self) {
        SymDim::Fixed(v)
    }
}

impl<'a> vstd::std_specs::convert::FromSpecImpl<&'a str> for SymDim {
    open spec fn obeys_from_spec() -> bool {
        false
    }

    open spec fn from_spec(v: &'a str) -> SymDim {
        arbitrary()
    }
}

impl<'a> From<&'a str> for SymDim {
    fn from(v: &'a str) -> (r: Self)
        ensures
            r@ == SymDimView::Symbolic(v@),
    {
        SymDim::Symbolic(v.to_owned())
    }
}

/// The patterns of a list of dimensions.
pub open spec fn patterns(dims: Seq<SymDim>) -> Seq<SymDimView> {
    Seq::new(dims.len(), |i: int| dims[i]@)
}

/// The names among the first `n` patterns, in order.
pub open spec fn names_of(p: Seq<SymDimView>, n: nat) -> Seq<Seq<char>>
    decreases n,
{
    if n == 0 {
        seq![]
    } else {
        match p[n - 1] {
            SymDimView::Symbolic(name) => names_of(p, (n - 1) as nat).push(name),
            _ => names_of(p, (n - 1) as nat),
        }
    }
}

/// Every pattern has a known size.
pub open spec fn resolvable(p: Seq<SymDimView>, env: Bindings) -> bool {
    forall|i: int| 0 <= i < p.len() ==> #[trigger] p[i].resolved(env) is Some
}

/// The known sizes of a list of patterns, and the default for the others.
pub open spec fn resolved_or(p: Seq<SymDimView>, env: Bindings, default: usize) -> Seq<usize> {
    Seq::new(
        p.len(),
        |i: int|
            match p[i].resolved(env) {
                Some(n) => n,
                None => default,
            },
    )
}

/// A shape of the same rank whose sizes match the patterns one by one.
pub open spec fn shape_accepted(p: Seq<SymDimView>, dims: Seq<usize>, env: Bindings) -> bool {
    &&& p.len() == dims.len()
    &&& forall|i: int| 0 <= i < p.len() ==> #[trigger] p[i].accepts(dims[i], env)
}

/// A name never stands for two different sizes.
pub open spec fn names_consistent(p: Seq<SymDimView>, dims: Seq<usize>) -> bool {
    forall|i: int, j: int|
        0 <= i < p.len() && 0 <= j < p.len() && #[trigger] p[i] is Symbolic && #[trigger] p[j]
            == p[i] ==> dims[i] == dims[j]
}

/// A shape that matches the patterns, with one size for every name.
pub open spec fn unifiable(p: Seq<SymDimView>, dims: Seq<usize>, env: Bindings) -> bool {
    shape_accepted(p, dims, env) && names_consistent(p, dims)
}

/// The name occurs among the first `n` patterns.
pub open spec fn names_it(p: Seq<SymDimView>, n: int, name: Seq<char>) -> bool {
    exists|i: int| 0 <= i < n && #[trigger] p[i] == SymDimView::Symbolic(name)
}

/// The bindings together with a binding of every unbound name among the
/// first `n` patterns to its size.
pub open spec fn unified_upto(
    p: Seq<SymDimView>,
    dims: Seq<usize>,
    env: Bindings,
    n: int,
) -> Bindings {
    Map::new(
        |name: Seq<char>| env.contains_key(name) || names_it(p, n, name),
        |name: Seq<char>|
            if env.contains_key(name) {
                env[name]
            } else {
                dims[choose|i: int| 0 <= i < n && #[trigger] p[i] == SymDimView::Symbolic(name)]
            },
    )
}

/// The bindings after unifying a pattern with a shape.
pub open spec fn unified(p: Seq<SymDimView>, dims: Seq<usize>, env: Bindings) -> Bindings {
    unified_upto(p, dims, env, p.len() as int)
}

/// The pattern that two patterns broadcast to, if they can.
pub open spec fn joint_dim(a: SymDimView, b: SymDimView) -> Option<SymDimView> {
    if a == SymDimView::Fixed(1) {
        Some(b)
    } else if b == SymDimView::Fixed(1) {
        Some(a)
    } else if a is Fixed && b is Fixed {
        if a == b {
            Some(a)
        } else {
            None
        }
    } else if a is Symbolic && a == b {
        Some(a)
    } else {
        Some(SymDimView::Dynamic)
    }
}

/// The pattern `i` places from the right; missing leading dimensions count
/// as 1.
pub open spec fn sym_from_right(p: Seq<SymDimView>, i: int) -> SymDimView {
    if 0 <= i < p.len() {
        p[p.len() - 1 - i]
    } else {
        SymDimView::Fixed(1)
    }
}

/// The larger of two ranks.
pub open spec fn sym_joint_rank(a: Seq<SymDimView>, b: Seq<SymDimView>) -> nat {
    if a.len() >= b.len() {
        a.len()
    } else {
        b.len()
    }
}

/// What two patterns broadcast to `i` places from the right.
pub open spec fn joint_at(a: Seq<SymDimView>, b: Seq<SymDimView>, i: int) -> Option<SymDimView> {
    joint_dim(sym_from_right(a, i), sym_from_right(b, i))
}

/// Whether two patterns can be broadcast together.
pub open spec fn sym_broadcastable(a: Seq<SymDimView>, b: Seq<SymDimView>) -> bool {
    forall|i: int| 0 <= i < sym_joint_rank(a, b) ==> #[trigger] joint_at(a, b, i) is Some
}

/// The pattern that two patterns broadcast to.
pub open spec fn sym_broadcast(a: Seq<SymDimView>, b: Seq<SymDimView>) -> Seq<SymDimView> {
    let rank = sym_joint_rank(a, b);
    Seq::new(rank, |j: int| joint_at(a, b, rank - 1 - j).unwrap())
}

/// The first `n` patterns as text, separated by `", "`.
pub open spec fn patterns_text(p: Seq<SymDimView>, n: nat) -> Seq<char>
    decreases n,
{
    if n == 0 {
        seq![]
    } else if n == 1 {
        p[0].text()
    } else {
        patterns_text(p, (n - 1) as nat) + ", "@ + p[n - 1].text()
    }
}

/// A list of patterns in square brackets: `[Batch, 784]`.
pub open spec fn pattern_list_text(p: Seq<SymDimView>) -> Seq<char> {
    "["@ + patterns_text(p, p.len()) + "]"@
}

/// The message about a dimension without a known size.
pub open spec fn unresolved_text(i: int, d: SymDimView) -> Seq<char> {
    "cannot resolve dimension "@ + text::decimal(i as nat) + " ("@ + d.text()
        + ") — not bound in environment"@
}

/// A shape pattern with fixed, symbolic and dynamic dimensions.
#[derive(Debug, PartialEq, Eq)]
pub struct SymbolicShape {
    dims: Vec<SymDim>,
}

impl View for SymbolicShape {
    type V = Seq<SymDimView>;

    closed spec fn view(&self) -> Seq<SymDimView> {
        patterns(self.dims@)
    }
}

impl Clone for SymbolicShape {
    fn clone(&self) -> (r: Self)
        ensures
            r@ == self@,
    {
        let n: usize = self.dims.len();
        let mut dims: Vec<SymDim> = Vec::with_capacity(n);
        let mut i: usize = 0;
        while i < n
            invariant
                n == self.dims@.len(),
                i <= n,
                dims@.len() == i,
                forall|j: int| 0 <= j < i ==> #[trigger] dims@[j]@ == self.dims@[j]@,
            decreases n - i,
        {
            dims.push(self.dims[i].clone());
            i += 1;
        }
        assert(patterns(dims@) =~= patterns(self.dims@));
        SymbolicShape { dims }
    }
}

impl SymbolicShape {
    /// Create a new symbolic shape from dimension patterns.
    pub fn new(dims: Vec<SymDim>) -> (r: Self)
        ensures
            r@ == patterns(dims@),
    {
        SymbolicShape { dims }
    }

    /// Create a fully fixed pattern from a concrete shape.
    pub fn from_shape(shape: &Shape) -> (r: Self)
        ensures
            r@ == Seq::new(shape@.len(), |i: int| SymDimView::Fixed(shape@[i])),
    {
        let sizes = shape.dims();
        let n: usize = sizes.len();
        let mut dims: Vec<SymDim> = Vec::with_capacity(n);
        let mut i: usize = 0;
        while i < n
            invariant
                n == sizes@.len(),
                i <= n,
                dims@.len() == i,
                forall|j: int| 0 <= j < i ==> #[trigger] dims@[j] == SymDim::Fixed(sizes@[j]),
            decreases n - i,
        {
            dims.push(SymDim::Fixed(sizes[i]));
            i += 1;
        }
        let r = SymbolicShape { dims };
        assert(r@ =~= Seq::new(shape@.len(), |i: int| SymDimView::Fixed(shape@[i])));
        r
    }

    /// Number of dimensions.
    pub fn rank(&self) -> (r: usize)
        ensures
            r == self@.len(),
    {
        self.dims.len()
    }

    /// The dimension patterns.
    pub fn dims(&self) -> (r: &[SymDim])
        ensures
            patterns(r@) == self@,
    {
        self.dims.as_slice()
    }

    /// Check if all dimensions are fixed.
    pub fn is_concrete(&self) -> (r: bool)
        ensures
            r <==> forall|i: int| 0 <= i < self@.len() ==> #[trigger] self@[i] is Fixed,
    {
        let n: usize = self.dims.len();
        let mut i: usize = 0;
        while i < n
            invariant
                n == self.dims@.len(),
                i <= n,
                forall|j: int| 0 <= j < i ==> #[trigger] self@[j] is Fixed,
            decreases n - i,
        {
            if !self.dims[i].is_fixed() {
                assert(!(self@[i as int] is Fixed));
                return false;
            }
            i += 1;
        }
        true
    }

    /// Check if any dimension is symbolic or dynamic.
    pub fn has_symbolic(&self) -> (r: bool)
        ensures
            r <==> exists|i: int| 0 <= i < self@.len() && !(#[trigger] self@[i] is Fixed),
    {
        let b: bool = self.is_concrete();
        !b
    }

    /// The names used in this pattern, in order, repeated as often as they
    /// occur.
    pub fn symbolic_names(&self) -> (r: Vec<&str>)
        ensures
            Seq::new(r@.len(), |i: int| r@[i]@) == names_of(self@, self@.len()),
    {
        let n: usize = self.dims.len();
        let mut names: Vec<&str> = Vec::new();
        let mut i: usize = 0;
        while i < n
            invariant
                n == self.dims@.len(),
                i <= n,
                Seq::new(names@.len(), |k: int| names@[k]@) =~= names_of(self@, i as nat),
            decreases n - i,
        {
            let ghost before = names@;
            match &self.dims[i] {
                SymDim::Symbolic(name) => {
                    names.push(name.as_str());
                    assert(Seq::new(names@.len(), |k: int| names@[k]@) =~= Seq::new(
                        before.len(),
                        |k: int| before[k]@,
                    ).push(name@));
                },
                _ => {},
            }
            i += 1;
        }
        names
    }

    /// Try to resolve this pattern to a concrete shape. It is an error if a
    /// name is not bound or a dimension is dynamic; the message names the
    /// first such dimension.
    pub fn resolve(&self, env: &ShapeEnv) -> (r: Result<Shape>)
        requires
            env.wf(),
        ensures
            match r {
                Ok(s) => resolvable(self@, env@) && s@ == resolved_or(self@, env@, 0),
                Err(e) => e matches Error::Msg(m) && exists|i: int|
                    {
                        &&& 0 <= i < self@.len()
                        &&& #[trigger] self@[i].resolved(env@) is None
                        &&& forall|j: int|
                            0 <= j < i ==> #[trigger] self@[j].resolved(env@) is Some
                        &&& m@ == unresolved_text(i, self@[i])
                    },
            },
    {
        let n: usize = self.dims.len();
        let mut sizes: Vec<usize> = Vec::with_capacity(n);
        let mut i: usize = 0;
        while i < n
            invariant
                env.wf(),
                n == self.dims@.len(),
                i <= n,
                sizes@.len() == i,
                forall|j: int| 0 <= j < i ==> #[trigger] self@[j].resolved(env@) is Some,
                forall|j: int|
                    0 <= j < i ==> #[trigger] sizes@[j] == resolved_or(self@, env@, 0)[j],
            decreases n - i,
        {
            match self.dims[i].resolve(env) {
                Some(size) => {
                    sizes.push(size);
                },
                None => {
                    let mut m = String::new();
                    m.append("cannot resolve dimension ");
                    push_usize(&mut m, i);
                    m.append(" (");
                    push_dim(&mut m, &self.dims[i]);
                    m.append(") — not bound in environment");
                    assert(m@ =~= unresolved_text(i as int, self@[i as int]));
                    assert(self@[i as int].resolved(env@) is None);
                    return Err(Error::Msg(m));
                },
            }
            i += 1;
        }
        assert(sizes@ =~= resolved_or(self@, env@, 0));
        Ok(Shape::new(sizes))
    }

    /// Resolve, with a default for the dimensions without a known size.
    pub fn resolve_with_default(&self, env: &ShapeEnv, default: usize) -> (r: Shape)
        requires
            env.wf(),
        ensures
            r@ == resolved_or(self@, env@, default),
    {
        let n: usize = self.dims.len();
        let mut sizes: Vec<usize> = Vec::with_capacity(n);
        let mut i: usize = 0;
        while i < n
            invariant
                env.wf(),
                n == self.dims@.len(),
                i <= n,
                sizes@.len() == i,
                forall|j: int|
                    0 <= j < i ==> #[trigger] sizes@[j] == resolved_or(self@, env@, default)[j],
            decreases n - i,
        {
            let size: usize = match self.dims[i].resolve(env) {
                Some(size) => size,
                None => default,
            };
            sizes.push(size);
            i += 1;
        }
        assert(sizes@ =~= resolved_or(self@, env@, default));
        Shape::new(sizes)
    }

    /// Check if a concrete shape matches this pattern: the same rank, and
    /// each size matches its dimension.
    pub fn matches(&self, shape: &Shape, env: &ShapeEnv) -> (r: bool)
        requires
            env.wf(),
        ensures
            r == shape_accepted(self@, shape@, env@),
    {
        let sizes = shape.dims();
        if self.dims.len() != sizes.len() {
            return false;
        }
        let n: usize = sizes.len();
        let mut i: usize = 0;
        while i < n
            invariant
                env.wf(),
                n == self.dims@.len(),
                n == sizes@.len(),
                sizes@ == shape@,
                i <= n,
                forall|j: int| 0 <= j < i ==> #[trigger] self@[j].accepts(shape@[j], env@),
            decreases n - i,
        {
            if !self.dims[i].matches(sizes[i], env) {
                assert(!self@[i as int].accepts(shape@[i as int], env@));
                return false;
            }
            i += 1;
        }
        true
    }

    /// Unify this pattern with a concrete shape, binding its unbound names.
    ///
    /// Returns whether all sizes match and every name has one size. If not,
    /// the environment is unchanged.
    pub fn unify(&self, shape: &Shape, env: &mut ShapeEnv) -> (r: bool)
        requires
            old(env).wf(),
        ensures
            final(env).wf(),
            r == unifiable(self@, shape@, old(env)@),
            final(env)@ == if r {
                unified(self@, shape@, old(env)@)
            } else {
                old(env)@
            },
    {
        let sizes = shape.dims();
        if self.dims.len() != sizes.len() {
            return false;
        }
        let n: usize = sizes.len();
        // First pass: check consistency without modifying the environment.
        // `fresh` holds where each unbound name occurs first.
        let mut fresh: Vec<usize> = Vec::new();
        let mut i: usize = 0;
        while i < n
            invariant
                *env == *old(env),
                env.wf(),
                n == self.dims@.len(),
                n == sizes@.len(),
                sizes@ == shape@,
                i <= n,
                forall|j: int| 0 <= j < i ==> #[trigger] self@[j].accepts(shape@[j], env@),
                forall|j: int, k: int|
                    0 <= j < i && 0 <= k < i && #[trigger] self@[j] is Symbolic
                        && #[trigger] self@[k] == self@[j] ==> shape@[j] == shape@[k],
                forall|f: int|
                    0 <= f < fresh@.len() ==> {
                        &&& #[trigger] fresh@[f] < i
                        &&& self@[fresh@[f] as int] is Symbolic
                        &&& self@[fresh@[f] as int].resolved(env@) is None
                    },
                forall|j: int|
                    0 <= j < i && #[trigger] self@[j] is Symbolic && self@[j].resolved(env@) is None
                        ==> exists|f: int|
                        0 <= f < fresh@.len() && self@[#[trigger] fresh@[f] as int] == self@[j],
            decreases n - i,
        {
            let value: usize = sizes[i];
            let ghost d = self@[i as int];
            let ghost before = fresh@;
            match &self.dims[i] {
                SymDim::Fixed(size) => {
                    if value != *size {
                        assert(!self@[i as int].accepts(shape@[i as int], env@));
                        return false;
                    }
                },
                SymDim::Symbolic(name) => {
                    match env.get(name.as_str()) {
                        Some(bound) => {
                            if value != bound {
                                assert(!self@[i as int].accepts(shape@[i as int], env@));
                                return false;
                            }
                            assert forall|j: int| 0 <= j < i && #[trigger] self@[j] == d implies
                                shape@[j] == value by {
                                assert(self@[j].accepts(shape@[j], env@));
                            }
                        },
                        None => {
                            let found = self.find_name(name, &fresh);
                            match found {
                                Some(at) => {
                                    assert(self@[at as int] == d);
                                    if value != sizes[at] {
                                        assert(!names_consistent(self@, shape@));
                                        return false;
                                    }
                                },
                                None => {
                                    assert forall|j: int| 0 <= j < i implies #[trigger] self@[j]
                                        != d by {
                                        if self@[j] == d {
                                            let f = choose|f: int|
                                                0 <= f < fresh@.len()
                                                    && self@[#[trigger] fresh@[f] as int]
                                                    == self@[j];
                                            assert(self@[fresh@[f] as int] == d);
                                        }
                                    }
                                    fresh.push(i);
                                    assert(fresh@[fresh@.len() - 1] == i);
                                    assert forall|j: int|
                                        0 <= j < i + 1 && #[trigger] self@[j] is Symbolic
                                            && self@[j].resolved(env@) is None implies exists|
                                        f: int,
                                    |
                                        0 <= f < fresh@.len() && self@[#[trigger] fresh@[f] as int]
                                            == self@[j] by {
                                        if j < i {
                                            let f = choose|f: int|
                                                0 <= f < before.len()
                                                    && self@[#[trigger] before[f] as int]
                                                    == self@[j];
                                            assert(fresh@[f] == before[f]);
                                        }
                                    }
                                },
                            }
                        },
                    }
                },
                SymDim::Dynamic => {},
            }
            i += 1;
        }
        assert(unifiable(self@, shape@, old(env)@));
        // Second pass: apply the new bindings.
        let ghost start = env@;
        let mut f: usize = 0;
        while f < fresh.len()
            invariant
                env.wf(),
                start == old(env)@,
                n == self.dims@.len(),
                n == sizes@.len(),
                sizes@ == shape@,
                f <= fresh@.len(),
                forall|g: int|
                    0 <= g < fresh@.len() ==> {
                        &&& #[trigger] fresh@[g] < n
                        &&& self@[fresh@[g] as int] is Symbolic
                        &&& self@[fresh@[g] as int].resolved(start) is None
                    },
                forall|name: Seq<char>| #[trigger]
                    env@.contains_key(name) <==> start.contains_key(name) || exists|g: int|
                        0 <= g < f && self@[#[trigger] fresh@[g] as int] == SymDimView::Symbolic(
                            name,
                        ),
                forall|name: Seq<char>| #[trigger]
                    start.contains_key(name) ==> env@[name] == start[name],
                forall|g: int|
                    0 <= g < f ==> env@[self@[#[trigger] fresh@[g] as int]->Symbolic_0]
                        == shape@[fresh@[g] as int],
                names_consistent(self@, shape@),
            decreases fresh@.len() - f,
        {
            let at: usize = fresh[f];
            match &self.dims[at] {
                SymDim::Symbolic(name) => {
                    let ghost before = env@;
                    env.bind_text(name.as_str(), sizes[at]);
                    proof {
                        assert(fresh@[f as int] == at);
                        assert(self@[at as int] == SymDimView::Symbolic(name@));
                        assert forall|g: int| 0 <= g < f + 1 implies env@[self@[#[trigger] fresh@[g] as int]->Symbolic_0]
                            == shape@[fresh@[g] as int] by {
                            if self@[fresh@[g] as int] == self@[at as int] {
                                assert(shape@[fresh@[g] as int] == shape@[at as int]);
                            } else {
                                assert(self@[fresh@[g] as int]->Symbolic_0 != name@);
                            }
                        }
                        assert forall|nm: Seq<char>| #[trigger] env@.contains_key(nm)
                            <==> start.contains_key(nm) || exists|g: int|
                            0 <= g < f + 1 && self@[#[trigger] fresh@[g] as int]
                                == SymDimView::Symbolic(nm) by {
                            if env@.contains_key(nm) && !before.contains_key(nm) {
                                assert(nm == name@);
                                assert(self@[fresh@[f as int] as int] == SymDimView::Symbolic(nm));
                            }
                            if before.contains_key(nm) && !start.contains_key(nm) {
                                let g = choose|g: int|
                                    0 <= g < f && self@[#[trigger] fresh@[g] as int]
                                        == SymDimView::Symbolic(nm);
                                assert(self@[fresh@[g] as int] == SymDimView::Symbolic(nm));
                            }
                        }
                    }
                },
                _ => {
                    assert(false) by {
                        assert(self@[fresh@[f as int] as int] is Symbolic);
                    }
                },
            }
            f += 1;
        }
        proof {
            let want = unified(self@, shape@, start);
            assert forall|name: Seq<char>| #[trigger] env@.contains_key(name)
                <==> want.contains_key(name) by {
                if env@.contains_key(name) && !start.contains_key(name) {
                    let g = choose|g: int|
                        0 <= g < f && self@[#[trigger] fresh@[g] as int] == SymDimView::Symbolic(
                            name,
                        );
                    assert(self@[fresh@[g] as int] == SymDimView::Symbolic(name));
                }
                if want.contains_key(name) && !start.contains_key(name) {
                    let j = choose|j: int|
                        0 <= j < n && #[trigger] self@[j] == SymDimView::Symbolic(name);
                    assert(self@[j].resolved(start) is None);
                    let g = choose|g: int|
                        0 <= g < fresh@.len() && self@[#[trigger] fresh@[g] as int] == self@[j];
                    assert(self@[fresh@[g] as int] == SymDimView::Symbolic(name));
                }
            }
            assert forall|name: Seq<char>| #[trigger] want.contains_key(name) implies env@[name]
                == want[name] by {
                if !start.contains_key(name) {
                    assert(env@.contains_key(name));
                    let g = choose|g: int|
                        0 <= g < f && self@[#[trigger] fresh@[g] as int] == SymDimView::Symbolic(
                            name,
                        );
                    let j = choose|j: int|
                        0 <= j < n && #[trigger] self@[j] == SymDimView::Symbolic(name);
                    assert(self@[fresh@[g] as int] == SymDimView::Symbolic(name));
                    assert(0 <= j < n && self@[j] == SymDimView::Symbolic(name));
                    assert(self@[j] is Symbolic && self@[fresh@[g] as int] == self@[j]);
                    assert(shape@[j] == shape@[fresh@[g] as int]);
                }
            }
            assert(env@ =~= want);
        }
        true
    }

    /// The first of the given positions that holds a name.
    fn find_name(&self, name: &String, at: &Vec<usize>) -> (r: Option<usize>)
        requires
            forall|f: int| 0 <= f < at@.len() ==> #[trigger] at@[f] < self@.len(),
        ensures
            match r {
                Some(p) => p < self@.len() && self@[p as int] == SymDimView::Symbolic(name@)
                    && at@.contains(p),
                None => forall|f: int|
                    0 <= f < at@.len() ==> self@[#[trigger] at@[f] as int] != SymDimView::Symbolic(
                        name@,
                    ),
            },
    {
        let mut f: usize = 0;
        while f < at.len()
            invariant
                f <= at@.len(),
                forall|g: int| 0 <= g < at@.len() ==> #[trigger] at@[g] < self@.len(),
                forall|g: int|
                    0 <= g < f ==> self@[#[trigger] at@[g] as int] != SymDimView::Symbolic(name@),
            decreases at@.len() - f,
        {
            let p: usize = at[f];
            match &self.dims[p] {
                SymDim::Symbolic(other) => {
                    if *other == *name {
                        return Some(p);
                    }
                },
                _ => {},
            }
            f += 1;
        }
        None
    }

    /// The pattern of the result of a broadcasting operation between two
    /// patterns. `None` if two fixed sizes clash.
    pub fn broadcast(&self, other: &SymbolicShape) -> (r: Option<SymbolicShape>)
        ensures
            match r {
                Some(s) => sym_broadcastable(self@, other@) && s@ == sym_broadcast(self@, other@),
                None => !sym_broadcastable(self@, other@),
            },
    {
        let n: usize = self.dims.len();
        let m: usize = other.dims.len();
        let rank: usize = if n >= m {
            n
        } else {
            m
        };
        let one = SymDim::Fixed(1);
        let mut dims: Vec<SymDim> = Vec::with_capacity(rank);
        let mut i: usize = 0;
        while i < rank
            invariant
                one == SymDim::Fixed(1),
                n == self@.len(),
                m == other@.len(),
                n == self.dims@.len(),
                m == other.dims@.len(),
                rank == sym_joint_rank(self@, other@),
                i <= rank,
                dims@.len() == i,
                forall|j: int|
                    0 <= j < i ==> joint_at(self@, other@, rank - 1 - j) == Some(
                        (#[trigger] dims@[j])@,
                    ),
            decreases rank - i,
        {
            let a: &SymDim = if i < rank - n {
                &one
            } else {
                &self.dims[i - (rank - n)]
            };
            let b: &SymDim = if i < rank - m {
                &one
            } else {
                &other.dims[i - (rank - m)]
            };
            assert(a@ == sym_from_right(self@, rank - 1 - i));
            assert(b@ == sym_from_right(other@, rank - 1 - i));
            match join_dims(a, b) {
                Some(d) => {
                    assert(joint_at(self@, other@, rank - 1 - i) == Some(d@));
                    dims.push(d);
                },
                None => {
                    assert(joint_at(self@, other@, rank - 1 - i) is None);
                    return None;
                },
            }
            i += 1;
        }
        let r = SymbolicShape { dims };
        proof {
            assert forall|k: int| 0 <= k < rank implies #[trigger] joint_at(
                self@,
                other@,
                k,
            ) is Some by {
                let j = rank - 1 - k;
                assert(joint_at(self@, other@, rank - 1 - j) == Some(dims@[j]@));
            }
            assert(r@ =~= sym_broadcast(self@, other@));
        }
        Some(r)
    }

    /// The pattern in square brackets: `[Batch, 784]`.
    pub fn to_string(&self) -> (r: String)
        ensures
            r@ == pattern_list_text(self@),
    {
        let mut out = String::new();
        self.push_text(&mut out);
        assert(out@ =~= pattern_list_text(self@));
        out
    }

    /// Appends the pattern in square brackets.
    fn push_text(&self, out: &mut String)
        ensures
            final(out)@ == old(out)@ + pattern_list_text(self@),
    {
        let ghost start = out@;
        out.append("[");
        let n: usize = self.dims.len();
        let mut i: usize = 0;
        while i < n
            invariant
                n == self.dims@.len(),
                i <= n,
                out@ == start + "["@ + patterns_text(self@, i as nat),
            decreases n - i,
        {
            if i > 0 {
                out.append(", ");
            }
            push_dim(out, &self.dims[i]);
            i += 1;
        }
        out.append("]");
    }
}

/// The pattern that two dimension patterns broadcast to.
fn join_dims(a: &SymDim, b: &SymDim) -> (r: Option<SymDim>)
    ensures
        match r {
            Some(d) => joint_dim(a@, b@) == Some(d@),
            None => joint_dim(a@, b@) is None,
        },
{
    match (a, b) {
        (SymDim::Fixed(x), SymDim::Fixed(y)) => {
            if *x == 1 {
                Some(SymDim::Fixed(*y))
            } else if *y == 1 || *x == *y {
                Some(SymDim::Fixed(*x))
            } else {
                None
            }
        },
        (SymDim::Fixed(x), _) => {
            if *x == 1 {
                Some(b.clone())
            } else {
                Some(SymDim::Dynamic)
            }
        },
        (_, SymDim::Fixed(y)) => {
            if *y == 1 {
                Some(a.clone())
            } else {
                Some(SymDim::Dynamic)
            }
        },
        (SymDim::Symbolic(s), SymDim::Symbolic(t)) => {
            if *s == *t {
                Some(SymDim::Symbolic(s.clone()))
            } else {
                Some(SymDim::Dynamic)
            }
        },
        _ => Some(SymDim::Dynamic),
    }
}

impl vstd::std_specs::convert::FromSpecImpl<Vec<SymDim>> for SymbolicShape {
    open spec fn obeys_from_spec() -> bool {
        false
    }

    open spec fn from_spec(v: Vec<SymDim>) -> SymbolicShape {
        arbitrary()
    }
}

impl From<Vec<SymDim>> for SymbolicShape {
    fn from(v: Vec<SymDim>) -> (r: Self)
        ensures
            r@ == patterns(v@),
    {
        SymbolicShape { dims: v }
    }
}

impl vstd::std_specs::convert::FromSpecImpl<Shape> for SymbolicShape {
    open spec fn obeys_from_spec() -> bool {
        false
    }

    open spec fn from_spec(v: Shape) -> SymbolicShape {
        arbitrary()
    }
}

impl From<Shape> for SymbolicShape {
    fn from(v: Shape) -> (r: Self)
        ensures
            r@ == Seq::new(v@.len(), |i: int| SymDimView::Fixed(v@[i])),
    {
        SymbolicShape::from_shape(&v)
    }
}

/// Maps symbolic dimension names to concrete values. No name is bound twice.
#[derive(Debug)]
pub struct ShapeEnv {
    bindings: Vec<(String, usize)>,
}

/// The name occurs in a list of bindings.
pub open spec fn bound_in(s: Seq<(String, usize)>, name: Seq<char>) -> bool {
    exists|i: int| 0 <= i < s.len() && #[trigger] s[i].0@ == name
}

/// The names of a list of bindings are all different.
pub open spec fn names_distinct(s: Seq<(String, usize)>) -> bool {
    forall|i: int, j: int|
        0 <= i < s.len() && 0 <= j < s.len() && #[trigger] s[i].0@ == #[trigger] s[j].0@ ==> i == j
}

/// A list of bindings as a map.
pub open spec fn bindings_map(s: Seq<(String, usize)>) -> Bindings {
    Map::new(
        |name: Seq<char>| bound_in(s, name),
        |name: Seq<char>| s[choose|i: int| 0 <= i < s.len() && #[trigger] s[i].0@ == name].1,
    )
}

impl View for ShapeEnv {
    type V = Bindings;

    closed spec fn view(&self) -> Bindings {
        bindings_map(self.bindings@)
    }
}

proof fn lemma_lookup(s: Seq<(String, usize)>, i: int)
    requires
        names_distinct(s),
        0 <= i < s.len(),
    ensures
        bindings_map(s).contains_key(s[i].0@),
        bindings_map(s)[s[i].0@] == s[i].1,
{
    let name = s[i].0@;
    let k = choose|k: int| 0 <= k < s.len() && #[trigger] s[k].0@ == name;
    assert(0 <= k < s.len() && s[k].0@ == name);
}

/// Lists with the same names and values, each name once, are the same map.
proof fn lemma_same_bindings(a: Seq<(String, usize)>, b: Seq<(String, usize)>)
    requires
        names_distinct(a),
        a.len() == b.len(),
        forall|j: int| 0 <= j < a.len() ==> #[trigger] b[j].0@ == a[j].0@ && b[j].1 == a[j].1,
    ensures
        names_distinct(b),
        bindings_map(a) == bindings_map(b),
{
    assert forall|i: int, j: int|
        0 <= i < b.len() && 0 <= j < b.len() && #[trigger] b[i].0@ == #[trigger] b[j].0@ implies i
        == j by {
        assert(a[i].0@ == a[j].0@);
    }
    assert forall|name: Seq<char>| #[trigger] bound_in(a, name) implies bindings_map(b).contains_key(
        name,
    ) && bindings_map(b)[name] == bindings_map(a)[name] by {
        let k = choose|k: int| 0 <= k < a.len() && #[trigger] a[k].0@ == name;
        assert(b[k].0@ == name);
        lemma_lookup(a, k);
        lemma_lookup(b, k);
    }
    assert forall|name: Seq<char>| #[trigger] bound_in(b, name) implies bound_in(a, name) by {
        let k = choose|k: int| 0 <= k < b.len() && #[trigger] b[k].0@ == name;
        assert(a[k].0@ == name);
    }
    assert(bindings_map(a) =~= bindings_map(b));
}

impl Clone for ShapeEnv {
    fn clone(&self) -> (r: Self)
        ensures
            self.wf() ==> r.wf() && r@ == self@,
    {
        let n: usize = self.bindings.len();
        let mut bindings: Vec<(String, usize)> = Vec::with_capacity(n);
        let mut i: usize = 0;
        while i < n
            invariant
                n == self.bindings@.len(),
                i <= n,
                bindings@.len() == i,
                forall|j: int|
                    0 <= j < i ==> #[trigger] bindings@[j].0@ == self.bindings@[j].0@ && bindings@[j].1
                        == self.bindings@[j].1,
            decreases n - i,
        {
            let b: &(String, usize) = &self.bindings[i];
            bindings.push((b.0.clone(), b.1));
            i += 1;
        }
        proof {
            if self.wf() {
                assert forall|j: int| 0 <= j < n implies #[trigger] bindings@[j].0@
                    == self.bindings@[j].0@ && bindings@[j].1 == self.bindings@[j].1 by {}
                lemma_same_bindings(self.bindings@, bindings@);
            }
        }
        ShapeEnv { bindings }
    }
}

/// The message about a name with two sizes.
pub open spec fn conflict_text(name: Seq<char>, existing: usize, value: usize) -> Seq<char> {
    "conflicting binding for '"@ + name + "': "@ + text::decimal(existing as nat) + " vs "@
        + text::decimal(value as nat)
}

impl ShapeEnv {
    /// No name is bound twice.
    pub closed spec fn wf(self) -> bool {
        names_distinct(self.bindings@)
    }

    /// Create an empty environment.
    pub fn new() -> (r: Self)
        ensures
            r.wf(),
            r@ == Bindings::empty(),
    {
        let r = ShapeEnv { bindings: Vec::new() };
        assert(r@ =~= Bindings::empty());
        r
    }

    /// Bind a symbolic name to a concrete value. An earlier binding of the
    /// name is replaced.
    pub fn bind<S: Into<String>>(&mut self, name: S, value: usize)
        requires
            old(self).wf(),
        ensures
            final(self).wf(),
            exists|s: String|
                #[trigger] call_ensures(<S as Into<String>>::into, (name,), s) && final(self)@
                    == old(self)@.insert(s@, value),
    {
        let owned: String = name.into();
        assert(call_ensures(<S as Into<String>>::into, (name,), owned));
        self.bind_string(owned, value);
    }

    /// Bind a name given as a string slice.
    pub(crate) fn bind_text(&mut self, name: &str, value: usize)
        requires
            old(self).wf(),
        ensures
            final(self).wf(),
            final(self)@ == old(self)@.insert(name@, value),
    {
        self.bind_string(name.to_owned(), value);
    }

    fn bind_string(&mut self, name: String, value: usize)
        requires
            old(self).wf(),
        ensures
            final(self).wf(),
            final(self)@ == old(self)@.insert(name@, value),
    {
        let ghost before = self.bindings@;
        match self.position(&name) {
            Some(i) => {
                self.bindings[i] = (name, value);
                proof {
                    let after = self.bindings@;
                    assert forall|k: int| 0 <= k < after.len() implies #[trigger] after[k].0@
                        == before[k].0@ by {}
                    lemma_same_names(before, after, i as int);
                    assert(self@ =~= bindings_map(before).insert(name@, value));
                }
            },
            None => {
                let ghost nm = name@;
                self.bindings.push((name, value));
                proof {
                    let after = self.bindings@;
                    assert forall|k: int| 0 <= k < before.len() implies #[trigger] after[k]
                        == before[k] by {}
                    assert forall|k: int, l: int|
                        0 <= k < after.len() && 0 <= l < after.len() && #[trigger] after[k].0@
                            == #[trigger] after[l].0@ implies k == l by {
                        if k < before.len() && l < before.len() {
                            assert(before[k].0@ == before[l].0@);
                        } else if k < before.len() {
                            assert(before[k].0@ == nm);
                        } else if l < before.len() {
                            assert(before[l].0@ == nm);
                        }
                    }
                    lemma_same_names(before, after, before.len() as int);
                    assert(self@ =~= bindings_map(before).insert(nm, value));
                }
            },
        }
    }

    /// Where a name stands.
    fn position(&self, name: &String) -> (r: Option<usize>)
        ensures
            match r {
                Some(i) => i < self.bindings@.len() && self.bindings@[i as int].0@ == name@,
                None => !bound_in(self.bindings@, name@),
            },
    {
        let n: usize = self.bindings.len();
        let mut i: usize = 0;
        while i < n
            invariant
                n == self.bindings@.len(),
                i <= n,
                forall|j: int| 0 <= j < i ==> #[trigger] self.bindings@[j].0@ != name@,
            decreases n - i,
        {
            if self.bindings[i].0 == *name {
                return Some(i);
            }
            i += 1;
        }
        None
    }

    /// Look up a symbolic name.
    pub fn get(&self, name: &str) -> (r: Option<usize>)
        requires
            self.wf(),
        ensures
            r == self@.get(name@),
    {
        let owned: String = name.to_owned();
        match self.position(&owned) {
            Some(i) => {
                proof {
                    lemma_lookup(self.bindings@, i as int);
                }
                Some(self.bindings[i].1)
            },
            None => None,
        }
    }

    /// Check if a name is bound.
    pub fn is_bound(&self, name: &str) -> (r: bool)
        ensures
            r == self@.contains_key(name@),
    {
        let owned: String = name.to_owned();
        match self.position(&owned) {
            Some(i) => {
                assert(self.bindings@[i as int].0@ == name@);
                true
            },
            None => false,
        }
    }

    /// All bindings.
    pub fn bindings(&self) -> (r: &[(String, usize)])
        ensures
            self.wf() ==> names_distinct(r@),
            bindings_map(r@) == self@,
    {
        self.bindings.as_slice()
    }

    /// Number of bindings.
    pub fn len(&self) -> (r: usize)
        requires
            self.wf(),
        ensures
            r == self@.dom().len(),
    {
        proof {
            let s = self.bindings@;
            let names = Seq::new(s.len(), |i: int| s[i].0@);
            assert forall|i: int, j: int|
                0 <= i < names.len() && 0 <= j < names.len() && i != j implies names[i]
                != names[j] by {
                if names[i] == names[j] {
                    assert(s[i].0@ == s[j].0@);
                }
            }
            names.unique_seq_to_set();
            assert forall|n: Seq<char>| #[trigger] self@.dom().contains(n)
                <==> names.to_set().contains(n) by {
                if names.contains(n) {
                    let i = choose|i: int| 0 <= i < names.len() && names[i] == n;
                    assert(s[i].0@ == n);
                }
                if bound_in(s, n) {
                    let i = choose|i: int| 0 <= i < s.len() && #[trigger] s[i].0@ == n;
                    assert(names[i] == n);
                }
            }
            assert(self@.dom() =~= names.to_set());
        }
        self.bindings.len()
    }

    /// Is the environment empty?
    pub fn is_empty(&self) -> (r: bool)
        ensures
            r <==> self@ == Bindings::empty(),
    {
        let b: bool = self.bindings.len() == 0;
        proof {
            if b {
                assert(self@ =~= Bindings::empty());
            } else {
                assert(bound_in(self.bindings@, self.bindings@[0].0@));
                assert(self@.contains_key(self.bindings@[0].0@));
            }
        }
        b
    }

    /// Merge another environment into this one. It is an error if a name is
    /// bound to two different values; names merged before the conflict was
    /// met stay bound.
    pub fn merge(&mut self, other: &ShapeEnv) -> (r: Result<()>)
        requires
            old(self).wf(),
            other.wf(),
        ensures
            final(self).wf(),
            match r {
                Ok(()) => old(self)@.agrees(other@) && final(self)@
                    == old(self)@.union_prefer_right(other@),
                Err(e) => {
                    &&& e matches Error::Msg(m) && exists|name: Seq<char>|
                        {
                            &&& old(self)@.contains_key(name)
                            &&& #[trigger] other@.contains_key(name)
                            &&& old(self)@[name] != other@[name]
                            &&& m@ == conflict_text(name, old(self)@[name], other@[name])
                        }
                    &&& old(self)@.submap_of(final(self)@)
                    &&& final(self)@.submap_of(other@.union_prefer_right(old(self)@))
                },
            },
    {
        let ghost mine = self@;
        let ghost theirs = other@;
        let ghost list = other.bindings@;
        let n: usize = other.bindings.len();
        let mut i: usize = 0;
        while i < n
            invariant
                n == other.bindings@.len(),
                list == other.bindings@,
                names_distinct(list),
                theirs == bindings_map(list),
                theirs == other@,
                mine == old(self)@,
                i <= n,
                self.wf(),
                forall|name: Seq<char>| #[trigger]
                    self@.contains_key(name) <==> mine.contains_key(name) || exists|j: int|
                        0 <= j < i && #[trigger] list[j].0@ == name,
                forall|name: Seq<char>| #[trigger]
                    mine.contains_key(name) ==> self@[name] == mine[name],
                forall|j: int|
                    0 <= j < i ==> {
                        &&& self@.contains_key(#[trigger] list[j].0@)
                        &&& self@[list[j].0@] == list[j].1
                    },
            decreases n - i,
        {
            let b: &(String, usize) = &other.bindings[i];
            let ghost name = list[i as int].0@;
            let ghost before = self@;
            proof {
                lemma_lookup(list, i as int);
                if before.contains_key(name) && !mine.contains_key(name) {
                    let j = choose|j: int| 0 <= j < i && #[trigger] list[j].0@ == name;
                    assert(list[j].0@ == list[i as int].0@);
                }
            }
            match self.get(b.0.as_str()) {
                Some(existing) => {
                    if existing != b.1 {
                        let mut m = String::new();
                        m.append("conflicting binding for '");
                        m.append(b.0.as_str());
                        m.append("': ");
                        push_usize(&mut m, existing);
                        m.append(" vs ");
                        push_usize(&mut m, b.1);
                        proof {
                            assert(m@ =~= conflict_text(name, mine[name], theirs[name]));
                            assert(theirs.contains_key(name));
                            assert forall|nm: Seq<char>| #[trigger] self@.contains_key(nm) implies theirs.union_prefer_right(
                                mine,
                            ).contains_key(nm) && self@[nm] == theirs.union_prefer_right(
                                mine,
                            )[nm] by {
                                if !mine.contains_key(nm) {
                                    let j = choose|j: int| 0 <= j < i && #[trigger] list[j].0@ == nm;
                                    lemma_lookup(list, j);
                                }
                            }
                        }
                        return Err(Error::Msg(m));
                    }
                },
                None => {
                    self.bind_text(b.0.as_str(), b.1);
                },
            }
            proof {
                assert forall|nm: Seq<char>| #[trigger] self@.contains_key(nm)
                    <==> mine.contains_key(nm) || exists|j: int|
                    0 <= j < i + 1 && #[trigger] list[j].0@ == nm by {
                    if nm == name {
                        assert(list[i as int].0@ == nm);
                    } else if before.contains_key(nm) && !mine.contains_key(nm) {
                        let j = choose|j: int| 0 <= j < i && #[trigger] list[j].0@ == nm;
                        assert(list[j].0@ == nm);
                    }
                    if exists|j: int| 0 <= j < i + 1 && #[trigger] list[j].0@ == nm {
                        let j = choose|j: int| 0 <= j < i + 1 && #[trigger] list[j].0@ == nm;
                        assert(list[j].0@ == nm);
                        if j < i {
                            assert(before.contains_key(list[j].0@));
                        }
                    }
                }
                assert forall|j: int| 0 <= j < i + 1 implies {
                    &&& self@.contains_key(#[trigger] list[j].0@)
                    &&& self@[list[j].0@] == list[j].1
                } by {
                    if j < i {
                        assert(before.contains_key(list[j].0@));
                        if list[j].0@ == name {
                            assert(list[j].0@ == list[i as int].0@);
                        }
                    }
                }
            }
            i += 1;
        }
        proof {
            assert forall|name: Seq<char>| #[trigger] theirs.contains_key(name) implies {
                &&& self@.contains_key(name)
                &&& self@[name] == theirs[name]
            } by {
                let j = choose|j: int| 0 <= j < list.len() && #[trigger] list[j].0@ == name;
                assert(list[j].0@ == name);
                lemma_lookup(list, j);
            }
            assert forall|name: Seq<char>| #[trigger] self@.contains_key(name) implies {
                mine.contains_key(name) || theirs.contains_key(name)
            } by {
                if !mine.contains_key(name) {
                    let j = choose|j: int| 0 <= j < n && #[trigger] list[j].0@ == name;
                    lemma_lookup(list, j);
                }
            }
            assert(self@ =~= mine.union_prefer_right(theirs));
            assert(mine.agrees(theirs));
        }
        Ok(())
    }
}

/// Two lists with the same names and values but for position `i`, which in
/// the second may be one past the end of the first.
proof fn lemma_same_names(before: Seq<(String, usize)>, after: Seq<(String, usize)>, i: int)
    requires
        names_distinct(before),
        names_distinct(after),
        0 <= i < after.len(),
        before.len() <= after.len() <= before.len() + 1,
        i < before.len() ==> after.len() == before.len(),
        forall|k: int| 0 <= k < before.len() && k != i ==> #[trigger] after[k] == before[k],
        i < before.len() ==> after[i].0@ == before[i].0@,
        i == before.len() ==> !bound_in(before, after[i].0@),
        i <= before.len(),
    ensures
        bindings_map(after) == bindings_map(before).insert(after[i].0@, after[i].1),
{
    let name = after[i].0@;
    let want = bindings_map(before).insert(name, after[i].1);
    assert forall|nm: Seq<char>| #[trigger] bindings_map(after).contains_key(nm)
        <==> want.contains_key(nm) by {
        if bound_in(after, nm) {
            let k = choose|k: int| 0 <= k < after.len() && #[trigger] after[k].0@ == nm;
            if k != i {
                assert(before[k] == after[k]);
                assert(before[k].0@ == nm);
            }
        }
        if nm == name {
            assert(after[i].0@ == nm);
        } else if bound_in(before, nm) {
            let k = choose|k: int| 0 <= k < before.len() && #[trigger] before[k].0@ == nm;
            assert(k != i);
            assert(after[k] == before[k]);
            assert(after[k].0@ == nm);
        }
    }
    assert forall|nm: Seq<char>| #[trigger] want.contains_key(nm) implies bindings_map(after)[nm]
        == want[nm] by {
        if nm == name {
            lemma_lookup(after, i);
        } else {
            let k = choose|k: int| 0 <= k < before.len() && #[trigger] before[k].0@ == nm;
            assert(before[k].0@ == nm);
            assert(k != i);
            assert(after[k] == before[k]);
            lemma_lookup(after, k);
            lemma_lookup(before, k);
        }
    }
    assert(bindings_map(after) =~= want);
}

impl Default for ShapeEnv {
    fn default() -> (r: Self)
        ensures
            r.wf(),
            r@ == Bindings::empty(),
    {
        ShapeEnv::new()
    }
}

/// The first `n` bindings of a list of pairs; a later pair replaces an
/// earlier one of the same name.
pub open spec fn pairs_map(s: Seq<(&str, usize)>, n: nat) -> Bindings
    decreases n,
{
    if n == 0 {
        Bindings::empty()
    } else {
        pairs_map(s, (n - 1) as nat).insert(s[n - 1].0@, s[n - 1].1)
    }
}

impl<'a, 'b> vstd::std_specs::convert::FromSpecImpl<&'a [(&'b str, usize)]> for ShapeEnv {
    open spec fn obeys_from_spec() -> bool {
        false
    }

    open spec fn from_spec(v: &'a [(&'b str, usize)]) -> ShapeEnv {
        arbitrary()
    }
}

impl<'a, 'b> From<&'a [(&'b str, usize)]> for ShapeEnv {
    fn from(v: &'a [(&'b str, usize)]) -> (r: Self)
        ensures
            r.wf(),
            r@ == pairs_map(v@, v@.len()),
    {
        let mut env = ShapeEnv::new();
        let n: usize = v.len();
        let mut i: usize = 0;
        while i < n
            invariant
                n == v@.len(),
                i <= n,
                env.wf(),
                env@ == pairs_map(v@, i as nat),
            decreases n - i,
        {
            let pair: (&'b str, usize) = v[i];
            env.bind_text(pair.0, pair.1);
            i += 1;
        }
        env
    }
}

/// The message about a wrong rank.
pub open spec fn rank_text(name: Seq<char>, p: Seq<SymDimView>, dims: Seq<usize>) -> Seq<char> {
    "shape mismatch for '"@ + name + "': expected rank "@ + text::decimal(p.len()) + " ("@
        + pattern_list_text(p) + "), got rank "@ + text::decimal(dims.len()) + " ("@
        + text::list_text(dims) + ")"@
}

/// The message about a wrong size.
pub open spec fn size_text(name: Seq<char>, i: int, d: SymDimView, actual: usize) -> Seq<char> {
    "shape mismatch for '"@ + name + "' at dim "@ + text::decimal(i as nat) + ": expected "@
        + d.text() + ", got "@ + text::decimal(actual as nat)
}

/// The message about a shape that cannot be unified.
pub open spec fn unify_text(name: Seq<char>, p: Seq<SymDimView>, dims: Seq<usize>) -> Seq<char> {
    "shape mismatch for '"@ + name + "': expected "@ + pattern_list_text(p) + ", got "@
        + text::list_text(dims)
}

/// Validates concrete tensor shapes against a pattern.
#[derive(Debug)]
pub struct ShapeGuard {
    name: String,
    pattern: SymbolicShape,
}

impl Clone for ShapeGuard {
    fn clone(&self) -> (r: Self)
        ensures
            r.name_text() == self.name_text(),
            r.pattern_view() == self.pattern_view(),
    {
        ShapeGuard { name: self.name.clone(), pattern: self.pattern.clone() }
    }
}

impl ShapeGuard {
    /// The name of the guarded tensor.
    pub closed spec fn name_text(self) -> Seq<char> {
        self.name@
    }

    /// The expected pattern.
    pub closed spec fn pattern_view(self) -> Seq<SymDimView> {
        self.pattern@
    }

    /// Create a guard with a name, for error messages, and a pattern.
    pub fn new<S: Into<String>>(name: S, pattern: SymbolicShape) -> (r: Self)
        ensures
            exists|s: String|
                #[trigger] call_ensures(<S as Into<String>>::into, (name,), s) && r.name_text()
                    == s@,
            r.pattern_view() == pattern@,
    {
        let owned: String = name.into();
        assert(call_ensures(<S as Into<String>>::into, (name,), owned));
        ShapeGuard { name: owned, pattern }
    }

    /// Validate a concrete shape against the pattern. The error describes a
    /// wrong rank, or the first dimension that does not match.
    pub fn validate(&self, shape: &Shape, env: &ShapeEnv) -> (r: Result<()>)
        requires
            env.wf(),
        ensures
            match r {
                Ok(()) => shape_accepted(self.pattern_view(), shape@, env@),
                Err(e) => e matches Error::Msg(m) && if self.pattern_view().len() != shape@.len() {
                    m@ == rank_text(self.name_text(), self.pattern_view(), shape@)
                } else {
                    exists|i: int|
                        {
                            &&& 0 <= i < shape@.len()
                            &&& !#[trigger] self.pattern_view()[i].accepts(shape@[i], env@)
                            &&& forall|j: int|
                                0 <= j < i ==> #[trigger] self.pattern_view()[j].accepts(
                                    shape@[j],
                                    env@,
                                )
                            &&& m@ == size_text(
                                self.name_text(),
                                i,
                                self.pattern_view()[i],
                                shape@[i],
                            )
                        }
                },
            },
    {
        let p = &self.pattern;
        let sizes = shape.dims();
        if p.rank() != shape.rank() {
            let mut m = String::new();
            m.append("shape mismatch for '");
            m.append(self.name.as_str());
            m.append("': expected rank ");
            push_usize(&mut m, p.rank());
            m.append(" (");
            p.push_text(&mut m);
            m.append("), got rank ");
            push_usize(&mut m, shape.rank());
            m.append(" (");
            push_list(&mut m, sizes);
            m.append(")");
            assert(m@ =~= rank_text(self.name_text(), self.pattern_view(), shape@));
            return Err(Error::Msg(m));
        }
        let n: usize = sizes.len();
        let mut i: usize = 0;
        while i < n
            invariant
                env.wf(),
                *p == self.pattern,
                n == p.dims@.len(),
                n == sizes@.len(),
                sizes@ == shape@,
                i <= n,
                forall|j: int| 0 <= j < i ==> #[trigger] self.pattern_view()[j].accepts(shape@[j], env@),
            decreases n - i,
        {
            if !p.dims[i].matches(sizes[i], env) {
                let mut m = String::new();
                m.append("shape mismatch for '");
                m.append(self.name.as_str());
                m.append("' at dim ");
                push_usize(&mut m, i);
                m.append(": expected ");
                push_dim(&mut m, &p.dims[i]);
                m.append(", got ");
                push_usize(&mut m, sizes[i]);
                assert(m@ =~= size_text(
                    self.name_text(),
                    i as int,
                    self.pattern_view()[i as int],
                    shape@[i as int],
                ));
                assert(!self.pattern_view()[i as int].accepts(shape@[i as int], env@));
                return Err(Error::Msg(m));
            }
            i += 1;
        }
        Ok(())
    }

    /// Validate a shape and bind the unbound names of the pattern. On error
    /// nothing is bound.
    pub fn validate_and_bind(&self, shape: &Shape, env: &mut ShapeEnv) -> (r: Result<()>)
        requires
            old(env).wf(),
        ensures
            final(env).wf(),
            match r {
                Ok(()) => {
                    &&& unifiable(self.pattern_view(), shape@, old(env)@)
                    &&& final(env)@ == unified(self.pattern_view(), shape@, old(env)@)
                },
                Err(e) => {
                    &&& !unifiable(self.pattern_view(), shape@, old(env)@)
                    &&& final(env)@ == old(env)@
                    &&& e matches Error::Msg(m) && m@ == unify_text(
                        self.name_text(),
                        self.pattern_view(),
                        shape@,
                    )
                },
            },
    {
        if self.pattern.unify(shape, env) {
            Ok(())
        } else {
            let mut m = String::new();
            m.append("shape mismatch for '");
            m.append(self.name.as_str());
            m.append("': expected ");
            self.pattern.push_text(&mut m);
            m.append(", got ");
            push_list(&mut m, shape.dims());
            assert(m@ =~= unify_text(self.name_text(), self.pattern_view(), shape@));
            Err(Error::Msg(m))
        }
    }
}

/// Unifying keeps every earlier binding.
pub proof fn law_unify_extends(p: Seq<SymDimView>, dims: Seq<usize>, env: Bindings)
    ensures
        env.submap_of(unified(p, dims, env)),
{
}

/// After unifying, every name of the pattern is bound to its size: each
/// dimension that is not dynamic resolves to the size it was unified with.
pub proof fn law_unify_resolves(p: Seq<SymDimView>, dims: Seq<usize>, env: Bindings, i: int)
    requires
        unifiable(p, dims, env),
        0 <= i < p.len(),
        !(p[i] is Dynamic),
    ensures
        p[i].resolved(unified(p, dims, env)) == Some(dims[i]),
{
    assert(p[i].accepts(dims[i], env));
    if p[i] is Symbolic {
        let name = p[i]->Symbolic_0;
        assert(names_it(p, p.len() as int, name));
        let k = choose|k: int| 0 <= k < p.len() && #[trigger] p[k] == SymDimView::Symbolic(name);
        assert(p[k] == p[i]);
    }
}

/// A shape that was unified with a pattern matches it before and after, and
/// unifying it once more succeeds and binds nothing new.
pub proof fn law_unify_idempotent(p: Seq<SymDimView>, dims: Seq<usize>, env: Bindings)
    requires
        unifiable(p, dims, env),
    ensures
        shape_accepted(p, dims, env),
        shape_accepted(p, dims, unified(p, dims, env)),
        unifiable(p, dims, unified(p, dims, env)),
        unified(p, dims, unified(p, dims, env)) == unified(p, dims, env),
{
    let after = unified(p, dims, env);
    assert forall|i: int| 0 <= i < p.len() implies #[trigger] p[i].accepts(dims[i], after) by {
        if !(p[i] is Dynamic) {
            law_unify_resolves(p, dims, env, i);
        }
    }
    let again = unified(p, dims, after);
    assert forall|name: Seq<char>| #[trigger] again.contains_key(name) implies after.contains_key(
        name,
    ) by {}
    assert(again =~= after);
}

/// After a pattern without dynamic dimensions was unified with a shape, it
/// resolves to that shape.
pub proof fn law_unify_then_resolve(p: Seq<SymDimView>, dims: Seq<usize>, env: Bindings)
    requires
        unifiable(p, dims, env),
        forall|i: int| 0 <= i < p.len() ==> !(#[trigger] p[i] is Dynamic),
    ensures
        resolvable(p, unified(p, dims, env)),
        resolved_or(p, unified(p, dims, env), 0) == dims,
{
    let after = unified(p, dims, env);
    assert forall|i: int| 0 <= i < p.len() implies #[trigger] p[i].resolved(after) == Some(
        dims[i],
    ) by {
        law_unify_resolves(p, dims, env, i);
    }
    assert(resolved_or(p, after, 0) =~= dims);
}

/// A resolvable pattern matches exactly one shape, the one it resolves to.
pub proof fn law_resolve_is_the_match(p: Seq<SymDimView>, env: Bindings, dims: Seq<usize>)
    requires
        resolvable(p, env),
    ensures
        shape_accepted(p, dims, env) <==> dims == resolved_or(p, env, 0),
{
    let want = resolved_or(p, env, 0);
    if shape_accepted(p, dims, env) {
        assert forall|i: int| 0 <= i < dims.len() implies #[trigger] dims[i] == want[i] by {
            assert(p[i].resolved(env) is Some);
            assert(p[i].accepts(dims[i], env));
        }
        assert(dims =~= want);
    }
    if dims == want {
        assert forall|i: int| 0 <= i < p.len() implies #[trigger] p[i].accepts(dims[i], env) by {
            assert(p[i].resolved(env) is Some);
        }
    }
}

/// The fully fixed pattern of a shape, as `from_shape` makes it, resolves to
/// that shape in every environment.
pub proof fn law_fixed_pattern_resolves(dims: Seq<usize>, env: Bindings)
    ensures
        resolvable(Seq::new(dims.len(), |i: int| SymDimView::Fixed(dims[i])), env),
        resolved_or(Seq::new(dims.len(), |i: int| SymDimView::Fixed(dims[i])), env, 0) == dims,
{
    assert(resolved_or(Seq::new(dims.len(), |i: int| SymDimView::Fixed(dims[i])), env, 0) =~= dims);
}

/// Where two patterns cannot be broadcast together, no two shapes that match
/// them can; where they can, the broadcast of two matching shapes matches
/// the broadcast pattern.
pub proof fn law_sym_broadcast_sound(
    a: Seq<SymDimView>,
    b: Seq<SymDimView>,
    x: Seq<usize>,
    y: Seq<usize>,
    env: Bindings,
)
    requires
        shape_accepted(a, x, env),
        shape_accepted(b, y, env),
        shape::broadcastable(x, y),
    ensures
        sym_broadcastable(a, b),
        shape_accepted(sym_broadcast(a, b), shape::broadcast(x, y), env),
{
    assert forall|i: int| 0 <= i < sym_joint_rank(a, b) implies {
        &&& #[trigger] joint_at(a, b, i) is Some
        &&& joint_at(a, b, i).unwrap().accepts(
            shape::joint_size(shape::from_right(x, i), shape::from_right(y, i)),
            env,
        )
    } by {
        assert(!shape::clash_at(x, y, i));
        if i < a.len() {
            assert(a[a.len() - 1 - i].accepts(x[x.len() - 1 - i], env));
        }
        if i < b.len() {
            assert(b[b.len() - 1 - i].accepts(y[y.len() - 1 - i], env));
        }
    }
    let rank = sym_joint_rank(a, b);
    assert forall|j: int| 0 <= j < rank implies #[trigger] sym_broadcast(a, b)[j].accepts(
        shape::broadcast(x, y)[j],
        env,
    ) by {
        assert(joint_at(a, b, rank - 1 - j) is Some);
    }
}

/// Broadcasting does not depend on the order of the patterns.
pub proof fn law_sym_broadcast_commutes(a: Seq<SymDimView>, b: Seq<SymDimView>)
    ensures
        sym_broadcastable(a, b) <==> sym_broadcastable(b, a),
        sym_broadcastable(a, b) ==> sym_broadcast(a, b) == sym_broadcast(b, a),
{
    let rank = sym_joint_rank(a, b);
    assert forall|i: int| 0 <= i < rank implies #[trigger] joint_at(a, b, i) == joint_at(
        b,
        a,
        i,
    ) by {}
    if sym_broadcastable(a, b) {
        assert forall|i: int| 0 <= i < rank implies #[trigger] joint_at(b, a, i) is Some by {
            assert(joint_at(a, b, i) is Some);
        }
        assert forall|j: int| 0 <= j < rank implies #[trigger] sym_broadcast(a, b)[j]
            == sym_broadcast(b, a)[j] by {
            assert(joint_at(a, b, rank - 1 - j) == joint_at(b, a, rank - 1 - j));
        }
        assert(sym_broadcast(a, b) =~= sym_broadcast(b, a));
    }
    if sym_broadcastable(b, a) {
        assert forall|i: int| 0 <= i < rank implies #[trigger] joint_at(a, b, i) is Some by {
            assert(joint_at(b, a, i) is Some);
        }
    }
}

/// On fully fixed patterns broadcasting is that of concrete shapes.
pub proof fn law_sym_broadcast_concrete(x: Seq<usize>, y: Seq<usize>)
    ensures
        ({
            let a = Seq::new(x.len(), |i: int| SymDimView::Fixed(x[i]));
            let b = Seq::new(y.len(), |i: int| SymDimView::Fixed(y[i]));
            let c = shape::broadcast(x, y);
            &&& sym_broadcastable(a, b) <==> shape::broadcastable(x, y)
            &&& shape::broadcastable(x, y) ==> sym_broadcast(a, b) == Seq::new(
                c.len(),
                |i: int| SymDimView::Fixed(c[i]),
            )
        }),
{
    let a = Seq::new(x.len(), |i: int| SymDimView::Fixed(x[i]));
    let b = Seq::new(y.len(), |i: int| SymDimView::Fixed(y[i]));
    let c = shape::broadcast(x, y);
    let rank = shape::joint_rank(x, y);
    assert forall|i: int| 0 <= i < rank implies #[trigger] joint_at(a, b, i) == if shape::clash_at(
        x,
        y,
        i,
    ) {
        None
    } else {
        Some(
            SymDimView::Fixed(shape::joint_size(shape::from_right(x, i), shape::from_right(y, i))),
        )
    } by {
        assert(sym_from_right(a, i) == SymDimView::Fixed(shape::from_right(x, i)));
        assert(sym_from_right(b, i) == SymDimView::Fixed(shape::from_right(y, i)));
    }
    if sym_broadcastable(a, b) {
        assert forall|i: int| 0 <= i < rank implies !#[trigger] shape::clash_at(x, y, i) by {
            assert(joint_at(a, b, i) is Some);
        }
    }
    if shape::broadcastable(x, y) {
        assert forall|i: int| 0 <= i < rank implies #[trigger] joint_at(a, b, i) is Some by {
            assert(!shape::clash_at(x, y, i));
        }
        assert forall|j: int| 0 <= j < rank implies #[trigger] sym_broadcast(a, b)[j]
            == SymDimView::Fixed(c[j]) by {
            assert(!shape::clash_at(x, y, rank - 1 - j));
            assert(joint_at(a, b, rank - 1 - j) is Some);
        }
        assert(sym_broadcast(a, b) =~= Seq::new(c.len(), |i: int| SymDimView::Fixed(c[i])));
    }
}

/// Merging succeeds in one direction exactly when it does in the other, and
/// then gives the same bindings.
pub proof fn law_merge_commutes(a: Bindings, b: Bindings)
    ensures
        a.agrees(b) <==> b.agrees(a),
        a.agrees(b) ==> a.union_prefer_right(b) == b.union_prefer_right(a),
{
    if a.agrees(b) {
        assert(a.union_prefer_right(b) =~= b.union_prefer_right(a));
    }
}

} // verus!
