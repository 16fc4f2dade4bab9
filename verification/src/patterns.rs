//! What patterns of shapes mean, call by call.
use crate::dynamic_shape::{
    self,
    Bindings,
    ShapeEnv,
    ShapeGuard,
    SymDim,
    SymDimView,
    SymbolicShape,
};
use crate::error::Result;
use crate::shape::Shape;
use vstd::prelude::*;

verus! {

/// A known size resolves to itself, a bound name to what it is bound to, and
/// nothing else to anything. A size matches where nothing is known, or where it is
/// what is known.
pub proof fn law_pattern_resolves(
    d: SymDim,
    env: ShapeEnv,
    r: Option<usize>,
    size: usize,
    fits: bool,
)
    requires
        call_ensures(SymDim::resolve, (&d, &env), r),
        call_ensures(SymDim::matches, (&d, size, &env), fits),
    ensures
        d matches SymDim::Fixed(n) ==> r == Some(n) && (fits <==> size == n),
        d matches SymDim::Symbolic(name) ==> (if env@.dom().contains(name@) {
            r == Some(env@[name@]) && (fits <==> size == env@[name@])
        } else {
            r is None && fits
        }),
        d is Dynamic ==> r is None && fits,
{
}

/// Resolving a pattern gives the known sizes, and is refused if one is not known;
/// with a default, that stands for each size that is not known.
pub proof fn law_shape_resolves(
    p: SymbolicShape,
    env: ShapeEnv,
    r: Result<Shape>,
    default: usize,
    filled: Shape,
)
    requires
        call_ensures(SymbolicShape::resolve, (&p, &env), r),
        call_ensures(SymbolicShape::resolve_with_default, (&p, &env, default), filled),
    ensures
        ({
            let known = |i: int|
                match p@[i] {
                    SymDimView::Fixed(n) => Some(n),
                    SymDimView::Symbolic(name) => if env@.dom().contains(name) {
                        Some(env@[name])
                    } else {
                        None
                    },
                    SymDimView::Dynamic => None,
                };
            &&& filled@.len() == p@.len()
            &&& forall|i: int|
                0 <= i < p@.len() ==> #[trigger] filled@[i] == match known(i) {
                    Some(n) => n,
                    None => default,
                }
            &&& r is Ok <==> forall|i: int| 0 <= i < p@.len() ==> #[trigger] known(i) is Some
            &&& r matches Ok(s) ==> s@.len() == p@.len() && forall|i: int|
                0 <= i < p@.len() ==> known(i) == Some(#[trigger] s@[i])
        }),
{
    let known = |i: int|
        match p@[i] {
            SymDimView::Fixed(n) => Some(n),
            SymDimView::Symbolic(name) => if env@.dom().contains(name) {
                Some(env@[name])
            } else {
                None
            },
            SymDimView::Dynamic => None,
        };
    assert forall|i: int| 0 <= i < p@.len() implies #[trigger] known(i) == p@[i].resolved(
        env@,
    ) by {}
    if r is Ok {
        assert forall|i: int| 0 <= i < p@.len() implies #[trigger] known(i) is Some by {
            assert(p@[i].resolved(env@) is Some);
        }
    } else {
        let i = choose|i: int| 0 <= i < p@.len() && #[trigger] p@[i].resolved(env@) is None;
        assert(known(i) is None);
    }
}

/// The names of a pattern are those of its named dimensions, in order.
pub proof fn law_names_in_order(p: SymbolicShape, r: Vec<&str>)
    requires
        call_ensures(SymbolicShape::symbolic_names, (&p,), r),
    ensures
        Seq::new(r@.len(), |i: int| r@[i]@) == p@.filter(
            |d: SymDimView| d is Symbolic,
        ).map_values(|d: SymDimView| d->Symbolic_0),
{
    lemma_names(p@, p@.len());
    assert(p@.take(p@.len() as int) =~= p@);
}

proof fn lemma_names(p: Seq<SymDimView>, n: nat)
    requires
        n <= p.len(),
    ensures
        dynamic_shape::names_of(p, n) == p.take(n as int).filter(
            |d: SymDimView| d is Symbolic,
        ).map_values(|d: SymDimView| d->Symbolic_0),
    decreases n,
{
    let test = |d: SymDimView| d is Symbolic;
    let name = |d: SymDimView| d->Symbolic_0;
    reveal(Seq::filter);
    if n > 0 {
        lemma_names(p, (n - 1) as nat);
        let part = p.take(n as int);
        assert(part.drop_last() =~= p.take(n - 1));
        let before = part.drop_last().filter(test);
        assert(test(p[n - 1]) == (p[n - 1] is Symbolic));
        assert(before.push(p[n - 1]).map_values(name) =~= before.map_values(name).push(
            name(p[n - 1]),
        ));
    } else {
        assert(dynamic_shape::names_of(p, 0) =~= p.take(0).filter(test).map_values(name));
    }
}

/// The dimension `i` places from the right of a pattern; missing ones count as 1.
pub open spec fn place_from_right(p: Seq<SymDimView>, i: int) -> SymDimView {
    if i < p.len() {
        p[p.len() - 1 - i]
    } else {
        SymDimView::Fixed(1)
    }
}

/// Two patterns broadcast place by place, counted from the right: size 1 gives way
/// to the other dimension, equal sizes and equal names stay, different sizes are
/// refused, and of anything else the size is not known.
pub proof fn law_pattern_broadcast(a: SymbolicShape, b: SymbolicShape, r: Option<SymbolicShape>)
    requires
        call_ensures(SymbolicShape::broadcast, (&a, &b), r),
    ensures
        ({
            let rank = if a@.len() >= b@.len() {
                a@.len()
            } else {
                b@.len()
            };
            &&& r is None <==> exists|i: int|
                0 <= i < rank && refuses(
                    #[trigger] place_from_right(a@, i),
                    place_from_right(b@, i),
                )
            &&& r matches Some(s) ==> s@.len() == rank && forall|i: int|
                0 <= i < rank ==> {
                    let x = place_from_right(a@, i);
                    let y = place_from_right(b@, i);
                    let z = #[trigger] place_from_right(s@, i);
                    &&& x == SymDimView::Fixed(1) ==> z == y
                    &&& y == SymDimView::Fixed(1) ==> z == x
                    &&& x == y ==> z == x
                    &&& x != SymDimView::Fixed(1) && y != SymDimView::Fixed(1) && x != y ==> z
                        == SymDimView::Dynamic
                }
        }),
{
    let rank = dynamic_shape::sym_joint_rank(a@, b@);
    if r is None {
        let i = choose|i: int|
            0 <= i < rank && #[trigger] dynamic_shape::joint_at(a@, b@, i) is None;
        assert(refuses(place_from_right(a@, i), place_from_right(b@, i)));
    } else {
        let s = r->0;
        assert forall|i: int| 0 <= i < rank implies {
            let x = place_from_right(a@, i);
            let y = place_from_right(b@, i);
            let z = #[trigger] place_from_right(s@, i);
            &&& x == SymDimView::Fixed(1) ==> z == y
            &&& y == SymDimView::Fixed(1) ==> z == x
            &&& x == y ==> z == x
            &&& x != SymDimView::Fixed(1) && y != SymDimView::Fixed(1) && x != y ==> z
                == SymDimView::Dynamic
        } by {
            assert(dynamic_shape::joint_at(a@, b@, i) is Some);
            assert(s@[rank - 1 - i] == dynamic_shape::joint_at(a@, b@, i)->0);
        }
        assert forall|i: int| 0 <= i < rank implies !refuses(
            #[trigger] place_from_right(a@, i),
            place_from_right(b@, i),
        ) by {
            assert(dynamic_shape::joint_at(a@, b@, i) is Some);
        }
    }
}

/// Two different known sizes, neither of them 1.
pub open spec fn refuses(x: SymDimView, y: SymDimView) -> bool {
    x is Fixed && y is Fixed && x != y && x != SymDimView::Fixed(1) && y != SymDimView::Fixed(1)
}

/// Bindings that are made of a list of pairs: a name is bound if and only if it
/// occurs, and to what stands with its last occurrence.
pub proof fn law_pairs_bind(pairs: Seq<(&str, usize)>, name: Seq<char>, i: int)
    requires
        0 <= i < pairs.len() ==> pairs[i].0@ == name && forall|j: int|
            i < j < pairs.len() ==> (#[trigger] pairs[j]).0@ != name,
        !(0 <= i < pairs.len()) ==> forall|j: int|
            0 <= j < pairs.len() ==> (#[trigger] pairs[j]).0@ != name,
    ensures
        ({
            let env: Bindings = dynamic_shape::pairs_map(pairs, pairs.len());
            &&& env.dom().contains(name) <==> 0 <= i < pairs.len()
            &&& 0 <= i < pairs.len() ==> env[name] == pairs[i].1
        }),
{
    lemma_pairs(pairs, name, i, pairs.len());
}

proof fn lemma_pairs(pairs: Seq<(&str, usize)>, name: Seq<char>, i: int, n: nat)
    requires
        n <= pairs.len(),
        0 <= i < pairs.len() ==> pairs[i].0@ == name && forall|j: int|
            i < j < pairs.len() ==> (#[trigger] pairs[j]).0@ != name,
        !(0 <= i < pairs.len()) ==> forall|j: int|
            0 <= j < pairs.len() ==> (#[trigger] pairs[j]).0@ != name,
    ensures
        ({
            let env: Bindings = dynamic_shape::pairs_map(pairs, n);
            &&& !(0 <= i < pairs.len()) ==> !env.dom().contains(name)
            &&& 0 <= i < n ==> env.dom().contains(name) && env[name] == pairs[i].1
        }),
    decreases n,
{
    if n > 0 {
        lemma_pairs(pairs, name, i, (n - 1) as nat);
        let last = pairs[n - 1];
        assert(last.0@ == pairs[n - 1].0@);
    }
}

/// A guard lets a shape pass if and only if it has the rank of the pattern and each
/// size matches its dimension.
pub proof fn law_guard_passes(guard: ShapeGuard, shape: Shape, env: ShapeEnv, r: Result<()>)
    requires
        call_ensures(ShapeGuard::validate, (&guard, &shape, &env), r),
    ensures
        r is Ok <==> {
            let p = guard.pattern_view();
            &&& p.len() == shape@.len()
            &&& forall|i: int|
                0 <= i < p.len() ==> match #[trigger] p[i] {
                    SymDimView::Fixed(n) => shape@[i] == n,
                    SymDimView::Symbolic(name) => env@.dom().contains(name) ==> shape@[i]
                        == env@[name],
                    SymDimView::Dynamic => true,
                }
        },
{
    let p = guard.pattern_view();
    if r is Ok {
        assert forall|i: int| 0 <= i < p.len() implies match #[trigger] p[i] {
            SymDimView::Fixed(n) => shape@[i] == n,
            SymDimView::Symbolic(name) => env@.dom().contains(name) ==> shape@[i] == env@[name],
            SymDimView::Dynamic => true,
        } by {
            assert(p[i].accepts(shape@[i], env@));
        }
    } else if p.len() == shape@.len() {
        let i = choose|i: int|
            0 <= i < shape@.len() && !#[trigger] p[i].accepts(shape@[i], env@);
        assert(p[i] == p[i]);
    }
}

} // verus!
