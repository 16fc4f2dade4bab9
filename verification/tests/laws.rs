use shrew_core::{Layout, Shape, ShapeEnv, SymDim, SymbolicShape};

fn shape(d: &[usize]) -> Shape {
    Shape::new(d.to_vec())
}

fn broadcast(a: &[usize], b: &[usize]) -> Option<Vec<usize>> {
    Shape::broadcast_shape(&shape(a), &shape(b)).ok().map(|s| s.dims().to_vec())
}

#[test]
fn broadcasting_examples() {
    assert_eq!(broadcast(&[3, 4], &[4]), Some(vec![3, 4]));
    assert_eq!(broadcast(&[2, 1], &[1, 3]), Some(vec![2, 3]));
    assert_eq!(broadcast(&[5, 3, 1], &[3, 4]), Some(vec![5, 3, 4]));
    assert_eq!(broadcast(&[3], &[4]), None);
    assert_eq!(broadcast(&[1], &[0]), Some(vec![0]));
}

#[test]
fn broadcasting_commutes_and_associates() {
    let shapes: Vec<Vec<usize>> =
        vec![vec![], vec![1], vec![3], vec![2, 1], vec![1, 3], vec![2, 3], vec![4, 1, 1], vec![5]];
    for a in &shapes {
        assert_eq!(broadcast(a, a), Some(a.clone()));
        assert_eq!(broadcast(a, &[]), Some(a.clone()));
        for b in &shapes {
            assert_eq!(broadcast(a, b), broadcast(b, a));
            for c in &shapes {
                let left = broadcast(a, b).and_then(|ab| broadcast(&ab, c));
                let right = broadcast(b, c).and_then(|bc| broadcast(a, &bc));
                assert_eq!(left, right);
            }
        }
    }
}

#[test]
fn broadcast_strides_repeat_elements() {
    assert_eq!(shape(&[3, 1]).broadcast_strides(&shape(&[2, 3, 4])), vec![0, 1, 0]);
    assert_eq!(shape(&[4]).broadcast_strides(&shape(&[3, 4])), vec![0, 1]);
    assert_eq!(shape(&[]).broadcast_strides(&shape(&[2])), vec![0]);
}

#[test]
fn empty_shapes_have_no_elements() {
    assert_eq!(shape(&[2, 0, 3]).elem_count(), 0);
    assert_eq!(shape(&[]).elem_count(), 1);
    assert!(Layout::contiguous(shape(&[2, 0])).strided_indices().collect().is_empty());
}

#[test]
fn transposing_twice_gives_the_layout_back() {
    let l = Layout::contiguous(shape(&[2, 3, 4]));
    let t = l.transpose(0, 2).unwrap();
    assert_eq!((t.dims(), t.strides()), (&[4, 3, 2][..], &[1, 4, 12][..]));
    let back = t.transpose(0, 2).unwrap();
    assert_eq!((back.dims(), back.strides(), back.offset()), (l.dims(), l.strides(), 0));
    assert_eq!(t.flat_index(&[3, 1, 0]), l.flat_index(&[0, 1, 3]));
}

#[test]
fn narrowing_composes() {
    let l = Layout::contiguous(shape(&[4, 6]));
    let once = l.narrow(1, 3, 2).unwrap();
    let twice = l.narrow(1, 1, 5).unwrap().narrow(1, 2, 2).unwrap();
    assert_eq!((once.dims(), once.offset()), (twice.dims(), twice.offset()));
    assert_eq!(once.flat_index(&[2, 1]), l.flat_index(&[2, 4]));
}

#[test]
fn contiguous_positions_are_all_different() {
    let l = Layout::contiguous(shape(&[2, 3, 4]));
    let positions = l.strided_indices().collect();
    assert_eq!(positions, (0..24).collect::<Vec<usize>>());
}

#[test]
fn steps_through_a_layout() {
    let l = Layout::contiguous(shape(&[2, 2])).transpose(0, 1).unwrap();
    let mut it = l.strided_indices();
    assert_eq!(it.len(), 4);
    assert_eq!(it.next(), Some(0));
    assert_eq!(it.next(), Some(2));
    assert_eq!(it.next(), Some(1));
    assert_eq!(it.next(), Some(3));
    assert_eq!(it.next(), None);
    assert_eq!(it.next(), None);
}

fn pattern() -> SymbolicShape {
    SymbolicShape::new(vec![SymDim::symbolic("B"), SymDim::fixed(4), SymDim::symbolic("B")])
}

#[test]
fn unifying_binds_once_and_then_resolves() {
    let p = pattern();
    let mut env = ShapeEnv::new();
    env.bind("Other", 9);
    assert!(p.unify(&shape(&[2, 4, 2]), &mut env));
    assert_eq!((env.get("B"), env.get("Other"), env.len()), (Some(2), Some(9), 2));
    assert_eq!(p.resolve(&env).unwrap().dims(), &[2, 4, 2]);
    assert!(p.matches(&shape(&[2, 4, 2]), &env));
    assert!(!p.matches(&shape(&[3, 4, 3]), &env));
    assert!(p.unify(&shape(&[2, 4, 2]), &mut env));
    assert_eq!(env.len(), 2);
}

#[test]
fn failed_unification_is_reported() {
    let mut env = ShapeEnv::new();
    assert!(!pattern().unify(&shape(&[2, 4, 3]), &mut env));
    assert!(!pattern().unify(&shape(&[2, 4]), &mut ShapeEnv::new()));
}

#[test]
fn fixed_patterns_resolve_to_their_shape() {
    let s = shape(&[3, 1, 2]);
    let p = SymbolicShape::from_shape(&s);
    assert!(p.is_concrete() && !p.has_symbolic());
    assert_eq!(p.resolve(&ShapeEnv::new()).unwrap().dims(), s.dims());
}

#[test]
fn symbolic_broadcasting_agrees_with_concrete_shapes() {
    let a = SymbolicShape::from_shape(&shape(&[5, 3, 1]));
    let b = SymbolicShape::from_shape(&shape(&[3, 4]));
    let c = a.broadcast(&b).unwrap();
    assert_eq!(c.resolve(&ShapeEnv::new()).unwrap().dims(), &[5, 3, 4]);
    let d = SymbolicShape::from_shape(&shape(&[2]));
    let e = SymbolicShape::from_shape(&shape(&[3]));
    assert!(d.broadcast(&e).is_none());
}

#[test]
fn merging_commutes() {
    let mut a = ShapeEnv::new();
    a.bind("X", 1);
    a.bind("Y", 2);
    let mut b = ShapeEnv::new();
    b.bind("Y", 2);
    b.bind("Z", 3);
    let mut ab = a.clone();
    ab.merge(&b).unwrap();
    let mut ba = b.clone();
    ba.merge(&a).unwrap();
    for name in ["X", "Y", "Z"] {
        assert_eq!(ab.get(name), ba.get(name));
    }
    assert_eq!((ab.len(), ba.len()), (3, 3));
    let mut c = ShapeEnv::new();
    c.bind("X", 7);
    assert!(a.clone().merge(&c).is_err());
    assert!(c.merge(&a).is_err());
}

#[test]
fn symbolic_broadcasting_commutes() {
    let patterns: Vec<Vec<SymDim>> = vec![
        vec![],
        vec![SymDim::fixed(1)],
        vec![SymDim::fixed(3)],
        vec![SymDim::symbolic("N")],
        vec![SymDim::symbolic("M"), SymDim::fixed(1)],
        vec![SymDim::dynamic(), SymDim::fixed(4)],
        vec![SymDim::symbolic("N"), SymDim::symbolic("N")],
    ];
    for p in &patterns {
        for q in &patterns {
            let a = SymbolicShape::new(p.clone());
            let b = SymbolicShape::new(q.clone());
            let text = |s: Option<SymbolicShape>| s.map(|s| s.to_string());
            assert_eq!(text(a.broadcast(&b)), text(b.broadcast(&a)));
        }
    }
}
