use shrew_core::{Shape, ShapeEnv, ShapeGuard, SymDim, SymbolicShape};

#[test]
fn test_symdim_fixed() {
    let d = SymDim::fixed(32);
    assert!(d.is_fixed());
    assert!(!d.is_symbolic());
    assert!(!d.is_dynamic());
    assert_eq!(d.resolve(&ShapeEnv::new()), Some(32));
    assert_eq!(d.to_string(), "32");
}

#[test]
fn test_symdim_symbolic_bound() {
    let d = SymDim::symbolic("Batch");
    let mut env = ShapeEnv::new();
    env.bind("Batch", 64);

    assert!(d.is_symbolic());
    assert_eq!(d.resolve(&env), Some(64));
    assert!(d.matches(64, &env));
    assert!(!d.matches(32, &env));
}

#[test]
fn test_symdim_symbolic_unbound() {
    let d = SymDim::symbolic("SeqLen");
    let env = ShapeEnv::new();

    assert_eq!(d.resolve(&env), None);
    assert!(d.matches(100, &env)); // unbound matches anything
    assert!(d.matches(200, &env));
}

#[test]
fn test_symdim_dynamic() {
    let d = SymDim::dynamic();
    let env = ShapeEnv::new();
    assert!(d.is_dynamic());
    assert_eq!(d.resolve(&env), None);
    assert!(d.matches(999, &env));
}

#[test]
fn test_symdim_unify() {
    let d = SymDim::symbolic("N");
    let mut env = ShapeEnv::new();
    assert!(d.unify(42, &mut env));
    assert_eq!(env.get("N"), Some(42));
    // Same value: unify again succeeds
    assert!(d.unify(42, &mut env));
    // Different value: unify fails
    assert!(!d.unify(99, &mut env));
}

#[test]
fn test_symdim_from() {
    let d: SymDim = 32usize.into();
    assert_eq!(d, SymDim::Fixed(32));
    let d: SymDim = "Batch".into();
    assert_eq!(d, SymDim::Symbolic("Batch".to_string()));
}


#[test]
fn test_symbolic_shape_basic() {
    let s = SymbolicShape::new(vec![SymDim::symbolic("Batch"), SymDim::fixed(784)]);
    assert_eq!(s.rank(), 2);
    assert!(!s.is_concrete());
    assert!(s.has_symbolic());
    assert_eq!(s.symbolic_names(), vec!["Batch"]);
    assert_eq!(s.to_string(), "[Batch, 784]");
}

#[test]
fn test_symbolic_shape_resolve() {
    let s = SymbolicShape::new(vec![
        SymDim::symbolic("Batch"),
        SymDim::symbolic("SeqLen"),
        SymDim::fixed(768),
    ]);
    let mut env = ShapeEnv::new();
    env.bind("Batch", 32);
    env.bind("SeqLen", 128);

    let concrete = s.resolve(&env).unwrap();
    assert_eq!(concrete.dims(), &[32, 128, 768]);
}

#[test]
fn test_symbolic_shape_resolve_fails_unbound() {
    let s = SymbolicShape::new(vec![SymDim::symbolic("Batch"), SymDim::fixed(784)]);
    let env = ShapeEnv::new();
    assert!(s.resolve(&env).is_err());
}

#[test]
fn test_symbolic_shape_resolve_dynamic_fails() {
    let s = SymbolicShape::new(vec![SymDim::dynamic(), SymDim::fixed(784)]);
    let env = ShapeEnv::new();
    assert!(s.resolve(&env).is_err());
}

#[test]
fn test_symbolic_shape_resolve_with_default() {
    let s = SymbolicShape::new(vec![
        SymDim::dynamic(),
        SymDim::symbolic("N"),
        SymDim::fixed(768),
    ]);
    let mut env = ShapeEnv::new();
    env.bind("N", 100);
    let concrete = s.resolve_with_default(&env, 1);
    assert_eq!(concrete.dims(), &[1, 100, 768]);
}

#[test]
fn test_symbolic_shape_matches() {
    let s = SymbolicShape::new(vec![SymDim::symbolic("Batch"), SymDim::fixed(784)]);
    let mut env = ShapeEnv::new();
    env.bind("Batch", 32);

    assert!(s.matches(&Shape::new(vec![32, 784]), &env));
    assert!(!s.matches(&Shape::new(vec![32, 100]), &env)); // wrong feature dim
    assert!(!s.matches(&Shape::new(vec![64, 784]), &env)); // wrong batch
    assert!(!s.matches(&Shape::new(vec![32, 784, 1]), &env)); // wrong rank
}

#[test]
fn test_symbolic_shape_unify() {
    let s = SymbolicShape::new(vec![
        SymDim::symbolic("Batch"),
        SymDim::symbolic("SeqLen"),
        SymDim::fixed(768),
    ]);
    let shape = Shape::new(vec![16, 256, 768]);
    let mut env = ShapeEnv::new();

    assert!(s.unify(&shape, &mut env));
    assert_eq!(env.get("Batch"), Some(16));
    assert_eq!(env.get("SeqLen"), Some(256));
}

#[test]
fn test_symbolic_shape_unify_consistency() {
    // Same symbolic name used twice must have same value
    let s = SymbolicShape::new(vec![SymDim::symbolic("N"), SymDim::symbolic("N")]);

    let mut env1 = ShapeEnv::new();
    assert!(s.unify(&Shape::new(vec![32, 32]), &mut env1));
    assert_eq!(env1.get("N"), Some(32));

    let mut env2 = ShapeEnv::new();
    assert!(!s.unify(&Shape::new(vec![32, 64]), &mut env2)); // inconsistent
}

#[test]
fn test_symbolic_shape_unify_fixed_mismatch() {
    let s = SymbolicShape::new(vec![SymDim::symbolic("Batch"), SymDim::fixed(784)]);
    let mut env = ShapeEnv::new();
    assert!(!s.unify(&Shape::new(vec![32, 100]), &mut env)); // 100 != 784
}

#[test]
fn test_symbolic_shape_from_concrete() {
    let shape = Shape::new(vec![2, 3, 4]);
    let sym = SymbolicShape::from_shape(&shape);
    assert!(sym.is_concrete());
    assert!(!sym.has_symbolic());
    let resolved = sym.resolve(&ShapeEnv::new()).unwrap();
    assert_eq!(resolved.dims(), &[2, 3, 4]);
}

#[test]
fn test_symbolic_shape_broadcast() {
    let a = SymbolicShape::new(vec![SymDim::fixed(3), SymDim::fixed(1)]);
    let b = SymbolicShape::new(vec![SymDim::fixed(1), SymDim::fixed(4)]);
    let c = a.broadcast(&b).unwrap();
    assert_eq!(c.to_string(), "[3, 4]");
}

#[test]
fn test_symbolic_shape_broadcast_symbolic() {
    let a = SymbolicShape::new(vec![SymDim::symbolic("Batch"), SymDim::fixed(768)]);
    let b = SymbolicShape::new(vec![SymDim::fixed(1), SymDim::fixed(768)]);
    let c = a.broadcast(&b).unwrap();
    assert_eq!(c.to_string(), "[Batch, 768]");
}

#[test]
fn test_symbolic_shape_broadcast_incompatible() {
    let a = SymbolicShape::new(vec![SymDim::fixed(3)]);
    let b = SymbolicShape::new(vec![SymDim::fixed(4)]);
    assert!(a.broadcast(&b).is_none());
}

#[test]
fn test_symbolic_shape_broadcast_rank_extension() {
    let a = SymbolicShape::new(vec![SymDim::fixed(768)]);
    let b = SymbolicShape::new(vec![SymDim::symbolic("Batch"), SymDim::fixed(768)]);
    let c = a.broadcast(&b).unwrap();
    assert_eq!(c.rank(), 2);
    assert_eq!(c.to_string(), "[Batch, 768]");
}


#[test]
fn test_shape_env_basic() {
    let mut env = ShapeEnv::new();
    assert!(env.is_empty());
    env.bind("Batch", 32);
    assert_eq!(env.len(), 1);
    assert_eq!(env.get("Batch"), Some(32));
    assert!(env.is_bound("Batch"));
    assert!(!env.is_bound("SeqLen"));
}

#[test]
fn test_shape_env_merge() {
    let mut a = ShapeEnv::new();
    a.bind("Batch", 32);

    let mut b = ShapeEnv::new();
    b.bind("SeqLen", 128);
    b.bind("Batch", 32); // same value — ok

    a.merge(&b).unwrap();
    assert_eq!(a.get("Batch"), Some(32));
    assert_eq!(a.get("SeqLen"), Some(128));
}

#[test]
fn test_shape_env_merge_conflict() {
    let mut a = ShapeEnv::new();
    a.bind("Batch", 32);

    let mut b = ShapeEnv::new();
    b.bind("Batch", 64); // different value — conflict

    assert!(a.merge(&b).is_err());
}

#[test]
fn test_shape_env_from_slice() {
    let env = ShapeEnv::from([("Batch", 32), ("SeqLen", 128)].as_slice());
    assert_eq!(env.get("Batch"), Some(32));
    assert_eq!(env.get("SeqLen"), Some(128));
}


#[test]
fn test_shape_guard_validate() {
    let guard = ShapeGuard::new(
        "input",
        SymbolicShape::new(vec![SymDim::symbolic("Batch"), SymDim::fixed(784)]),
    );
    let mut env = ShapeEnv::new();
    env.bind("Batch", 32);

    assert!(guard.validate(&Shape::new(vec![32, 784]), &env).is_ok());
    assert!(guard.validate(&Shape::new(vec![32, 100]), &env).is_err());
    assert!(guard.validate(&Shape::new(vec![64, 784]), &env).is_err());
}

#[test]
fn test_shape_guard_validate_and_bind() {
    let guard = ShapeGuard::new(
        "input",
        SymbolicShape::new(vec![SymDim::symbolic("Batch"), SymDim::fixed(784)]),
    );
    let mut env = ShapeEnv::new();

    // First call: binds Batch=32
    guard
        .validate_and_bind(&Shape::new(vec![32, 784]), &mut env)
        .unwrap();
    assert_eq!(env.get("Batch"), Some(32));

    // Second call with same batch: ok
    guard
        .validate_and_bind(&Shape::new(vec![32, 784]), &mut env)
        .unwrap();

    // Third call with different batch: error
    assert!(guard
        .validate_and_bind(&Shape::new(vec![64, 784]), &mut env)
        .is_err());
}

#[test]
fn test_shape_guard_wrong_rank() {
    let guard = ShapeGuard::new(
        "x",
        SymbolicShape::new(vec![SymDim::dynamic(), SymDim::fixed(10)]),
    );
    let env = ShapeEnv::new();
    assert!(guard.validate(&Shape::new(vec![10]), &env).is_err());
    assert!(guard.validate(&Shape::new(vec![5, 10, 1]), &env).is_err());
}


#[test]
fn test_multi_tensor_batch_consistency() {
    // Verify that batch dimensions stay consistent across tensors
    let input_guard = ShapeGuard::new(
        "input",
        SymbolicShape::new(vec![SymDim::symbolic("Batch"), SymDim::fixed(784)]),
    );
    let target_guard = ShapeGuard::new(
        "target",
        SymbolicShape::new(vec![SymDim::symbolic("Batch"), SymDim::fixed(10)]),
    );

    let mut env = ShapeEnv::new();

    // Input has batch=32
    input_guard
        .validate_and_bind(&Shape::new(vec![32, 784]), &mut env)
        .unwrap();

    // Target must also have batch=32
    target_guard
        .validate_and_bind(&Shape::new(vec![32, 10]), &mut env)
        .unwrap();

    // Target with batch=16 would fail
    let mut env2 = env.clone();
    assert!(target_guard
        .validate_and_bind(&Shape::new(vec![16, 10]), &mut env2)
        .is_err());
}

#[test]
fn test_transformer_shape_pattern() {
    // A transformer model with batch, sequence, and hidden dimensions
    let pattern = SymbolicShape::new(vec![
        SymDim::symbolic("Batch"),
        SymDim::symbolic("SeqLen"),
        SymDim::fixed(768),
    ]);

    // Different batch sizes work
    let mut env1 = ShapeEnv::new();
    assert!(pattern.unify(&Shape::new(vec![1, 512, 768]), &mut env1));
    assert_eq!(env1.get("Batch"), Some(1));
    assert_eq!(env1.get("SeqLen"), Some(512));

    let mut env2 = ShapeEnv::new();
    assert!(pattern.unify(&Shape::new(vec![32, 128, 768]), &mut env2));
    assert_eq!(env2.get("Batch"), Some(32));
    assert_eq!(env2.get("SeqLen"), Some(128));

    // Wrong hidden dim fails
    let mut env3 = ShapeEnv::new();
    assert!(!pattern.unify(&Shape::new(vec![32, 128, 512]), &mut env3));
}
