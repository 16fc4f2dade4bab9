use shrew_core::DType;

#[test]
fn test_dtype_size() {
    assert_eq!(DType::F16.size_in_bytes(), 2);
    assert_eq!(DType::BF16.size_in_bytes(), 2);
    assert_eq!(DType::F32.size_in_bytes(), 4);
    assert_eq!(DType::F64.size_in_bytes(), 8);
    assert_eq!(DType::U8.size_in_bytes(), 1);
}

#[test]
fn test_dtype_is_half() {
    assert!(DType::F16.is_half());
    assert!(DType::BF16.is_half());
    assert!(!DType::F32.is_half());
    assert!(!DType::F64.is_half());
}

#[test]
fn floats_are_the_four_float_types() {
    assert!(DType::F16.is_float());
    assert!(DType::BF16.is_float());
    assert!(DType::F32.is_float());
    assert!(DType::F64.is_float());
    assert!(!DType::U8.is_float());
    assert!(!DType::U32.is_float());
    assert!(!DType::I64.is_float());
}
