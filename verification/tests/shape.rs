use shrew_core::Shape;

#[test]
fn test_scalar_shape() {
    let s = Shape::from(());
    assert_eq!(s.rank(), 0);
    assert_eq!(s.elem_count(), 1);
    assert_eq!(s.stride_contiguous(), vec![]);
}

#[test]
fn test_vector_shape() {
    let s = Shape::from(5);
    assert_eq!(s.rank(), 1);
    assert_eq!(s.elem_count(), 5);
    assert_eq!(s.stride_contiguous(), vec![1]);
}

#[test]
fn test_matrix_shape() {
    let s = Shape::from((3, 4));
    assert_eq!(s.rank(), 2);
    assert_eq!(s.elem_count(), 12);
    // Row-major: stride for dim0 = 4, stride for dim1 = 1
    assert_eq!(s.stride_contiguous(), vec![4, 1]);
}

#[test]
fn test_3d_strides() {
    let s = Shape::from((2, 3, 4));
    // [2,3,4]: strides = [3*4, 4, 1] = [12, 4, 1]
    assert_eq!(s.stride_contiguous(), vec![12, 4, 1]);
    assert_eq!(s.elem_count(), 24);
}

#[test]
fn test_display() {
    let s = Shape::from((3, 4));
    assert_eq!(s.to_string(), "[3, 4]");
}
