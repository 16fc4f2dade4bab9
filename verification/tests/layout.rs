use shrew_core::{Layout, Shape};

#[test]
fn test_contiguous_layout() {
    let layout = Layout::contiguous(Shape::from((2, 3)));
    assert!(layout.is_contiguous());
    assert_eq!(layout.strides(), &[3, 1]);
    assert_eq!(layout.offset(), 0);
}

#[test]
fn test_contiguous_indices() {
    // For [2, 3] contiguous, indices should be 0,1,2,3,4,5
    let layout = Layout::contiguous(Shape::from((2, 3)));
    let indices: Vec<usize> = layout.strided_indices().collect();
    assert_eq!(indices, vec![0, 1, 2, 3, 4, 5]);
}

#[test]
fn test_transpose_layout() {
    let layout = Layout::contiguous(Shape::from((2, 3)));
    let transposed = layout.transpose(0, 1).unwrap();
    // Shape becomes [3, 2], strides become [1, 3]
    assert_eq!(transposed.dims(), &[3, 2]);
    assert_eq!(transposed.strides(), &[1, 3]);
    assert!(!transposed.is_contiguous());
}

#[test]
fn test_transpose_indices() {
    // Original [2,3]:
    //   [[0, 1, 2],
    //    [3, 4, 5]]
    //
    // Transposed [3,2] should read column-major:
    //   [[0, 3],
    //    [1, 4],
    //    [2, 5]]
    //
    // So the flat indices in row-order of transposed are: 0, 3, 1, 4, 2, 5
    let layout = Layout::contiguous(Shape::from((2, 3)));
    let transposed = layout.transpose(0, 1).unwrap();
    let indices: Vec<usize> = transposed.strided_indices().collect();
    assert_eq!(indices, vec![0, 3, 1, 4, 2, 5]);
}

#[test]
fn test_narrow() {
    // [4, 6] narrow(dim=1, start=2, len=3) → [4, 3] with offset=2
    let layout = Layout::contiguous(Shape::from((4, 6)));
    let narrowed = layout.narrow(1, 2, 3).unwrap();
    assert_eq!(narrowed.dims(), &[4, 3]);
    assert_eq!(narrowed.offset(), 2);
    assert_eq!(narrowed.strides(), &[6, 1]); // strides unchanged
}

#[test]
fn test_narrow_out_of_bounds() {
    let layout = Layout::contiguous(Shape::from((4, 6)));
    assert!(layout.narrow(1, 5, 3).is_err()); // 5+3 = 8 > 6
}

#[test]
fn test_flat_index() {
    let layout = Layout::contiguous(Shape::from((2, 3, 4)));
    // Element at [1, 2, 3]: 1*12 + 2*4 + 3*1 = 23
    assert_eq!(layout.flat_index(&[1, 2, 3]), 23);
    // Element at [0, 0, 0]: 0
    assert_eq!(layout.flat_index(&[0, 0, 0]), 0);
}
