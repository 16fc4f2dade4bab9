use shrew_core::conv::{
    avg_pool, avg_pool_grad, conv_bias_grad, conv_forward, conv_input_grad, conv_weight_grad,
    max_pool, max_pool_grad,
};
use shrew_core::gradients::{
    clamp_grad, extremum_grad, gather_grad, mask_gradient, narrow_grad, positions_after_reduction,
    repeat_gradient, select_grad, signs, sizes_multiplied, steps, whole_extremum_grad,
};
use shrew_core::kernels::{col2im, gemm, gemm_a_bt, gemm_at_b, im2col, zero_vec, Window};
use shrew_core::sorting::{lay_out, sort_items, sort_lanes};
use shrew_core::Shape;

/// A 2x2 window on a 3x3 image.
fn window() -> Window {
    Window {
        planes: 1,
        h: 3,
        w: 3,
        kh: 2,
        kw: 2,
        sh: 1,
        sw: 1,
        ph: 0,
        pw: 0,
        h_out: 2,
        w_out: 2,
    }
}

/// The same window with a border and a stride of 2.
fn wide_window() -> Window {
    Window { sh: 2, sw: 2, ph: 1, pw: 1, ..window() }
}

#[test]
fn matrix_kernels_agree() {
    let a: Vec<i64> = vec![1, 2, 3, 4, 5, 6];
    let b: Vec<i64> = vec![7, 8, 9, 10, 11, 12];
    let mut c: Vec<i64> = zero_vec(4);
    gemm(&a, &b, &mut c, 2, 2, 3);
    assert_eq!(c, vec![58, 64, 139, 154]);
    // The same product, with the left factor stored transposed.
    let at: Vec<i64> = vec![1, 4, 2, 5, 3, 6];
    let mut d: Vec<i64> = zero_vec(4);
    gemm_at_b(&at, &b, &mut d, 2, 2, 3);
    assert_eq!(d, c);
    // And with the right factor stored transposed.
    let bt: Vec<i64> = vec![7, 9, 11, 8, 10, 12];
    let mut e: Vec<i64> = zero_vec(4);
    gemm_a_bt(&a, &bt, &mut e, 2, 2, 3);
    assert_eq!(e, c);
    // Products are added to what is there.
    gemm(&a, &b, &mut c, 2, 2, 3);
    assert_eq!(c, vec![116, 128, 278, 308]);
}

#[test]
fn columns_hold_what_each_tap_reads() {
    let image: Vec<i64> = (1..=9).collect();
    let g = window();
    let columns = im2col(&image, 0, &g);
    assert_eq!(columns, vec![1, 2, 4, 5, 2, 3, 5, 6, 4, 5, 7, 8, 5, 6, 8, 9]);
    let g = wide_window();
    let columns = im2col(&image, 0, &g);
    assert_eq!(columns, vec![0, 0, 0, 5, 0, 0, 4, 6, 0, 2, 0, 8, 1, 3, 7, 9]);
}

#[test]
fn columns_scatter_back_to_their_pixels() {
    let mut image: Vec<i64> = zero_vec(9);
    col2im(&vec![1i64; 16], &mut image, &window());
    assert_eq!(image, vec![1, 2, 1, 2, 4, 2, 1, 2, 1]);
}

#[test]
fn convolution_and_its_gradients() {
    let g = window();
    let input: Vec<i64> = (1..=18).collect();
    let weight: Vec<i64> = vec![1, 0, 0, 1, 0, 1, 1, 0];
    let bias: Option<Vec<i64>> = Some(vec![100, 200]);
    let out = conv_forward(&input, &weight, &bias, 2, 2, &g);
    assert_eq!(
        out,
        vec![106, 108, 112, 114, 206, 208, 212, 214, 124, 126, 130, 132, 224, 226, 230, 232]
    );
    let plain: Option<Vec<i64>> = None;
    assert_eq!(conv_forward(&input[..9], &weight[..4], &plain, 1, 1, &g), vec![6, 8, 12, 14]);
    let grad: Vec<i64> = vec![1, 0, 0, 0, 0, 0, 0, 1, 1, 1, 1, 1, 0, 0, 0, 0];
    assert_eq!(
        conv_weight_grad(&input, &grad, 2, 2, &g),
        vec![49, 54, 64, 69, 5, 6, 8, 9]
    );
    assert_eq!(
        conv_input_grad(&weight, &grad, 2, 2, &g),
        vec![1, 0, 0, 0, 1, 1, 0, 1, 0, 1, 1, 0, 1, 2, 1, 0, 1, 1]
    );
    assert_eq!(conv_bias_grad(&grad, 2, 2, 4), vec![5, 1]);
}

#[test]
fn pooling_and_its_gradients() {
    let g = window();
    let input: Vec<i64> = vec![1, 9, 2, 4, 5, 3, 8, 7, 6];
    let (top, at) = max_pool(&input, &g);
    assert_eq!((top, at.clone()), (vec![9, 9, 8, 7], vec![1, 1, 6, 7]));
    assert_eq!(max_pool_grad(&[1i64, 2, 3, 4], &at, 9), vec![0, 3, 0, 0, 0, 0, 3, 4, 0]);
    assert_eq!(avg_pool(&[4i64, 8, 0, 4, 0, 0, 0, 4, 8], &g), vec![4, 2, 2, 3]);
    // Whole numbers: a share of 1 / 1 or of 1 / more than 1, which is 0.
    assert_eq!(
        avg_pool_grad(&[5i64, 6, 7, 8], &wide_window()),
        vec![5, 0, 0, 0, 0, 0, 0, 0, 0]
    );
}

#[test]
fn the_first_of_equal_maxima_is_taken() {
    // A border, and ties within a window and across windows.
    let input: Vec<i64> = vec![-3, -7, -3, -7, -3, -9, -3, -9, -9];
    let (top, at) = max_pool(&input, &window());
    assert_eq!((top, at), (vec![-3, -3, -3, -3], vec![0, 2, 4, 4]));
    let (top, at) = max_pool(&input, &wide_window());
    assert_eq!((top, at), (vec![-3, -3, -3, -3], vec![0, 2, 6, 4]));
    // Nothing exceeds the lowest number: the position stays at the start.
    let (top, at) = max_pool(&[i64::MIN; 9], &window());
    assert_eq!((top, at), (vec![i64::MIN; 4], vec![0; 4]));
}

#[test]
fn extrema_of_lowest_numbers() {
    let low = [i64::MIN, i64::MIN, 5];
    let at = [0, 0, 1];
    assert_eq!(extremum_grad(&low, &[8i64, 8, 3], &at, 2, true), vec![4, 4, 3]);
    let high = [i64::MAX, i64::MAX, 5];
    assert_eq!(extremum_grad(&high, &[8i64, 8, 3], &at, 2, false), vec![4, 4, 3]);
}

#[test]
fn reductions_know_where_elements_go() {
    let shape = Shape::new(vec![2, 3]);
    assert_eq!(positions_after_reduction(&shape, &[1]), vec![0, 0, 0, 1, 1, 1]);
    assert_eq!(positions_after_reduction(&shape, &[0]), vec![0, 1, 2, 0, 1, 2]);
    assert_eq!(positions_after_reduction(&shape, &[0, 1]), vec![0; 6]);
    assert_eq!(repeat_gradient(&[7i64, 8], &[0, 1, 2, 1]), vec![7, 8, 0, 8]);
}

#[test]
fn extrema_share_their_gradient() {
    let vals: Vec<i64> = vec![4, 4, 1, 2, 3, 3];
    let grad: Vec<i64> = vec![10, 10, 10, 20, 20, 20];
    let at = vec![0, 0, 0, 1, 1, 1];
    assert_eq!(extremum_grad(&vals, &grad, &at, 2, true), vec![5, 5, 0, 0, 10, 10]);
    assert_eq!(extremum_grad(&vals, &grad, &at, 2, false), vec![0, 0, 10, 20, 0, 0]);
    assert_eq!(whole_extremum_grad(&vals, 12i64, true), vec![6, 6, 0, 0, 0, 0]);
    assert_eq!(whole_extremum_grad(&vals, 12i64, false), vec![0, 0, 12, 0, 0, 0]);
}

#[test]
fn slices_and_selections_scatter_back() {
    let shape = Shape::new(vec![2, 3]);
    let part = Shape::new(vec![2, 2]);
    assert_eq!(narrow_grad(&[1i64, 2, 3, 4], &shape, &part, 1, 1), vec![0, 1, 2, 0, 3, 4]);
    assert_eq!(
        gather_grad(&[1i64, 2, 3, 4], &[2, 2, 0, 1], &shape, &part, 1),
        Some(vec![0, 0, 3, 3, 4, 0])
    );
    assert_eq!(gather_grad(&[1i64, 2, 3, 4], &[2, 2, 0, 6], &shape, &part, 1), None);
    assert_eq!(
        select_grad(&[1i64, 2, 3, 4], &[2, 2], &shape, &part, 1),
        Some(vec![0, 0, 3, 0, 0, 7])
    );
    assert_eq!(select_grad(&[1i64, 2, 3, 4], &[2], &shape, &part, 1), None);
}

#[test]
fn masks_and_bounds() {
    assert_eq!(clamp_grad(&[0i64, 1, 2, 3], &[5, 6, 7, 8], 0, 3), vec![0, 6, 7, 0]);
    assert_eq!(mask_gradient(&[1i64, 0, 2], &[5, 6, 7], true), vec![5, 0, 7]);
    assert_eq!(mask_gradient(&[1i64, 0, 2], &[5, 6, 7], false), vec![0, 6, 0]);
    assert_eq!(signs(&[-3i64, 0, 9]), vec![-1, 0, 1]);
    assert_eq!(steps(&[-3i64, 0, 9]), vec![0, 0, 1]);
    assert_eq!(sizes_multiplied::<i64>(&[2, 3, 4], &[0, 2]), 8);
}

#[test]
fn sorting_is_stable() {
    let items: Vec<(i64, usize)> = vec![(3, 0), (1, 1), (3, 2), (2, 3)];
    assert_eq!(sort_items(&items, false), vec![(1, 1), (2, 3), (3, 0), (3, 2)]);
    assert_eq!(sort_items(&items, true), vec![(3, 0), (3, 2), (2, 3), (1, 1)]);
    let lanes = sort_lanes(&[3i64, 9, 1, 8, 2, 7], 1, 3, 2, false);
    assert_eq!(lanes, vec![vec![(1, 1), (2, 2), (3, 0)], vec![(7, 2), (8, 1), (9, 0)]]);
    assert_eq!(lay_out(&lanes, 1, 2, 2), (vec![1, 7, 2, 8], vec![1, 2, 2, 1]));
}

fn pairing(a: &[i64], b: &[i64]) -> i64 {
    assert_eq!(a.len(), b.len());
    a.iter().zip(b).map(|(x, y)| x * y).sum()
}

#[test]
fn gradients_of_convolutions_are_adjoint() {
    for g in [window(), wide_window()] {
        let stops = g.h_out * g.w_out;
        let (n, c_out) = (2, 2);
        let list = |len: usize, a: i64, b: i64| -> Vec<i64> {
            (0..len as i64).map(|i| (a * i + b) % 7 - 3).collect()
        };
        let x = list(n * g.planes * g.h * g.w, 5, 1);
        let w = list(c_out * g.planes * g.kh * g.kw, 3, 2);
        let grad = list(n * c_out * stops, 4, 5);
        let y = conv_forward(&x, &w, &None, n, c_out, &g);
        let gw = conv_weight_grad(&x, &grad, n, c_out, &g);
        let gx = conv_input_grad(&w, &grad, n, c_out, &g);
        assert_eq!(pairing(&grad, &y), pairing(&w, &gw));
        assert_eq!(pairing(&grad, &y), pairing(&x, &gx));
    }
}
