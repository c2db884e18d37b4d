use nominal::types::shape::strides_from_contiguous;
use nominal::types::tensor::{Store, Tensor};

fn matmul(st: &mut Store<f32>, a: &Tensor<f32>, b: &Tensor<f32>) -> Tensor<f32> {
    a.matmul(st, b, 0.0, |c: f32, x: f32, y: f32| c + x * y)
}

fn add(st: &mut Store<f32>, a: &Tensor<f32>, b: &Tensor<f32>) -> Tensor<f32> {
    a.zip_with(st, b, |x: f32, y: f32| x + y)
}

fn random(st: &mut Store<f32>, shape: &[usize]) -> Tensor<f32> {
    let n: usize = shape.iter().product();
    let data = (0..n).map(|_| rand::random_range(-1.0f32..1.0)).collect::<Vec<_>>();
    Tensor::new(st, shape, data)
}

/// Read every element of a 2D tensor in row-major order through `get`.
fn to_vec2(st: &Store<f32>, t: &Tensor<f32>) -> Vec<f32> {
    let [rows, cols] = t.shape() else {
        panic!("expected a 2D tensor, got shape {}", t.shape_pretty());
    };
    (0..*rows)
        .flat_map(|i| (0..*cols).map(move |j| t.get(st, [i, j])))
        .collect()
}

#[test]
fn test_contiguous_strides() {
    let strides = strides_from_contiguous([2, 3, 4, 1, 1]);
    assert_eq!(strides, [12, 4, 1, 1, 1]);
}

#[test]
fn test_access_at_index_returns_correct_data() {
    let mut st: Store<f32> = Store::new();
    let tensor = Tensor::new(&mut st, 
        &[3, 4],
        vec![0., 1.2, 4.1, 5.1, 1.1, 2.1, 9.1, 2.8, 4.3, 8.5, 2.2, -1.2],
    );
    assert_eq!(tensor.shape(), [3, 4]);
    assert_eq!(tensor.get(&st, [0, 0]), 0.);
    assert_eq!(tensor.get(&st, [1, 2]), 9.1);
    assert_eq!(tensor.get(&st, [1, 1]), 2.1);
    assert_eq!(tensor.get(&st, [2, 3]), -1.2);
}

#[test]
fn test_matmul() {
    let mut st: Store<f32> = Store::new();
    let a = Tensor::new(&mut st, &[2, 3], vec![1., 2., 3., 4., 5., 6.]);
    let b = Tensor::new(&mut st, &[3, 2], vec![7., 8., 9., 10., 11., 12.]);

    let result = matmul(&mut st, &a, &b);

    assert_eq!(result.shape(), [2, 2]);
    assert_eq!(result.get(&st, [0, 0]), 58.);
    assert_eq!(result.get(&st, [0, 1]), 64.);
    assert_eq!(result.get(&st, [1, 0]), 139.);
    assert_eq!(result.get(&st, [1, 1]), 154.);
}

#[test]
fn test_scalar_has_no_dims() {
    let mut st: Store<f32> = Store::new();
    let s = Tensor::scalar(&mut st, 3.0f32);
    assert_eq!(s.ndim(), 0);
    assert_eq!(s.shape(), [] as [usize; 0]);
    assert_eq!(s.shape_pretty(), "()");
}

#[test]
fn test_transpose_swaps_matrix_dims() {
    let mut st: Store<f32> = Store::new();
    let t = Tensor::zeros(&mut st, &[8, 1], 0.0f32).transpose(-2, -1);
    assert_eq!(t.shape(), [1, 8]);

    let t = Tensor::zeros(&mut st, &[2, 3, 4], 0.0f32).transpose(-2, -1);
    assert_eq!(t.shape(), [2, 4, 3]);

    let t = Tensor::zeros(&mut st, &[8], 0.0f32).transpose(-2, -1);
    assert_eq!(t.shape(), [8, 1]);

    let t = Tensor::scalar(&mut st, 1.0f32).transpose(-2, -1);
    assert_eq!(t.shape(), [1, 1]);
}

#[test]
fn test_unsqueeze() {
    let mut st: Store<f32> = Store::new();
    let v = Tensor::new(&mut st, &[3], vec![1., 2., 3.]);
    assert_eq!(v.shape(), [3]);

    let col = v.unsqueeze(-1);
    assert_eq!(col.shape(), [3, 1]);
    assert_eq!(col.get(&st, [2, 0]), 3.);

    let row = v.unsqueeze(0);
    assert_eq!(row.shape(), [1, 3]);
    assert_eq!(row.get(&st, [0, 2]), 3.);

    let t = Tensor::zeros(&mut st, &[2, 3], 0.0f32).unsqueeze(1);
    assert_eq!(t.shape(), [2, 1, 3]);
}

#[test]
fn test_squeeze() {
    let mut st: Store<f32> = Store::new();
    let t = Tensor::zeros(&mut st, &[2, 1, 3], 0.0f32).squeeze(1);
    assert_eq!(t.shape(), [2, 3]);

    let t = Tensor::zeros(&mut st, &[3, 1], 0.0f32).squeeze(-1);
    assert_eq!(t.shape(), [3]);

    let t = Tensor::zeros(&mut st, &[1], 0.0f32).squeeze(0);
    assert_eq!(t.ndim(), 0);
}

#[test]
fn test_squeeze_unsqueeze_roundtrip_keeps_data() {
    let mut st: Store<f32> = Store::new();
    let m = Tensor::new(&mut st, &[2, 2], vec![1., 2., 3., 4.]);
    let t = m.unsqueeze(1).squeeze(1);
    assert_eq!(t.shape(), [2, 2]);
    assert_eq!(t.get(&st, [1, 0]), 3.);
}

#[test]
fn test_matmul_matrix_by_column_vector() {
    let mut st: Store<f32> = Store::new();
    let w = Tensor::new(&mut st, &[2, 3], vec![1., 2., 3., 4., 5., 6.]);
    let x = Tensor::new(&mut st, &[3], vec![1., 0., -1.]).unsqueeze(-1);
    let y = matmul(&mut st, &w, &x);
    assert_eq!(y.shape(), [2, 1]);
    assert_eq!(y.get(&st, [0, 0]), -2.);
    assert_eq!(y.get(&st, [1, 0]), -2.);
}

#[test]
fn test_matmul_transposed_lhs() {
    let mut st: Store<f32> = Store::new();
    // a^T = [[1, 4], [2, 5], [3, 6]]
    let a = Tensor::new(&mut st, &[2, 3], vec![1., 2., 3., 4., 5., 6.]);
    let b = Tensor::new(&mut st, &[2, 2], vec![1., 0., 0., 1.]);

    let result = matmul(&mut st, &a.transpose(0, 1), &b);

    assert_eq!(result.shape(), [3, 2]);
    assert_eq!(to_vec2(&st, &result), [1., 4., 2., 5., 3., 6.]);
}

#[test]
fn test_matmul_transposed_rhs() {
    let mut st: Store<f32> = Store::new();
    // b^T = [[7, 9, 11], [8, 10, 12]]
    let a = Tensor::new(&mut st, &[2, 2], vec![1., 2., 3., 4.]);
    let b = Tensor::new(&mut st, &[3, 2], vec![7., 8., 9., 10., 11., 12.]);

    let result = matmul(&mut st, &a, &b.transpose(0, 1));

    assert_eq!(result.shape(), [2, 3]);
    assert_eq!(to_vec2(&st, &result), [23., 29., 35., 53., 67., 81.]);
}

#[test]
fn test_matmul_both_transposed() {
    let mut st: Store<f32> = Store::new();
    // (b^T a^T) = (a b)^T
    let a = Tensor::new(&mut st, &[2, 3], vec![1., 2., 3., 4., 5., 6.]);
    let b = Tensor::new(&mut st, &[3, 2], vec![7., 8., 9., 10., 11., 12.]);

    let result = matmul(&mut st, &b.transpose(0, 1), &a.transpose(0, 1));

    assert_eq!(result.shape(), [2, 2]);
    assert_eq!(to_vec2(&st, &result), [58., 139., 64., 154.]);
}

#[test]
fn test_matmul_views_match_contiguous_copies() {
    let mut st: Store<f32> = Store::new();
    let a = random(&mut st, &[4, 3]).transpose(0, 1);
    let b = random(&mut st, &[5, 4]).transpose(0, 1);
    assert!(!a.is_contiguous() && !b.is_contiguous());

    let from_views = matmul(&mut st, &a, &b);
    let ac = a.contiguous(&mut st);
    let bc = b.contiguous(&mut st);
    let from_copies = matmul(&mut st, &ac, &bc);

    assert_eq!(from_views.shape(), [3, 5]);
    assert_eq!(to_vec2(&st, &from_views), to_vec2(&st, &from_copies));
}

#[test]
fn test_matmul_output_is_contiguous() {
    let mut st: Store<f32> = Store::new();
    let a = random(&mut st, &[3, 2]).transpose(0, 1);
    let b = random(&mut st, &[4, 3]).transpose(0, 1);
    assert!(matmul(&mut st, &a, &b).is_contiguous());
}

#[test]
fn test_matmul_with_scalar() {
    let mut st: Store<f32> = Store::new();
    // Value::neg multiplies by a 0-D scalar, which matmul treats as 1x1
    let col = Tensor::new(&mut st, &[3], vec![1., -2., 3.]).unsqueeze(-1);

    let minus_one = Tensor::scalar(&mut st, -1.0);
    let result = matmul(&mut st, &col, &minus_one);

    assert_eq!(result.shape(), [3, 1]);
    assert_eq!(to_vec2(&st, &result), [-1., 2., -3.]);
}

#[test]
fn test_matmul_backward_shapes() {
    let mut st: Store<f32> = Store::new();
    // out = a @ b; da = grad @ b^T, db = a^T @ grad
    let a = random(&mut st, &[1, 8]);
    let b = random(&mut st, &[8, 1]);
    let grad = Tensor::ones(&mut st, &[1, 1], 1.0f32);

    let bt = b.transpose(-2, -1);
    let at = a.transpose(-2, -1);
    let grad_a = matmul(&mut st, &grad, &bt);
    let grad_b = matmul(&mut st, &at, &grad);

    assert_eq!(grad_a.shape(), a.shape());
    assert_eq!(grad_b.shape(), b.shape());
}

#[test]
fn test_add() {
    let mut st: Store<f32> = Store::new();
    let a = Tensor::new(&mut st, &[2, 2], vec![1., 2., 3., 4.]);
    let b = Tensor::new(&mut st, &[2, 2], vec![10., 20., 30., 40.]);

    let result = add(&mut st, &a, &b);

    assert_eq!(result.shape(), [2, 2]);
    assert_eq!(to_vec2(&st, &result), [11., 22., 33., 44.]);
}

#[test]
fn test_add_transposed_lhs() {
    let mut st: Store<f32> = Store::new();
    let a = Tensor::new(&mut st, &[2, 3], vec![1., 2., 3., 4., 5., 6.]);
    let z = Tensor::zeros(&mut st, &[3, 2], 0.0f32);

    let result = add(&mut st, &a.transpose(0, 1), &z);

    assert_eq!(result.shape(), [3, 2]);
    assert_eq!(to_vec2(&st, &result), [1., 4., 2., 5., 3., 6.]);
}

#[test]
fn test_add_transposed_rhs() {
    let mut st: Store<f32> = Store::new();
    let a = Tensor::new(&mut st, &[2, 3], vec![1., 2., 3., 4., 5., 6.]);
    let z = Tensor::zeros(&mut st, &[3, 2], 0.0f32);

    let result = add(&mut st, &z, &a.transpose(0, 1));

    assert_eq!(to_vec2(&st, &result), [1., 4., 2., 5., 3., 6.]);
}

#[test]
fn test_add_both_transposed() {
    let mut st: Store<f32> = Store::new();
    let a = Tensor::new(&mut st, &[2, 3], vec![1., 2., 3., 4., 5., 6.]);
    let b = Tensor::new(&mut st, &[2, 3], vec![10., 20., 30., 40., 50., 60.]);

    let result = add(&mut st, &a.transpose(0, 1), &b.transpose(0, 1));

    assert_eq!(to_vec2(&st, &result), [11., 44., 22., 55., 33., 66.]);
}

#[test]
fn test_add_output_is_contiguous() {
    let mut st: Store<f32> = Store::new();
    let a = random(&mut st, &[2, 3]).transpose(0, 1);
    let b = random(&mut st, &[3, 2]);
    assert!(add(&mut st, &a, &b).is_contiguous());
    assert!(add(&mut st, &b, &a).is_contiguous());
}

#[test]
fn test_add_scalar_to_1x1_keeps_larger_ndim() {
    let mut st: Store<f32> = Store::new();
    let one = Tensor::ones(&mut st, &[1, 1], 1.0f32);
    let two = Tensor::scalar(&mut st, 2.0);
    let result = add(&mut st, &one, &two);
    assert_eq!(result.shape(), [1, 1]);
    assert_eq!(result.get(&st, [0, 0]), 3.);
}
