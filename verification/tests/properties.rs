use nominal::topo::{add_edge, Graph};
use nominal::types::shape::{normalize_dim, padded_dims, MAX_DIMS};
use nominal::types::tensor::{Store, Tensor};

fn matmul(st: &mut Store<f32>, a: &Tensor<f32>, b: &Tensor<f32>) -> Tensor<f32> {
    a.matmul(st, b, 0.0, |c: f32, x: f32, y: f32| c + x * y)
}

fn elements(st: &Store<f32>, t: &Tensor<f32>) -> Vec<f32> {
    let [rows, cols] = t.shape() else {
        panic!("expected a 2D tensor, got shape {}", t.shape_pretty());
    };
    (0..*rows)
        .flat_map(|i| (0..*cols).map(move |j| t.get(st, [i, j])))
        .collect()
}

fn sample(st: &mut Store<f32>) -> Tensor<f32> {
    Tensor::new(st, &[2, 3], vec![1., 2., 3., 4., 5., 6.])
}

#[test]
fn test_transpose_moves_every_element() {
    let mut st: Store<f32> = Store::new();
    let a = sample(&mut st);
    let t = a.transpose(0, 1);
    for i in 0..2 {
        for j in 0..3 {
            assert_eq!(t.get(&st, [j, i]), a.get(&st, [i, j]));
        }
    }
}

#[test]
fn test_transpose_twice_restores_the_tensor() {
    let mut st: Store<f32> = Store::new();
    let a = sample(&mut st);
    let back = a.transpose(-2, -1).transpose(-2, -1);
    assert_eq!(back.shape(), [2, 3]);
    assert!(back.is_contiguous());
    assert_eq!(elements(&st, &back), elements(&st, &a));

    let v = Tensor::new(&mut st, &[3], vec![1., 2., 3.]);
    let back = v.transpose(0, 1).transpose(0, 1);
    assert_eq!(back.shape(), [1, 3]);
    assert_eq!(back.get(&st, [0, 2]), 3.);
}

#[test]
fn test_unsqueeze_then_squeeze_keeps_every_element() {
    let mut st: Store<f32> = Store::new();
    let a = sample(&mut st);
    for dim in [-3isize, -2, -1, 0, 1, 2] {
        let back = a.unsqueeze(dim).squeeze(dim);
        assert_eq!(back.shape(), [2, 3]);
        assert_eq!(elements(&st, &back), elements(&st, &a));
    }
}

#[test]
fn test_products_of_views_and_copies_agree() {
    let mut st: Store<f32> = Store::new();
    let a = sample(&mut st).transpose(0, 1);
    let b = Tensor::new(&mut st, &[4, 2], vec![1., -1., 0., 2., 3., 1., -2., 0.5]).transpose(0, 1);
    assert!(!a.is_contiguous() && !b.is_contiguous());
    let from_views = matmul(&mut st, &a, &b);
    let ac = a.contiguous(&mut st);
    let bc = b.contiguous(&mut st);
    let from_copies = matmul(&mut st, &ac, &bc);
    assert_eq!(from_views.shape(), [3, 4]);
    assert_eq!(elements(&st, &from_views), elements(&st, &from_copies));
    assert!(from_views.is_contiguous());
}

#[test]
fn test_a_write_is_seen_through_every_view() {
    let mut st: Store<f32> = Store::new();
    let a = Tensor::zeros(&mut st, &[1, 1, 1, 2, 3], 0.0f32);
    let copy = a.clone();
    let t = a.transpose(-2, -1);
    let c = a.contiguous(&mut st);
    a.set(&mut st, [0, 0, 0, 1, 2], 5.0);
    assert_eq!(a.get(&st, [0, 0, 0, 1, 2]), 5.0);
    assert_eq!(copy.get(&st, [0, 0, 0, 1, 2]), 5.0);
    assert_eq!(t.get(&st, [0, 0, 0, 2, 1]), 5.0);
    assert_eq!(c.get(&st, [0, 0, 0, 1, 2]), 5.0);
    assert_eq!(a.get(&st, [0, 0, 0, 0, 0]), 0.0);

    let u = Tensor::zeros(&mut st, &[1, 1, 1, 2, 1], 0.0f32);
    let sq = u.squeeze(-1).unsqueeze(0);
    u.set(&mut st, [0, 0, 0, 1, 0], 7.0);
    assert_eq!(sq.get(&st, [0, 0, 0, 0, 1]), 7.0);
}

#[test]
fn test_elementwise_results_are_contiguous() {
    let mut st: Store<f32> = Store::new();
    let a = sample(&mut st).transpose(0, 1);
    let b = Tensor::new(&mut st, &[3, 2], vec![1., 1., 1., 1., 1., 1.]);
    let s = a.zip_with(&mut st, &b, |x: f32, y: f32| x + y);
    assert!(s.is_contiguous());
    assert_eq!(elements(&st, &s), [2., 5., 3., 6., 4., 7.]);
    let m = a.map(&mut st, |x: f32| -x);
    assert!(m.is_contiguous());
    assert_eq!(elements(&st, &m), [-1., -4., -2., -5., -3., -6.]);
    let h = a.mul_elementwise(&mut st, &b, |x: f32, y: f32| x * y);
    assert_eq!(elements(&st, &h), [1., 4., 2., 5., 3., 6.]);
}

#[test]
fn test_storage_maps_keep_the_layout() {
    let mut st: Store<f32> = Store::new();
    let a = sample(&mut st).transpose(0, 1);
    let p = a.pow(&mut st, 2.0, |x: f32, e: f32| x.powf(e));
    assert!(!p.is_contiguous());
    assert_eq!(elements(&st, &p), [1., 16., 4., 25., 9., 36.]);
    let z = Tensor::scalar(&mut st, 0.0f32);
    let e = z.exp(&mut st, |x: f32| x.exp());
    assert_eq!(e.item(&st), 1.0);
    let four = Tensor::scalar(&mut st, 4.0f32);
    let r = four.powf(&mut st, 0.5, |x: f32, e: f32| x.powf(e));
    assert_eq!(r.item(&st), 2.0);
    let s = a.map_storage(&mut st, |x: f32| x + 1.0);
    assert_eq!(s.get(&st, [2, 1]), 7.);
}

#[test]
fn test_offsets_follow_the_layout() {
    let mut st: Store<f32> = Store::new();
    let a = sample(&mut st);
    let mut it = a.transpose(0, 1).offsets();
    assert_eq!(it.size_hint(), (6, Some(6)));
    let mut seen = Vec::new();
    while let Some(off) = it.next() {
        seen.push(off);
    }
    assert_eq!(seen, [0, 3, 1, 4, 2, 5]);
    assert_eq!(it.size_hint(), (0, Some(0)));
    assert_eq!(it.next(), None);

    let mut empty = Tensor::zeros(&mut st, &[2, 0], 0.0f32).offsets();
    assert_eq!(empty.next(), None);
}

#[test]
fn test_unravel_and_numel() {
    let mut st: Store<f32> = Store::new();
    let a = Tensor::zeros(&mut st, &[2, 3, 4], 0.0f32);
    assert_eq!(a.numel(), 24);
    assert_eq!(a.unravel(0), [0, 0, 0, 0, 0]);
    assert_eq!(a.unravel(23), [0, 0, 1, 2, 3]);
    assert_eq!(a.unravel(13), [0, 0, 1, 0, 1]);
    assert_eq!(a.ndim(), 3);
    assert_eq!(st.len(), 1);
}

#[test]
fn test_shape_pretty_lists_the_dims() {
    let mut st: Store<u8> = Store::new();
    assert_eq!(Tensor::new(&mut st, &[2, 3], vec![0; 6]).shape_pretty(), "(2,3)");
    assert_eq!(Tensor::zeros(&mut st, &[12, 1, 305], 0u8).shape_pretty(), "(12,1,305)");
    assert_eq!(Tensor::scalar(&mut st, 1u8).shape_pretty(), "()");
}

#[test]
fn test_fills_and_likes() {
    let mut st: Store<f32> = Store::new();
    let o = Tensor::ones(&mut st, &[2, 2], 1.0f32);
    assert_eq!(elements(&st, &o), [1., 1., 1., 1.]);
    let z = o.zeros_like(&mut st, 0.0);
    assert_eq!(z.shape(), [2, 2]);
    assert_eq!(elements(&st, &z), [0., 0., 0., 0.]);
    let t = sample(&mut st).transpose(0, 1);
    let l = t.ones_like(&mut st, 1.0);
    assert_eq!(l.shape(), [3, 2]);
    assert!(l.is_contiguous());
}

#[test]
fn test_dimension_helpers() {
    assert_eq!(normalize_dim(-1, 3), 2);
    assert_eq!(normalize_dim(0, 3), 0);
    assert_eq!(normalize_dim(-3, 3), 0);
    assert_eq!(normalize_dim(-1, 7), 6);
    assert_eq!(padded_dims(&[2, 3]), [1, 1, 1, 2, 3]);
    assert_eq!(padded_dims(&[]), [1; MAX_DIMS]);
}

#[test]
fn test_add_edge_leaves_the_graph() {
    let mut g: Graph<u32> = Graph::new();
    add_edge(&mut g, 1, 2);
    assert!(g.is_empty());
}
