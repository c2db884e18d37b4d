use nominal::autograd::{backward, backward_node, ready_for_backward, zero_grad};
use nominal::types::node::Operation;
use nominal::types::tape::Tape;
use nominal::types::tensor::Tensor;
use nominal::types::value::Value;

fn plus(x: f32, y: f32) -> f32 {
    x + y
}

fn times(x: f32, y: f32) -> f32 {
    x * y
}

fn fused(c: f32, x: f32, y: f32) -> f32 {
    c + x * y
}

fn tanh_grad(t: f32, g: f32) -> f32 {
    (1.0 - t * t) * g
}

fn pow_grad(e: f32, x: f32, g: f32) -> f32 {
    x.powf(e - 1.0) * e * g
}

fn run_backward(tape: &mut Tape<f32>, root: usize) {
    backward(tape, root, 1.0, plus, times, fused, tanh_grad, pow_grad);
}

fn scalar_grad(tape: &Tape<f32>, v: Value) -> f32 {
    v.grad(tape).item(&tape.store)
}

fn leaf(tape: &mut Tape<f32>, shape: &[usize], data: Vec<f32>) -> Value {
    let t = Tensor::new(&mut tape.store, shape, data);
    tape.value(t)
}

fn close(a: f32, b: f32) -> bool {
    (a - b).abs() < 1e-4
}

/// A single neuron `tanh(x1 * w1 + x2 * w2 + b)`, with `tanh` written out as
/// `(e^2n - 1) / (e^2n + 1)`.
#[test]
fn test_backward_through_a_neuron() {
    let mut tape = Tape::new(0.0f32);
    let x1 = tape.scalar(2.0);
    let x2 = tape.scalar(0.0);
    let w1 = tape.scalar(-3.0);
    let w2 = tape.scalar(1.0);
    let b = tape.scalar(6.8813735870195432);

    let x1w1 = x1.mul(&mut tape, &w1, fused);
    let x2w2 = x2.mul(&mut tape, &w2, fused);
    let sum = x1w1.add(&mut tape, &x2w2, plus);
    let n = sum.add(&mut tape, &b, plus);

    let two = tape.scalar(2.0);
    let e = two.mul(&mut tape, &n, fused).exp(&mut tape, |x: f32| x.exp());
    let one = tape.scalar(1.0);
    let num = e.sub(&mut tape, &one, -1.0, fused, plus);
    let one_again = tape.scalar(1.0);
    let den = e.add(&mut tape, &one_again, plus);
    let o = num.div(&mut tape, &den, -1.0, |x: f32, e: f32| x.powf(e), fused);

    assert!(close(o.tensor(&tape).item(&tape.store), 0.70710677));
    run_backward(&mut tape, o.idx);

    assert!(close(scalar_grad(&tape, o), 1.0));
    assert!(close(scalar_grad(&tape, n), 0.5));
    assert!(close(scalar_grad(&tape, x1), -1.5));
    assert!(close(scalar_grad(&tape, w1), 1.0));
    assert!(close(scalar_grad(&tape, x2), 0.5));
    assert!(close(scalar_grad(&tape, w2), 0.0));
    assert!(close(scalar_grad(&tape, b), 0.5));
}

#[test]
fn test_backward_through_tanh() {
    let mut tape = Tape::new(0.0f32);
    let x = tape.scalar(0.5);
    let t = x.tanh(&mut tape, |v: f32| v.tanh());
    run_backward(&mut tape, t.idx);
    let expected = 1.0 - 0.5f32.tanh() * 0.5f32.tanh();
    assert!(close(scalar_grad(&tape, x), expected));
}

#[test]
fn test_backward_through_pow_and_exp() {
    let mut tape = Tape::new(0.0f32);
    let x = tape.scalar(3.0);
    let sq = x.pow(&mut tape, 2.0, |v: f32, e: f32| v.powf(e));
    assert_eq!(sq.tensor(&tape).item(&tape.store), 9.0);
    run_backward(&mut tape, sq.idx);
    assert!(close(scalar_grad(&tape, x), 6.0));

    let mut tape = Tape::new(0.0f32);
    let y = tape.scalar(1.0);
    let ey = y.exp(&mut tape, |v: f32| v.exp());
    run_backward(&mut tape, ey.idx);
    assert!(close(scalar_grad(&tape, y), 1.0f32.exp()));
}

#[test]
fn test_gradients_accumulate_over_uses() {
    // y = x + x, so dy/dx = 2
    let mut tape = Tape::new(0.0f32);
    let x = tape.scalar(4.0);
    let y = x.add(&mut tape, &x, plus);
    run_backward(&mut tape, y.idx);
    assert_eq!(scalar_grad(&tape, x), 2.0);
}

#[test]
fn test_backward_matmul_gradient_shapes() {
    let mut tape = Tape::new(0.0f32);
    let a = leaf(&mut tape, &[2, 3], vec![1., 2., 3., 4., 5., 6.]);
    let b = leaf(&mut tape, &[3, 1], vec![1., 0., -1.]);
    let c = a.mul(&mut tape, &b, fused);
    assert_eq!(c.tensor(&tape).shape(), [2, 1]);
    run_backward(&mut tape, c.idx);

    let ga = a.grad(&tape);
    let gb = b.grad(&tape);
    assert_eq!(ga.shape(), [2, 3]);
    assert_eq!(gb.shape(), [3, 1]);
    // da = ones(2, 1) @ bᵀ, db = aᵀ @ ones(2, 1)
    assert_eq!(ga.get(&tape.store, [0, 0]), 1.);
    assert_eq!(ga.get(&tape.store, [1, 2]), -1.);
    assert_eq!(gb.get(&tape.store, [0, 0]), 5.);
    assert_eq!(gb.get(&tape.store, [2, 0]), 9.);
}

#[test]
fn test_backward_node_on_a_leaf_changes_nothing() {
    let mut tape = Tape::new(0.0f32);
    let x = tape.scalar(1.5);
    backward_node(&mut tape, x.idx, plus, times, fused, tanh_grad, pow_grad);
    assert_eq!(scalar_grad(&tape, x), 0.0);
    assert!(matches!(tape.node(x.idx).op, Operation::Leaf));
}

#[test]
fn test_backward_node_of_a_sum_feeds_both_operands() {
    let mut tape = Tape::new(0.0f32);
    let x = tape.scalar(1.0);
    let y = tape.scalar(2.0);
    let s = x.add(&mut tape, &y, plus);
    let g = Tensor::scalar(&mut tape.store, 3.0);
    s.set_grad(&mut tape, g);
    backward_node(&mut tape, s.idx, plus, times, fused, tanh_grad, pow_grad);
    assert_eq!(scalar_grad(&tape, x), 3.0);
    assert_eq!(scalar_grad(&tape, y), 3.0);
}

#[test]
fn test_zero_grad_resets_every_gradient() {
    let mut tape = Tape::new(0.0f32);
    let x = leaf(&mut tape, &[2], vec![1., 2.]);
    let y = leaf(&mut tape, &[2], vec![3., 4.]);
    let s = x.add(&mut tape, &y, plus);
    run_backward(&mut tape, s.idx);
    assert_eq!(x.grad(&tape).get(&tape.store, [1]), 1.0);

    zero_grad(&mut tape);
    for v in [x, y, s] {
        let g = v.grad(&tape);
        assert_eq!(g.shape(), [2]);
        assert_eq!(g.get(&tape.store, [0]), 0.0);
        assert_eq!(g.get(&tape.store, [1]), 0.0);
    }
    assert_eq!(s.tensor(&tape).get(&tape.store, [1]), 6.0);
}

#[test]
fn test_tape_records_operands_before_results() {
    let mut tape = Tape::new(0.0f32);
    let x = tape.scalar(1.0);
    let y = tape.scalar(2.0);
    let s = x.add(&mut tape, &y, plus);
    let p = s.mul_f32(&mut tape, 3.0, fused);
    assert_eq!(tape.index(), 5);
    assert_eq!(tape.node(s.idx).deps, [0, 1]);
    assert_eq!(tape.node(p.idx).deps, [2, 3]);
    assert_eq!(p.tensor(&tape).item(&tape.store), 9.0);

    tape.truncate(3);
    assert_eq!(tape.index(), 3);
    tape.truncate(10);
    assert_eq!(tape.index(), 3);
}

#[test]
fn test_scalar_operations_record_a_leaf() {
    let mut tape = Tape::new(0.0f32);
    let x = tape.scalar(6.0);
    let a = x.add_f32(&mut tape, 1.0, plus);
    assert_eq!(a.tensor(&tape).item(&tape.store), 7.0);
    assert_eq!(a.idx, x.idx + 2);
    let s = x.sub_f32(&mut tape, 2.0, |v: f32| -v, plus);
    assert_eq!(s.tensor(&tape).item(&tape.store), 4.0);
    assert_eq!(tape.node(s.idx - 1).tensor.item(&tape.store), -2.0);
    let d = x.div_f32(&mut tape, 4.0, |v: f32| 1.0 / v, fused);
    assert_eq!(d.tensor(&tape).item(&tape.store), 1.5);
    let n = x.neg(&mut tape, -1.0, fused);
    assert_eq!(n.tensor(&tape).item(&tape.store), -6.0);
    let y = tape.scalar(2.0);
    let q = x.div(&mut tape, &y, -1.0, |v: f32, e: f32| v.powf(e), fused);
    assert_eq!(q.tensor(&tape).item(&tape.store), 3.0);
    let m = x.sub(&mut tape, &y, -1.0, fused, plus);
    assert_eq!(m.tensor(&tape).item(&tape.store), 4.0);
}

#[test]
fn test_set_tensor_replaces_only_the_tensor() {
    let mut tape = Tape::new(0.0f32);
    let x = tape.scalar(1.0);
    let g = Tensor::scalar(&mut tape.store, 5.0);
    x.set_grad(&mut tape, g);
    let t = Tensor::scalar(&mut tape.store, 2.0);
    x.set_tensor(&mut tape, t);
    assert_eq!(x.tensor(&tape).item(&tape.store), 2.0);
    assert_eq!(scalar_grad(&tape, x), 5.0);
}

#[test]
fn test_ready_for_backward_checks_the_dims() {
    let mut tape = Tape::new(0.0f32);
    let x = leaf(&mut tape, &[2], vec![1., 2.]);
    let y = leaf(&mut tape, &[2], vec![3., 4.]);
    let s = x.add(&mut tape, &y, plus);
    assert!(ready_for_backward(&tape, s.idx));
    assert!(!ready_for_backward(&tape, 10));
    // a gradient of the wrong shape on an operand makes the sum unready
    let g = Tensor::scalar(&mut tape.store, 0.0);
    y.set_grad(&mut tape, g);
    assert!(!ready_for_backward(&tape, s.idx));
}
