use nominal::autograd::backward;
use nominal::nn::{Layer, Model, Params};
use nominal::types::tape::Tape;
use nominal::types::tensor::Tensor;

fn plus(x: f32, y: f32) -> f32 {
    x + y
}

fn fused(c: f32, x: f32, y: f32) -> f32 {
    c + x * y
}

fn filled(tape: &mut Tape<f32>, shape: &[usize], x: f32) -> Tensor<f32> {
    Tensor::ones(&mut tape.store, shape, x)
}

fn layer(tape: &mut Tape<f32>, n_out: usize, n_in: usize, b: f32, w: f32) -> Layer {
    let biases = filled(tape, &[n_out, 1], b);
    let weights = filled(tape, &[n_out, n_in], w);
    Layer::new(tape, n_out, n_in, biases, weights)
}

#[test]
fn test_layer_forward_is_tanh_of_affine_map() {
    let mut tape = Tape::new(0.0f32);
    let biases = Tensor::new(&mut tape.store, &[2, 1], vec![0.5, -0.5]);
    let weights = Tensor::new(&mut tape.store, &[2, 3], vec![1., 0., 0., 0., 1., 1.]);
    let layer = Layer::new(&mut tape, 2, 3, biases, weights);
    assert_eq!(layer.biases.idx, 0);
    assert_eq!(layer.weights.idx, 1);
    let xt = Tensor::new(&mut tape.store, &[3, 1], vec![0.25, 0.5, -1.0]);
    let x = tape.value(xt);
    let out = layer.forward(&mut tape, &x, plus, fused, |v: f32| v.tanh());
    assert_eq!(out.idx, 5);
    let t = out.tensor(&tape);
    assert_eq!(t.shape(), [2, 1]);
    assert!((t.get(&tape.store, [0, 0]) - 0.75f32.tanh()).abs() < 1e-6);
    assert!((t.get(&tape.store, [1, 0]) - (-1.0f32).tanh()).abs() < 1e-6);
}

#[test]
fn test_model_chains_layers_and_truncates_to_parameters() {
    let mut tape = Tape::new(0.0f32);
    let l1 = layer(&mut tape, 4, 3, 0.1, 0.2);
    let l2 = layer(&mut tape, 1, 4, 0.0, -0.3);
    let model = Model::new(&tape, vec![l1, l2]);
    assert_eq!(model.param_idx, 4);

    let params = model.params();
    let idxs: Vec<usize> = params.iter().map(|p| p.idx).collect();
    assert_eq!(idxs, [0, 1, 2, 3]);
    let lp = model.layers[1].params();
    assert_eq!(lp.iter().map(|p| p.idx).collect::<Vec<_>>(), [2, 3]);

    let xt = Tensor::new(&mut tape.store, &[3, 1], vec![1., 2., 3.]);
    let x = tape.value(xt);
    assert!(model.accepts(&tape, x));
    let wrong = tape.scalar(1.0);
    assert!(!model.accepts(&tape, wrong));
    let out = model.forward(&mut tape, x, plus, fused, |v: f32| v.tanh());
    assert_eq!(tape.index(), 6 + 6);
    assert_eq!(out.tensor(&tape).shape(), [1, 1]);
    let h = (0.1f32 + 0.2 * 6.0).tanh();
    let expected = (-0.3f32 * 4.0 * h).tanh();
    assert!((out.tensor(&tape).get(&tape.store, [0, 0]) - expected).abs() < 1e-6);

    backward(
        &mut tape,
        out.idx,
        1.0,
        plus,
        |a: f32, b: f32| a * b,
        fused,
        |t: f32, g: f32| (1.0 - t * t) * g,
        |e: f32, a: f32, g: f32| a.powf(e - 1.0) * e * g,
    );
    assert_ne!(params[3].grad(&tape).get(&tape.store, [0, 0]), 0.0);

    model.truncate(&mut tape);
    assert_eq!(tape.index(), 4);
    for p in &params {
        let g = p.grad(&tape);
        assert!((0..g.numel()).all(|k| {
            let idx = g.unravel(k);
            g.get(&tape.store, [idx[3], idx[4]]) == 0.0
        }));
    }
    assert_eq!(params[1].tensor(&tape).get(&tape.store, [3, 2]), 0.2);
}
