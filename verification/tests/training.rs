use nnet::float_vec::FloatVec;
use nnet::layer::Layer;
use nnet::linear::Linear;
use nnet::model::Model;
use nnet::ops::Arith;
use nnet::sigmoid::Sigmoid;

type Bin = fn(f32, f32) -> f32;
type Un = fn(f32) -> f32;
type Cnt = fn(usize) -> f32;
type Ops = Arith<f32, Bin, Bin, Bin, Bin, Cnt, Un>;

fn f32_ops() -> Ops {
    Arith {
        zero: 0.0,
        one: 1.0,
        add: |a: f32, b: f32| a + b,
        sub: |a: f32, b: f32| a - b,
        mul: |a: f32, b: f32| a * b,
        divide: |a: f32, b: f32| a / b,
        count: |n: usize| n as f32,
        act: |x: f32| 1.0 / (1.0 + (-x).exp()),
    }
}

fn vecf(xs: &[f32]) -> FloatVec<f32> {
    FloatVec::from_vec(xs.to_vec())
}

fn elems(v: &FloatVec<f32>) -> Vec<f32> {
    let mut out = Vec::new();
    let mut i = 0;
    while i < v.len() {
        out.push(v.get(i));
        i += 1;
    }
    out
}

fn two_layer_model() -> Model<f32> {
    let lin = Linear::from_params(
        2,
        vec![vecf(&[0.5, -0.25]), vecf(&[1.0, 0.75])],
        vecf(&[0.1, -0.2]),
    )
    .unwrap();
    Model { layers: vec![Layer::Linear(lin), Layer::Activation(Sigmoid)] }
}

fn squared_error(pred: &FloatVec<f32>, target: &FloatVec<f32>) -> f32 {
    let p = elems(pred);
    let t = elems(target);
    let mut total = 0.0;
    for i in 0..p.len() {
        total += (p[i] - t[i]) * (p[i] - t[i]);
    }
    total
}

#[test]
fn fixed_model_produces_expected_output() {
    let model = two_layer_model();
    let out = model.forward(&vecf(&[1.0, 0.0]), f32_ops());
    let o = elems(&out);
    // logistic(0.5 * 1 + 0.1) and logistic(1.0 * 1 - 0.2)
    assert!((o[0] - 0.645_656_3).abs() < 1e-6);
    assert!((o[1] - 0.689_974_5).abs() < 1e-6);
}

#[test]
fn forward_is_pure() {
    let model = two_layer_model();
    let input = vecf(&[0.3, -0.7]);
    let a = model.forward(&input, f32_ops());
    let b = model.forward(&input, f32_ops());
    assert_eq!(elems(&a), elems(&b));
}

#[test]
fn zero_learning_rate_changes_nothing() {
    let mut model = two_layer_model();
    let input = vecf(&[1.0, 0.0]);
    let before = elems(&model.forward(&input, f32_ops()));
    let batch = vec![
        (vecf(&[1.0, 0.0]), vecf(&[1.0, 0.0])),
        (vecf(&[0.0, 1.0]), vecf(&[0.0, 1.0])),
        (vecf(&[0.5, 0.5]), vecf(&[1.0, 1.0])),
    ];
    model.train_step(&batch, 0.0, f32_ops());
    let after = elems(&model.forward(&input, f32_ops()));
    assert_eq!(before, after);
}

#[test]
fn repeated_steps_decrease_error() {
    let mut model = two_layer_model();
    let input = vecf(&[1.0, 0.0]);
    let target = vecf(&[1.0, 0.0]);
    let batch = vec![(input.clone(), target.clone())];
    let mut last = squared_error(&model.forward(&input, f32_ops()), &target);
    for _ in 0..10 {
        model.train_step(&batch, 0.1, f32_ops());
        let err = squared_error(&model.forward(&input, f32_ops()), &target);
        assert!(err < last);
        last = err;
    }
}

#[test]
fn permuted_batch_gives_identical_parameters() {
    let batch_a = vec![
        (vecf(&[1.0, 0.0]), vecf(&[1.0, 0.0])),
        (vecf(&[0.0, 1.0]), vecf(&[0.0, 1.0])),
    ];
    let batch_b = vec![
        (vecf(&[0.0, 1.0]), vecf(&[0.0, 1.0])),
        (vecf(&[1.0, 0.0]), vecf(&[1.0, 0.0])),
    ];
    let mut model_a = two_layer_model();
    let mut model_b = two_layer_model();
    model_a.train_step(&batch_a, 0.25, f32_ops());
    model_b.train_step(&batch_b, 0.25, f32_ops());
    let probes = [[1.0, 0.0], [0.0, 1.0], [0.3, -0.9]];
    for p in probes.iter() {
        let oa = elems(&model_a.forward(&vecf(p), f32_ops()));
        let ob = elems(&model_b.forward(&vecf(p), f32_ops()));
        assert_eq!(oa, ob);
    }
}

#[test]
fn train_step_matches_manual_update() {
    // One linear layer, one example: the update must be
    // w' = w - lr * (prediction - target) * input, b' = b - lr * (prediction - target).
    let lin = Linear::from_params(1, vec![vecf(&[2.0])], vecf(&[0.0])).unwrap();
    let mut model = Model { layers: vec![Layer::Linear(lin)] };
    let batch = vec![(vecf(&[1.0]), vecf(&[1.0]))];
    // prediction = 2.0, gradient = 1.0, so w' = 2.0 - 0.5 = 1.5, b' = -0.5
    model.train_step(&batch, 0.5, f32_ops());
    let out = elems(&model.forward(&vecf(&[1.0]), f32_ops()));
    assert!((out[0] - 1.0).abs() < 1e-6);
}
