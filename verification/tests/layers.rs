use nnet::float_vec::FloatVec;
use nnet::linear::Linear;
use nnet::sigmoid::Sigmoid;

type Bin = fn(f32, f32) -> f32;

fn addf(a: f32, b: f32) -> f32 {
    a + b
}

fn mulf(a: f32, b: f32) -> f32 {
    a * b
}

fn subf(a: f32, b: f32) -> f32 {
    a - b
}

fn logistic(x: f32) -> f32 {
    1.0 / (1.0 + (-x).exp())
}

fn vecf(xs: &[f32]) -> FloatVec<f32> {
    FloatVec::from_vec(xs.to_vec())
}

fn elems(v: &FloatVec<f32>) -> Vec<f32> {
    let mut out = Vec::new();
    let mut i = 0;
    while i < v.len() {
        out.push(v.get(i));
        i += 1;
    }
    out
}

fn linear_2x3() -> Linear<f32> {
    Linear::from_params(
        3,
        vec![vecf(&[0.5, -0.25, 1.0]), vecf(&[2.0, 0.0, -1.5])],
        vecf(&[0.1, -0.2]),
    )
    .unwrap()
}

#[test]
fn zero_linear_maps_everything_to_zero() {
    let zero_layer = Linear::from_params(
        3,
        vec![vecf(&[0.0; 3]), vecf(&[0.0; 3])],
        vecf(&[0.0; 2]),
    )
    .unwrap();
    let out = zero_layer.forward(&vecf(&[4.25, -17.0, 3.0]), mulf as Bin, addf as Bin, 0.0);
    assert_eq!(elems(&out), vec![0.0, 0.0]);
}

#[test]
fn linear_forward_is_affine() {
    let layer = linear_2x3();
    let out = layer.forward(&vecf(&[1.0, 2.0, 3.0]), mulf as Bin, addf as Bin, 0.0);
    // 0.1 + (0.5 - 0.5 + 3.0) = 3.1 ; -0.2 + (2.0 + 0.0 - 4.5) = -2.7
    let o = elems(&out);
    assert!((o[0] - 3.1).abs() < 1e-6);
    assert!((o[1] - -2.7).abs() < 1e-6);
}

#[test]
fn linear_rejects_bad_shapes() {
    let r = Linear::<f32>::from_params(3, vec![vecf(&[0.0; 3])], vecf(&[0.0; 2]));
    assert!(r.is_err());
    let r2 = Linear::<f32>::from_params(3, vec![vecf(&[0.0; 2]), vecf(&[0.0; 3])], vecf(&[0.0; 2]));
    assert!(r2.is_err());
}

#[test]
fn linear_input_gradient_is_transpose_product() {
    let layer = linear_2x3();
    let g = layer.input_gradient(
        &vecf(&[0.0, 0.0, 0.0]),
        &vecf(&[1.0, 2.0]),
        mulf as Bin,
        addf as Bin,
        0.0,
    );
    // column sums: 0.5*1 + 2.0*2 = 4.5 ; -0.25*1 + 0.0*2 = -0.25 ; 1.0*1 + -1.5*2 = -2.0
    assert_eq!(elems(&g), vec![4.5, -0.25, -2.0]);
}

#[test]
fn linear_param_gradient_is_outer_product() {
    let layer = linear_2x3();
    let pg = layer.param_gradient(&vecf(&[1.0, 2.0, 3.0]), &vecf(&[2.0, -1.0]), mulf as Bin);
    assert_eq!(elems(&pg.weight_gradients[0]), vec![2.0, 4.0, 6.0]);
    assert_eq!(elems(&pg.weight_gradients[1]), vec![-1.0, -2.0, -3.0]);
    assert_eq!(elems(&pg.bias_gradient), vec![2.0, -1.0]);
}

#[test]
fn sigmoid_of_zero_is_one_half() {
    let out = Sigmoid.forward(&vecf(&[0.0; 4]), logistic as fn(f32) -> f32);
    assert_eq!(elems(&out), vec![0.5, 0.5, 0.5, 0.5]);
}

#[test]
fn sigmoid_input_gradient_uses_logistic_derivative() {
    let g = Sigmoid.input_gradient(
        &vecf(&[0.0, 0.0]),
        &vecf(&[1.0, 2.0]),
        logistic as fn(f32) -> f32,
        mulf as Bin,
        subf as Bin,
        1.0,
    );
    // sigmoid(0) = 0.5, derivative 0.25, times the output gradient
    assert_eq!(elems(&g), vec![0.25, 0.5]);
}
