use nnet::codec::DecodeError;
use nnet::float_vec::FloatVec;
use nnet::layer::Layer;
use nnet::linear::Linear;
use nnet::model::{load_checkpoint, save_checkpoint, Model};
use nnet::ops::Arith;
use nnet::sigmoid::Sigmoid;

type Bin = fn(f32, f32) -> f32;
type Un = fn(f32) -> f32;
type Cnt = fn(usize) -> f32;
type Ops = Arith<f32, Bin, Bin, Bin, Bin, Cnt, Un>;

fn ops_f32() -> Ops {
    Arith {
        zero: 0.0,
        one: 1.0,
        add: |a: f32, b: f32| a + b,
        sub: |a: f32, b: f32| a - b,
        mul: |a: f32, b: f32| a * b,
        divide: |a: f32, b: f32| a / b,
        count: |n: usize| n as f32,
        act: |x: f32| 1.0 / (1.0 + (-x).exp()),
    }
}

fn enc(x: f32) -> u32 {
    x.to_bits()
}

fn dec(b: u32) -> f32 {
    f32::from_bits(b)
}

fn vecf(xs: &[f32]) -> FloatVec<f32> {
    FloatVec::from_vec(xs.to_vec())
}

fn elems(v: &FloatVec<f32>) -> Vec<f32> {
    let mut out = Vec::new();
    let mut i = 0;
    while i < v.len() {
        out.push(v.get(i));
        i += 1;
    }
    out
}

fn sample_layer() -> Linear<f32> {
    Linear::from_params(
        3,
        vec![vecf(&[0.5, -0.25, 1.0]), vecf(&[2.0, 0.0, -1.5])],
        vecf(&[0.1, -0.2]),
    )
    .unwrap()
}

#[test]
fn linear_roundtrip_reproduces_forward_bits() {
    let layer = sample_layer();
    let mut buffer: Vec<u8> = Vec::new();
    layer.serialize(&mut buffer, enc as fn(f32) -> u32);
    let (restored, end) = Linear::<f32>::deserialize(&buffer, 0, dec as fn(u32) -> f32).unwrap();
    assert_eq!(end, buffer.len());
    let input = vecf(&[0.75, -1.5, 2.25]);
    let a = layer.forward(&input, |x: f32, y: f32| x * y, |x: f32, y: f32| x + y, 0.0);
    let b = restored.forward(&input, |x: f32, y: f32| x * y, |x: f32, y: f32| x + y, 0.0);
    let av = elems(&a);
    let bv = elems(&b);
    for i in 0..av.len() {
        assert_eq!(av[i].to_bits(), bv[i].to_bits());
    }
}

#[test]
fn linear_frame_matches_bincode_layout() {
    // The frame must be byte-identical to the classic little-endian
    // fixed-width encoding of (inputs, weights, biases).
    let layer = sample_layer();
    let mut buffer: Vec<u8> = Vec::new();
    layer.serialize(&mut buffer, enc as fn(f32) -> u32);
    let mirror: (u64, Vec<Vec<f32>>, Vec<f32>) = (
        3,
        vec![vec![0.5, -0.25, 1.0], vec![2.0, 0.0, -1.5]],
        vec![0.1, -0.2],
    );
    let expected = bincode::serialize(&mirror).unwrap();
    assert_eq!(buffer, expected);
}

#[test]
fn truncated_frame_is_rejected() {
    let layer = sample_layer();
    let mut buffer: Vec<u8> = Vec::new();
    layer.serialize(&mut buffer, enc as fn(f32) -> u32);
    buffer.truncate(buffer.len() - 1);
    let r = Linear::<f32>::deserialize(&buffer, 0, dec as fn(u32) -> f32);
    assert_eq!(r.err(), Some(DecodeError::Truncated));
}

#[test]
fn inconsistent_shapes_are_rejected() {
    // inputs = 2, one weight row of length 1, one bias: row length disagrees.
    let mut bytes: Vec<u8> = Vec::new();
    bytes.extend_from_slice(&2u64.to_le_bytes());
    bytes.extend_from_slice(&1u64.to_le_bytes());
    bytes.extend_from_slice(&1u64.to_le_bytes());
    bytes.extend_from_slice(&1.0f32.to_bits().to_le_bytes());
    bytes.extend_from_slice(&1u64.to_le_bytes());
    bytes.extend_from_slice(&2.0f32.to_bits().to_le_bytes());
    let r = Linear::<f32>::deserialize(&bytes, 0, dec as fn(u32) -> f32);
    assert_eq!(r.err(), Some(DecodeError::Corrupt));
}

#[test]
fn checkpoint_roundtrip_restores_model_and_epoch() {
    let model = Model {
        layers: vec![Layer::Linear(sample_layer()), Layer::Activation(Sigmoid)],
    };
    let bytes = save_checkpoint(&model, 17, enc as fn(f32) -> u32);
    let mut fresh = Model {
        layers: vec![
            Layer::Linear(
                Linear::from_params(
                    3,
                    vec![vecf(&[0.0; 3]), vecf(&[0.0; 3])],
                    vecf(&[0.0; 2]),
                )
                .unwrap(),
            ),
            Layer::Activation(Sigmoid),
        ],
    };
    let epoch = load_checkpoint(&mut fresh, &bytes, dec as fn(u32) -> f32).unwrap();
    assert_eq!(epoch, 17);
    let input = vecf(&[1.0, 2.0, 3.0]);
    let a = elems(&model.forward(&input, ops_f32()));
    let b = elems(&fresh.forward(&input, ops_f32()));
    assert_eq!(a, b);
}

#[test]
fn mismatched_configuration_is_rejected() {
    let model = Model { layers: vec![Layer::Linear(sample_layer())] };
    let bytes = save_checkpoint(&model, 1, enc as fn(f32) -> u32);
    // A live model with a different layer configuration must refuse the load.
    let mut other = Model {
        layers: vec![
            Layer::Linear(Linear::from_params(2, vec![vecf(&[0.0; 2])], vecf(&[0.0])).unwrap()),
        ],
    };
    let r = load_checkpoint(&mut other, &bytes, dec as fn(u32) -> f32);
    assert_eq!(r.err(), Some(DecodeError::Corrupt));
}
