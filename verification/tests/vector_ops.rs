use nnet::float_vec::{FloatVec, ShapeMismatch};

fn vecf(xs: &[f32]) -> FloatVec<f32> {
    FloatVec::from_vec(xs.to_vec())
}

fn elems(v: &FloatVec<f32>) -> Vec<f32> {
    let mut out = Vec::new();
    let mut i = 0;
    while i < v.len() {
        out.push(v.get(i));
        i += 1;
    }
    out
}

#[test]
fn add_then_sub_restores_within_tolerance() {
    let a = vecf(&[1.5, 2.25, -3.5, 0.125]);
    let b = vecf(&[0.5, -1.25, 4.0, 100.0]);
    let sum = a.zip_with(&b, |x: f32, y: f32| x + y);
    let back = sum.zip_with(&b, |x: f32, y: f32| x - y);
    let av = elems(&a);
    let bv = elems(&back);
    assert_eq!(av.len(), bv.len());
    for i in 0..av.len() {
        assert!((av[i] - bv[i]).abs() <= 1e-5);
    }
}

#[test]
fn mismatched_lengths_report_both() {
    let a = vecf(&[1.0, 2.0]);
    let b = vecf(&[1.0, 2.0, 3.0]);
    let r = a.try_zip_with(&b, |x: f32, y: f32| x + y);
    assert_eq!(r.err(), Some(ShapeMismatch { left: 2, right: 3 }));
    let r2 = b.try_zip_with(&a, |x: f32, y: f32| x * y);
    assert_eq!(r2.err(), Some(ShapeMismatch { left: 3, right: 2 }));
}

#[test]
fn matched_lengths_succeed() {
    let a = vecf(&[1.0, 2.0]);
    let b = vecf(&[3.0, 4.0]);
    let r = a.try_zip_with(&b, |x: f32, y: f32| x * y).unwrap();
    assert_eq!(elems(&r), vec![3.0, 8.0]);
}

#[test]
fn dot_is_sum_of_products() {
    let a = vecf(&[1.0, 2.0, 3.0]);
    let b = vecf(&[4.0, 5.0, 6.0]);
    let d = a.dot(&b, |x: f32, y: f32| x * y, |x: f32, y: f32| x + y, 0.0);
    assert_eq!(d, 32.0);
}

#[test]
fn map_applies_elementwise() {
    let a = vecf(&[1.0, -2.0, 0.0]);
    let m = a.map(|x: f32| x * x);
    assert_eq!(elems(&m), vec![1.0, 4.0, 0.0]);
}

#[test]
fn all_builds_uniform_vector() {
    let v: FloatVec<f32> = FloatVec::all(0.25, 5);
    assert_eq!(v.len(), 5);
    assert_eq!(elems(&v), vec![0.25; 5]);
}

#[test]
fn map_with_scalar_broadcasts() {
    let a = vecf(&[1.0, 2.0, 3.0]);
    let m = a.map_with_scalar(2.0, |x: f32, s: f32| x * s);
    assert_eq!(elems(&m), vec![2.0, 4.0, 6.0]);
}

#[test]
fn set_and_get_roundtrip() {
    let mut v: FloatVec<f32> = FloatVec::all(0.0, 3);
    v.set(1, 7.5);
    assert_eq!(v.get(0), 0.0);
    assert_eq!(v.get(1), 7.5);
    assert_eq!(v.get(2), 0.0);
}

#[test]
fn exp_applies_exponential() {
    let a = vecf(&[0.0, 1.0]);
    let e = a.exp(|x: f32| x.exp());
    assert!((e.get(0) - 1.0).abs() < 1e-6);
    assert!((e.get(1) - std::f32::consts::E).abs() < 1e-6);
}
