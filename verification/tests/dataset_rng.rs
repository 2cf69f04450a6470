use nnet::dataset::{MnistDataset, MnistError};
use nnet::float_vec::FloatVec;
use nnet::rand::Rng;

fn be32(x: u32) -> [u8; 4] {
    x.to_be_bytes()
}

fn pixel(b: u8) -> f32 {
    b as f32 / 255.0
}

/// One 2-by-2 image per digit; the image of digit `d` holds the pixel bytes
/// `[10 d, 10 d + 1, 10 d + 2, 10 d + 3]`.
fn tiny_idx_files() -> (Vec<u8>, Vec<u8>) {
    let mut images: Vec<u8> = Vec::new();
    images.extend_from_slice(&be32(2051));
    images.extend_from_slice(&be32(10));
    images.extend_from_slice(&be32(2));
    images.extend_from_slice(&be32(2));
    for d in 0..10u8 {
        for p in 0..4u8 {
            images.push(d * 10 + p);
        }
    }
    let mut labels: Vec<u8> = Vec::new();
    labels.extend_from_slice(&be32(2049));
    labels.extend_from_slice(&be32(10));
    for d in 0..10u8 {
        labels.push(d);
    }
    (images, labels)
}

fn elems(v: &FloatVec<f32>) -> Vec<f32> {
    let mut out = Vec::new();
    let mut i = 0;
    while i < v.len() {
        out.push(v.get(i));
        i += 1;
    }
    out
}

fn load_tiny() -> MnistDataset<f32> {
    let (images, labels) = tiny_idx_files();
    MnistDataset::load(
        &images,
        &labels,
        &images,
        &labels,
        pixel as fn(u8) -> f32,
        0.0,
        1.0,
    )
    .unwrap()
}

#[test]
fn default_rng_draws_are_reproducible() {
    let mut rng = Rng::default();
    assert_eq!(rng.next(), 0x52c3_ada0);
    assert_eq!(rng.next(), 0xcace_a0b3);
    assert_eq!(rng.next(), 0x5dcc_c0ac);
    assert_eq!(rng.next(), 0x98a0_0c0b);
}

#[test]
fn load_counts_and_sizes() {
    let ds = load_tiny();
    assert_eq!(ds.train_set_len(), 10);
    assert_eq!(ds.test_set_len(), 10);
    assert_eq!(ds.image_size(), 4);
}

#[test]
fn labels_are_one_hot() {
    let ds = load_tiny();
    for d in 0..10usize {
        let label = elems(ds.digit_to_label(d));
        assert_eq!(label.len(), 10);
        for j in 0..10usize {
            assert_eq!(label[j], if j == d { 1.0 } else { 0.0 });
        }
    }
}

#[test]
fn test_set_is_flattened_in_digit_order() {
    let ds = load_tiny();
    let pairs = ds.test_set();
    assert_eq!(pairs.len(), 10);
    for d in 0..10usize {
        let (img, digit) = &pairs[d];
        assert_eq!(*digit, d);
        let expected: Vec<f32> = (0..4u8).map(|p| pixel(d as u8 * 10 + p)).collect();
        assert_eq!(elems(img), expected);
    }
}

#[test]
fn sample_batch_is_deterministic_and_consistent() {
    let ds = load_tiny();
    let mut rng_a = Rng::default();
    let mut rng_b = Rng::default();
    let batch_a = ds.sample_batch(&mut rng_a, 6);
    let batch_b = ds.sample_batch(&mut rng_b, 6);
    assert_eq!(batch_a.len(), 6);
    for k in 0..6usize {
        assert_eq!(elems(&batch_a[k].0), elems(&batch_b[k].0));
        assert_eq!(elems(&batch_a[k].1), elems(&batch_b[k].1));
        // The target is the one-hot vector of the digit whose image was drawn.
        let label = elems(&batch_a[k].1);
        let digit = label.iter().position(|&x| x == 1.0).unwrap();
        let expected: Vec<f32> = (0..4u8).map(|p| pixel(digit as u8 * 10 + p)).collect();
        assert_eq!(elems(&batch_a[k].0), expected);
    }
}

#[test]
fn wrong_magic_is_malformed() {
    let (mut images, labels) = tiny_idx_files();
    images[3] = 0;
    let r = MnistDataset::<f32>::load(
        &images,
        &labels,
        &images,
        &labels,
        pixel as fn(u8) -> f32,
        0.0,
        1.0,
    );
    assert_eq!(r.err(), Some(MnistError::Malformed));
}

#[test]
fn short_label_file_is_malformed() {
    let (images, mut labels) = tiny_idx_files();
    labels.truncate(labels.len() - 2);
    let r = MnistDataset::<f32>::load(
        &images,
        &labels,
        &images,
        &labels,
        pixel as fn(u8) -> f32,
        0.0,
        1.0,
    );
    assert_eq!(r.err(), Some(MnistError::Malformed));
}
