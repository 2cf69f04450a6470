//! The MNIST dataset: binary IDX parsing, batch sampling, and labels.
//!
//! The two IDX files of one set — images and labels — are parsed from raw
//! bytes: big-endian magic numbers and counts, then fixed-size grayscale
//! images and one label byte per image. The images are grouped by digit,
//! each pixel carried to a scalar by the caller's conversion, and batches
//! are sampled with the deterministic generator, so which image lands where
//! is specified exactly.

use vstd::prelude::*;

use crate::float_vec::FloatVec;
use crate::ops::{un_ok, un_post};
use crate::rand::{rng_draw, rng_state_after, Rng};

verus! {

/// A dataset file pair does not have the expected IDX structure: a magic
/// number, count, or label is wrong, or the file is too short.
#[derive(Clone, Copy, Debug, PartialEq, Eq, Structural)]
pub enum MnistError {
    Malformed,
}

/// The big-endian 32-bit value at `pos`.
pub open spec fn u32_be_at(s: Seq<u8>, pos: int) -> u32 {
    ((s[pos] as u32) << 24) | ((s[pos + 1] as u32) << 16) | ((s[pos + 2] as u32) << 8) | (s[pos
        + 3] as u32)
}

/// The image count an IDX image file declares.
pub open spec fn idx_count(imgs: Seq<u8>) -> int {
    u32_be_at(imgs, 4) as int
}

/// The pixels-per-image an IDX image file declares: width times height.
pub open spec fn idx_image_size(imgs: Seq<u8>) -> int {
    (u32_be_at(imgs, 8) as int) * (u32_be_at(imgs, 12) as int)
}

/// The image/label file pair is well-formed: both magic numbers check out,
/// the counts agree, both files hold at least the declared data, the image
/// size fits the machine, and every label is a digit.
pub open spec fn mnist_ok(imgs: Seq<u8>, labs: Seq<u8>) -> bool {
    &&& imgs.len() >= 16
    &&& labs.len() >= 8
    &&& u32_be_at(imgs, 0) == 2051
    &&& u32_be_at(labs, 0) == 2049
    &&& u32_be_at(imgs, 4) == u32_be_at(labs, 4)
    &&& idx_image_size(imgs) <= usize::MAX
    &&& 16 + idx_count(imgs) * idx_image_size(imgs) <= imgs.len()
    &&& 8 + idx_count(imgs) <= labs.len()
    &&& forall|k: int| 0 <= k < idx_count(imgs) ==> #[trigger] labs[8 + k] < 10
}

/// The positions, in file order, of the images labelled `d` among the first
/// `k` images.
pub open spec fn label_indices(labs: Seq<u8>, k: int, d: u8) -> Seq<int>
    decreases k,
{
    if k <= 0 {
        Seq::empty()
    } else {
        if labs[8 + (k - 1)] == d {
            label_indices(labs, k - 1, d).push(k - 1)
        } else {
            label_indices(labs, k - 1, d)
        }
    }
}

/// `b` holds, in file order, a decoding of every image labelled `d`: one
/// scalar per pixel byte, by the caller's conversion.
pub open spec fn bucket_decodes<T, FPix: Fn(u8) -> T>(
    imgs: Seq<u8>,
    labs: Seq<u8>,
    f_pix: FPix,
    d: u8,
    b: Seq<Seq<T>>,
) -> bool {
    let idxs = label_indices(labs, idx_count(imgs), d);
    let size = idx_image_size(imgs);
    &&& b.len() == idxs.len()
    &&& forall|m: int| 0 <= m < b.len() ==> (#[trigger] b[m]).len() == size
    &&& forall|m: int, p: int|
        0 <= m < b.len() && 0 <= p < size ==> un_post(
            f_pix,
            imgs[16 + idxs[m] * size + p],
            #[trigger] b[m][p],
        )
}

/// Images of one set, grouped by digit, together with the one-hot target
/// vectors for the ten digits.
pub struct MnistDataset<T> {
    train_set: Vec<Vec<FloatVec<T>>>,
    test_set: Vec<Vec<FloatVec<T>>>,
    labels: Vec<FloatVec<T>>,
    train_count: usize,
    test_count: usize,
    image_size: usize,
}

impl<T> MnistDataset<T> {
    /// The training images, grouped by digit.
    pub closed spec fn train_buckets(&self) -> Seq<Seq<Seq<T>>> {
        self.train_set@.map_values(|b: Vec<FloatVec<T>>| b@.map_values(|v: FloatVec<T>| v@))
    }

    /// The held-out test images, grouped by digit.
    pub closed spec fn test_buckets(&self) -> Seq<Seq<Seq<T>>> {
        self.test_set@.map_values(|b: Vec<FloatVec<T>>| b@.map_values(|v: FloatVec<T>| v@))
    }

    /// The ten one-hot target vectors.
    pub closed spec fn labels_view(&self) -> Seq<Seq<T>> {
        self.labels@.map_values(|v: FloatVec<T>| v@)
    }

    /// The number of training images.
    pub closed spec fn spec_train_count(&self) -> usize {
        self.train_count
    }

    /// The number of test images.
    pub closed spec fn spec_test_count(&self) -> usize {
        self.test_count
    }

    /// The pixel count of every training image.
    pub closed spec fn spec_image_size(&self) -> usize {
        self.image_size
    }

    /// Shape invariant: ten buckets per set, ten targets of length ten, and
    /// every training image of the declared size.
    pub open spec fn wf(&self) -> bool {
        &&& self.train_buckets().len() == 10
        &&& self.test_buckets().len() == 10
        &&& self.labels_view().len() == 10
        &&& forall|d: int| 0 <= d < 10 ==> (#[trigger] self.labels_view()[d]).len() == 10
        &&& forall|d: int, m: int|
            0 <= d < 10 && 0 <= m < self.train_buckets()[d].len()
                ==> (#[trigger] self.train_buckets()[d][m]).len() == self.spec_image_size()
    }
}

/// The big-endian 32-bit value at `pos`.
fn read_u32_be(buf: &Vec<u8>, pos: usize) -> (r: u32)
    requires
        pos + 4 <= buf@.len(),
        buf@.len() <= usize::MAX,
    ensures
        r == u32_be_at(buf@, pos as int),
{
    ((buf[pos] as u32) << 24) | ((buf[pos + 1] as u32) << 16) | ((buf[pos + 2] as u32) << 8) | (
    buf[pos + 3] as u32)
}

/// Parse one image/label file pair and group its images by digit.
fn load_split<T: Copy, FPix: Fn(u8) -> T + Copy>(
    images: &Vec<u8>,
    labels: &Vec<u8>,
    f_pix: FPix,
) -> (r: Result<(Vec<Vec<FloatVec<T>>>, usize, usize), MnistError>)
    requires
        un_ok(f_pix),
    ensures
        match r {
            Ok((buckets, count, size)) => {
                &&& mnist_ok(images@, labels@)
                &&& count == idx_count(images@)
                &&& size == idx_image_size(images@)
                &&& buckets@.len() == 10
                &&& forall|d: int|
                    0 <= d < 10 ==> bucket_decodes(
                        images@,
                        labels@,
                        f_pix,
                        d as u8,
                        (#[trigger] buckets@[d])@.map_values(|v: FloatVec<T>| v@),
                    )
            },
            Err(e) => !mnist_ok(images@, labels@) && e == MnistError::Malformed,
        },
{
    if images.len() < 16 || labels.len() < 8 {
        return Err(MnistError::Malformed);
    }
    if read_u32_be(images, 0) != 2051 || read_u32_be(labels, 0) != 2049 {
        return Err(MnistError::Malformed);
    }
    let count32 = read_u32_be(images, 4);
    if count32 != read_u32_be(labels, 4) {
        return Err(MnistError::Malformed);
    }
    let width = read_u32_be(images, 8);
    let height = read_u32_be(images, 12);
    proof {
        assert((width as u64) * (height as u64) <= 0xFFFF_FFFFu64 * 0xFFFF_FFFFu64) by (nonlinear_arith)
            requires
                width as u64 <= 0xFFFF_FFFFu64,
                height as u64 <= 0xFFFF_FFFFu64,
        ;
    }
    let size64: u64 = (width as u64) * (height as u64);
    if size64 > (usize::MAX as u64) {
        return Err(MnistError::Malformed);
    }
    let size: usize = size64 as usize;
    proof {
        assert((count32 as u128) * (size as u128) <= 0xFFFF_FFFFu128
            * 0xFFFF_FFFF_FFFF_FFFFu128) by (nonlinear_arith)
            requires
                count32 as u128 <= 0xFFFF_FFFFu128,
                size as u128 <= 0xFFFF_FFFF_FFFF_FFFFu128,
        ;
    }
    let needed: u128 = 16u128 + (count32 as u128) * (size as u128);
    if needed > (images.len() as u128) {
        return Err(MnistError::Malformed);
    }
    if (8u128 + count32 as u128) > (labels.len() as u128) {
        return Err(MnistError::Malformed);
    }
    let count: usize = count32 as usize;
    let mut k0: usize = 0;
    while k0 < count
        invariant
            count == idx_count(images@),
            8 + count <= labels@.len(),
            labels@.len() <= usize::MAX,
            k0 <= count,
            forall|k: int| 0 <= k < k0 ==> #[trigger] labels@[8 + k] < 10,
        decreases count - k0,
    {
        if labels[8 + k0] >= 10 {
            return Err(MnistError::Malformed);
        }
        k0 += 1;
    }
    let mut buckets: Vec<Vec<FloatVec<T>>> = Vec::new();
    let mut d: usize = 0;
    while d < 10
        invariant
            un_ok(f_pix),
            mnist_ok(images@, labels@),
            count == idx_count(images@),
            size == idx_image_size(images@),
            16 + count * size <= images@.len(),
            images@.len() <= usize::MAX,
            8 + count <= labels@.len(),
            labels@.len() <= usize::MAX,
            d <= 10,
            buckets@.len() == d,
            forall|dd: int|
                0 <= dd < d ==> bucket_decodes(
                    images@,
                    labels@,
                    f_pix,
                    dd as u8,
                    (#[trigger] buckets@[dd])@.map_values(|v: FloatVec<T>| v@),
                ),
        decreases 10 - d,
    {
        let mut bucket: Vec<FloatVec<T>> = Vec::new();
        let mut k: usize = 0;
        while k < count
            invariant
                un_ok(f_pix),
                mnist_ok(images@, labels@),
                count == idx_count(images@),
                size == idx_image_size(images@),
                16 + count * size <= images@.len(),
                images@.len() <= usize::MAX,
                8 + count <= labels@.len(),
                labels@.len() <= usize::MAX,
                d < 10,
                k <= count,
                bucket@.map_values(|v: FloatVec<T>| v@).len() == label_indices(
                    labels@,
                    k as int,
                    d as u8,
                ).len(),
                forall|m: int|
                    0 <= m < bucket@.len() ==> (#[trigger] bucket@[m])@.len() == size,
                forall|m: int, p: int|
                    0 <= m < bucket@.len() && 0 <= p < size ==> un_post(
                        f_pix,
                        images@[16 + label_indices(labels@, k as int, d as u8)[m] * size + p],
                        #[trigger] bucket@[m]@[p],
                    ),
            decreases count - k,
        {
            let lab = labels[8 + k];
            if lab as usize == d {
                proof {
                    assert(16 + (k as int) * (size as int) + (size as int) <= 16 + (count as int)
                        * (size as int)) by (nonlinear_arith)
                        requires
                            0 <= k as int,
                            k as int <= count as int - 1,
                            0 <= size as int,
                    ;
                }
                let base: usize = 16 + k * size;
                let mut img: Vec<T> = Vec::new();
                let mut p: usize = 0;
                while p < size
                    invariant
                        un_ok(f_pix),
                        base == 16 + (k as int) * (size as int),
                        base + size <= images@.len(),
                        images@.len() <= usize::MAX,
                        p <= size,
                        img@.len() == p,
                        forall|pp: int|
                            0 <= pp < p ==> un_post(
                                f_pix,
                                images@[base + pp],
                                #[trigger] img@[pp],
                            ),
                    decreases size - p,
                {
                    img.push(f_pix(images[base + p]));
                    p += 1;
                }
                bucket.push(FloatVec::from_vec(img));
                proof {
                    assert(label_indices(labels@, k as int + 1, d as u8) == label_indices(
                        labels@,
                        k as int,
                        d as u8,
                    ).push(k as int));
                }
            } else {
                proof {
                    assert(label_indices(labels@, k as int + 1, d as u8) == label_indices(
                        labels@,
                        k as int,
                        d as u8,
                    ));
                }
            }
            k += 1;
        }
        buckets.push(bucket);
        proof {
            assert(bucket_decodes(
                images@,
                labels@,
                f_pix,
                d as u8,
                bucket@.map_values(|v: FloatVec<T>| v@),
            ));
        }
        d += 1;
    }
    Ok((buckets, count, size))
}

/// The index a draw maps to when scaled to `n` choices: `raw / 2^32`, the
/// uniform value in `[0, 1)` the draw stands for, times `n`, rounded down.
pub open spec fn scaled(raw: u32, n: int) -> int {
    (raw * n) / 0x1_0000_0000
}

/// Scale a draw to an index below `n`.
fn scale_draw(raw: u32, n: usize) -> (r: usize)
    ensures
        r == scaled(raw, n as int),
        n > 0 ==> r < n,
{
    proof {
        assert((raw as u128) * (n as u128) <= 0xFFFF_FFFFu128 * 0xFFFF_FFFF_FFFF_FFFFu128)
            by (nonlinear_arith)
            requires
                raw as u128 <= 0xFFFF_FFFFu128,
                n as u128 <= 0xFFFF_FFFF_FFFF_FFFFu128,
        ;
    }
    let wide: u128 = ((raw as u128) * (n as u128)) / 0x1_0000_0000u128;
    proof {
        if n > 0 {
            assert(((raw as int) * (n as int)) / 0x1_0000_0000 < n as int) by (nonlinear_arith)
                requires
                    0 <= raw as int <= 0xFFFF_FFFF,
                    0 < n as int,
            ;
        } else {
            assert((raw as int) * (n as int) == 0) by (nonlinear_arith)
                requires
                    n as int == 0,
            ;
        }
        assert(wide <= usize::MAX);
    }
    wide as usize
}

/// One sampled pair: the first draw picks the digit, the second picks the
/// image within that digit's bucket, and the target is the digit's one-hot
/// vector.
pub open spec fn sample_ok<T>(
    ds: MnistDataset<T>,
    s0: u128,
    k: int,
    pair: (FloatVec<T>, FloatVec<T>),
) -> bool {
    let d = scaled(rng_draw(s0, (2 * k) as nat), 10);
    let bucket = ds.train_buckets()[d];
    let i = scaled(rng_draw(s0, (2 * k + 1) as nat), bucket.len() as int);
    &&& pair.0@ == bucket[i]
    &&& pair.1@ == ds.labels_view()[d]
}

/// One test pair per image of `bucket`, each carrying the digit `d`.
pub open spec fn digit_pairs<T>(bucket: Seq<Seq<T>>, d: int) -> Seq<(Seq<T>, int)> {
    bucket.map_values(|img: Seq<T>| (img, d))
}

/// The test pairs of the first `d` digits, digit by digit, in file order
/// within each digit.
pub open spec fn flattened<T>(buckets: Seq<Seq<Seq<T>>>, d: int) -> Seq<(Seq<T>, int)>
    decreases d,
{
    if d <= 0 {
        Seq::empty()
    } else {
        flattened(buckets, d - 1) + digit_pairs(buckets[d - 1], d - 1)
    }
}

impl<T: Copy> MnistDataset<T> {
    /// Parse the four IDX files of the two sets — training and test images
    /// and labels — convert every pixel with `f_pix`, and build the ten
    /// one-hot targets from `zero` and `one`.
    pub fn load<FPix: Fn(u8) -> T + Copy>(
        train_images: &Vec<u8>,
        train_labels: &Vec<u8>,
        test_images: &Vec<u8>,
        test_labels: &Vec<u8>,
        f_pix: FPix,
        zero: T,
        one: T,
    ) -> (r: Result<Self, MnistError>)
        requires
            un_ok(f_pix),
        ensures
            match r {
                Ok(ds) => {
                    &&& mnist_ok(train_images@, train_labels@)
                    &&& mnist_ok(test_images@, test_labels@)
                    &&& ds.wf()
                    &&& ds.spec_train_count() == idx_count(train_images@)
                    &&& ds.spec_test_count() == idx_count(test_images@)
                    &&& ds.spec_image_size() == idx_image_size(train_images@)
                    &&& forall|d: int|
                        0 <= d < 10 ==> bucket_decodes(
                            train_images@,
                            train_labels@,
                            f_pix,
                            d as u8,
                            #[trigger] ds.train_buckets()[d],
                        )
                    &&& forall|d: int|
                        0 <= d < 10 ==> bucket_decodes(
                            test_images@,
                            test_labels@,
                            f_pix,
                            d as u8,
                            #[trigger] ds.test_buckets()[d],
                        )
                    &&& forall|d: int, j: int|
                        0 <= d < 10 && 0 <= j < 10 ==> #[trigger] ds.labels_view()[d][j] == (
                        if j == d {
                            one
                        } else {
                            zero
                        })
                },
                Err(e) => (!mnist_ok(train_images@, train_labels@) || !mnist_ok(
                    test_images@,
                    test_labels@,
                )) && e == MnistError::Malformed,
            },
    {
        let (train_set, train_count, image_size) = match load_split(
            train_images,
            train_labels,
            f_pix,
        ) {
            Ok(t) => t,
            Err(e) => { return Err(e) },
        };
        let (test_set, test_count, _test_size) = match load_split(test_images, test_labels, f_pix) {
            Ok(t) => t,
            Err(e) => { return Err(e) },
        };
        let mut labels: Vec<FloatVec<T>> = Vec::new();
        let mut d: usize = 0;
        while d < 10
            invariant
                d <= 10,
                labels@.len() == d,
                forall|dd: int| 0 <= dd < d ==> (#[trigger] labels@[dd])@.len() == 10,
                forall|dd: int, j: int|
                    0 <= dd < d && 0 <= j < 10 ==> #[trigger] labels@[dd]@[j] == (if j == dd {
                        one
                    } else {
                        zero
                    }),
            decreases 10 - d,
        {
            let mut row = FloatVec::all(zero, 10);
            row.set(d, one);
            labels.push(row);
            d += 1;
        }
        let ds = MnistDataset { train_set, test_set, labels, train_count, test_count, image_size };
        proof {
            assert forall|dd: int| 0 <= dd < 10 implies #[trigger] ds.train_buckets()[dd]
                == ds.train_set@[dd]@.map_values(|v: FloatVec<T>| v@) by {}
            assert forall|dd: int| 0 <= dd < 10 implies #[trigger] ds.test_buckets()[dd]
                == ds.test_set@[dd]@.map_values(|v: FloatVec<T>| v@) by {}
            assert forall|dd: int| 0 <= dd < 10 implies #[trigger] ds.labels_view()[dd]
                == ds.labels@[dd]@ by {}
            assert forall|dd: int, m: int|
                0 <= dd < 10 && 0 <= m < ds.train_buckets()[dd].len() implies (
            #[trigger] ds.train_buckets()[dd][m]).len() == ds.spec_image_size() by {
                assert(bucket_decodes(
                    train_images@,
                    train_labels@,
                    f_pix,
                    dd as u8,
                    ds.train_buckets()[dd],
                ));
            }
        }
        Ok(ds)
    }

    /// The one-hot target vector of a digit.
    pub fn digit_to_label(&self, digit: usize) -> (r: &FloatVec<T>)
        requires
            self.wf(),
            digit < 10,
        ensures
            r@ == self.labels_view()[digit as int],
    {
        proof {
            assert(self.labels_view()[digit as int] == self.labels@[digit as int]@);
        }
        &self.labels[digit]
    }

    /// The number of training images.
    pub fn train_set_len(&self) -> (r: usize)
        ensures
            r == self.spec_train_count(),
    {
        self.train_count
    }

    /// The number of test images.
    pub fn test_set_len(&self) -> (r: usize)
        ensures
            r == self.spec_test_count(),
    {
        self.test_count
    }

    /// The pixel count of every training image.
    pub fn image_size(&self) -> (r: usize)
        ensures
            r == self.spec_image_size(),
    {
        self.image_size
    }

    /// Sample a batch of `size` training pairs: for each pair, one draw picks
    /// the digit and the next picks the image within that digit's bucket.
    pub fn sample_batch(&self, rng: &mut Rng, size: usize) -> (r: Vec<
        (FloatVec<T>, FloatVec<T>),
    >)
        requires
            self.wf(),
            forall|d: int| 0 <= d < 10 ==> (#[trigger] self.train_buckets()[d]).len() > 0,
        ensures
            r@.len() == size,
            final(rng)@ == rng_state_after(old(rng)@, (2 * size) as nat),
            forall|k: int| 0 <= k < size ==> sample_ok(*self, old(rng)@, k, #[trigger] r@[k]),
    {
        let ghost s0 = rng@;
        let mut out: Vec<(FloatVec<T>, FloatVec<T>)> = Vec::new();
        let mut k: usize = 0;
        while k < size
            invariant
                self.wf(),
                forall|d: int| 0 <= d < 10 ==> (#[trigger] self.train_buckets()[d]).len() > 0,
                k <= size,
                out@.len() == k,
                rng@ == rng_state_after(s0, (2 * k) as nat),
                forall|t: int| 0 <= t < k ==> sample_ok(*self, s0, t, #[trigger] out@[t]),
            decreases size - k,
        {
            let d_raw = rng.next();
            proof {
                crate::rand::lemma_rng_draw_at(s0, (2 * k) as nat);
            }
            let d = scale_draw(d_raw, 10);
            proof {
                assert(self.train_buckets()[d as int] == self.train_set@[d as int]@.map_values(
                    |v: FloatVec<T>| v@,
                ));
            }
            let blen = self.train_set[d].len();
            let i_raw = rng.next();
            proof {
                crate::rand::lemma_rng_draw_at(s0, (2 * k + 1) as nat);
            }
            let i = scale_draw(i_raw, blen);
            let input = self.train_set[d][i].clone();
            proof {
                assert(self.train_buckets()[d as int][i as int] == self.train_set@[d as int]@[i as int]@);
                assert(self.labels_view()[d as int] == self.labels@[d as int]@);
            }
            let target = self.labels[d].clone();
            out.push((input, target));
            k += 1;
        }
        out
    }

    /// Every test image paired with its true digit: the ten buckets
    /// flattened in digit order, file order within each digit.
    pub fn test_set(&self) -> (r: Vec<(FloatVec<T>, usize)>)
        requires
            self.wf(),
        ensures
            r@.map_values(|p: (FloatVec<T>, usize)| (p.0@, p.1 as int)) == flattened(
                self.test_buckets(),
                10,
            ),
    {
        let mut out: Vec<(FloatVec<T>, usize)> = Vec::new();
        let mut d: usize = 0;
        while d < 10
            invariant
                self.wf(),
                d <= 10,
                out@.map_values(|p: (FloatVec<T>, usize)| (p.0@, p.1 as int)) == flattened(
                    self.test_buckets(),
                    d as int,
                ),
            decreases 10 - d,
        {
            proof {
                assert(self.test_buckets()[d as int] == self.test_set@[d as int]@.map_values(
                    |v: FloatVec<T>| v@,
                ));
            }
            let blen = self.test_set[d].len();
            let mut m: usize = 0;
            while m < blen
                invariant
                    self.wf(),
                    d < 10,
                    blen == self.test_buckets()[d as int].len(),
                    self.test_buckets()[d as int] == self.test_set@[d as int]@.map_values(
                        |v: FloatVec<T>| v@,
                    ),
                    m <= blen,
                    out@.map_values(|p: (FloatVec<T>, usize)| (p.0@, p.1 as int)) == flattened(
                        self.test_buckets(),
                        d as int,
                    ) + digit_pairs(self.test_buckets()[d as int].take(m as int), d as int),
                decreases blen - m,
            {
                let ghost before = out@;
                let img = self.test_set[d][m].clone();
                out.push((img, d));
                proof {
                    let f = |p: (FloatVec<T>, usize)| (p.0@, p.1 as int);
                    assert(out@ == before.push((img, d)));
                    assert(out@.map_values(f) =~= before.map_values(f).push((img@, d as int)));
                    let bucket = self.test_buckets()[d as int];
                    assert(img@ == bucket[m as int]);
                    assert(bucket.take(m as int + 1) =~= bucket.take(m as int).push(
                        bucket[m as int],
                    ));
                    assert(digit_pairs(bucket.take(m as int + 1), d as int) =~= digit_pairs(
                        bucket.take(m as int),
                        d as int,
                    ).push((img@, d as int)));
                }
                m += 1;
            }
            proof {
                let bucket = self.test_buckets()[d as int];
                assert(bucket.take(blen as int) =~= bucket);
                assert(flattened(self.test_buckets(), d as int + 1) == flattened(
                    self.test_buckets(),
                    d as int,
                ) + digit_pairs(bucket, d as int));
            }
            d += 1;
        }
        proof {
            assert(out@.map_values(|p: (FloatVec<T>, usize)| (p.0@, p.1 as int)) == flattened(
                self.test_buckets(),
                10,
            ));
        }
        out
    }
}

} // verus!
