//! Fixed-length vectors of scalars, with elementwise and scalar arithmetic.
//!
//! A `FloatVec<T>` is an ordered sequence of scalars; its view is the `Seq<T>`
//! of its elements. Binary elementwise operations demand equal lengths; the
//! checked variants report a `ShapeMismatch` carrying both offending lengths.

use vstd::prelude::*;

use crate::ops::{bin_ok, bin_post, fold_rel, un_ok, un_post};

verus! {

/// A vector-vector operation was attempted on operands of different lengths.
/// This signals a programming or configuration defect, never retried.
#[derive(Clone, Copy, Debug, PartialEq, Eq, Structural)]
pub struct ShapeMismatch {
    pub left: usize,
    pub right: usize,
}

/// An ordered, fixed-length sequence of scalar values.
pub struct FloatVec<T> {
    elems: Vec<T>,
}

impl<T> View for FloatVec<T> {
    type V = Seq<T>;

    closed spec fn view(&self) -> Seq<T> {
        self.elems@
    }
}

impl<T: Copy> Clone for FloatVec<T> {
    /// A clone carries exactly the same elements.
    fn clone(&self) -> (r: Self)
        ensures
            r@ == self@,
    {
        let mut elems: Vec<T> = Vec::new();
        let mut j: usize = 0;
        let n = self.elems.len();
        while j < n
            invariant
                j <= n,
                n == self@.len(),
                elems@.len() == j,
                forall|i: int| 0 <= i < j ==> elems@[i] == self@[i],
            decreases n - j,
        {
            elems.push(self.elems[j]);
            j += 1;
        }
        proof {
            assert(elems@ =~= self@);
        }
        FloatVec { elems }
    }
}

impl<T: Copy> FloatVec<T> {
    /// A vector of `len` copies of `n`.
    pub fn all(n: T, len: usize) -> (r: Self)
        ensures
            r@.len() == len,
            forall|i: int| 0 <= i < len ==> r@[i] == n,
    {
        let mut elems: Vec<T> = Vec::new();
        let mut j: usize = 0;
        while j < len
            invariant
                j <= len,
                elems@.len() == j,
                forall|i: int| 0 <= i < j ==> elems@[i] == n,
            decreases len - j,
        {
            elems.push(n);
            j += 1;
        }
        FloatVec { elems }
    }

    /// Wrap an existing sequence of scalars.
    pub fn from_vec(elems: Vec<T>) -> (r: Self)
        ensures
            r@ == elems@,
    {
        FloatVec { elems }
    }

    pub fn len(&self) -> (r: usize)
        ensures
            r == self@.len(),
    {
        self.elems.len()
    }

    /// Read the element at `index`.
    pub fn get(&self, index: usize) -> (r: T)
        requires
            index < self@.len(),
        ensures
            r == self@[index as int],
    {
        self.elems[index]
    }

    /// Overwrite the element at `index`.
    pub fn set(&mut self, index: usize, value: T)
        requires
            index < old(self)@.len(),
        ensures
            final(self)@ == old(self)@.update(index as int, value),
    {
        self.elems.set(index, value);
    }

    /// Apply a scalar-to-scalar mapping to every element.
    pub fn map<F: Fn(T) -> T + Copy>(&self, f: F) -> (r: Self)
        requires
            un_ok(f),
        ensures
            r@.len() == self@.len(),
            forall|i: int| 0 <= i < self@.len() ==> un_post(f, self@[i], #[trigger] r@[i]),
    {
        let mut elems: Vec<T> = Vec::new();
        let mut j: usize = 0;
        let n = self.elems.len();
        while j < n
            invariant
                un_ok(f),
                j <= n,
                n == self@.len(),
                elems@.len() == j,
                forall|i: int| 0 <= i < j ==> un_post(f, self@[i], #[trigger] elems@[i]),
            decreases n - j,
        {
            elems.push(f(self.elems[j]));
            j += 1;
        }
        FloatVec { elems }
    }

    /// Elementwise exponential: the caller's exponential function applied to
    /// every element, as the logistic computation uses it.
    pub fn exp<F: Fn(T) -> T + Copy>(&self, f_exp: F) -> (r: Self)
        requires
            un_ok(f_exp),
        ensures
            r@.len() == self@.len(),
            forall|i: int| 0 <= i < self@.len() ==> un_post(f_exp, self@[i], #[trigger] r@[i]),
    {
        self.map(f_exp)
    }

    /// Combine two equal-length vectors elementwise with `f`.
    pub fn zip_with<F: Fn(T, T) -> T + Copy>(&self, other: &Self, f: F) -> (r: Self)
        requires
            bin_ok(f),
            self@.len() == other@.len(),
        ensures
            r@.len() == self@.len(),
            forall|i: int|
                0 <= i < self@.len() ==> bin_post(f, self@[i], other@[i], #[trigger] r@[i]),
    {
        let mut elems: Vec<T> = Vec::new();
        let mut j: usize = 0;
        let n = self.elems.len();
        while j < n
            invariant
                bin_ok(f),
                j <= n,
                n == self@.len(),
                other@.len() == n,
                elems@.len() == j,
                forall|i: int|
                    0 <= i < j ==> bin_post(f, self@[i], other@[i], #[trigger] elems@[i]),
            decreases n - j,
        {
            elems.push(f(self.elems[j], other.elems[j]));
            j += 1;
        }
        FloatVec { elems }
    }

    /// Checked elementwise combination: fails with a `ShapeMismatch` reporting
    /// both lengths whenever the operands' lengths differ.
    pub fn try_zip_with<F: Fn(T, T) -> T + Copy>(&self, other: &Self, f: F) -> (r: Result<
        Self,
        ShapeMismatch,
    >)
        requires
            bin_ok(f),
        ensures
            match r {
                Ok(v) => self@.len() == other@.len() && v@.len() == self@.len() && forall|i: int|
                    0 <= i < self@.len() ==> bin_post(f, self@[i], other@[i], #[trigger] v@[i]),
                Err(e) => self@.len() != other@.len() && e == (ShapeMismatch {
                    left: self@.len() as usize,
                    right: other@.len() as usize,
                }),
            },
    {
        if self.elems.len() != other.elems.len() {
            Err(ShapeMismatch { left: self.elems.len(), right: other.elems.len() })
        } else {
            Ok(self.zip_with(other, f))
        }
    }

    /// Combine every element with one scalar (broadcast), as `f(element, s)`.
    pub fn map_with_scalar<F: Fn(T, T) -> T + Copy>(&self, s: T, f: F) -> (r: Self)
        requires
            bin_ok(f),
        ensures
            r@.len() == self@.len(),
            forall|i: int| 0 <= i < self@.len() ==> bin_post(f, self@[i], s, #[trigger] r@[i]),
    {
        let mut elems: Vec<T> = Vec::new();
        let mut j: usize = 0;
        let n = self.elems.len();
        while j < n
            invariant
                bin_ok(f),
                j <= n,
                n == self@.len(),
                elems@.len() == j,
                forall|i: int| 0 <= i < j ==> bin_post(f, self@[i], s, #[trigger] elems@[i]),
            decreases n - j,
        {
            elems.push(f(self.elems[j], s));
            j += 1;
        }
        FloatVec { elems }
    }

    /// Dot product: the `f_add`-fold, from `zero`, of the elementwise products,
    /// taken in index order.
    pub fn dot<FMul: Fn(T, T) -> T + Copy, FAdd: Fn(T, T) -> T + Copy>(
        &self,
        other: &Self,
        f_mul: FMul,
        f_add: FAdd,
        zero: T,
    ) -> (r: T)
        requires
            bin_ok(f_mul),
            bin_ok(f_add),
            self@.len() == other@.len(),
        ensures
            dot_post(f_mul, f_add, zero, self@, other@, r),
    {
        let mut acc: T = zero;
        let ghost mut prods: Seq<T> = Seq::empty();
        proof {
            crate::ops::lemma_fold_rel_nil(f_add, zero);
        }
        let mut j: usize = 0;
        let n = self.elems.len();
        while j < n
            invariant
                bin_ok(f_mul),
                bin_ok(f_add),
                j <= n,
                n == self@.len(),
                other@.len() == n,
                prods.len() == j,
                forall|i: int|
                    0 <= i < j ==> bin_post(f_mul, self@[i], other@[i], #[trigger] prods[i]),
                fold_rel(f_add, zero, prods, acc),
            decreases n - j,
        {
            let p = f_mul(self.elems[j], other.elems[j]);
            let next = f_add(acc, p);
            proof {
                crate::ops::lemma_fold_rel_push(f_add, zero, prods, acc, p, next);
                prods = prods.push(p);
            }
            acc = next;
            j += 1;
        }
        acc
    }
}

/// `r` is a dot product of `a` and `b`: there is a sequence of elementwise
/// products of `a` and `b` whose `f_add`-fold from `zero` is `r`.
pub open spec fn dot_post<T, FMul: Fn(T, T) -> T, FAdd: Fn(T, T) -> T>(
    f_mul: FMul,
    f_add: FAdd,
    zero: T,
    a: Seq<T>,
    b: Seq<T>,
    r: T,
) -> bool {
    exists|prods: Seq<T>|
        prods.len() == a.len() && (forall|i: int|
            0 <= i < a.len() ==> bin_post(f_mul, a[i], b[i], #[trigger] prods[i])) && fold_rel(
            f_add,
            zero,
            prods,
            r,
        )
}

} // verus!
