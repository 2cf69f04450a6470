//! The stateless activation layer.
//!
//! `Sigmoid` owns no parameters: its forward pass applies the caller's
//! activation function to every element, its input gradient applies the chain
//! rule through the logistic derivative `s * (1 - s)`, its parameter gradient
//! is an empty marker, and updating its parameters is a no-op.

use vstd::prelude::*;

use crate::float_vec::FloatVec;
use crate::layer::ParamGradient;
use crate::ops::{bin_ok, bin_post, un_ok, un_post};

verus! {

/// The logistic activation layer; stateless.
#[derive(Clone, Copy)]
pub struct Sigmoid;

/// `y` is the chain-rule gradient through the logistic activation at `x`
/// with incoming gradient `g`: with `s` the activation of `x`,
/// `y = s * (one - s) * g`.
pub open spec fn logistic_grad_post<
    T,
    FAct: Fn(T) -> T,
    FMul: Fn(T, T) -> T,
    FSub: Fn(T, T) -> T,
>(f_act: FAct, f_mul: FMul, f_sub: FSub, one: T, x: T, g: T, y: T) -> bool {
    exists|s: T|
        #[trigger] un_post(f_act, x, s) && exists|u: T|
            #[trigger] bin_post(f_sub, one, s, u) && exists|v: T|
                #[trigger] bin_post(f_mul, s, u, v) && bin_post(f_mul, v, g, y)
}

/// Concrete intermediate values witness a `logistic_grad_post`.
proof fn lemma_logistic_grad_intro<
    T,
    FAct: Fn(T) -> T,
    FMul: Fn(T, T) -> T,
    FSub: Fn(T, T) -> T,
>(f_act: FAct, f_mul: FMul, f_sub: FSub, one: T, x: T, g: T, s: T, u: T, v: T, y: T)
    requires
        un_post(f_act, x, s),
        bin_post(f_sub, one, s, u),
        bin_post(f_mul, s, u, v),
        bin_post(f_mul, v, g, y),
    ensures
        logistic_grad_post(f_act, f_mul, f_sub, one, x, g, y),
{
}

impl Sigmoid {
    /// Forward evaluation: the activation applied to every element.
    pub fn forward<T: Copy, FAct: Fn(T) -> T + Copy>(
        &self,
        input: &FloatVec<T>,
        f_act: FAct,
    ) -> (r: FloatVec<T>)
        requires
            un_ok(f_act),
        ensures
            r@.len() == input@.len(),
            forall|i: int| 0 <= i < input@.len() ==> un_post(f_act, input@[i], #[trigger] r@[i]),
    {
        input.map(f_act)
    }

    /// How much the input affects the output: elementwise
    /// `activation(input) * (one - activation(input)) * output_gradient`.
    pub fn input_gradient<
        T: Copy,
        FAct: Fn(T) -> T + Copy,
        FMul: Fn(T, T) -> T + Copy,
        FSub: Fn(T, T) -> T + Copy,
    >(
        &self,
        input: &FloatVec<T>,
        output_gradient: &FloatVec<T>,
        f_act: FAct,
        f_mul: FMul,
        f_sub: FSub,
        one: T,
    ) -> (r: FloatVec<T>)
        requires
            un_ok(f_act),
            bin_ok(f_mul),
            bin_ok(f_sub),
            input@.len() == output_gradient@.len(),
        ensures
            r@.len() == input@.len(),
            forall|i: int|
                0 <= i < input@.len() ==> logistic_grad_post(
                    f_act,
                    f_mul,
                    f_sub,
                    one,
                    input@[i],
                    output_gradient@[i],
                    #[trigger] r@[i],
                ),
    {
        let mut out: Vec<T> = Vec::new();
        let mut i: usize = 0;
        let n = input.len();
        while i < n
            invariant
                un_ok(f_act),
                bin_ok(f_mul),
                bin_ok(f_sub),
                i <= n,
                n == input@.len(),
                output_gradient@.len() == n,
                out@.len() == i,
                forall|ii: int|
                    0 <= ii < i ==> logistic_grad_post(
                        f_act,
                        f_mul,
                        f_sub,
                        one,
                        input@[ii],
                        output_gradient@[ii],
                        #[trigger] out@[ii],
                    ),
            decreases n - i,
        {
            let s = f_act(input.get(i));
            let u = f_sub(one, s);
            let v = f_mul(s, u);
            let y = f_mul(v, output_gradient.get(i));
            proof {
                lemma_logistic_grad_intro(
                    f_act,
                    f_mul,
                    f_sub,
                    one,
                    input@[i as int],
                    output_gradient@[i as int],
                    s,
                    u,
                    v,
                    y,
                );
            }
            out.push(y);
            i += 1;
        }
        FloatVec::from_vec(out)
    }

    /// The activation owns no parameters: the per-example gradient is the
    /// empty marker. Both arguments are accepted for interface symmetry.
    pub fn param_gradient<T: Copy>(
        &self,
        input: &FloatVec<T>,
        output_gradient: &FloatVec<T>,
    ) -> (r: ParamGradient<T>)
        ensures
            r == ParamGradient::<T>::Activation,
    {
        ParamGradient::Activation
    }
}

} // verus!
