//! The closed set of layer variants and their per-example gradients.
//!
//! A layer is either a learnable affine transform (`Linear`) or a stateless
//! activation (`Sigmoid`). Dispatch is by exhaustive match, and each variant's
//! parameter gradient has a concrete shape of its own, so aggregation never
//! needs a runtime downcast.

use vstd::prelude::*;

use crate::codec::{linear_bytes, parse_linear};
use crate::float_vec::FloatVec;
use crate::linear::{
    affine_post, colsum_post, decodes_linear, encodes_linear, linear_shape_ok, sgd_update_post,
    Linear, LinearGradient,
};
use crate::ops::{arith_ok, bin_post, un_ok, un_post, Arith};
use crate::sigmoid::{logistic_grad_post, Sigmoid};

verus! {

/// The parameter gradient a layer produces for one training example: a full
/// gradient for a `Linear` layer, an empty marker for an activation, which
/// owns no parameters.
pub enum ParamGradient<T> {
    Linear(LinearGradient<T>),
    Activation,
}

/// The `Linear` gradient held by a `ParamGradient`, where there is one.
pub open spec fn linear_part<T>(g: ParamGradient<T>) -> LinearGradient<T> {
    match g {
        ParamGradient::Linear(l) => l,
        ParamGradient::Activation => vstd::pervasive::arbitrary(),
    }
}

/// Two parameter gradients carry the same content: the same variant, and for
/// `Linear` the same weight-gradient and bias-gradient entries.
pub open spec fn pg_like<T>(a: ParamGradient<T>, b: ParamGradient<T>) -> bool {
    match (a, b) {
        (ParamGradient::Linear(x), ParamGradient::Linear(y)) => x.wg_view() == y.wg_view()
            && x.bg_view() == y.bg_view(),
        (ParamGradient::Activation, ParamGradient::Activation) => true,
        _ => false,
    }
}

/// Every gradient in `gs` is a `Linear` gradient shaped for a layer with the
/// given dimensions.
pub open spec fn all_linear_fits<T>(gs: Seq<ParamGradient<T>>, inputs: int, outputs: int) -> bool {
    forall|k: int|
        0 <= k < gs.len() ==> (#[trigger] gs[k]) is Linear && linear_part(gs[k]).fits(
            inputs,
            outputs,
        )
}

/// The per-example contributions to weight entry `(j, i)`, in batch order.
pub open spec fn wg_col<T>(gs: Seq<ParamGradient<T>>, j: int, i: int) -> Seq<T> {
    Seq::new(gs.len(), |k: int| linear_part(gs[k]).wg_view()[j][i])
}

/// The per-example contributions to bias entry `j`, in batch order.
pub open spec fn bg_col<T>(gs: Seq<ParamGradient<T>>, j: int) -> Seq<T> {
    Seq::new(gs.len(), |k: int| linear_part(gs[k]).bg_view()[j])
}

impl<T: Copy> Clone for ParamGradient<T> {
    /// A clone carries the same variant and the same gradient entries.
    fn clone(&self) -> (r: Self)
        ensures
            pg_like(r, *self),
    {
        match self {
            ParamGradient::Linear(lg) => ParamGradient::Linear(lg.clone()),
            ParamGradient::Activation => ParamGradient::Activation,
        }
    }
}

/// One unit of the network: a learnable affine transform or a stateless
/// activation.
pub enum Layer<T> {
    Linear(Linear<T>),
    Activation(Sigmoid),
}

impl<T> Layer<T> {
    /// Shape invariant of the variant's parameters.
    pub open spec fn wf(&self) -> bool {
        match self {
            Layer::Linear(l) => l.wf(),
            Layer::Activation(_) => true,
        }
    }

    /// The layer accepts inputs of length `n`.
    pub open spec fn in_ok(&self, n: int) -> bool {
        match self {
            Layer::Linear(l) => n == l.spec_inputs(),
            Layer::Activation(_) => true,
        }
    }

    /// The output length for inputs of length `n`.
    pub open spec fn out_len(&self, n: int) -> int {
        match self {
            Layer::Linear(l) => l.spec_outputs(),
            Layer::Activation(_) => n,
        }
    }

    /// `y` is a forward evaluation of the layer on `x`.
    pub open spec fn forward_post<
        FAdd: Fn(T, T) -> T,
        FSub: Fn(T, T) -> T,
        FMul: Fn(T, T) -> T,
        FDiv: Fn(T, T) -> T,
        FCnt: Fn(usize) -> T,
        FAct: Fn(T) -> T,
    >(&self, ops: Arith<T, FAdd, FSub, FMul, FDiv, FCnt, FAct>, x: Seq<T>, y: Seq<T>) -> bool {
        match self {
            Layer::Linear(l) => y.len() == l.spec_outputs() && forall|j: int|
                0 <= j < l.spec_outputs() ==> affine_post(
                    ops.mul,
                    ops.add,
                    ops.zero,
                    l.biases_view()[j],
                    l.weights_view()[j],
                    x,
                    #[trigger] y[j],
                ),
            Layer::Activation(_) => y.len() == x.len() && forall|i: int|
                0 <= i < x.len() ==> un_post(ops.act, x[i], #[trigger] y[i]),
        }
    }

    /// `y` is the gradient with respect to the layer's input, given input `x`
    /// and output gradient `g`.
    pub open spec fn input_grad_post<
        FAdd: Fn(T, T) -> T,
        FSub: Fn(T, T) -> T,
        FMul: Fn(T, T) -> T,
        FDiv: Fn(T, T) -> T,
        FCnt: Fn(usize) -> T,
        FAct: Fn(T) -> T,
    >(
        &self,
        ops: Arith<T, FAdd, FSub, FMul, FDiv, FCnt, FAct>,
        x: Seq<T>,
        g: Seq<T>,
        y: Seq<T>,
    ) -> bool {
        match self {
            Layer::Linear(l) => y.len() == l.spec_inputs() && forall|i: int|
                0 <= i < l.spec_inputs() ==> colsum_post(
                    ops.mul,
                    ops.add,
                    ops.zero,
                    l.weights_view(),
                    g,
                    i,
                    #[trigger] y[i],
                ),
            Layer::Activation(_) => y.len() == x.len() && forall|i: int|
                0 <= i < x.len() ==> logistic_grad_post(
                    ops.act,
                    ops.mul,
                    ops.sub,
                    ops.one,
                    x[i],
                    g[i],
                    #[trigger] y[i],
                ),
        }
    }

    /// `pg` is the layer's parameter gradient for input `x` and output
    /// gradient `g`.
    pub open spec fn param_grad_post<
        FAdd: Fn(T, T) -> T,
        FSub: Fn(T, T) -> T,
        FMul: Fn(T, T) -> T,
        FDiv: Fn(T, T) -> T,
        FCnt: Fn(usize) -> T,
        FAct: Fn(T) -> T,
    >(
        &self,
        ops: Arith<T, FAdd, FSub, FMul, FDiv, FCnt, FAct>,
        x: Seq<T>,
        g: Seq<T>,
        pg: ParamGradient<T>,
    ) -> bool {
        match self {
            Layer::Linear(l) => pg is Linear && linear_part(pg).fits(
                l.spec_inputs() as int,
                l.spec_outputs(),
            ) && (forall|j: int, i: int|
                0 <= j < l.spec_outputs() && 0 <= i < l.spec_inputs() ==> bin_post(
                    ops.mul,
                    x[i],
                    g[j],
                    #[trigger] linear_part(pg).wg_view()[j][i],
                )) && linear_part(pg).bg_view() == g,
            Layer::Activation(_) => pg == ParamGradient::<T>::Activation,
        }
    }

    /// The gradients `gs` are shaped for this layer's update.
    pub open spec fn gs_ok(&self, gs: Seq<ParamGradient<T>>) -> bool {
        match self {
            Layer::Linear(l) => all_linear_fits(gs, l.spec_inputs() as int, l.spec_outputs()),
            Layer::Activation(_) => true,
        }
    }

    /// `pg` has the shape of this layer's own parameter gradient.
    pub open spec fn param_grad_shaped(&self, pg: ParamGradient<T>) -> bool {
        match self {
            Layer::Linear(l) => pg is Linear && linear_part(pg).fits(
                l.spec_inputs() as int,
                l.spec_outputs(),
            ),
            Layer::Activation(_) => true,
        }
    }
}

/// `after` is `before` updated by one averaged gradient-descent step over the
/// per-example gradients `gs`: every `Linear` entry moves by the averaged,
/// learning-rate-scaled contribution, and an activation is untouched.
pub open spec fn layer_apply_post<
    T,
    FAdd: Fn(T, T) -> T,
    FSub: Fn(T, T) -> T,
    FMul: Fn(T, T) -> T,
    FDiv: Fn(T, T) -> T,
    FCnt: Fn(usize) -> T,
    FAct: Fn(T) -> T,
>(
    before: Layer<T>,
    ops: Arith<T, FAdd, FSub, FMul, FDiv, FCnt, FAct>,
    lr: T,
    gs: Seq<ParamGradient<T>>,
    after: Layer<T>,
) -> bool {
    match (before, after) {
        (Layer::Linear(a), Layer::Linear(b)) => {
            &&& b.wf()
            &&& b.spec_inputs() == a.spec_inputs()
            &&& b.spec_outputs() == a.spec_outputs()
            &&& forall|j: int, i: int|
                0 <= j < a.spec_outputs() && 0 <= i < a.spec_inputs() ==> sgd_update_post(
                    ops.add,
                    ops.sub,
                    ops.mul,
                    ops.divide,
                    ops.count,
                    ops.zero,
                    gs.len() as usize,
                    lr,
                    a.weights_view()[j][i],
                    wg_col(gs, j, i),
                    #[trigger] b.weights_view()[j][i],
                )
            &&& forall|j: int|
                0 <= j < a.spec_outputs() ==> sgd_update_post(
                    ops.add,
                    ops.sub,
                    ops.mul,
                    ops.divide,
                    ops.count,
                    ops.zero,
                    gs.len() as usize,
                    lr,
                    a.biases_view()[j],
                    bg_col(gs, j),
                    #[trigger] b.biases_view()[j],
                )
        },
        (Layer::Activation(_), Layer::Activation(_)) => true,
        _ => false,
    }
}

impl<T: Copy> Layer<T> {
    /// Evaluate the layer on `input`.
    pub fn forward<
        FAdd: Fn(T, T) -> T + Copy,
        FSub: Fn(T, T) -> T + Copy,
        FMul: Fn(T, T) -> T + Copy,
        FDiv: Fn(T, T) -> T + Copy,
        FCnt: Fn(usize) -> T + Copy,
        FAct: Fn(T) -> T + Copy,
    >(&self, input: &FloatVec<T>, ops: Arith<T, FAdd, FSub, FMul, FDiv, FCnt, FAct>) -> (r:
        FloatVec<T>)
        requires
            self.wf(),
            self.in_ok(input@.len() as int),
            arith_ok(ops),
        ensures
            r@.len() == self.out_len(input@.len() as int),
            self.forward_post(ops, input@, r@),
    {
        match self {
            Layer::Linear(l) => l.forward(input, ops.mul, ops.add, ops.zero),
            Layer::Activation(s) => s.forward(input, ops.act),
        }
    }

    /// The gradient with respect to the layer's input.
    pub fn input_gradient<
        FAdd: Fn(T, T) -> T + Copy,
        FSub: Fn(T, T) -> T + Copy,
        FMul: Fn(T, T) -> T + Copy,
        FDiv: Fn(T, T) -> T + Copy,
        FCnt: Fn(usize) -> T + Copy,
        FAct: Fn(T) -> T + Copy,
    >(
        &self,
        input: &FloatVec<T>,
        output_gradient: &FloatVec<T>,
        ops: Arith<T, FAdd, FSub, FMul, FDiv, FCnt, FAct>,
    ) -> (r: FloatVec<T>)
        requires
            self.wf(),
            self.in_ok(input@.len() as int),
            output_gradient@.len() == self.out_len(input@.len() as int),
            arith_ok(ops),
        ensures
            r@.len() == input@.len(),
            self.input_grad_post(ops, input@, output_gradient@, r@),
    {
        match self {
            Layer::Linear(l) => l.input_gradient(
                input,
                output_gradient,
                ops.mul,
                ops.add,
                ops.zero,
            ),
            Layer::Activation(s) => s.input_gradient(
                input,
                output_gradient,
                ops.act,
                ops.mul,
                ops.sub,
                ops.one,
            ),
        }
    }

    /// The layer's parameter gradient for one example; pure.
    pub fn param_gradient<
        FAdd: Fn(T, T) -> T + Copy,
        FSub: Fn(T, T) -> T + Copy,
        FMul: Fn(T, T) -> T + Copy,
        FDiv: Fn(T, T) -> T + Copy,
        FCnt: Fn(usize) -> T + Copy,
        FAct: Fn(T) -> T + Copy,
    >(
        &self,
        input: &FloatVec<T>,
        output_gradient: &FloatVec<T>,
        ops: Arith<T, FAdd, FSub, FMul, FDiv, FCnt, FAct>,
    ) -> (r: ParamGradient<T>)
        requires
            self.wf(),
            self.in_ok(input@.len() as int),
            output_gradient@.len() == self.out_len(input@.len() as int),
            arith_ok(ops),
        ensures
            self.param_grad_post(ops, input@, output_gradient@, r),
    {
        match self {
            Layer::Linear(l) => ParamGradient::Linear(
                l.param_gradient(input, output_gradient, ops.mul),
            ),
            Layer::Activation(s) => s.param_gradient(input, output_gradient),
        }
    }

    /// Update the layer's parameters from the per-example gradients; the only
    /// mutation of layer state.
    pub fn apply_gradients<
        FAdd: Fn(T, T) -> T + Copy,
        FSub: Fn(T, T) -> T + Copy,
        FMul: Fn(T, T) -> T + Copy,
        FDiv: Fn(T, T) -> T + Copy,
        FCnt: Fn(usize) -> T + Copy,
        FAct: Fn(T) -> T + Copy,
    >(
        &mut self,
        gradients: &Vec<ParamGradient<T>>,
        lr: T,
        ops: Arith<T, FAdd, FSub, FMul, FDiv, FCnt, FAct>,
    )
        requires
            old(self).wf(),
            old(self).gs_ok(gradients@),
            arith_ok(ops),
        ensures
            final(self).wf(),
            layer_apply_post(*old(self), ops, lr, gradients@, *final(self)),
    {
        match self {
            Layer::Linear(l) => l.apply_gradients(
                gradients,
                lr,
                ops.add,
                ops.sub,
                ops.mul,
                ops.divide,
                ops.count,
                ops.zero,
            ),
            Layer::Activation(_) => {},
        }
    }

    /// Binary-encode the layer's parameters onto the end of `buffer`: a
    /// `Linear` layer appends its frame, an activation owns nothing and
    /// appends nothing.
    pub fn serialize<FEnc: Fn(T) -> u32 + Copy>(&self, buffer: &mut Vec<u8>, f_enc: FEnc)
        requires
            self.wf(),
            un_ok(f_enc),
        ensures
            exists|seg: Seq<u8>|
                #[trigger] layer_encoding(*self, seg, f_enc) && final(buffer)@ == old(buffer)@
                    + seg,
    {
        match self {
            Layer::Linear(l) => {
                l.serialize(buffer, f_enc);
                proof {
                    let (wb, bb) = choose|wb: Seq<Seq<u32>>, bb: Seq<u32>|
                        #[trigger] encodes_linear(*l, wb, bb, f_enc) && buffer@ == old(buffer)@
                            + linear_bytes(l.spec_inputs() as u64, wb, bb);
                    assert(layer_encoding(
                        *self,
                        linear_bytes(l.spec_inputs() as u64, wb, bb),
                        f_enc,
                    ));
                }
            },
            Layer::Activation(_) => {
                proof {
                    assert(buffer@ =~= old(buffer)@ + Seq::<u8>::empty());
                    assert(layer_encoding(*self, Seq::<u8>::empty(), f_enc));
                }
            },
        }
    }
}

/// `seg` is a binary encoding of the layer's parameters: the frame of a
/// `Linear` layer, nothing for an activation.
pub open spec fn layer_encoding<T, FEnc: Fn(T) -> u32>(
    layer: Layer<T>,
    seg: Seq<u8>,
    f_enc: FEnc,
) -> bool {
    match layer {
        Layer::Linear(l) => exists|wb: Seq<Seq<u32>>, bb: Seq<u32>|
            #[trigger] encodes_linear(l, wb, bb, f_enc) && seg == linear_bytes(
                l.spec_inputs() as u64,
                wb,
                bb,
            ),
        Layer::Activation(_) => seg == Seq::<u8>::empty(),
    }
}

/// Where decoding this layer's segment at `pos` ends, if it parses, has
/// valid shapes, and matches the layer's own configuration; an activation
/// consumes nothing.
pub open spec fn layer_parse_end<T>(layer: Layer<T>, s: Seq<u8>, pos: int) -> Option<int> {
    match layer {
        Layer::Activation(_) => Some(pos),
        Layer::Linear(l) => match parse_linear(s, pos) {
            None => None,
            Some((t, p2)) => if linear_shape_ok(t) && t.0 == l.spec_inputs() && t.1.len()
                == l.spec_outputs() {
                Some(p2)
            } else {
                None
            },
        },
    }
}

/// `after` is `before` with its parameters replaced by a decoding of the
/// frame at `pos`; an activation is untouched.
pub open spec fn layer_decoded<T, FDec: Fn(u32) -> T>(
    before: Layer<T>,
    after: Layer<T>,
    s: Seq<u8>,
    pos: int,
    f_dec: FDec,
) -> bool {
    match (before, after) {
        (Layer::Linear(_), Layer::Linear(b)) => parse_linear(s, pos) is Some && decodes_linear(
            b,
            parse_linear(s, pos).unwrap().0,
            f_dec,
        ),
        (Layer::Activation(_), Layer::Activation(_)) => true,
        _ => false,
    }
}

} // verus!
