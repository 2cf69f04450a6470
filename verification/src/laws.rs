//! Laws of the engine, stated and proved over the relational contracts.
//!
//! Each proof function here states one property of the library as a whole,
//! quantified over all inputs its hypotheses allow. The hypotheses about the
//! caller's scalar operations say no more than each law needs: which results
//! an operation must pin down for the law's conclusion to follow.

use vstd::prelude::*;

use crate::codec::{lemma_parse_linear_of, linear_bytes, parse_linear};
use crate::float_vec::{dot_post, FloatVec};
use crate::layer::{layer_apply_post, linear_part, pg_like, Layer, ParamGradient};
use crate::linear::{
    affine_post, colsum_post, decodes_linear, encodes_linear, sgd_update_post, Linear,
};
use crate::model::{
    backward_trace_ok, column, forward_trace_ok, gradients_for_batch, layers_updated,
    model_backward_post, model_forward_post,
};
use crate::sigmoid::logistic_grad_post;
use crate::ops::{
    bin_covered, bin_det, bin_post, fn2_associative, fn2_commutative, fold_rel,
    lemma_fold_left_multiset, lemma_fold_rel_absorbed, lemma_fold_rel_det,
    lemma_fold_rel_is_fold_left, un_det, un_post, Arith,
};

verus! {

/// Two layers hold exactly the same parameters.
pub open spec fn layer_params_eq<T>(a: Layer<T>, b: Layer<T>) -> bool {
    match (a, b) {
        (Layer::Linear(x), Layer::Linear(y)) => {
            &&& x.spec_inputs() == y.spec_inputs()
            &&& x.weights_view() == y.weights_view()
            &&& x.biases_view() == y.biases_view()
        },
        (Layer::Activation(_), Layer::Activation(_)) => true,
        _ => false,
    }
}

/// A dot product of fixed operands by deterministic operations is unique.
proof fn lemma_dot_post_det<T, FMul: Fn(T, T) -> T, FAdd: Fn(T, T) -> T>(
    f_mul: FMul,
    f_add: FAdd,
    zero: T,
    a: Seq<T>,
    b: Seq<T>,
    r1: T,
    r2: T,
)
    requires
        dot_post(f_mul, f_add, zero, a, b, r1),
        dot_post(f_mul, f_add, zero, a, b, r2),
        bin_det(f_mul),
        bin_det(f_add),
    ensures
        r1 == r2,
{
    let p1 = choose|prods: Seq<T>|
        prods.len() == a.len() && (forall|i: int|
            0 <= i < a.len() ==> bin_post(f_mul, a[i], b[i], #[trigger] prods[i])) && fold_rel(
            f_add,
            zero,
            prods,
            r1,
        );
    let p2 = choose|prods: Seq<T>|
        prods.len() == a.len() && (forall|i: int|
            0 <= i < a.len() ==> bin_post(f_mul, a[i], b[i], #[trigger] prods[i])) && fold_rel(
            f_add,
            zero,
            prods,
            r2,
        );
    assert forall|i: int| 0 <= i < a.len() implies p1[i] == #[trigger] p2[i] by {
        assert(bin_post(f_mul, a[i], b[i], p1[i]));
        assert(bin_post(f_mul, a[i], b[i], p2[i]));
    }
    assert(p1 =~= p2);
    lemma_fold_rel_det(f_add, zero, p1, r1, r2);
}

/// An affine unit's output for fixed operands is unique under deterministic
/// operations.
proof fn lemma_affine_post_det<T, FMul: Fn(T, T) -> T, FAdd: Fn(T, T) -> T>(
    f_mul: FMul,
    f_add: FAdd,
    zero: T,
    bias: T,
    w: Seq<T>,
    x: Seq<T>,
    y1: T,
    y2: T,
)
    requires
        affine_post(f_mul, f_add, zero, bias, w, x, y1),
        affine_post(f_mul, f_add, zero, bias, w, x, y2),
        bin_det(f_mul),
        bin_det(f_add),
    ensures
        y1 == y2,
{
    let d1 = choose|d: T| dot_post(f_mul, f_add, zero, w, x, d) && bin_post(f_add, bias, d, y1);
    let d2 = choose|d: T| dot_post(f_mul, f_add, zero, w, x, d) && bin_post(f_add, bias, d, y2);
    lemma_dot_post_det(f_mul, f_add, zero, w, x, d1, d2);
}

/// One layer's forward output for a fixed input is unique under
/// deterministic operations.
proof fn lemma_layer_forward_det<
    T,
    FAdd: Fn(T, T) -> T,
    FSub: Fn(T, T) -> T,
    FMul: Fn(T, T) -> T,
    FDiv: Fn(T, T) -> T,
    FCnt: Fn(usize) -> T,
    FAct: Fn(T) -> T,
>(
    layer: Layer<T>,
    ops: Arith<T, FAdd, FSub, FMul, FDiv, FCnt, FAct>,
    x: Seq<T>,
    y1: Seq<T>,
    y2: Seq<T>,
)
    requires
        layer.forward_post(ops, x, y1),
        layer.forward_post(ops, x, y2),
        bin_det(ops.add),
        bin_det(ops.mul),
        un_det(ops.act),
    ensures
        y1 == y2,
{
    match layer {
        Layer::Linear(l) => {
            assert forall|j: int| 0 <= j < y1.len() implies y1[j] == #[trigger] y2[j] by {
                lemma_affine_post_det(
                    ops.mul,
                    ops.add,
                    ops.zero,
                    l.biases_view()[j],
                    l.weights_view()[j],
                    x,
                    y1[j],
                    y2[j],
                );
            }
            assert(y1 =~= y2);
        },
        Layer::Activation(_) => {
            assert forall|i: int| 0 <= i < y1.len() implies y1[i] == #[trigger] y2[i] by {
                assert(un_post(ops.act, x[i], y1[i]));
                assert(un_post(ops.act, x[i], y2[i]));
            }
            assert(y1 =~= y2);
        },
    }
}

proof fn lemma_forward_states_det<
    T,
    FAdd: Fn(T, T) -> T,
    FSub: Fn(T, T) -> T,
    FMul: Fn(T, T) -> T,
    FDiv: Fn(T, T) -> T,
    FCnt: Fn(usize) -> T,
    FAct: Fn(T) -> T,
>(
    layers: Seq<Layer<T>>,
    ops: Arith<T, FAdd, FSub, FMul, FDiv, FCnt, FAct>,
    s1: Seq<Seq<T>>,
    s2: Seq<Seq<T>>,
    k: int,
)
    requires
        forward_trace_ok(layers, ops, s1),
        forward_trace_ok(layers, ops, s2),
        s1[0] == s2[0],
        bin_det(ops.add),
        bin_det(ops.mul),
        un_det(ops.act),
        0 <= k < s1.len(),
    ensures
        s1[k] == s2[k],
    decreases k,
{
    if k > 0 {
        lemma_forward_states_det(layers, ops, s1, s2, k - 1);
        assert(layers[k - 1].forward_post(ops, s1[k - 1], s1[(k - 1) + 1]));
        assert(layers[k - 1].forward_post(ops, s2[k - 1], s2[(k - 1) + 1]));
        lemma_layer_forward_det(layers[k - 1], ops, s1[k - 1], s1[k], s2[k]);
    }
}

/// Forward evaluation is a pure function of the parameters and the input:
/// when the scalar operations are deterministic, any two outputs the
/// contract of `Model::forward` admits for the same model and input are
/// equal — so two successive calls with no intervening update return the
/// same vector.
pub proof fn lemma_model_forward_deterministic<
    T,
    FAdd: Fn(T, T) -> T,
    FSub: Fn(T, T) -> T,
    FMul: Fn(T, T) -> T,
    FDiv: Fn(T, T) -> T,
    FCnt: Fn(usize) -> T,
    FAct: Fn(T) -> T,
>(
    layers: Seq<Layer<T>>,
    ops: Arith<T, FAdd, FSub, FMul, FDiv, FCnt, FAct>,
    x: Seq<T>,
    y1: Seq<T>,
    y2: Seq<T>,
)
    requires
        model_forward_post(layers, ops, x, y1),
        model_forward_post(layers, ops, x, y2),
        bin_det(ops.add),
        bin_det(ops.mul),
        un_det(ops.act),
    ensures
        y1 == y2,
{
    let s1 = choose|states: Seq<Seq<T>>|
        #[trigger] forward_trace_ok(layers, ops, states) && states.first() == x && states.last()
            == y1;
    let s2 = choose|states: Seq<Seq<T>>|
        #[trigger] forward_trace_ok(layers, ops, states) && states.first() == x && states.last()
            == y2;
    lemma_forward_states_det(layers, ops, s1, s2, layers.len() as int);
    assert(s1.last() == s1[layers.len() as int]);
    assert(s2.last() == s2[layers.len() as int]);
}

/// A `Linear` layer with all weights and biases equal to `zero` returns an
/// all-`zero` output for any input of the right length, provided multiplying
/// `zero` by anything returns `zero` and adding `zero` to `zero` returns
/// `zero`.
pub proof fn lemma_zero_linear_forward<T, FMul: Fn(T, T) -> T, FAdd: Fn(T, T) -> T>(
    f_mul: FMul,
    f_add: FAdd,
    zero: T,
    l: Linear<T>,
    x: Seq<T>,
    y: Seq<T>,
)
    requires
        l.wf(),
        forall|j: int| 0 <= j < l.spec_outputs() ==> #[trigger] l.biases_view()[j] == zero,
        forall|j: int, i: int|
            0 <= j < l.spec_outputs() && 0 <= i < l.spec_inputs()
                ==> #[trigger] l.weights_view()[j][i] == zero,
        y.len() == l.spec_outputs(),
        forall|j: int|
            0 <= j < l.spec_outputs() ==> affine_post(
                f_mul,
                f_add,
                zero,
                l.biases_view()[j],
                l.weights_view()[j],
                x,
                #[trigger] y[j],
            ),
        forall|b: T, r: T| bin_post(f_mul, zero, b, r) ==> r == zero,
        forall|r: T| bin_post(f_add, zero, zero, r) ==> r == zero,
    ensures
        forall|j: int| 0 <= j < y.len() ==> #[trigger] y[j] == zero,
{
    assert forall|j: int| 0 <= j < y.len() implies #[trigger] y[j] == zero by {
        let w = l.weights_view()[j];
        let d = choose|d: T|
            dot_post(f_mul, f_add, zero, w, x, d) && bin_post(f_add, l.biases_view()[j], d, y[j]);
        let prods = choose|prods: Seq<T>|
            prods.len() == w.len() && (forall|i: int|
                0 <= i < w.len() ==> bin_post(f_mul, w[i], x[i], #[trigger] prods[i]))
                && fold_rel(f_add, zero, prods, d);
        assert forall|i: int| 0 <= i < prods.len() implies #[trigger] prods[i] == zero by {
            assert(bin_post(f_mul, w[i], x[i], prods[i]));
            assert(w[i] == zero);
        }
        lemma_fold_rel_absorbed(f_add, zero, prods, d);
        assert(bin_post(f_add, zero, zero, y[j]));
    }
}

/// An activation layer maps a uniform input to a uniform output: if the
/// activation carries `c` only to `h`, an input of all `c` yields an output
/// of all `h`. With the logistic activation, `c` zero and `h` one half.
pub proof fn lemma_activation_uniform<T, FAct: Fn(T) -> T>(
    f_act: FAct,
    c: T,
    h: T,
    x: Seq<T>,
    y: Seq<T>,
)
    requires
        y.len() == x.len(),
        forall|i: int| 0 <= i < x.len() ==> #[trigger] x[i] == c,
        forall|i: int| 0 <= i < x.len() ==> un_post(f_act, x[i], #[trigger] y[i]),
        forall|r: T| un_post(f_act, c, r) ==> r == h,
    ensures
        forall|i: int| 0 <= i < y.len() ==> #[trigger] y[i] == h,
{
    assert forall|i: int| 0 <= i < y.len() implies #[trigger] y[i] == h by {
        assert(un_post(f_act, x[i], y[i]));
    }
}

/// Round trip: a `Linear` layer's serialized frame parses back to exactly
/// the encoded fields, and a layer decoded from that frame by a decoding
/// that inverts the encoding carries exactly the original parameters — so
/// its forward behavior is identical to the original's.
pub proof fn lemma_linear_roundtrip<T, FEnc: Fn(T) -> u32, FDec: Fn(u32) -> T>(
    l: Linear<T>,
    wb: Seq<Seq<u32>>,
    bb: Seq<u32>,
    f_enc: FEnc,
    f_dec: FDec,
    pre: Seq<u8>,
    buf: Seq<u8>,
    l2: Linear<T>,
)
    requires
        l.wf(),
        encodes_linear(l, wb, bb, f_enc),
        buf == pre + linear_bytes(l.spec_inputs() as u64, wb, bb),
        wb.len() <= u64::MAX,
        bb.len() <= u64::MAX,
        forall|j: int| 0 <= j < wb.len() ==> (#[trigger] wb[j]).len() <= u64::MAX,
        decodes_linear(l2, parse_linear(buf, pre.len() as int).unwrap().0, f_dec),
        forall|x: T, b: u32, y: T|
            #[trigger] un_post(f_enc, x, b) && #[trigger] un_post(f_dec, b, y) ==> y == x,
    ensures
        parse_linear(buf, pre.len() as int) == Some(
            (
                (l.spec_inputs() as u64, wb, bb),
                pre.len() as int + linear_bytes(l.spec_inputs() as u64, wb, bb).len() as int,
            ),
        ),
        l2.spec_inputs() == l.spec_inputs(),
        l2.weights_view() == l.weights_view(),
        l2.biases_view() == l.biases_view(),
{
    let lb = linear_bytes(l.spec_inputs() as u64, wb, bb);
    assert(buf.subrange(pre.len() as int, pre.len() as int + lb.len() as int) =~= lb);
    lemma_parse_linear_of(buf, pre.len() as int, l.spec_inputs() as u64, wb, bb);
    let t = parse_linear(buf, pre.len() as int).unwrap().0;
    assert(t.1 == wb && t.2 == bb);
    assert forall|j: int| 0 <= j < l.weights_view().len() implies #[trigger] l2.weights_view()[j]
        == l.weights_view()[j] by {
        assert forall|i: int| 0 <= i < l.weights_view()[j].len() implies #[trigger] l2.weights_view()[j][i]
            == l.weights_view()[j][i] by {
            assert(un_post(f_enc, l.weights_view()[j][i], wb[j][i]));
            assert(un_post(f_dec, wb[j][i], l2.weights_view()[j][i]));
        }
        assert(l2.weights_view()[j] =~= l.weights_view()[j]);
    }
    assert(l2.weights_view() =~= l.weights_view());
    assert forall|j: int| 0 <= j < l.biases_view().len() implies #[trigger] l2.biases_view()[j]
        == l.biases_view()[j] by {
        assert(un_post(f_enc, l.biases_view()[j], bb[j]));
        assert(un_post(f_dec, bb[j], l2.biases_view()[j]));
    }
    assert(l2.biases_view() =~= l.biases_view());
}

/// One parameter entry is unchanged by a gradient-descent step whose
/// learning rate multiplies everything to `zero` and whose subtraction of
/// `zero` is the identity.
proof fn lemma_sgd_update_zero_rate<
    T,
    FAdd: Fn(T, T) -> T,
    FSub: Fn(T, T) -> T,
    FMul: Fn(T, T) -> T,
    FDiv: Fn(T, T) -> T,
    FCnt: Fn(usize) -> T,
>(
    f_add: FAdd,
    f_sub: FSub,
    f_mul: FMul,
    f_div: FDiv,
    f_cnt: FCnt,
    zero: T,
    n: usize,
    lr: T,
    w0: T,
    col: Seq<T>,
    w1: T,
)
    requires
        sgd_update_post(f_add, f_sub, f_mul, f_div, f_cnt, zero, n, lr, w0, col, w1),
        forall|q: T, r: T| bin_post(f_mul, q, lr, r) ==> r == zero,
        forall|w: T, r: T| bin_post(f_sub, w, zero, r) ==> r == w,
    ensures
        w1 == w0,
{
    let s = choose|s: T|
        #[trigger] fold_rel(f_add, zero, col, s) && exists|nv: T|
            #[trigger] un_post(f_cnt, n, nv) && exists|q: T|
                #[trigger] bin_post(f_div, s, nv, q) && exists|d: T|
                    #[trigger] bin_post(f_mul, q, lr, d) && bin_post(f_sub, w0, d, w1);
    let nv = choose|nv: T|
        #[trigger] un_post(f_cnt, n, nv) && exists|q: T|
            #[trigger] bin_post(f_div, s, nv, q) && exists|d: T|
                #[trigger] bin_post(f_mul, q, lr, d) && bin_post(f_sub, w0, d, w1);
    let q = choose|q: T|
        #[trigger] bin_post(f_div, s, nv, q) && exists|d: T|
            #[trigger] bin_post(f_mul, q, lr, d) && bin_post(f_sub, w0, d, w1);
    let d = choose|d: T| #[trigger] bin_post(f_mul, q, lr, d) && bin_post(f_sub, w0, d, w1);
    assert(d == zero);
    assert(bin_post(f_sub, w0, zero, w1));
}

/// A weighted column sum for fixed operands is unique under deterministic
/// operations.
proof fn lemma_colsum_post_det<T, FMul: Fn(T, T) -> T, FAdd: Fn(T, T) -> T>(
    f_mul: FMul,
    f_add: FAdd,
    zero: T,
    w: Seq<Seq<T>>,
    og: Seq<T>,
    i: int,
    y1: T,
    y2: T,
)
    requires
        colsum_post(f_mul, f_add, zero, w, og, i, y1),
        colsum_post(f_mul, f_add, zero, w, og, i, y2),
        bin_det(f_mul),
        bin_det(f_add),
    ensures
        y1 == y2,
{
    let c1 = choose|col: Seq<T>|
        col.len() == w.len() && (forall|j: int|
            0 <= j < w.len() ==> bin_post(f_mul, w[j][i], og[j], #[trigger] col[j])) && fold_rel(
            f_add,
            zero,
            col,
            y1,
        );
    let c2 = choose|col: Seq<T>|
        col.len() == w.len() && (forall|j: int|
            0 <= j < w.len() ==> bin_post(f_mul, w[j][i], og[j], #[trigger] col[j])) && fold_rel(
            f_add,
            zero,
            col,
            y2,
        );
    assert forall|j: int| 0 <= j < w.len() implies c1[j] == #[trigger] c2[j] by {
        assert(bin_post(f_mul, w[j][i], og[j], c1[j]));
        assert(bin_post(f_mul, w[j][i], og[j], c2[j]));
    }
    assert(c1 =~= c2);
    lemma_fold_rel_det(f_add, zero, c1, y1, y2);
}

/// A chain-rule gradient through the activation for fixed operands is
/// unique under deterministic operations.
proof fn lemma_logistic_grad_det<
    T,
    FAct: Fn(T) -> T,
    FMul: Fn(T, T) -> T,
    FSub: Fn(T, T) -> T,
>(f_act: FAct, f_mul: FMul, f_sub: FSub, one: T, x: T, g: T, y1: T, y2: T)
    requires
        logistic_grad_post(f_act, f_mul, f_sub, one, x, g, y1),
        logistic_grad_post(f_act, f_mul, f_sub, one, x, g, y2),
        un_det(f_act),
        bin_det(f_mul),
        bin_det(f_sub),
    ensures
        y1 == y2,
{
    let s1 = choose|s: T|
        #[trigger] un_post(f_act, x, s) && exists|u: T|
            #[trigger] bin_post(f_sub, one, s, u) && exists|v: T|
                #[trigger] bin_post(f_mul, s, u, v) && bin_post(f_mul, v, g, y1);
    let u1 = choose|u: T|
        #[trigger] bin_post(f_sub, one, s1, u) && exists|v: T|
            #[trigger] bin_post(f_mul, s1, u, v) && bin_post(f_mul, v, g, y1);
    let v1 = choose|v: T| #[trigger] bin_post(f_mul, s1, u1, v) && bin_post(f_mul, v, g, y1);
    let s2 = choose|s: T|
        #[trigger] un_post(f_act, x, s) && exists|u: T|
            #[trigger] bin_post(f_sub, one, s, u) && exists|v: T|
                #[trigger] bin_post(f_mul, s, u, v) && bin_post(f_mul, v, g, y2);
    let u2 = choose|u: T|
        #[trigger] bin_post(f_sub, one, s2, u) && exists|v: T|
            #[trigger] bin_post(f_mul, s2, u, v) && bin_post(f_mul, v, g, y2);
    let v2 = choose|v: T| #[trigger] bin_post(f_mul, s2, u2, v) && bin_post(f_mul, v, g, y2);
    assert(s1 == s2);
    assert(u1 == u2);
    assert(v1 == v2);
}

/// One layer's propagated input gradient for fixed operands is unique under
/// deterministic operations.
proof fn lemma_layer_input_grad_det<
    T,
    FAdd: Fn(T, T) -> T,
    FSub: Fn(T, T) -> T,
    FMul: Fn(T, T) -> T,
    FDiv: Fn(T, T) -> T,
    FCnt: Fn(usize) -> T,
    FAct: Fn(T) -> T,
>(
    layer: Layer<T>,
    ops: Arith<T, FAdd, FSub, FMul, FDiv, FCnt, FAct>,
    x: Seq<T>,
    g: Seq<T>,
    y1: Seq<T>,
    y2: Seq<T>,
)
    requires
        layer.input_grad_post(ops, x, g, y1),
        layer.input_grad_post(ops, x, g, y2),
        bin_det(ops.add),
        bin_det(ops.sub),
        bin_det(ops.mul),
        un_det(ops.act),
    ensures
        y1 == y2,
{
    match layer {
        Layer::Linear(l) => {
            assert forall|i: int| 0 <= i < y1.len() implies y1[i] == #[trigger] y2[i] by {
                lemma_colsum_post_det(
                    ops.mul,
                    ops.add,
                    ops.zero,
                    l.weights_view(),
                    g,
                    i,
                    y1[i],
                    y2[i],
                );
            }
            assert(y1 =~= y2);
        },
        Layer::Activation(_) => {
            assert forall|i: int| 0 <= i < y1.len() implies y1[i] == #[trigger] y2[i] by {
                lemma_logistic_grad_det(
                    ops.act,
                    ops.mul,
                    ops.sub,
                    ops.one,
                    x[i],
                    g[i],
                    y1[i],
                    y2[i],
                );
            }
            assert(y1 =~= y2);
        },
    }
}

/// One layer's parameter gradient for fixed operands has unique content
/// under deterministic operations.
proof fn lemma_layer_param_grad_like<
    T,
    FAdd: Fn(T, T) -> T,
    FSub: Fn(T, T) -> T,
    FMul: Fn(T, T) -> T,
    FDiv: Fn(T, T) -> T,
    FCnt: Fn(usize) -> T,
    FAct: Fn(T) -> T,
>(
    layer: Layer<T>,
    ops: Arith<T, FAdd, FSub, FMul, FDiv, FCnt, FAct>,
    x: Seq<T>,
    g: Seq<T>,
    pg1: ParamGradient<T>,
    pg2: ParamGradient<T>,
)
    requires
        layer.param_grad_post(ops, x, g, pg1),
        layer.param_grad_post(ops, x, g, pg2),
        bin_det(ops.mul),
    ensures
        pg_like(pg1, pg2),
{
    match layer {
        Layer::Linear(l) => {
            let a = linear_part(pg1);
            let b = linear_part(pg2);
            assert forall|j: int| 0 <= j < l.spec_outputs() implies #[trigger] a.wg_view()[j]
                == b.wg_view()[j] by {
                assert forall|i: int| 0 <= i < l.spec_inputs() implies #[trigger] a.wg_view()[j][i]
                    == b.wg_view()[j][i] by {
                    assert(bin_post(ops.mul, x[i], g[j], a.wg_view()[j][i]));
                    assert(bin_post(ops.mul, x[i], g[j], b.wg_view()[j][i]));
                }
                assert(a.wg_view()[j].len() == l.spec_inputs());
                assert(b.wg_view()[j].len() == l.spec_inputs());
                assert(a.wg_view()[j] =~= b.wg_view()[j]);
            }
            assert(a.wg_view() =~= b.wg_view());
        },
        Layer::Activation(_) => {},
    }
}

/// A backward pass is deterministic up to gradient content: any two
/// gradient lists the contract admits for one example carry the same
/// values, entry by entry.
proof fn lemma_backward_det<
    T,
    FAdd: Fn(T, T) -> T,
    FSub: Fn(T, T) -> T,
    FMul: Fn(T, T) -> T,
    FDiv: Fn(T, T) -> T,
    FCnt: Fn(usize) -> T,
    FAct: Fn(T) -> T,
>(
    layers: Seq<Layer<T>>,
    ops: Arith<T, FAdd, FSub, FMul, FDiv, FCnt, FAct>,
    x: Seq<T>,
    target: Seq<T>,
    pgs1: Seq<ParamGradient<T>>,
    pgs2: Seq<ParamGradient<T>>,
)
    requires
        model_backward_post(layers, ops, x, target, pgs1),
        model_backward_post(layers, ops, x, target, pgs2),
        pgs1.len() == layers.len(),
        pgs2.len() == layers.len(),
        bin_det(ops.add),
        bin_det(ops.sub),
        bin_det(ops.mul),
        un_det(ops.act),
    ensures
        forall|l: int| 0 <= l < layers.len() ==> pg_like(#[trigger] pgs1[l], pgs2[l]),
{
    let n = layers.len() as int;
    let (acts1, grads1) = choose|acts: Seq<Seq<T>>, grads: Seq<Seq<T>>|
        #[trigger] backward_trace_ok(layers, ops, x, target, pgs1, acts, grads);
    let (acts2, grads2) = choose|acts: Seq<Seq<T>>, grads: Seq<Seq<T>>|
        #[trigger] backward_trace_ok(layers, ops, x, target, pgs2, acts, grads);
    assert(forward_trace_ok(layers, ops, acts1));
    assert(forward_trace_ok(layers, ops, acts2));
    assert forall|k: int| 0 <= k < acts1.len() implies acts1[k] == #[trigger] acts2[k] by {
        lemma_forward_states_det(layers, ops, acts1, acts2, k);
    }
    assert(acts1 =~= acts2);
    assert forall|k: int| 0 <= k <= n implies grads1[k] == #[trigger] grads2[k] by {
        lemma_backward_grads_det(layers, ops, acts1, target, grads1, grads2, k);
    }
    assert forall|l: int| 0 <= l < layers.len() implies pg_like(#[trigger] pgs1[l], pgs2[l]) by {
        assert(layers[l].param_grad_post(ops, acts1[l], grads1[l + 1], pgs1[l]));
        assert(layers[l].param_grad_post(ops, acts2[l], grads2[l + 1], pgs2[l]));
        lemma_layer_param_grad_like(layers[l], ops, acts1[l], grads1[l + 1], pgs1[l], pgs2[l]);
    }
}

proof fn lemma_backward_grads_det<
    T,
    FAdd: Fn(T, T) -> T,
    FSub: Fn(T, T) -> T,
    FMul: Fn(T, T) -> T,
    FDiv: Fn(T, T) -> T,
    FCnt: Fn(usize) -> T,
    FAct: Fn(T) -> T,
>(
    layers: Seq<Layer<T>>,
    ops: Arith<T, FAdd, FSub, FMul, FDiv, FCnt, FAct>,
    acts: Seq<Seq<T>>,
    target: Seq<T>,
    grads1: Seq<Seq<T>>,
    grads2: Seq<Seq<T>>,
    k: int,
)
    requires
        grads1.len() == layers.len() + 1,
        grads2.len() == layers.len() + 1,
        grads1[layers.len() as int].len() == target.len(),
        grads2[layers.len() as int].len() == target.len(),
        forall|i: int|
            0 <= i < target.len() ==> bin_post(
                ops.sub,
                acts[layers.len() as int][i],
                target[i],
                #[trigger] grads1[layers.len() as int][i],
            ),
        forall|i: int|
            0 <= i < target.len() ==> bin_post(
                ops.sub,
                acts[layers.len() as int][i],
                target[i],
                #[trigger] grads2[layers.len() as int][i],
            ),
        forall|t: int|
            0 <= t < layers.len() ==> layers[t].input_grad_post(
                ops,
                acts[t],
                grads1[t + 1],
                #[trigger] grads1[t],
            ),
        forall|t: int|
            0 <= t < layers.len() ==> layers[t].input_grad_post(
                ops,
                acts[t],
                grads2[t + 1],
                #[trigger] grads2[t],
            ),
        bin_det(ops.add),
        bin_det(ops.sub),
        bin_det(ops.mul),
        un_det(ops.act),
        0 <= k <= layers.len(),
    ensures
        grads1[k] == grads2[k],
    decreases layers.len() - k,
{
    let n = layers.len() as int;
    if k == n {
        assert forall|i: int| 0 <= i < target.len() implies grads1[n][i]
            == #[trigger] grads2[n][i] by {
            assert(bin_post(ops.sub, acts[n][i], target[i], grads1[n][i]));
            assert(bin_post(ops.sub, acts[n][i], target[i], grads2[n][i]));
        }
        assert(grads1[n] =~= grads2[n]);
    } else {
        lemma_backward_grads_det(layers, ops, acts, target, grads1, grads2, k + 1);
        assert(layers[k].input_grad_post(ops, acts[k], grads1[k + 1], grads1[k]));
        assert(layers[k].input_grad_post(ops, acts[k], grads2[k + 1], grads2[k]));
        lemma_layer_input_grad_det(layers[k], ops, acts[k], grads1[k + 1], grads1[k], grads2[k]);
    }
}

/// A sequence read off through a bijective reindexing holds the same
/// elements as the original.
proof fn lemma_reindex_multiset<A>(s: Seq<A>, perm: Seq<int>)
    requires
        perm.len() == s.len(),
        forall|k: int| 0 <= k < perm.len() ==> 0 <= #[trigger] perm[k] < s.len(),
        forall|k1: int, k2: int|
            0 <= k1 < perm.len() && 0 <= k2 < perm.len() && k1 != k2 ==> #[trigger] perm[k1]
                != #[trigger] perm[k2],
    ensures
        Seq::new(s.len(), |k: int| s[perm[k]]).to_multiset() == s.to_multiset(),
    decreases s.len(),
{
    let n = s.len() as int;
    let mapped = Seq::new(s.len(), |k: int| s[perm[k]]);
    s.to_multiset_ensures();
    mapped.to_multiset_ensures();
    if n == 0 {
        assert(mapped =~= Seq::<A>::empty());
        assert(s =~= Seq::<A>::empty());
    } else {
        let p = perm[n - 1];
        let shorter = s.remove(p);
        let smaller = Seq::new((n - 1) as nat, |k: int| if perm[k] < p {
            perm[k]
        } else {
            perm[k] - 1
        });
        assert forall|k: int| 0 <= k < smaller.len() implies 0 <= #[trigger] smaller[k]
            < shorter.len() by {
            assert(perm[k] != p);
        }
        assert forall|k1: int, k2: int|
            0 <= k1 < smaller.len() && 0 <= k2 < smaller.len() && k1 != k2 implies #[trigger] smaller[k1]
            != #[trigger] smaller[k2] by {
            assert(perm[k1] != perm[k2]);
            assert(perm[k1] != p);
            assert(perm[k2] != p);
        }
        assert forall|m: int| 0 <= m < shorter.len() implies #[trigger] shorter[m] == (if m < p {
            s[m]
        } else {
            s[m + 1]
        }) by {}
        lemma_reindex_multiset(shorter, smaller);
        let inner = Seq::new(shorter.len(), |k: int| shorter[smaller[k]]);
        assert forall|k: int| 0 <= k < n - 1 implies #[trigger] inner[k] == mapped[k] by {
            assert(perm[k] != p);
            if perm[k] < p {
                assert(shorter[smaller[k]] == s[perm[k]]);
            } else {
                assert(smaller[k] == perm[k] - 1);
                assert(shorter[perm[k] - 1] == s[perm[k]]);
            }
        }
        assert(inner =~= mapped.drop_last());
        shorter.to_multiset_ensures();
        inner.to_multiset_ensures();
        assert(mapped =~= mapped.drop_last().push(s[p]));
        assert(mapped.to_multiset() =~= mapped.drop_last().to_multiset().insert(s[p]));
        assert(shorter.to_multiset() =~= s.to_multiset().remove(s[p]));
        assert(s.contains(s[p]));
        assert(s.to_multiset().count(s[p]) > 0);
        assert forall|y: A| true implies mapped.to_multiset().count(y) == s.to_multiset().count(
            y,
        ) by {
            assert(mapped.drop_last().to_multiset().count(y) == s.to_multiset().remove(
                s[p],
            ).count(y));
        }
        assert(mapped.to_multiset() =~= s.to_multiset());
    }
}

/// Permuting the order of examples within a batch produces an identical
/// resulting parameter state: when the scalar operations are deterministic
/// and addition computes a commutative, associative function, two training
/// steps on batches that hold the same examples, in any orders, update
/// every layer to the same parameters.
pub proof fn lemma_train_step_permutation<
    T,
    FAdd: Fn(T, T) -> T,
    FSub: Fn(T, T) -> T,
    FMul: Fn(T, T) -> T,
    FDiv: Fn(T, T) -> T,
    FCnt: Fn(usize) -> T,
    FAct: Fn(T) -> T,
>(
    old_layers: Seq<Layer<T>>,
    ops: Arith<T, FAdd, FSub, FMul, FDiv, FCnt, FAct>,
    lr: T,
    batch1: Seq<(FloatVec<T>, FloatVec<T>)>,
    batch2: Seq<(FloatVec<T>, FloatVec<T>)>,
    raw1: Seq<Seq<ParamGradient<T>>>,
    raw2: Seq<Seq<ParamGradient<T>>>,
    new1: Seq<Layer<T>>,
    new2: Seq<Layer<T>>,
    perm: Seq<int>,
    g_add: spec_fn(T, T) -> T,
)
    requires
        forall|l: int| 0 <= l < old_layers.len() ==> (#[trigger] old_layers[l]).wf(),
        gradients_for_batch(old_layers, ops, batch1, raw1),
        gradients_for_batch(old_layers, ops, batch2, raw2),
        layers_updated(old_layers, ops, lr, raw1, new1),
        layers_updated(old_layers, ops, lr, raw2, new2),
        batch2.len() == batch1.len(),
        perm.len() == batch1.len(),
        forall|k: int| 0 <= k < perm.len() ==> 0 <= #[trigger] perm[k] < batch1.len(),
        forall|k1: int, k2: int|
            0 <= k1 < perm.len() && 0 <= k2 < perm.len() && k1 != k2 ==> #[trigger] perm[k1]
                != #[trigger] perm[k2],
        forall|k: int|
            0 <= k < batch2.len() ==> (#[trigger] batch2[k]).0@ == batch1[perm[k]].0@
                && batch2[k].1@ == batch1[perm[k]].1@,
        bin_covered(ops.add, g_add),
        fn2_commutative(g_add),
        fn2_associative(g_add),
        bin_det(ops.add),
        bin_det(ops.sub),
        bin_det(ops.mul),
        bin_det(ops.divide),
        un_det(ops.act),
        un_det(ops.count),
    ensures
        forall|l: int| 0 <= l < old_layers.len() ==> layer_params_eq(#[trigger] new1[l], new2[l]),
{
    let n = batch1.len() as int;
    assert forall|k: int, l: int|
        0 <= k < n && 0 <= l < old_layers.len() implies pg_like(
        #[trigger] raw2[k][l],
        raw1[perm[k]][l],
    ) by {
        assert(model_backward_post(old_layers, ops, batch2[k].0@, batch2[k].1@, raw2[k]));
        assert(model_backward_post(
            old_layers,
            ops,
            batch1[perm[k]].0@,
            batch1[perm[k]].1@,
            raw1[perm[k]],
        ));
        lemma_backward_det(
            old_layers,
            ops,
            batch2[k].0@,
            batch2[k].1@,
            raw2[k],
            raw1[perm[k]],
        );
    }
    assert forall|l: int| 0 <= l < old_layers.len() implies layer_params_eq(
        #[trigger] new1[l],
        new2[l],
    ) by {
        let gs1 = column(raw1, l);
        let gs2 = column(raw2, l);
        assert forall|j: int, i: int|
            #[trigger] crate::layer::wg_col(gs1, j, i).to_multiset() == crate::layer::wg_col(
            gs2,
            j,
            i,
        ).to_multiset() by {
            let c1 = crate::layer::wg_col(gs1, j, i);
            let c2 = crate::layer::wg_col(gs2, j, i);
            assert forall|k: int| 0 <= k < n implies #[trigger] c2[k] == c1[perm[k]] by {
                assert(pg_like(raw2[k][l], raw1[perm[k]][l]));
            }
            assert(c2 =~= Seq::new(c1.len(), |k: int| c1[perm[k]]));
            lemma_reindex_multiset(c1, perm);
        }
        assert forall|j: int|
            #[trigger] crate::layer::bg_col(gs1, j).to_multiset() == crate::layer::bg_col(
            gs2,
            j,
        ).to_multiset() by {
            let c1 = crate::layer::bg_col(gs1, j);
            let c2 = crate::layer::bg_col(gs2, j);
            assert forall|k: int| 0 <= k < n implies #[trigger] c2[k] == c1[perm[k]] by {
                assert(pg_like(raw2[k][l], raw1[perm[k]][l]));
            }
            assert(c2 =~= Seq::new(c1.len(), |k: int| c1[perm[k]]));
            lemma_reindex_multiset(c1, perm);
        }
        lemma_apply_gradients_order_independent(
            old_layers[l],
            ops,
            lr,
            gs1,
            gs2,
            new1[l],
            new2[l],
            g_add,
        );
    }
}

/// Two gradient-descent steps agree on a parameter entry when their
/// per-example contributions hold the same values in any orders: summation
/// by a commutative, associative addition does not see the order.
proof fn lemma_sgd_update_multiset<
    T,
    FAdd: Fn(T, T) -> T,
    FSub: Fn(T, T) -> T,
    FMul: Fn(T, T) -> T,
    FDiv: Fn(T, T) -> T,
    FCnt: Fn(usize) -> T,
>(
    f_add: FAdd,
    f_sub: FSub,
    f_mul: FMul,
    f_div: FDiv,
    f_cnt: FCnt,
    g_add: spec_fn(T, T) -> T,
    zero: T,
    n: usize,
    lr: T,
    w0: T,
    col1: Seq<T>,
    col2: Seq<T>,
    w1a: T,
    w1b: T,
)
    requires
        sgd_update_post(f_add, f_sub, f_mul, f_div, f_cnt, zero, n, lr, w0, col1, w1a),
        sgd_update_post(f_add, f_sub, f_mul, f_div, f_cnt, zero, n, lr, w0, col2, w1b),
        col1.to_multiset() == col2.to_multiset(),
        bin_covered(f_add, g_add),
        fn2_commutative(g_add),
        fn2_associative(g_add),
        bin_det(f_div),
        bin_det(f_mul),
        bin_det(f_sub),
        un_det(f_cnt),
    ensures
        w1a == w1b,
{
    let s_a = choose|s: T|
        #[trigger] fold_rel(f_add, zero, col1, s) && exists|nv: T|
            #[trigger] un_post(f_cnt, n, nv) && exists|q: T|
                #[trigger] bin_post(f_div, s, nv, q) && exists|d: T|
                    #[trigger] bin_post(f_mul, q, lr, d) && bin_post(f_sub, w0, d, w1a);
    let nv_a = choose|nv: T|
        #[trigger] un_post(f_cnt, n, nv) && exists|q: T|
            #[trigger] bin_post(f_div, s_a, nv, q) && exists|d: T|
                #[trigger] bin_post(f_mul, q, lr, d) && bin_post(f_sub, w0, d, w1a);
    let q_a = choose|q: T|
        #[trigger] bin_post(f_div, s_a, nv_a, q) && exists|d: T|
            #[trigger] bin_post(f_mul, q, lr, d) && bin_post(f_sub, w0, d, w1a);
    let d_a = choose|d: T| #[trigger] bin_post(f_mul, q_a, lr, d) && bin_post(f_sub, w0, d, w1a);
    let s_b = choose|s: T|
        #[trigger] fold_rel(f_add, zero, col2, s) && exists|nv: T|
            #[trigger] un_post(f_cnt, n, nv) && exists|q: T|
                #[trigger] bin_post(f_div, s, nv, q) && exists|d: T|
                    #[trigger] bin_post(f_mul, q, lr, d) && bin_post(f_sub, w0, d, w1b);
    let nv_b = choose|nv: T|
        #[trigger] un_post(f_cnt, n, nv) && exists|q: T|
            #[trigger] bin_post(f_div, s_b, nv, q) && exists|d: T|
                #[trigger] bin_post(f_mul, q, lr, d) && bin_post(f_sub, w0, d, w1b);
    let q_b = choose|q: T|
        #[trigger] bin_post(f_div, s_b, nv_b, q) && exists|d: T|
            #[trigger] bin_post(f_mul, q, lr, d) && bin_post(f_sub, w0, d, w1b);
    let d_b = choose|d: T| #[trigger] bin_post(f_mul, q_b, lr, d) && bin_post(f_sub, w0, d, w1b);
    lemma_fold_rel_is_fold_left(f_add, g_add, zero, col1, s_a);
    lemma_fold_rel_is_fold_left(f_add, g_add, zero, col2, s_b);
    lemma_fold_left_multiset(col1, col2, zero, g_add);
    assert(s_a == s_b);
    assert(nv_a == nv_b);
    assert(q_a == q_b);
    assert(d_a == d_b);
}

/// Aggregation is order-independent: two updates of one layer from
/// per-example gradient lists that hold the same contributions, in any
/// orders, produce identical parameters — addition being commutative and
/// associative, the order in which the batch's results are combined cannot
/// affect the outcome.
pub proof fn lemma_apply_gradients_order_independent<
    T,
    FAdd: Fn(T, T) -> T,
    FSub: Fn(T, T) -> T,
    FMul: Fn(T, T) -> T,
    FDiv: Fn(T, T) -> T,
    FCnt: Fn(usize) -> T,
    FAct: Fn(T) -> T,
>(
    before: Layer<T>,
    ops: Arith<T, FAdd, FSub, FMul, FDiv, FCnt, FAct>,
    lr: T,
    gs1: Seq<crate::layer::ParamGradient<T>>,
    gs2: Seq<crate::layer::ParamGradient<T>>,
    after1: Layer<T>,
    after2: Layer<T>,
    g_add: spec_fn(T, T) -> T,
)
    requires
        before.wf(),
        layer_apply_post(before, ops, lr, gs1, after1),
        layer_apply_post(before, ops, lr, gs2, after2),
        gs1.len() == gs2.len(),
        forall|j: int, i: int|
            #[trigger] crate::layer::wg_col(gs1, j, i).to_multiset() == crate::layer::wg_col(
                gs2,
                j,
                i,
            ).to_multiset(),
        forall|j: int|
            #[trigger] crate::layer::bg_col(gs1, j).to_multiset() == crate::layer::bg_col(
                gs2,
                j,
            ).to_multiset(),
        bin_covered(ops.add, g_add),
        fn2_commutative(g_add),
        fn2_associative(g_add),
        bin_det(ops.divide),
        bin_det(ops.mul),
        bin_det(ops.sub),
        un_det(ops.count),
    ensures
        layer_params_eq(after1, after2),
{
    match (before, after1, after2) {
        (Layer::Linear(a), Layer::Linear(b1), Layer::Linear(b2)) => {
            assert(a.wf());
            assert(b1.wf());
            assert(b2.wf());
            assert forall|j: int| 0 <= j < a.spec_outputs() implies #[trigger] b1.biases_view()[j]
                == b2.biases_view()[j] by {
                lemma_sgd_update_multiset(
                    ops.add,
                    ops.sub,
                    ops.mul,
                    ops.divide,
                    ops.count,
                    g_add,
                    ops.zero,
                    gs1.len() as usize,
                    lr,
                    a.biases_view()[j],
                    crate::layer::bg_col(gs1, j),
                    crate::layer::bg_col(gs2, j),
                    b1.biases_view()[j],
                    b2.biases_view()[j],
                );
            }
            assert forall|j: int| 0 <= j < a.spec_outputs() implies #[trigger] b1.weights_view()[j]
                == b2.weights_view()[j] by {
                assert(b1.weights_view()[j].len() == b1.spec_inputs());
                assert(b2.weights_view()[j].len() == b2.spec_inputs());
                assert forall|i: int| 0 <= i < a.spec_inputs() implies #[trigger] b1.weights_view()[j][i]
                    == b2.weights_view()[j][i] by {
                    lemma_sgd_update_multiset(
                        ops.add,
                        ops.sub,
                        ops.mul,
                        ops.divide,
                        ops.count,
                        g_add,
                        ops.zero,
                        gs1.len() as usize,
                        lr,
                        a.weights_view()[j][i],
                        crate::layer::wg_col(gs1, j, i),
                        crate::layer::wg_col(gs2, j, i),
                        b1.weights_view()[j][i],
                        b2.weights_view()[j][i],
                    );
                }
                assert(b1.weights_view()[j] =~= b2.weights_view()[j]);
            }
            assert(b1.weights_view() =~= b2.weights_view());
            assert(b1.biases_view() =~= b2.biases_view());
        },
        (Layer::Activation(_), Layer::Activation(_), Layer::Activation(_)) => {},
        _ => {
            assert(false);
        },
    }
}

/// A training step whose learning rate is `zero` leaves every layer's
/// parameters unchanged, for any batch: the hypotheses say only that
/// multiplying by the zero rate returns `zero` and that subtracting `zero`
/// changes nothing.
pub proof fn lemma_train_step_zero_rate<
    T,
    FAdd: Fn(T, T) -> T,
    FSub: Fn(T, T) -> T,
    FMul: Fn(T, T) -> T,
    FDiv: Fn(T, T) -> T,
    FCnt: Fn(usize) -> T,
    FAct: Fn(T) -> T,
>(
    old_layers: Seq<Layer<T>>,
    ops: Arith<T, FAdd, FSub, FMul, FDiv, FCnt, FAct>,
    lr: T,
    raw: Seq<Seq<crate::layer::ParamGradient<T>>>,
    new_layers: Seq<Layer<T>>,
)
    requires
        forall|l: int| 0 <= l < old_layers.len() ==> (#[trigger] old_layers[l]).wf(),
        layers_updated(old_layers, ops, lr, raw, new_layers),
        forall|q: T, r: T| bin_post(ops.mul, q, lr, r) ==> r == ops.zero,
        forall|w: T, r: T| bin_post(ops.sub, w, ops.zero, r) ==> r == w,
    ensures
        forall|l: int|
            0 <= l < old_layers.len() ==> layer_params_eq(old_layers[l], #[trigger] new_layers[l]),
{
    assert forall|l: int| 0 <= l < old_layers.len() implies layer_params_eq(
        old_layers[l],
        #[trigger] new_layers[l],
    ) by {
        assert(layer_apply_post(old_layers[l], ops, lr, crate::model::column(raw, l), new_layers[l]));
        match (old_layers[l], new_layers[l]) {
            (Layer::Linear(a), Layer::Linear(b)) => {
                let gs = crate::model::column(raw, l);
                assert(a.wf());
                assert(b.wf());
                assert forall|j: int| 0 <= j < a.spec_outputs() implies #[trigger] b.weights_view()[j]
                    == a.weights_view()[j] && b.biases_view()[j] == a.biases_view()[j] by {
                    assert(a.weights_view()[j].len() == a.spec_inputs());
                    assert(b.weights_view()[j].len() == b.spec_inputs());
                    assert forall|i: int| 0 <= i < a.spec_inputs() implies #[trigger] b.weights_view()[j][i]
                        == a.weights_view()[j][i] by {
                        lemma_sgd_update_zero_rate(
                            ops.add,
                            ops.sub,
                            ops.mul,
                            ops.divide,
                            ops.count,
                            ops.zero,
                            gs.len() as usize,
                            lr,
                            a.weights_view()[j][i],
                            crate::layer::wg_col(gs, j, i),
                            b.weights_view()[j][i],
                        );
                    }
                    assert(b.weights_view()[j] =~= a.weights_view()[j]);
                    lemma_sgd_update_zero_rate(
                        ops.add,
                        ops.sub,
                        ops.mul,
                        ops.divide,
                        ops.count,
                        ops.zero,
                        gs.len() as usize,
                        lr,
                        a.biases_view()[j],
                        crate::layer::bg_col(gs, j),
                        b.biases_view()[j],
                    );
                }
                assert(b.weights_view() =~= a.weights_view());
                assert(b.biases_view() =~= a.biases_view());
            },
            (Layer::Activation(_), Layer::Activation(_)) => {},
            _ => {
                assert(false);
            },
        }
    }
}

} // verus!
