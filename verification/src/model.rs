//! The model: an ordered stack of layers, and the training engine over it.
//!
//! Forward evaluation folds the input through the stack in order. Training
//! runs one backward pass per example — a forward pass that records every
//! layer's input, a terminal gradient of `prediction - target`, and a reverse
//! sweep computing each layer's parameter and input gradients — then groups
//! the per-example gradients by layer and applies one averaged update to each
//! layer in turn.

use vstd::prelude::*;

use rayon::iter::{IntoParallelRefIterator, ParallelIterator};

use crate::codec::{
    concat_bytes, lemma_concat_bytes_push, parse_u32_at, read_u32_le, write_u32_le, DecodeError,
};
use crate::float_vec::FloatVec;
use crate::layer::{
    layer_apply_post, layer_decoded, layer_encoding, layer_parse_end, linear_part, pg_like, Layer,
    ParamGradient,
};
use crate::linear::Linear;
use crate::ops::{arith_ok, bin_post, un_ok, Arith};
use crate::sigmoid::Sigmoid;

verus! {

/// A stack of layers, evaluated and trained in order.
pub struct Model<T> {
    pub layers: Vec<Layer<T>>,
}

/// Every layer's shapes line up when an input of length `n` is fed through
/// `layers` in order.
pub open spec fn chain_ok<T>(layers: Seq<Layer<T>>, n: int) -> bool
    decreases layers.len(),
{
    if layers.len() == 0 {
        true
    } else {
        layers[0].in_ok(n) && chain_ok(layers.drop_first(), layers[0].out_len(n))
    }
}

/// The length of the output that falls out of feeding an input of length `n`
/// through `layers` in order.
pub open spec fn chain_out_len<T>(layers: Seq<Layer<T>>, n: int) -> int
    decreases layers.len(),
{
    if layers.len() == 0 {
        n
    } else {
        chain_out_len(layers.drop_first(), layers[0].out_len(n))
    }
}

/// Peeling one layer off the front of a chain.
pub proof fn lemma_chain_step<T>(layers: Seq<Layer<T>>, k: int, n: int)
    requires
        0 <= k < layers.len(),
        chain_ok(layers.skip(k), n),
    ensures
        layers[k].in_ok(n),
        chain_ok(layers.skip(k + 1), layers[k].out_len(n)),
        chain_out_len(layers.skip(k), n) == chain_out_len(
            layers.skip(k + 1),
            layers[k].out_len(n),
        ),
{
    assert(layers.skip(k)[0] == layers[k]);
    assert(layers.skip(k).drop_first() =~= layers.skip(k + 1));
}

/// `states` records the activations of a forward pass through `layers`: it
/// starts at the model input, and each layer maps one state to the next.
pub open spec fn forward_trace_ok<
    T,
    FAdd: Fn(T, T) -> T,
    FSub: Fn(T, T) -> T,
    FMul: Fn(T, T) -> T,
    FDiv: Fn(T, T) -> T,
    FCnt: Fn(usize) -> T,
    FAct: Fn(T) -> T,
>(
    layers: Seq<Layer<T>>,
    ops: Arith<T, FAdd, FSub, FMul, FDiv, FCnt, FAct>,
    states: Seq<Seq<T>>,
) -> bool {
    &&& states.len() == layers.len() + 1
    &&& forall|k: int|
        0 <= k < layers.len() ==> layers[k].forward_post(ops, states[k], #[trigger] states[k + 1])
}

/// `y` is a forward evaluation of the whole stack on `x`.
pub open spec fn model_forward_post<
    T,
    FAdd: Fn(T, T) -> T,
    FSub: Fn(T, T) -> T,
    FMul: Fn(T, T) -> T,
    FDiv: Fn(T, T) -> T,
    FCnt: Fn(usize) -> T,
    FAct: Fn(T) -> T,
>(
    layers: Seq<Layer<T>>,
    ops: Arith<T, FAdd, FSub, FMul, FDiv, FCnt, FAct>,
    x: Seq<T>,
    y: Seq<T>,
) -> bool {
    exists|states: Seq<Seq<T>>|
        #[trigger] forward_trace_ok(layers, ops, states) && states.first() == x && states.last()
            == y
}

impl<T> Model<T> {
    /// Every layer's parameters satisfy their shape invariant.
    pub open spec fn wf(&self) -> bool {
        forall|k: int| 0 <= k < self.layers@.len() ==> (#[trigger] self.layers@[k]).wf()
    }
}

/// Every example in the batch fits the stack: its input feeds through, and
/// its target is as long as the resulting output.
pub open spec fn train_batch_ok<T>(
    layers: Seq<Layer<T>>,
    batch: Seq<(FloatVec<T>, FloatVec<T>)>,
) -> bool {
    forall|k: int|
        0 <= k < batch.len() ==> chain_ok(layers, (#[trigger] batch[k]).0@.len() as int)
            && chain_out_len(layers, batch[k].0@.len() as int) == batch[k].1@.len()
}

/// `raw` holds one backward-pass gradient list per example of `batch`, in
/// batch order.
pub open spec fn gradients_for_batch<
    T,
    FAdd: Fn(T, T) -> T,
    FSub: Fn(T, T) -> T,
    FMul: Fn(T, T) -> T,
    FDiv: Fn(T, T) -> T,
    FCnt: Fn(usize) -> T,
    FAct: Fn(T) -> T,
>(
    layers: Seq<Layer<T>>,
    ops: Arith<T, FAdd, FSub, FMul, FDiv, FCnt, FAct>,
    batch: Seq<(FloatVec<T>, FloatVec<T>)>,
    raw: Seq<Seq<ParamGradient<T>>>,
) -> bool {
    &&& raw.len() == batch.len()
    &&& forall|k: int|
        0 <= k < batch.len() ==> (#[trigger] raw[k]).len() == layers.len() && model_backward_post(
            layers,
            ops,
            batch[k].0@,
            batch[k].1@,
            raw[k],
        )
}

/// The per-example gradients for layer `l`, in batch order.
pub open spec fn column<T>(raw: Seq<Seq<ParamGradient<T>>>, l: int) -> Seq<ParamGradient<T>> {
    Seq::new(raw.len(), |k: int| raw[k][l])
}

/// Each new layer is the old layer updated with its own column of the
/// per-example gradients `raw`.
pub open spec fn layers_updated<
    T,
    FAdd: Fn(T, T) -> T,
    FSub: Fn(T, T) -> T,
    FMul: Fn(T, T) -> T,
    FDiv: Fn(T, T) -> T,
    FCnt: Fn(usize) -> T,
    FAct: Fn(T) -> T,
>(
    old_layers: Seq<Layer<T>>,
    ops: Arith<T, FAdd, FSub, FMul, FDiv, FCnt, FAct>,
    lr: T,
    raw: Seq<Seq<ParamGradient<T>>>,
    new_layers: Seq<Layer<T>>,
) -> bool {
    &&& new_layers.len() == old_layers.len()
    &&& forall|l: int|
        0 <= l < old_layers.len() ==> layer_apply_post(
            old_layers[l],
            ops,
            lr,
            column(raw, l),
            #[trigger] new_layers[l],
        )
}

/// An update step keeps its meaning when each gradient in the list is
/// replaced by one carrying the same content.
proof fn lemma_apply_post_like<
    T,
    FAdd: Fn(T, T) -> T,
    FSub: Fn(T, T) -> T,
    FMul: Fn(T, T) -> T,
    FDiv: Fn(T, T) -> T,
    FCnt: Fn(usize) -> T,
    FAct: Fn(T) -> T,
>(
    before: Layer<T>,
    ops: Arith<T, FAdd, FSub, FMul, FDiv, FCnt, FAct>,
    lr: T,
    gs1: Seq<ParamGradient<T>>,
    gs2: Seq<ParamGradient<T>>,
    after: Layer<T>,
)
    requires
        layer_apply_post(before, ops, lr, gs1, after),
        gs1.len() == gs2.len(),
        forall|k: int| 0 <= k < gs1.len() ==> pg_like(#[trigger] gs1[k], gs2[k]),
    ensures
        layer_apply_post(before, ops, lr, gs2, after),
{
    assert forall|k: int| 0 <= k < gs1.len() implies #[trigger] linear_part(gs1[k]).wg_view()
        == linear_part(gs2[k]).wg_view() && linear_part(gs1[k]).bg_view() == linear_part(
        gs2[k],
    ).bg_view() by {
        assert(pg_like(gs1[k], gs2[k]));
    }
    assert forall|j: int, i: int| true implies #[trigger] crate::layer::wg_col(gs2, j, i)
        == crate::layer::wg_col(gs1, j, i) by {
        assert(crate::layer::wg_col(gs1, j, i) =~= crate::layer::wg_col(gs2, j, i));
    }
    assert forall|j: int| true implies #[trigger] crate::layer::bg_col(gs2, j)
        == crate::layer::bg_col(gs1, j) by {
        assert(crate::layer::bg_col(gs1, j) =~= crate::layer::bg_col(gs2, j));
    }
}

/// `acts` and `grads` record one example's backward pass through `layers`:
/// `acts` is the forward activation trace from the input `x`; the terminal
/// gradient `grads[n]` is `prediction - target`; sweeping backward, each
/// layer's parameter gradient `pgs[k]` and propagated gradient `grads[k]` are
/// computed from its recorded input `acts[k]` and its output gradient
/// `grads[k + 1]`.
pub open spec fn backward_trace_ok<
    T,
    FAdd: Fn(T, T) -> T,
    FSub: Fn(T, T) -> T,
    FMul: Fn(T, T) -> T,
    FDiv: Fn(T, T) -> T,
    FCnt: Fn(usize) -> T,
    FAct: Fn(T) -> T,
>(
    layers: Seq<Layer<T>>,
    ops: Arith<T, FAdd, FSub, FMul, FDiv, FCnt, FAct>,
    x: Seq<T>,
    target: Seq<T>,
    pgs: Seq<ParamGradient<T>>,
    acts: Seq<Seq<T>>,
    grads: Seq<Seq<T>>,
) -> bool {
    let n = layers.len() as int;
    &&& acts.len() == n + 1
    &&& acts[0] == x
    &&& forall|k: int| 0 <= k < n ==> layers[k].forward_post(ops, acts[k], #[trigger] acts[k + 1])
    &&& grads.len() == n + 1
    &&& acts[n].len() == target.len()
    &&& grads[n].len() == target.len()
    &&& forall|i: int|
        0 <= i < target.len() ==> bin_post(ops.sub, acts[n][i], target[i], #[trigger] grads[n][i])
    &&& pgs.len() == n
    &&& forall|k: int|
        0 <= k < n ==> layers[k].param_grad_post(ops, acts[k], grads[k + 1], #[trigger] pgs[k])
    &&& forall|k: int|
        0 <= k < n ==> layers[k].input_grad_post(ops, acts[k], grads[k + 1], #[trigger] grads[k])
}

/// `pgs` is the per-layer parameter-gradient list, in forward layer order,
/// of one example's backward pass.
pub open spec fn model_backward_post<
    T,
    FAdd: Fn(T, T) -> T,
    FSub: Fn(T, T) -> T,
    FMul: Fn(T, T) -> T,
    FDiv: Fn(T, T) -> T,
    FCnt: Fn(usize) -> T,
    FAct: Fn(T) -> T,
>(
    layers: Seq<Layer<T>>,
    ops: Arith<T, FAdd, FSub, FMul, FDiv, FCnt, FAct>,
    x: Seq<T>,
    target: Seq<T>,
    pgs: Seq<ParamGradient<T>>,
) -> bool {
    exists|acts: Seq<Seq<T>>, grads: Seq<Seq<T>>|
        #[trigger] backward_trace_ok(layers, ops, x, target, pgs, acts, grads)
}

impl<T: Copy> Model<T> {
    /// Sequential fold of the input through every layer in stack order.
    /// Pure: the model is untouched, so two evaluations with the same
    /// parameters and input are related to the same activation trace.
    pub fn forward<
        FAdd: Fn(T, T) -> T + Copy,
        FSub: Fn(T, T) -> T + Copy,
        FMul: Fn(T, T) -> T + Copy,
        FDiv: Fn(T, T) -> T + Copy,
        FCnt: Fn(usize) -> T + Copy,
        FAct: Fn(T) -> T + Copy,
    >(&self, input: &FloatVec<T>, ops: Arith<T, FAdd, FSub, FMul, FDiv, FCnt, FAct>) -> (r:
        FloatVec<T>)
        requires
            self.wf(),
            arith_ok(ops),
            chain_ok(self.layers@, input@.len() as int),
        ensures
            r@.len() == chain_out_len(self.layers@, input@.len() as int),
            model_forward_post(self.layers@, ops, input@, r@),
    {
        let ghost total = chain_out_len(self.layers@, input@.len() as int);
        let mut cur = input.clone();
        let ghost mut states: Seq<Seq<T>> = seq![input@];
        proof {
            assert(self.layers@.skip(0) =~= self.layers@);
        }
        let mut k: usize = 0;
        let n = self.layers.len();
        while k < n
            invariant
                self.wf(),
                arith_ok(ops),
                k <= n,
                n == self.layers@.len(),
                states.len() == k + 1,
                states[0] == input@,
                states.last() == cur@,
                forall|t: int|
                    0 <= t < k ==> self.layers@[t].forward_post(
                        ops,
                        states[t],
                        #[trigger] states[t + 1],
                    ),
                chain_ok(self.layers@.skip(k as int), cur@.len() as int),
                chain_out_len(self.layers@.skip(k as int), cur@.len() as int) == total,
            decreases n - k,
        {
            proof {
                lemma_chain_step(self.layers@, k as int, cur@.len() as int);
            }
            let next = self.layers[k].forward(&cur, ops);
            proof {
                states = states.push(next@);
            }
            cur = next;
            k += 1;
        }
        proof {
            assert(self.layers@.skip(n as int) =~= Seq::<Layer<T>>::empty());
            assert(forward_trace_ok(self.layers@, ops, states));
        }
        cur
    }

    /// One example's backward pass: walk forward recording every layer's
    /// input, set the terminal gradient to `prediction - target`, then walk
    /// backward computing each layer's parameter gradient and propagating the
    /// input gradient. Returns the parameter gradients in forward layer
    /// order. Pure: the model is only read.
    pub fn backward<
        FAdd: Fn(T, T) -> T + Copy,
        FSub: Fn(T, T) -> T + Copy,
        FMul: Fn(T, T) -> T + Copy,
        FDiv: Fn(T, T) -> T + Copy,
        FCnt: Fn(usize) -> T + Copy,
        FAct: Fn(T) -> T + Copy,
    >(
        &self,
        input: &FloatVec<T>,
        target: &FloatVec<T>,
        ops: Arith<T, FAdd, FSub, FMul, FDiv, FCnt, FAct>,
    ) -> (r: Vec<ParamGradient<T>>)
        requires
            self.wf(),
            arith_ok(ops),
            chain_ok(self.layers@, input@.len() as int),
            chain_out_len(self.layers@, input@.len() as int) == target@.len(),
        ensures
            r@.len() == self.layers@.len(),
            model_backward_post(self.layers@, ops, input@, target@, r@),
    {
        let n = self.layers.len();
        let mut acts: Vec<FloatVec<T>> = Vec::new();
        acts.push(input.clone());
        proof {
            assert(self.layers@.skip(0) =~= self.layers@);
        }
        let mut k: usize = 0;
        while k < n
            invariant
                self.wf(),
                arith_ok(ops),
                k <= n,
                n == self.layers@.len(),
                acts@.len() == k + 1,
                acts@[0]@ == input@,
                forall|t: int|
                    0 <= t < k ==> self.layers@[t].forward_post(
                        ops,
                        acts@[t]@,
                        #[trigger] acts@[t + 1]@,
                    ),
                forall|t: int| 0 <= t < k ==> self.layers@[t].in_ok(acts@[t]@.len() as int),
                forall|t: int|
                    0 <= t < k ==> acts@[t + 1]@.len() == self.layers@[t].out_len(
                        acts@[t]@.len() as int,
                    ),
                chain_ok(self.layers@.skip(k as int), acts@[k as int]@.len() as int),
                chain_out_len(self.layers@.skip(k as int), acts@[k as int]@.len() as int)
                    == target@.len(),
            decreases n - k,
        {
            proof {
                lemma_chain_step(self.layers@, k as int, acts@[k as int]@.len() as int);
            }
            let next = self.layers[k].forward(&acts[k], ops);
            acts.push(next);
            k += 1;
        }
        proof {
            assert(self.layers@.skip(n as int) =~= Seq::<Layer<T>>::empty());
            assert(acts@[n as int]@.len() == target@.len());
        }
        let mut g: FloatVec<T> = acts[n].zip_with(target, ops.sub);
        let mut pgs: Vec<ParamGradient<T>> = Vec::new();
        let ghost terminal = g@;
        let ghost mut gseq: Seq<Seq<T>> = seq![g@];
        let mut k2: usize = n;
        while k2 > 0
            invariant
                self.wf(),
                arith_ok(ops),
                k2 <= n,
                n == self.layers@.len(),
                acts@.len() == n + 1,
                acts@[0]@ == input@,
                forall|t: int|
                    0 <= t < n ==> self.layers@[t].forward_post(
                        ops,
                        acts@[t]@,
                        #[trigger] acts@[t + 1]@,
                    ),
                forall|t: int| 0 <= t < n ==> self.layers@[t].in_ok(acts@[t]@.len() as int),
                forall|t: int|
                    0 <= t < n ==> acts@[t + 1]@.len() == self.layers@[t].out_len(
                        acts@[t]@.len() as int,
                    ),
                acts@[n as int]@.len() == target@.len(),
                terminal.len() == target@.len(),
                forall|i: int|
                    0 <= i < target@.len() ==> bin_post(
                        ops.sub,
                        acts@[n as int]@[i],
                        target@[i],
                        #[trigger] terminal[i],
                    ),
                gseq.len() == n - k2 + 1,
                gseq[0] == g@,
                gseq.last() == terminal,
                g@.len() == acts@[k2 as int]@.len(),
                pgs@.len() == n - k2,
                forall|t: int|
                    k2 <= t < n ==> self.layers@[t].param_grad_post(
                        ops,
                        acts@[t]@,
                        gseq[t + 1 - k2],
                        #[trigger] pgs@[t - k2],
                    ),
                forall|t: int|
                    k2 <= t < n ==> self.layers@[t].input_grad_post(
                        ops,
                        acts@[t]@,
                        gseq[t + 1 - k2],
                        #[trigger] gseq[t - k2],
                    ),
            decreases k2,
        {
            let idx = k2 - 1;
            let pg = self.layers[idx].param_gradient(&acts[idx], &g, ops);
            let gnew = self.layers[idx].input_gradient(&acts[idx], &g, ops);
            let ghost old_pgs = pgs@;
            let ghost old_gseq = gseq;
            let ghost gold = g@;
            pgs.insert(0, pg);
            proof {
                gseq = seq![gnew@] + old_gseq;
                assert forall|m: int| 0 <= m < old_gseq.len() implies #[trigger] gseq[m + 1]
                    == old_gseq[m] by {}
                assert forall|m: int| 0 <= m < old_pgs.len() implies #[trigger] pgs@[m + 1]
                    == old_pgs[m] by {}
                assert(gseq[0] == gnew@);
                assert(pgs@[0] == pg);
                assert(gseq.last() == terminal);
                assert forall|t: int| idx <= t < n implies self.layers@[t].param_grad_post(
                    ops,
                    acts@[t]@,
                    gseq[t + 1 - idx],
                    #[trigger] pgs@[t - idx],
                ) by {
                    if t == idx {
                        assert(gseq[1] == old_gseq[0]);
                        assert(old_gseq[0] == gold);
                        assert(self.layers@[t].param_grad_post(ops, acts@[t]@, gold, pg));
                    } else {
                        assert(pgs@[t - idx] == old_pgs[t - idx - 1]);
                        assert(gseq[t + 1 - idx] == old_gseq[t - idx]);
                        assert(self.layers@[t].param_grad_post(
                            ops,
                            acts@[t]@,
                            old_gseq[t + 1 - k2],
                            old_pgs[t - k2],
                        ));
                    }
                }
                assert forall|t: int| idx <= t < n implies self.layers@[t].input_grad_post(
                    ops,
                    acts@[t]@,
                    gseq[t + 1 - idx],
                    #[trigger] gseq[t - idx],
                ) by {
                    if t == idx {
                        assert(gseq[1] == old_gseq[0]);
                        assert(old_gseq[0] == gold);
                        assert(self.layers@[t].input_grad_post(ops, acts@[t]@, gold, gnew@));
                    } else {
                        assert(gseq[t - idx] == old_gseq[t - idx - 1]);
                        assert(gseq[t + 1 - idx] == old_gseq[t - idx]);
                        assert(self.layers@[t].input_grad_post(
                            ops,
                            acts@[t]@,
                            old_gseq[t + 1 - k2],
                            old_gseq[t - k2],
                        ));
                    }
                }
            }
            g = gnew;
            k2 = idx;
        }
        proof {
            let ghost acts_v = Seq::new((n + 1) as nat, |t: int| acts@[t]@);
            assert(acts_v[0] == input@);
            assert forall|t: int| 0 <= t < n implies self.layers@[t].forward_post(
                ops,
                acts_v[t],
                #[trigger] acts_v[t + 1],
            ) by {
                assert(acts_v[t] == acts@[t]@);
                assert(acts_v[t + 1] == acts@[t + 1]@);
            }
            assert forall|i: int| 0 <= i < target@.len() implies bin_post(
                ops.sub,
                acts_v[n as int][i],
                target@[i],
                #[trigger] gseq[n as int][i],
            ) by {
                assert(acts_v[n as int] == acts@[n as int]@);
                assert(gseq[n as int] == gseq.last());
                assert(bin_post(ops.sub, acts@[n as int]@[i], target@[i], terminal[i]));
            }
            assert forall|t: int| 0 <= t < n implies self.layers@[t].param_grad_post(
                ops,
                acts_v[t],
                gseq[t + 1],
                #[trigger] pgs@[t],
            ) by {
                assert(acts_v[t] == acts@[t]@);
                assert(self.layers@[t].param_grad_post(
                    ops,
                    acts@[t]@,
                    gseq[t + 1 - k2 as int],
                    pgs@[t - k2 as int],
                ));
                assert(gseq[t + 1 - k2 as int] == gseq[t + 1]);
                assert(pgs@[t - k2 as int] == pgs@[t]);
            }
            assert forall|t: int| 0 <= t < n implies self.layers@[t].input_grad_post(
                ops,
                acts_v[t],
                gseq[t + 1],
                #[trigger] gseq[t],
            ) by {
                assert(acts_v[t] == acts@[t]@);
                assert(self.layers@[t].input_grad_post(
                    ops,
                    acts@[t]@,
                    gseq[t + 1 - k2 as int],
                    gseq[t - k2 as int],
                ));
                assert(gseq[t + 1 - k2 as int] == gseq[t + 1]);
                assert(gseq[t - k2 as int] == gseq[t]);
            }
            assert(acts_v[n as int] == acts@[n as int]@);
            assert(gseq[n as int] == gseq.last());
            assert(backward_trace_ok(self.layers@, ops, input@, target@, pgs@, acts_v, gseq));
        }
        pgs
    }
}

/// Relies on rayon's parallel iterator: `par_iter().map(..).collect()` calls
/// the closure once per batch element and collects the results in the input's
/// order, while the model and the arithmetic are only shared immutably. Each
/// closure call runs the verified `Model::backward`, so every collected list
/// satisfies its postcondition.
#[verifier::external_body]
fn par_backward<
    T: Copy + Send + Sync,
    FAdd: Fn(T, T) -> T + Copy + Send + Sync,
    FSub: Fn(T, T) -> T + Copy + Send + Sync,
    FMul: Fn(T, T) -> T + Copy + Send + Sync,
    FDiv: Fn(T, T) -> T + Copy + Send + Sync,
    FCnt: Fn(usize) -> T + Copy + Send + Sync,
    FAct: Fn(T) -> T + Copy + Send + Sync,
>(
    model: &Model<T>,
    batch: &Vec<(FloatVec<T>, FloatVec<T>)>,
    ops: Arith<T, FAdd, FSub, FMul, FDiv, FCnt, FAct>,
) -> (r: Vec<Vec<ParamGradient<T>>>)
    requires
        model.wf(),
        arith_ok(ops),
        train_batch_ok(model.layers@, batch@),
    ensures
        r@.len() == batch@.len(),
        forall|k: int|
            0 <= k < batch@.len() ==> (#[trigger] r@[k])@.len() == model.layers@.len()
                && model_backward_post(model.layers@, ops, batch@[k].0@, batch@[k].1@, r@[k]@),
{
    batch.par_iter().map(|(input, target)| model.backward(input, target, ops)).collect()
}

impl<T: Copy + Send + Sync> Model<T> {
    /// One minibatch training step. The backward passes of all examples run
    /// in a data-parallel fan-out that only reads the model, a full join
    /// waits for every per-example gradient list, and only then is each
    /// layer updated, sequentially, with its own column of the collected
    /// gradients and the learning rate.
    pub fn train_step<
        FAdd: Fn(T, T) -> T + Copy + Send + Sync,
        FSub: Fn(T, T) -> T + Copy + Send + Sync,
        FMul: Fn(T, T) -> T + Copy + Send + Sync,
        FDiv: Fn(T, T) -> T + Copy + Send + Sync,
        FCnt: Fn(usize) -> T + Copy + Send + Sync,
        FAct: Fn(T) -> T + Copy + Send + Sync,
    >(
        &mut self,
        batch: &Vec<(FloatVec<T>, FloatVec<T>)>,
        lr: T,
        ops: Arith<T, FAdd, FSub, FMul, FDiv, FCnt, FAct>,
    )
        requires
            old(self).wf(),
            arith_ok(ops),
            train_batch_ok(old(self).layers@, batch@),
        ensures
            final(self).wf(),
            final(self).layers@.len() == old(self).layers@.len(),
            exists|raw: Seq<Seq<ParamGradient<T>>>|
                #[trigger] gradients_for_batch(old(self).layers@, ops, batch@, raw)
                    && layers_updated(old(self).layers@, ops, lr, raw, final(self).layers@),
    {
        let ghost old_layers = self.layers@;
        let n_layers = self.layers.len();
        let raw = par_backward(self, batch, ops);
        let ghost raw_v = Seq::new(raw@.len(), |k: int| raw@[k]@);
        let mut updated: Vec<Layer<T>> = Vec::new();
        proof {
            assert(self.layers@.skip(0) =~= old_layers);
        }
        let mut l: usize = 0;
        while l < n_layers
            invariant
                arith_ok(ops),
                n_layers == old_layers.len(),
                forall|t: int| 0 <= t < n_layers ==> (#[trigger] old_layers[t]).wf(),
                self.layers@ == old_layers.skip(l as int),
                raw@.len() == batch@.len(),
                raw_v == Seq::new(raw@.len(), |k: int| raw@[k]@),
                forall|k: int|
                    0 <= k < batch@.len() ==> (#[trigger] raw@[k])@.len() == n_layers
                        && model_backward_post(
                        old_layers,
                        ops,
                        batch@[k].0@,
                        batch@[k].1@,
                        raw@[k]@,
                    ),
                l <= n_layers,
                updated@.len() == l,
                forall|t: int|
                    0 <= t < l ==> (#[trigger] updated@[t]).wf() && layer_apply_post(
                        old_layers[t],
                        ops,
                        lr,
                        column(raw_v, t),
                        updated@[t],
                    ),
            decreases n_layers - l,
        {
            let mut col: Vec<ParamGradient<T>> = Vec::new();
            let m = raw.len();
            let mut k: usize = 0;
            while k < m
                invariant
                    l < n_layers,
                    m == raw@.len(),
                    forall|kk: int| 0 <= kk < m ==> (#[trigger] raw@[kk])@.len() == n_layers,
                    k <= m,
                    col@.len() == k,
                    forall|kk: int|
                        0 <= kk < k ==> pg_like(#[trigger] col@[kk], raw@[kk]@[l as int]),
                decreases m - k,
            {
                col.push(raw[k][l].clone());
                k += 1;
            }
            let mut layer = self.layers.remove(0);
            proof {
                assert(old_layers.skip(l as int)[0] == old_layers[l as int]);
                assert(layer == old_layers[l as int]);
                assert(old_layers.skip(l as int).remove(0) =~= old_layers.skip(l as int + 1));
                // The layer accepts the column: each entry is the layer's own
                // per-example parameter gradient, so it has the layer's shape.
                assert forall|kk: int| 0 <= kk < col@.len() implies layer.param_grad_shaped(
                    #[trigger] col@[kk],
                ) by {
                    let pgs = raw@[kk]@;
                    let (acts, grads) = choose|acts: Seq<Seq<T>>, grads: Seq<Seq<T>>|
                        backward_trace_ok(
                            old_layers,
                            ops,
                            batch@[kk].0@,
                            batch@[kk].1@,
                            pgs,
                            acts,
                            grads,
                        );
                    assert(old_layers[l as int].param_grad_post(
                        ops,
                        acts[l as int],
                        grads[l as int + 1],
                        pgs[l as int],
                    ));
                    assert(pg_like(col@[kk], pgs[l as int]));
                }
            }
            layer.apply_gradients(&col, lr, ops);
            proof {
                assert forall|kk: int| 0 <= kk < col@.len() implies pg_like(
                    #[trigger] col@[kk],
                    column(raw_v, l as int)[kk],
                ) by {
                    assert(column(raw_v, l as int)[kk] == raw_v[kk][l as int]);
                    assert(raw_v[kk] == raw@[kk]@);
                }
                lemma_apply_post_like(
                    old_layers[l as int],
                    ops,
                    lr,
                    col@,
                    column(raw_v, l as int),
                    layer,
                );
            }
            updated.push(layer);
            l += 1;
        }
        self.layers = updated;
        proof {
            assert(gradients_for_batch(old_layers, ops, batch@, raw_v)) by {
                assert forall|k: int| 0 <= k < batch@.len() implies (#[trigger] raw_v[k]).len()
                    == old_layers.len() && model_backward_post(
                    old_layers,
                    ops,
                    batch@[k].0@,
                    batch@[k].1@,
                    raw_v[k],
                ) by {
                    assert(raw_v[k] == raw@[k]@);
                }
            }
            assert(layers_updated(old_layers, ops, lr, raw_v, self.layers@));
        }
    }
}


/// `segs` holds one encoded segment per layer, in stack order.
pub open spec fn model_encoding<T, FEnc: Fn(T) -> u32>(
    layers: Seq<Layer<T>>,
    segs: Seq<Seq<u8>>,
    f_enc: FEnc,
) -> bool {
    &&& segs.len() == layers.len()
    &&& forall|k: int| 0 <= k < layers.len() ==> layer_encoding(layers[k], #[trigger] segs[k], f_enc)
}

/// Where decoding every layer's segment in stack order ends, if each parses
/// with valid shapes matching the live layers' configurations.
pub open spec fn model_parse_end<T>(layers: Seq<Layer<T>>, s: Seq<u8>, pos: int) -> Option<int>
    decreases layers.len(),
{
    if layers.len() == 0 {
        Some(pos)
    } else {
        match layer_parse_end(layers[0], s, pos) {
            None => None,
            Some(p2) => model_parse_end(layers.drop_first(), s, p2),
        }
    }
}

/// `bounds` splits the buffer into one segment per layer: each new layer is
/// its old layer decoded from its own segment.
pub open spec fn model_decoded<T, FDec: Fn(u32) -> T>(
    old_layers: Seq<Layer<T>>,
    new_layers: Seq<Layer<T>>,
    s: Seq<u8>,
    pos: int,
    end: int,
    bounds: Seq<int>,
    f_dec: FDec,
) -> bool {
    &&& new_layers.len() == old_layers.len()
    &&& bounds.len() == old_layers.len() + 1
    &&& bounds[0] == pos
    &&& bounds.last() == end
    &&& forall|k: int|
        0 <= k < old_layers.len() ==> layer_parse_end(old_layers[k], s, #[trigger] bounds[k])
            == Some(bounds[k + 1])
    &&& forall|k: int|
        0 <= k < old_layers.len() ==> layer_decoded(
            old_layers[k],
            #[trigger] new_layers[k],
            s,
            bounds[k],
            f_dec,
        )
}

impl<T: Copy> Model<T> {
    /// Binary-encode every layer's parameters, in stack order, onto the end
    /// of `buffer`.
    #[verifier::loop_isolation(false)]
    pub fn serialize<FEnc: Fn(T) -> u32 + Copy>(&self, buffer: &mut Vec<u8>, f_enc: FEnc)
        requires
            self.wf(),
            un_ok(f_enc),
        ensures
            exists|segs: Seq<Seq<u8>>|
                #[trigger] model_encoding(self.layers@, segs, f_enc) && final(buffer)@ == old(
                    buffer,
                )@ + concat_bytes(segs),
    {
        let ghost mut segs: Seq<Seq<u8>> = Seq::empty();
        proof {
            assert(concat_bytes(segs) == Seq::<u8>::empty());
            assert(buffer@ =~= old(buffer)@ + concat_bytes(segs));
        }
        let n = self.layers.len();
        let mut k: usize = 0;
        while k < n
            invariant
                k <= n,
                segs.len() == k,
                forall|t: int|
                    0 <= t < k ==> layer_encoding(self.layers@[t], #[trigger] segs[t], f_enc),
                buffer@ == old(buffer)@ + concat_bytes(segs),
            decreases n - k,
        {
            let ghost before = buffer@;
            self.layers[k].serialize(buffer, f_enc);
            proof {
                let seg = choose|seg: Seq<u8>|
                    #[trigger] layer_encoding(self.layers@[k as int], seg, f_enc) && buffer@
                        == before + seg;
                lemma_concat_bytes_push(segs, seg);
                assert(buffer@ =~= old(buffer)@ + concat_bytes(segs.push(seg)));
                segs = segs.push(seg);
            }
            k += 1;
        }
        proof {
            assert(model_encoding(self.layers@, segs, f_enc));
        }
    }

    /// Decode every layer's parameters, in stack order, starting at `pos`.
    /// Fails, leaving the model untouched, where a segment is truncated, its
    /// shapes are invalid, or its configuration disagrees with the live
    /// layer's; on success returns the position after the last segment.
    #[verifier::loop_isolation(false)]
    #[verifier::rlimit(50)]
    pub fn deserialize<FDec: Fn(u32) -> T + Copy>(
        &mut self,
        buffer: &Vec<u8>,
        pos: usize,
        f_dec: FDec,
    ) -> (r: Result<usize, DecodeError>)
        requires
            old(self).wf(),
            un_ok(f_dec),
        ensures
            match r {
                Ok(end) => {
                    &&& model_parse_end(old(self).layers@, buffer@, pos as int) == Some(end as int)
                    &&& final(self).wf()
                    &&& exists|bounds: Seq<int>|
                        #[trigger] model_decoded(
                            old(self).layers@,
                            final(self).layers@,
                            buffer@,
                            pos as int,
                            end as int,
                            bounds,
                            f_dec,
                        )
                },
                Err(_) => model_parse_end(old(self).layers@, buffer@, pos as int) is None
                    && *final(self) == *old(self),
            },
    {
        let ghost orig = self.layers@;
        let n = self.layers.len();
        let mut updated: Vec<Layer<T>> = Vec::new();
        let mut cur: usize = pos;
        let ghost mut bounds: Seq<int> = seq![pos as int];
        proof {
            assert(orig.skip(0) =~= orig);
        }
        let mut l: usize = 0;
        while l < n
            invariant
                l <= n,
                updated@.len() == l,
                bounds.len() == l + 1,
                bounds[0] == pos as int,
                bounds.last() == cur as int,
                orig == self.layers@,
                model_parse_end(orig, buffer@, pos as int) == model_parse_end(
                    orig.skip(l as int),
                    buffer@,
                    cur as int,
                ),
                forall|t: int|
                    0 <= t < l ==> layer_parse_end(orig[t], buffer@, #[trigger] bounds[t])
                        == Some(bounds[t + 1]),
                forall|t: int|
                    0 <= t < l ==> layer_decoded(
                        orig[t],
                        #[trigger] updated@[t],
                        buffer@,
                        bounds[t],
                        f_dec,
                    ),
                forall|t: int| 0 <= t < l ==> (#[trigger] updated@[t]).wf(),
            decreases n - l,
        {
            proof {
                assert(orig.skip(l as int)[0] == orig[l as int]);
                assert(orig.skip(l as int).drop_first() =~= orig.skip(l as int + 1));
            }
            let next: usize = match &self.layers[l] {
                Layer::Linear(a) => {
                    match Linear::<T>::deserialize(buffer, cur, f_dec) {
                        Ok((l2, end2)) => {
                            if l2.inputs() != a.inputs() || l2.outputs() != a.outputs() {
                                proof {
                                    assert(layer_parse_end(orig[l as int], buffer@, cur as int)
                                        is None);
                                    assert(model_parse_end(
                                        orig.skip(l as int),
                                        buffer@,
                                        cur as int,
                                    ) is None);
                                }
                                return Err(DecodeError::Corrupt);
                            }
                            updated.push(Layer::Linear(l2));
                            proof {
                                assert(layer_parse_end(orig[l as int], buffer@, cur as int)
                                    == Some(end2 as int));
                            }
                            end2
                        },
                        Err(e) => {
                            proof {
                                assert(layer_parse_end(orig[l as int], buffer@, cur as int)
                                    is None);
                                assert(model_parse_end(
                                    orig.skip(l as int),
                                    buffer@,
                                    cur as int,
                                ) is None);
                            }
                            return Err(e);
                        },
                    }
                },
                Layer::Activation(_) => {
                    updated.push(Layer::Activation(Sigmoid));
                    cur
                },
            };
            proof {
                bounds = bounds.push(next as int);
            }
            cur = next;
            l += 1;
        }
        proof {
            assert(orig.skip(n as int) =~= Seq::<Layer<T>>::empty());
            assert(model_parse_end(Seq::<Layer<T>>::empty(), buffer@, cur as int) == Some(
                cur as int,
            ));
            assert(orig == old(self).layers@);
        }
        self.layers = updated;
        proof {
            assert(model_parse_end(orig, buffer@, pos as int) == Some(cur as int));
            assert forall|t: int| 0 <= t < self.layers@.len() implies (
            #[trigger] self.layers@[t]).wf() by {
                assert(self.layers@[t] == updated@[t]);
                assert(updated@[t].wf());
            }
            assert(model_decoded(
                old(self).layers@,
                self.layers@,
                buffer@,
                pos as int,
                cur as int,
                bounds,
                f_dec,
            ));
            assert(model_parse_end(old(self).layers@, buffer@, pos as int) == Some(cur as int));
            assert(self.wf());
        }
        Ok(cur)
    }
}

/// Frame a checkpoint: every layer's parameters in stack order, then the
/// 32-bit little-endian epoch counter.
pub fn save_checkpoint<T: Copy, FEnc: Fn(T) -> u32 + Copy>(
    model: &Model<T>,
    epoch: u32,
    f_enc: FEnc,
) -> (r: Vec<u8>)
    requires
        model.wf(),
        un_ok(f_enc),
    ensures
        exists|segs: Seq<Seq<u8>>|
            #[trigger] model_encoding(model.layers@, segs, f_enc) && r@ == concat_bytes(segs)
                + crate::codec::u32_le_bytes(epoch),
{
    let mut buffer: Vec<u8> = Vec::new();
    model.serialize(&mut buffer, f_enc);
    proof {
        let segs = choose|segs: Seq<Seq<u8>>|
            #[trigger] model_encoding(model.layers@, segs, f_enc) && buffer@ == Seq::<u8>::empty()
                + concat_bytes(segs);
        assert(buffer@ =~= concat_bytes(segs));
    }
    let ghost mid = buffer@;
    write_u32_le(&mut buffer, epoch);
    buffer
}

/// Restore a checkpoint: decode every layer in stack order, then read the
/// 32-bit epoch counter that follows, and return it.
pub fn load_checkpoint<T: Copy, FDec: Fn(u32) -> T + Copy>(
    model: &mut Model<T>,
    bytes: &Vec<u8>,
    f_dec: FDec,
) -> (r: Result<u32, DecodeError>)
    requires
        old(model).wf(),
        un_ok(f_dec),
    ensures
        match r {
            Ok(epoch) => {
                let parsed = model_parse_end(old(model).layers@, bytes@, 0);
                &&& parsed is Some
                &&& parse_u32_at(bytes@, parsed.unwrap()) == Some(
                    (epoch, parsed.unwrap() + 4),
                )
                &&& final(model).wf()
                &&& exists|bounds: Seq<int>|
                    #[trigger] model_decoded(
                        old(model).layers@,
                        final(model).layers@,
                        bytes@,
                        0,
                        parsed.unwrap(),
                        bounds,
                        f_dec,
                    )
            },
            Err(_) => {
                ||| (model_parse_end(old(model).layers@, bytes@, 0) is None && *final(model)
                    == *old(model))
                ||| (model_parse_end(old(model).layers@, bytes@, 0) is Some && parse_u32_at(
                    bytes@,
                    model_parse_end(old(model).layers@, bytes@, 0).unwrap(),
                ) is None && final(model).wf())
            },
        },
{
    let end = match model.deserialize(bytes, 0, f_dec) {
        Ok(end) => end,
        Err(e) => { return Err(e) },
    };
    match read_u32_le(bytes, end) {
        Some((epoch, _)) => Ok(epoch),
        None => Err(DecodeError::Truncated),
    }
}

} // verus!
