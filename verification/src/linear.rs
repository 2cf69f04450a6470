//! The learnable affine layer.
//!
//! A `Linear` layer owns one weight row per output unit (each row as long as
//! the layer's input count) and one bias per output unit. Its forward pass
//! computes `biases[j] + dot(weights[j], input)` for every output unit `j`;
//! the gradient methods compute the exact backpropagation quantities for that
//! formula, and `apply_gradients` performs the averaged gradient-descent
//! update — the only operation that mutates the parameters.

use vstd::prelude::*;

use crate::codec::{
    lemma_rows_bytes_push, lemma_vals_bytes_push, linear_bytes, parse_linear, parse_row,
    parse_rows, parse_u32_run, read_u32_le, read_u64_le, row_bytes, rows_bytes, u64_le_bytes,
    vals_bytes, write_u32_le, write_u64_le, DecodeError,
};
use crate::float_vec::{dot_post, FloatVec, ShapeMismatch};
use crate::layer::{all_linear_fits, bg_col, linear_part, wg_col, ParamGradient};
use crate::ops::{bin_ok, bin_post, fold_rel, un_ok, un_post};
use crate::rand::{rng_draw, rng_state_after, Rng};

verus! {

/// A learnable affine transform: `output = weights * input + biases`.
pub struct Linear<T> {
    inputs: usize,
    weights: Vec<FloatVec<T>>,
    biases: FloatVec<T>,
}

/// The per-example parameter gradient of a `Linear` layer: one gradient row
/// per weight row, and one gradient per bias.
pub struct LinearGradient<T> {
    pub weight_gradients: Vec<FloatVec<T>>,
    pub bias_gradient: FloatVec<T>,
}

impl<T> LinearGradient<T> {
    pub open spec fn wg_view(&self) -> Seq<Seq<T>> {
        self.weight_gradients@.map_values(|v: FloatVec<T>| v@)
    }

    pub open spec fn bg_view(&self) -> Seq<T> {
        self.bias_gradient@
    }

    /// The gradient is shaped like a layer with the given dimensions.
    pub open spec fn fits(&self, inputs: int, outputs: int) -> bool {
        &&& self.wg_view().len() == outputs
        &&& self.bg_view().len() == outputs
        &&& forall|j: int| 0 <= j < outputs ==> #[trigger] self.wg_view()[j].len() == inputs
    }
}

impl<T: Copy> Clone for LinearGradient<T> {
    /// A clone carries exactly the same gradient entries.
    fn clone(&self) -> (r: Self)
        ensures
            r.wg_view() == self.wg_view(),
            r.bg_view() == self.bg_view(),
    {
        let mut rows: Vec<FloatVec<T>> = Vec::new();
        let mut j: usize = 0;
        let n = self.weight_gradients.len();
        while j < n
            invariant
                j <= n,
                n == self.weight_gradients@.len(),
                rows@.len() == j,
                forall|jj: int| 0 <= jj < j ==> #[trigger] rows@[jj]@ == self.weight_gradients@[jj]@,
            decreases n - j,
        {
            rows.push(self.weight_gradients[j].clone());
            j += 1;
        }
        let r = LinearGradient { weight_gradients: rows, bias_gradient: self.bias_gradient.clone() };
        proof {
            assert forall|jj: int| 0 <= jj < n implies #[trigger] r.wg_view()[jj]
                == self.wg_view()[jj] by {
                assert(r.wg_view()[jj] == r.weight_gradients@[jj]@);
                assert(self.wg_view()[jj] == self.weight_gradients@[jj]@);
            }
            assert(r.wg_view() =~= self.wg_view());
        }
        r
    }
}

impl<T> Linear<T> {
    /// The layer's input count.
    pub closed spec fn spec_inputs(&self) -> usize {
        self.inputs
    }

    /// The weight matrix, one row per output unit.
    pub closed spec fn weights_view(&self) -> Seq<Seq<T>> {
        self.weights@.map_values(|v: FloatVec<T>| v@)
    }

    /// The bias vector, one bias per output unit.
    pub closed spec fn biases_view(&self) -> Seq<T> {
        self.biases@
    }

    /// The layer's output count.
    pub open spec fn spec_outputs(&self) -> int {
        self.biases_view().len() as int
    }

    /// Shape invariant: one weight row per bias, every row as long as the
    /// input count.
    pub open spec fn wf(&self) -> bool {
        &&& self.weights_view().len() == self.biases_view().len()
        &&& forall|j: int|
            0 <= j < self.weights_view().len() ==> #[trigger] self.weights_view()[j].len()
                == self.spec_inputs()
    }
}

impl<T: Copy> Linear<T> {
    pub fn inputs(&self) -> (r: usize)
        ensures
            r == self.spec_inputs(),
    {
        self.inputs
    }

    pub fn outputs(&self) -> (r: usize)
        ensures
            r == self.spec_outputs(),
    {
        self.biases.len()
    }

    /// Assemble a layer from explicit parameters, rejecting any shape
    /// disagreement with a `ShapeMismatch` naming the two offending lengths.
    pub fn from_params(inputs: usize, weights: Vec<FloatVec<T>>, biases: FloatVec<T>) -> (r:
        Result<Self, ShapeMismatch>)
        ensures
            match r {
                Ok(l) => {
                    &&& weights@.len() == biases@.len()
                    &&& forall|j: int|
                        0 <= j < weights@.len() ==> #[trigger] weights@[j]@.len() == inputs
                    &&& l.wf()
                    &&& l.spec_inputs() == inputs
                    &&& l.weights_view() == weights@.map_values(|v: FloatVec<T>| v@)
                    &&& l.biases_view() == biases@
                },
                Err(e) => {
                    ||| (weights@.len() != biases@.len() && e == (ShapeMismatch {
                        left: weights@.len() as usize,
                        right: biases@.len() as usize,
                    }))
                    ||| (weights@.len() == biases@.len() && exists|j: int|
                        0 <= j < weights@.len() && #[trigger] weights@[j]@.len() != inputs && e
                            == (ShapeMismatch { left: weights@[j]@.len() as usize, right: inputs }))
                },
            },
    {
        if weights.len() != biases.len() {
            return Err(ShapeMismatch { left: weights.len(), right: biases.len() });
        }
        let mut j: usize = 0;
        let n = weights.len();
        while j < n
            invariant
                j <= n,
                n == weights@.len(),
                weights@.len() == biases@.len(),
                forall|i: int| 0 <= i < j ==> #[trigger] weights@[i]@.len() == inputs,
            decreases n - j,
        {
            if weights[j].len() != inputs {
                let e = ShapeMismatch { left: weights[j].len(), right: inputs };
                proof {
                    assert(weights@[j as int]@.len() != inputs);
                    assert(e == (ShapeMismatch {
                        left: weights@[j as int]@.len() as usize,
                        right: inputs,
                    }));
                }
                return Err(e);
            }
            j += 1;
        }
        Ok(Linear { inputs, weights, biases })
    }

    /// Forward evaluation: `output[j] = biases[j] + dot(weights[j], input)`.
    pub fn forward<FMul: Fn(T, T) -> T + Copy, FAdd: Fn(T, T) -> T + Copy>(
        &self,
        input: &FloatVec<T>,
        f_mul: FMul,
        f_add: FAdd,
        zero: T,
    ) -> (r: FloatVec<T>)
        requires
            self.wf(),
            input@.len() == self.spec_inputs(),
            bin_ok(f_mul),
            bin_ok(f_add),
        ensures
            r@.len() == self.spec_outputs(),
            forall|j: int|
                0 <= j < self.spec_outputs() ==> affine_post(
                    f_mul,
                    f_add,
                    zero,
                    self.biases_view()[j],
                    self.weights_view()[j],
                    input@,
                    #[trigger] r@[j],
                ),
    {
        let mut out: Vec<T> = Vec::new();
        let mut j: usize = 0;
        let n = self.biases.len();
        while j < n
            invariant
                self.wf(),
                input@.len() == self.spec_inputs(),
                bin_ok(f_mul),
                bin_ok(f_add),
                j <= n,
                n == self.spec_outputs(),
                out@.len() == j,
                forall|i: int|
                    0 <= i < j ==> affine_post(
                        f_mul,
                        f_add,
                        zero,
                        self.biases_view()[i],
                        self.weights_view()[i],
                        input@,
                        #[trigger] out@[i],
                    ),
            decreases n - j,
        {
            proof {
                assert(self.weights_view()[j as int] == self.weights@[j as int]@);
            }
            let d = self.weights[j].dot(input, f_mul, f_add, zero);
            let y = f_add(self.biases.get(j), d);
            proof {
                assert(dot_post(f_mul, f_add, zero, self.weights_view()[j as int], input@, d));
                assert(bin_post(f_add, self.biases_view()[j as int], d, y));
            }
            out.push(y);
            j += 1;
        }
        FloatVec::from_vec(out)
    }

    /// How much the input affects the output: the transpose-matrix–vector
    /// product, `sum over j of weights[j][i] * output_gradient[j]` for every
    /// input position `i`. `input` is accepted for interface symmetry with the
    /// other layer variants but plays no part in this computation.
    pub fn input_gradient<FMul: Fn(T, T) -> T + Copy, FAdd: Fn(T, T) -> T + Copy>(
        &self,
        input: &FloatVec<T>,
        output_gradient: &FloatVec<T>,
        f_mul: FMul,
        f_add: FAdd,
        zero: T,
    ) -> (r: FloatVec<T>)
        requires
            self.wf(),
            output_gradient@.len() == self.spec_outputs(),
            bin_ok(f_mul),
            bin_ok(f_add),
        ensures
            r@.len() == self.spec_inputs(),
            forall|i: int|
                0 <= i < self.spec_inputs() ==> colsum_post(
                    f_mul,
                    f_add,
                    zero,
                    self.weights_view(),
                    output_gradient@,
                    i,
                    #[trigger] r@[i],
                ),
    {
        let mut out: Vec<T> = Vec::new();
        let mut i: usize = 0;
        let n_in = self.inputs;
        let n_out = self.biases.len();
        while i < n_in
            invariant
                self.wf(),
                output_gradient@.len() == self.spec_outputs(),
                bin_ok(f_mul),
                bin_ok(f_add),
                i <= n_in,
                n_in == self.spec_inputs(),
                n_out == self.spec_outputs(),
                out@.len() == i,
                forall|ii: int|
                    0 <= ii < i ==> colsum_post(
                        f_mul,
                        f_add,
                        zero,
                        self.weights_view(),
                        output_gradient@,
                        ii,
                        #[trigger] out@[ii],
                    ),
            decreases n_in - i,
        {
            let mut acc: T = zero;
            let ghost mut col: Seq<T> = Seq::empty();
            proof {
                crate::ops::lemma_fold_rel_nil(f_add, zero);
            }
            let mut j: usize = 0;
            while j < n_out
                invariant
                    self.wf(),
                    output_gradient@.len() == self.spec_outputs(),
                    bin_ok(f_mul),
                    bin_ok(f_add),
                    i < n_in,
                    n_in == self.spec_inputs(),
                    n_out == self.spec_outputs(),
                    j <= n_out,
                    col.len() == j,
                    forall|jj: int|
                        0 <= jj < j ==> bin_post(
                            f_mul,
                            self.weights_view()[jj][i as int],
                            output_gradient@[jj],
                            #[trigger] col[jj],
                        ),
                    fold_rel(f_add, zero, col, acc),
                decreases n_out - j,
            {
                proof {
                    assert(self.weights_view()[j as int] == self.weights@[j as int]@);
                }
                let p = f_mul(self.weights[j].get(i), output_gradient.get(j));
                let next = f_add(acc, p);
                proof {
                    crate::ops::lemma_fold_rel_push(f_add, zero, col, acc, p, next);
                    col = col.push(p);
                }
                acc = next;
                j += 1;
            }
            proof {
                assert(colsum_post(
                    f_mul,
                    f_add,
                    zero,
                    self.weights_view(),
                    output_gradient@,
                    i as int,
                    acc,
                ));
            }
            out.push(acc);
            i += 1;
        }
        FloatVec::from_vec(out)
    }

    /// How much the parameters affect the output for one example: weight
    /// gradient row `j` is `input * output_gradient[j]` (an outer product),
    /// and the bias gradient is a copy of `output_gradient`. Pure: the layer
    /// itself is not touched, which is what makes per-example gradient
    /// computation safe to run in parallel.
    pub fn param_gradient<FMul: Fn(T, T) -> T + Copy>(
        &self,
        input: &FloatVec<T>,
        output_gradient: &FloatVec<T>,
        f_mul: FMul,
    ) -> (r: LinearGradient<T>)
        requires
            self.wf(),
            input@.len() == self.spec_inputs(),
            output_gradient@.len() == self.spec_outputs(),
            bin_ok(f_mul),
        ensures
            r.fits(self.spec_inputs() as int, self.spec_outputs()),
            forall|j: int, i: int|
                0 <= j < self.spec_outputs() && 0 <= i < self.spec_inputs() ==> bin_post(
                    f_mul,
                    input@[i],
                    output_gradient@[j],
                    #[trigger] r.wg_view()[j][i],
                ),
            r.bg_view() == output_gradient@,
    {
        let mut rows: Vec<FloatVec<T>> = Vec::new();
        let mut j: usize = 0;
        let n_in = self.inputs;
        let n_out = self.biases.len();
        while j < n_out
            invariant
                input@.len() == n_in,
                output_gradient@.len() == n_out,
                bin_ok(f_mul),
                j <= n_out,
                rows@.len() == j,
                forall|jj: int| 0 <= jj < j ==> #[trigger] rows@[jj]@.len() == n_in,
                forall|jj: int, i: int|
                    0 <= jj < j && 0 <= i < n_in ==> bin_post(
                        f_mul,
                        input@[i],
                        output_gradient@[jj],
                        #[trigger] rows@[jj]@[i],
                    ),
            decreases n_out - j,
        {
            let g = output_gradient.get(j);
            let mut row: Vec<T> = Vec::new();
            let mut i: usize = 0;
            while i < n_in
                invariant
                    input@.len() == n_in,
                    output_gradient@.len() == n_out,
                    j < n_out,
                    g == output_gradient@[j as int],
                    bin_ok(f_mul),
                    i <= n_in,
                    row@.len() == i,
                    forall|ii: int|
                        0 <= ii < i ==> bin_post(
                            f_mul,
                            input@[ii],
                            output_gradient@[j as int],
                            #[trigger] row@[ii],
                        ),
                decreases n_in - i,
            {
                row.push(f_mul(input.get(i), g));
                i += 1;
            }
            rows.push(FloatVec::from_vec(row));
            j += 1;
        }
        let r = LinearGradient { weight_gradients: rows, bias_gradient: output_gradient.clone() };
        proof {
            assert forall|j: int| 0 <= j < n_out implies #[trigger] r.wg_view()[j].len()
                == n_in by {
                assert(r.wg_view()[j] == r.weight_gradients@[j]@);
            }
            assert forall|j: int, i: int| 0 <= j < n_out && 0 <= i < n_in implies bin_post(
                f_mul,
                input@[i],
                output_gradient@[j],
                #[trigger] r.wg_view()[j][i],
            ) by {
                assert(r.wg_view()[j] == r.weight_gradients@[j]@);
            }
        }
        r
    }

    /// A freshly initialized layer: every weight, then every bias, is built by
    /// `init` from one draw of `rng`, drawn row by row in row-major order.
    pub fn random<F: Fn(u32) -> T + Copy>(rng: &mut Rng, inputs: usize, outputs: usize, init: F) -> (r:
        Self)
        requires
            un_ok(init),
        ensures
            r.wf(),
            r.spec_inputs() == inputs,
            r.spec_outputs() == outputs,
            forall|j: int, i: int|
                0 <= j < outputs && 0 <= i < inputs ==> un_post(
                    init,
                    rng_draw(old(rng)@, (j * (inputs as int) + i) as nat),
                    #[trigger] r.weights_view()[j][i],
                ),
            forall|j: int|
                0 <= j < outputs ==> un_post(
                    init,
                    rng_draw(old(rng)@, ((outputs as int) * (inputs as int) + j) as nat),
                    #[trigger] r.biases_view()[j],
                ),
            final(rng)@ == rng_state_after(
                old(rng)@,
                ((outputs as int) * (inputs as int) + outputs as int) as nat,
            ),
    {
        let ghost s0 = rng@;
        let mut rows: Vec<FloatVec<T>> = Vec::new();
        let mut j: usize = 0;
        while j < outputs
            invariant
                un_ok(init),
                j <= outputs,
                rows@.len() == j,
                rng@ == rng_state_after(s0, ((j as int) * (inputs as int)) as nat),
                forall|jj: int| 0 <= jj < j ==> #[trigger] rows@[jj]@.len() == inputs,
                forall|jj: int, i: int|
                    0 <= jj < j && 0 <= i < inputs ==> un_post(
                        init,
                        rng_draw(s0, (jj * (inputs as int) + i) as nat),
                        #[trigger] rows@[jj]@[i],
                    ),
            decreases outputs - j,
        {
            let mut row: Vec<T> = Vec::new();
            let mut i: usize = 0;
            while i < inputs
                invariant
                    un_ok(init),
                    j < outputs,
                    i <= inputs,
                    row@.len() == i,
                    rng@ == rng_state_after(s0, ((j as int) * (inputs as int) + i) as nat),
                    forall|ii: int|
                        0 <= ii < i ==> un_post(
                            init,
                            rng_draw(s0, ((j as int) * (inputs as int) + ii) as nat),
                            #[trigger] row@[ii],
                        ),
                decreases inputs - i,
            {
                let ghost k = ((j as int) * (inputs as int) + i) as nat;
                let d = rng.next();
                proof {
                    crate::rand::lemma_rng_draw_at(s0, k);
                }
                row.push(init(d));
                i += 1;
            }
            rows.push(FloatVec::from_vec(row));
            proof {
                assert(((j + 1) as int) * (inputs as int) == (j as int) * (inputs as int)
                    + inputs as int) by (nonlinear_arith);
            }
            j += 1;
        }
        let mut bias: Vec<T> = Vec::new();
        let ghost base = (outputs as int) * (inputs as int);
        let mut j2: usize = 0;
        while j2 < outputs
            invariant
                un_ok(init),
                j2 <= outputs,
                bias@.len() == j2,
                rng@ == rng_state_after(s0, (base + j2 as int) as nat),
                base == (outputs as int) * (inputs as int),
                forall|jj: int|
                    0 <= jj < j2 ==> un_post(
                        init,
                        rng_draw(s0, (base + jj) as nat),
                        #[trigger] bias@[jj],
                    ),
            decreases outputs - j2,
        {
            let ghost k = (base + j2 as int) as nat;
            let d = rng.next();
            proof {
                crate::rand::lemma_rng_draw_at(s0, k);
            }
            bias.push(init(d));
            j2 += 1;
        }
        let r = Linear { inputs, weights: rows, biases: FloatVec::from_vec(bias) };
        proof {
            assert forall|j: int, i: int| 0 <= j < outputs && 0 <= i < inputs implies un_post(
                init,
                rng_draw(s0, (j * (inputs as int) + i) as nat),
                #[trigger] r.weights_view()[j][i],
            ) by {
                assert(r.weights_view()[j] == r.weights@[j]@);
            }
            assert forall|j: int| 0 <= j < r.weights_view().len() implies #[trigger] r.weights_view()[j].len()
                == inputs by {
                assert(r.weights_view()[j] == r.weights@[j]@);
            }
        }
        r
    }

    /// Binary-encode the layer — input count, weight rows, biases — onto the
    /// end of `buffer`, every scalar as the 32-bit value `f_enc` gives it.
    pub fn serialize<FEnc: Fn(T) -> u32 + Copy>(&self, buffer: &mut Vec<u8>, f_enc: FEnc)
        requires
            self.wf(),
            un_ok(f_enc),
        ensures
            exists|wb: Seq<Seq<u32>>, bb: Seq<u32>|
                #[trigger] encodes_linear(*self, wb, bb, f_enc) && final(buffer)@ == old(buffer)@
                    + linear_bytes(self.spec_inputs() as u64, wb, bb),
    {
        write_u64_le(buffer, self.inputs as u64);
        let n_rows = self.weights.len();
        write_u64_le(buffer, n_rows as u64);
        let ghost head = old(buffer)@ + u64_le_bytes(self.spec_inputs() as u64) + u64_le_bytes(
            n_rows as u64,
        );
        proof {
            assert(buffer@ =~= head);
        }
        let ghost mut wb: Seq<Seq<u32>> = Seq::empty();
        let mut j: usize = 0;
        while j < n_rows
            invariant
                self.wf(),
                un_ok(f_enc),
                j <= n_rows,
                n_rows == self.weights_view().len(),
                wb.len() == j,
                forall|jj: int|
                    0 <= jj < j ==> (#[trigger] wb[jj]).len() == self.weights_view()[jj].len(),
                forall|jj: int, i: int|
                    0 <= jj < j && 0 <= i < wb[jj].len() ==> un_post(
                        f_enc,
                        self.weights_view()[jj][i],
                        #[trigger] wb[jj][i],
                    ),
                buffer@ == head + rows_bytes(wb),
            decreases n_rows - j,
        {
            proof {
                assert(self.weights_view()[j as int] == self.weights@[j as int]@);
            }
            let row_len = self.weights[j].len();
            write_u64_le(buffer, row_len as u64);
            let ghost row_start = buffer@;
            let ghost mut rb: Seq<u32> = Seq::empty();
            proof {
                assert(vals_bytes(rb) == Seq::<u8>::empty());
                assert(buffer@ =~= row_start + vals_bytes(rb));
            }
            let mut i: usize = 0;
            while i < row_len
                invariant
                    self.wf(),
                    un_ok(f_enc),
                    j < n_rows,
                    n_rows == self.weights_view().len(),
                    row_len == self.weights_view()[j as int].len(),
                    i <= row_len,
                    rb.len() == i,
                    forall|ii: int|
                        0 <= ii < i ==> un_post(
                            f_enc,
                            self.weights_view()[j as int][ii],
                            #[trigger] rb[ii],
                        ),
                    buffer@ == row_start + vals_bytes(rb),
                decreases row_len - i,
            {
                proof {
                    assert(self.weights_view()[j as int] == self.weights@[j as int]@);
                }
                let bits = f_enc(self.weights[j].get(i));
                write_u32_le(buffer, bits);
                proof {
                    lemma_vals_bytes_push(rb, bits);
                    assert(buffer@ =~= row_start + vals_bytes(rb.push(bits)));
                    rb = rb.push(bits);
                }
                i += 1;
            }
            proof {
                assert(rb.len() == row_len);
                assert(row_bytes(rb) == u64_le_bytes(row_len as u64) + vals_bytes(rb));
                assert(buffer@ =~= (head + rows_bytes(wb)) + row_bytes(rb));
                lemma_rows_bytes_push(wb, rb);
                assert(buffer@ =~= head + rows_bytes(wb.push(rb)));
                wb = wb.push(rb);
            }
            j += 1;
        }
        let n_b = self.biases.len();
        write_u64_le(buffer, n_b as u64);
        let ghost body = head + rows_bytes(wb) + u64_le_bytes(n_b as u64);
        proof {
            assert(buffer@ =~= body);
        }
        let ghost mut bb: Seq<u32> = Seq::empty();
        proof {
            assert(vals_bytes(bb) == Seq::<u8>::empty());
            assert(buffer@ =~= body + vals_bytes(bb));
        }
        let mut j2: usize = 0;
        while j2 < n_b
            invariant
                self.wf(),
                un_ok(f_enc),
                j2 <= n_b,
                n_b == self.biases_view().len(),
                bb.len() == j2,
                forall|jj: int|
                    0 <= jj < j2 ==> un_post(f_enc, self.biases_view()[jj], #[trigger] bb[jj]),
                buffer@ == body + vals_bytes(bb),
            decreases n_b - j2,
        {
            let bits = f_enc(self.biases.get(j2));
            write_u32_le(buffer, bits);
            proof {
                lemma_vals_bytes_push(bb, bits);
                assert(buffer@ =~= body + vals_bytes(bb.push(bits)));
                bb = bb.push(bits);
            }
            j2 += 1;
        }
        proof {
            assert(encodes_linear(*self, wb, bb, f_enc));
            assert(wb.len() == n_rows && bb.len() == n_b);
            assert(buffer@ =~= old(buffer)@ + linear_bytes(self.spec_inputs() as u64, wb, bb));
        }
    }

    /// Decode one layer frame starting at `pos`: the declared input count,
    /// weight rows, and biases, every scalar rebuilt by `f_dec` from its
    /// 32-bit field. Fails with `Truncated` where the buffer ends before the
    /// data it declares, and with `Corrupt` where the declared shapes do not
    /// form a well-formed layer.
    #[verifier::loop_isolation(false)]
    pub fn deserialize<FDec: Fn(u32) -> T + Copy>(
        buffer: &Vec<u8>,
        pos: usize,
        f_dec: FDec,
    ) -> (r: Result<(Self, usize), DecodeError>)
        requires
            un_ok(f_dec),
        ensures
            match r {
                Ok((l2, end)) => {
                    let parsed = parse_linear(buffer@, pos as int);
                    &&& parsed is Some
                    &&& parsed.unwrap().1 == end
                    &&& linear_shape_ok(parsed.unwrap().0)
                    &&& decodes_linear(l2, parsed.unwrap().0, f_dec)
                },
                Err(e) => {
                    ||| (e == DecodeError::Truncated && parse_linear(buffer@, pos as int) is None)
                    ||| (e == DecodeError::Corrupt && parse_linear(buffer@, pos as int) is Some
                        && !linear_shape_ok(parse_linear(buffer@, pos as int).unwrap().0))
                },
            },
    {
        let (n64, p1) = match read_u64_le(buffer, pos) {
            Some(t) => t,
            None => { return Err(DecodeError::Truncated) },
        };
        let (rc, p2) = match read_u64_le(buffer, p1) {
            Some(t) => t,
            None => { return Err(DecodeError::Truncated) },
        };
        let mut wraw: Vec<Vec<u32>> = Vec::new();
        let mut cur: usize = p2;
        let mut k: u64 = 0;
        while k < rc
            invariant
                k <= rc,
                wraw@.len() == k,
                match parse_rows(buffer@, cur as int, (rc - k) as nat) {
                    None => parse_rows(buffer@, p2 as int, rc as nat) is None,
                    Some((rows, pend)) => parse_rows(buffer@, p2 as int, rc as nat) == Some(
                        (wraw@.map_values(|v: Vec<u32>| v@) + rows, pend),
                    ),
                },
            decreases rc - k,
        {
            let ghost pre_rows = parse_rows(buffer@, cur as int, (rc - k) as nat);
            let (rl, q1) = match read_u64_le(buffer, cur) {
                Some(t) => t,
                None => {
                    proof {
                        assert(parse_rows(buffer@, cur as int, (rc - k) as nat) is None);
                    }
                    return Err(DecodeError::Truncated)
                },
            };
            let mut vals: Vec<u32> = Vec::new();
            let mut vcur: usize = q1;
            let mut t: u64 = 0;
            while t < rl
                invariant
                    t <= rl,
                    vals@.len() == t,
                    match parse_u32_run(buffer@, vcur as int, (rl - t) as nat) {
                        None => parse_u32_run(buffer@, q1 as int, rl as nat) is None,
                        Some((vs, pend)) => parse_u32_run(buffer@, q1 as int, rl as nat) == Some(
                            (vals@ + vs, pend),
                        ),
                    },
                decreases rl - t,
            {
                let (v, vnext) = match read_u32_le(buffer, vcur) {
                    Some(x) => x,
                    None => {
                        proof {
                            assert(parse_u32_run(buffer@, vcur as int, (rl - t) as nat) is None);
                            assert(parse_u32_run(buffer@, q1 as int, rl as nat) is None);
                            assert(parse_row(buffer@, cur as int) is None);
                            assert(pre_rows is None);
                        }
                        return Err(DecodeError::Truncated)
                    },
                };
                let ghost old_vals = vals@;
                vals.push(v);
                proof {
                    let rest = parse_u32_run(buffer@, vnext as int, ((rl - t) - 1) as nat);
                    match rest {
                        None => {
                            assert(parse_u32_run(buffer@, vcur as int, (rl - t) as nat) is None);
                        },
                        Some((vs2, pend2)) => {
                            assert(parse_u32_run(buffer@, vcur as int, (rl - t) as nat) == Some(
                                (seq![v] + vs2, pend2),
                            ));
                            assert(old_vals + (seq![v] + vs2) =~= vals@ + vs2);
                        },
                    }
                }
                vcur = vnext;
                t += 1;
            }
            proof {
                assert(parse_u32_run(buffer@, vcur as int, 0) == Some(
                    (Seq::<u32>::empty(), vcur as int),
                ));
                assert(vals@ + Seq::<u32>::empty() =~= vals@);
                assert(parse_u32_run(buffer@, q1 as int, rl as nat) == Some((vals@, vcur as int)));
                assert(parse_row(buffer@, cur as int) == Some((vals@, vcur as int)));
            }
            let ghost old_wraw = wraw@;
            wraw.push(vals);
            proof {
                let rest = parse_rows(buffer@, vcur as int, ((rc - k) - 1) as nat);
                match rest {
                    None => {
                        assert(parse_rows(buffer@, cur as int, (rc - k) as nat) is None);
                    },
                    Some((rows2, pend2)) => {
                        assert(parse_rows(buffer@, cur as int, (rc - k) as nat) == Some(
                            (seq![wraw@.last()@] + rows2, pend2),
                        ));
                        assert(wraw@.map_values(|v: Vec<u32>| v@) =~= old_wraw.map_values(
                            |v: Vec<u32>| v@,
                        ).push(wraw@.last()@));
                        assert(old_wraw.map_values(|v: Vec<u32>| v@) + (seq![wraw@.last()@]
                            + rows2) =~= wraw@.map_values(|v: Vec<u32>| v@) + rows2);
                    },
                }
            }
            cur = vcur;
            k += 1;
        }
        let ghost wcol = wraw@.map_values(|v: Vec<u32>| v@);
        proof {
            assert(parse_rows(buffer@, cur as int, 0) == Some(
                (Seq::<Seq<u32>>::empty(), cur as int),
            ));
            assert(wcol + Seq::<Seq<u32>>::empty() =~= wcol);
            assert(parse_rows(buffer@, p2 as int, rc as nat) == Some((wcol, cur as int)));
        }
        let (bc, p4) = match read_u64_le(buffer, cur) {
            Some(t) => t,
            None => { return Err(DecodeError::Truncated) },
        };
        let mut braw: Vec<u32> = Vec::new();
        let mut bcur: usize = p4;
        let mut t2: u64 = 0;
        while t2 < bc
            invariant
                t2 <= bc,
                braw@.len() == t2,
                match parse_u32_run(buffer@, bcur as int, (bc - t2) as nat) {
                    None => parse_u32_run(buffer@, p4 as int, bc as nat) is None,
                    Some((vs, pend)) => parse_u32_run(buffer@, p4 as int, bc as nat) == Some(
                        (braw@ + vs, pend),
                    ),
                },
            decreases bc - t2,
        {
            let (v, vnext) = match read_u32_le(buffer, bcur) {
                Some(x) => x,
                None => {
                    proof {
                        assert(parse_u32_run(buffer@, bcur as int, (bc - t2) as nat) is None);
                    }
                    return Err(DecodeError::Truncated)
                },
            };
            let ghost old_braw = braw@;
            braw.push(v);
            proof {
                let rest = parse_u32_run(buffer@, vnext as int, ((bc - t2) - 1) as nat);
                match rest {
                    None => {
                        assert(parse_u32_run(buffer@, bcur as int, (bc - t2) as nat) is None);
                    },
                    Some((vs2, pend2)) => {
                        assert(parse_u32_run(buffer@, bcur as int, (bc - t2) as nat) == Some(
                            (seq![v] + vs2, pend2),
                        ));
                        assert(old_braw + (seq![v] + vs2) =~= braw@ + vs2);
                    },
                }
            }
            bcur = vnext;
            t2 += 1;
        }
        proof {
            assert(parse_u32_run(buffer@, bcur as int, 0) == Some(
                (Seq::<u32>::empty(), bcur as int),
            ));
            assert(braw@ + Seq::<u32>::empty() =~= braw@);
            assert(parse_u32_run(buffer@, p4 as int, bc as nat) == Some((braw@, bcur as int)));
            assert(parse_linear(buffer@, pos as int) == Some(((n64, wcol, braw@), bcur as int)));
        }
        let ghost parsed_tuple = (n64, wcol, braw@);
        if n64 > (usize::MAX as u64) {
            return Err(DecodeError::Corrupt);
        }
        let n_in: usize = n64 as usize;
        if wraw.len() != braw.len() {
            return Err(DecodeError::Corrupt);
        }
        let out_n = wraw.len();
        let mut j: usize = 0;
        while j < out_n
            invariant
                out_n == wraw@.len(),
                wcol == wraw@.map_values(|v: Vec<u32>| v@),
                n_in == n64,
                j <= out_n,
                forall|jj: int| 0 <= jj < j ==> (#[trigger] wcol[jj]).len() == n64,
            decreases out_n - j,
        {
            if wraw[j].len() != n_in {
                proof {
                    assert(wcol[j as int] == wraw@[j as int]@);
                    assert(!linear_shape_ok(parsed_tuple));
                }
                return Err(DecodeError::Corrupt);
            }
            proof {
                assert(wcol[j as int] == wraw@[j as int]@);
            }
            j += 1;
        }
        proof {
            assert(linear_shape_ok(parsed_tuple));
        }
        let mut weights: Vec<FloatVec<T>> = Vec::new();
        let mut j2: usize = 0;
        while j2 < out_n
            invariant
                un_ok(f_dec),
                out_n == wraw@.len(),
                wcol == wraw@.map_values(|v: Vec<u32>| v@),
                forall|jj: int| 0 <= jj < out_n ==> (#[trigger] wcol[jj]).len() == n64,
                n_in == n64,
                j2 <= out_n,
                weights@.len() == j2,
                forall|jj: int| 0 <= jj < j2 ==> (#[trigger] weights@[jj])@.len() == n_in,
                forall|jj: int, i: int|
                    0 <= jj < j2 && 0 <= i < n_in ==> un_post(
                        f_dec,
                        wcol[jj][i],
                        #[trigger] weights@[jj]@[i],
                    ),
            decreases out_n - j2,
        {
            proof {
                assert(wcol[j2 as int] == wraw@[j2 as int]@);
            }
            let mut row: Vec<T> = Vec::new();
            let mut i: usize = 0;
            while i < n_in
                invariant
                    un_ok(f_dec),
                    j2 < out_n,
                    out_n == wraw@.len(),
                    wraw@[j2 as int]@.len() == n_in,
                    wcol[j2 as int] == wraw@[j2 as int]@,
                    i <= n_in,
                    row@.len() == i,
                    forall|ii: int|
                        0 <= ii < i ==> un_post(
                            f_dec,
                            wcol[j2 as int][ii],
                            #[trigger] row@[ii],
                        ),
                decreases n_in - i,
            {
                row.push(f_dec(wraw[j2][i]));
                i += 1;
            }
            weights.push(FloatVec::from_vec(row));
            j2 += 1;
        }
        let mut bias: Vec<T> = Vec::new();
        let bn = braw.len();
        let mut j3: usize = 0;
        while j3 < bn
            invariant
                un_ok(f_dec),
                bn == braw@.len(),
                j3 <= bn,
                bias@.len() == j3,
                forall|jj: int|
                    0 <= jj < j3 ==> un_post(f_dec, braw@[jj], #[trigger] bias@[jj]),
            decreases bn - j3,
        {
            bias.push(f_dec(braw[j3]));
            j3 += 1;
        }
        let l2 = Linear { inputs: n_in, weights, biases: FloatVec::from_vec(bias) };
        proof {
            assert forall|jj: int| 0 <= jj < out_n implies #[trigger] l2.weights_view()[jj]
                == l2.weights@[jj]@ by {}
            assert(decodes_linear(l2, parsed_tuple, f_dec));
        }
        Ok((l2, bcur))
    }

    /// The gradient-descent step, the sole mutation of the parameters:
    /// average the supplied per-example gradients and subtract the averages,
    /// scaled by the learning rate, from the weights and biases. Every entry
    /// is summed in batch order, divided by the batch count, scaled, and
    /// subtracted.
    pub fn apply_gradients<
        FAdd: Fn(T, T) -> T + Copy,
        FSub: Fn(T, T) -> T + Copy,
        FMul: Fn(T, T) -> T + Copy,
        FDiv: Fn(T, T) -> T + Copy,
        FCnt: Fn(usize) -> T + Copy,
    >(
        &mut self,
        gradients: &Vec<ParamGradient<T>>,
        lr: T,
        f_add: FAdd,
        f_sub: FSub,
        f_mul: FMul,
        f_div: FDiv,
        f_cnt: FCnt,
        zero: T,
    )
        requires
            old(self).wf(),
            all_linear_fits(
                gradients@,
                old(self).spec_inputs() as int,
                old(self).spec_outputs(),
            ),
            bin_ok(f_add),
            bin_ok(f_sub),
            bin_ok(f_mul),
            bin_ok(f_div),
            un_ok(f_cnt),
        ensures
            final(self).wf(),
            final(self).spec_inputs() == old(self).spec_inputs(),
            final(self).spec_outputs() == old(self).spec_outputs(),
            forall|j: int, i: int|
                0 <= j < old(self).spec_outputs() && 0 <= i < old(self).spec_inputs()
                    ==> sgd_update_post(
                    f_add,
                    f_sub,
                    f_mul,
                    f_div,
                    f_cnt,
                    zero,
                    gradients@.len() as usize,
                    lr,
                    old(self).weights_view()[j][i],
                    wg_col(gradients@, j, i),
                    #[trigger] final(self).weights_view()[j][i],
                ),
            forall|j: int|
                0 <= j < old(self).spec_outputs() ==> sgd_update_post(
                    f_add,
                    f_sub,
                    f_mul,
                    f_div,
                    f_cnt,
                    zero,
                    gradients@.len() as usize,
                    lr,
                    old(self).biases_view()[j],
                    bg_col(gradients@, j),
                    #[trigger] final(self).biases_view()[j],
                ),
    {
        let n = gradients.len();
        let n_in = self.inputs;
        let n_out = self.biases.len();
        let mut new_rows: Vec<FloatVec<T>> = Vec::new();
        let mut j: usize = 0;
        while j < n_out
            invariant
                self == old(self),
                self.wf(),
                all_linear_fits(gradients@, n_in as int, n_out as int),
                bin_ok(f_add),
                bin_ok(f_sub),
                bin_ok(f_mul),
                bin_ok(f_div),
                un_ok(f_cnt),
                n == gradients@.len(),
                n_in == self.spec_inputs(),
                n_out == self.spec_outputs(),
                j <= n_out,
                new_rows@.len() == j,
                forall|jj: int| 0 <= jj < j ==> #[trigger] new_rows@[jj]@.len() == n_in,
                forall|jj: int, i: int|
                    0 <= jj < j && 0 <= i < n_in ==> sgd_update_post(
                        f_add,
                        f_sub,
                        f_mul,
                        f_div,
                        f_cnt,
                        zero,
                        n,
                        lr,
                        self.weights_view()[jj][i],
                        wg_col(gradients@, jj, i),
                        #[trigger] new_rows@[jj]@[i],
                    ),
            decreases n_out - j,
        {
            let mut new_row: Vec<T> = Vec::new();
            let mut i: usize = 0;
            while i < n_in
                invariant
                    self == old(self),
                    self.wf(),
                    all_linear_fits(gradients@, n_in as int, n_out as int),
                    bin_ok(f_add),
                    bin_ok(f_sub),
                    bin_ok(f_mul),
                    bin_ok(f_div),
                    un_ok(f_cnt),
                    n == gradients@.len(),
                    n_in == self.spec_inputs(),
                    n_out == self.spec_outputs(),
                    j < n_out,
                    i <= n_in,
                    new_row@.len() == i,
                    forall|ii: int|
                        0 <= ii < i ==> sgd_update_post(
                            f_add,
                            f_sub,
                            f_mul,
                            f_div,
                            f_cnt,
                            zero,
                            n,
                            lr,
                            self.weights_view()[j as int][ii],
                            wg_col(gradients@, j as int, ii),
                            #[trigger] new_row@[ii],
                        ),
                decreases n_in - i,
            {
                let mut acc: T = zero;
                let ghost mut col: Seq<T> = Seq::empty();
                proof {
                    crate::ops::lemma_fold_rel_nil(f_add, zero);
                }
                let mut k: usize = 0;
                while k < n
                    invariant
                        all_linear_fits(gradients@, n_in as int, n_out as int),
                        bin_ok(f_add),
                        n == gradients@.len(),
                        j < n_out,
                        i < n_in,
                        k <= n,
                        col.len() == k,
                        forall|kk: int|
                            0 <= kk < k ==> #[trigger] col[kk] == wg_col(
                                gradients@,
                                j as int,
                                i as int,
                            )[kk],
                        fold_rel(f_add, zero, col, acc),
                    decreases n - k,
                {
                    let v: T = match &gradients[k] {
                        ParamGradient::Linear(lg) => {
                            proof {
                                assert(linear_part(gradients@[k as int]) == *lg);
                                assert(lg.wg_view()[j as int] == lg.weight_gradients@[j as int]@);
                            }
                            lg.weight_gradients[j].get(i)
                        },
                        ParamGradient::Activation => vstd::pervasive::unreached(),
                    };
                    let next = f_add(acc, v);
                    proof {
                        assert(v == wg_col(gradients@, j as int, i as int)[k as int]);
                        crate::ops::lemma_fold_rel_push(f_add, zero, col, acc, v, next);
                        col = col.push(v);
                    }
                    acc = next;
                    k += 1;
                }
                let nv = f_cnt(n);
                let q = f_div(acc, nv);
                let d = f_mul(q, lr);
                proof {
                    assert(self.weights_view()[j as int] == self.weights@[j as int]@);
                }
                let w1 = f_sub(self.weights[j].get(i), d);
                proof {
                    assert(col =~= wg_col(gradients@, j as int, i as int));
                    assert(self.weights_view()[j as int] == self.weights@[j as int]@);
                    lemma_sgd_intro(
                        f_add,
                        f_sub,
                        f_mul,
                        f_div,
                        f_cnt,
                        zero,
                        n,
                        lr,
                        self.weights_view()[j as int][i as int],
                        col,
                        acc,
                        nv,
                        q,
                        d,
                        w1,
                    );
                }
                new_row.push(w1);
                i += 1;
            }
            new_rows.push(FloatVec::from_vec(new_row));
            j += 1;
        }
        let mut new_bias: Vec<T> = Vec::new();
        let mut j2: usize = 0;
        while j2 < n_out
            invariant
                self == old(self),
                self.wf(),
                all_linear_fits(gradients@, n_in as int, n_out as int),
                bin_ok(f_add),
                bin_ok(f_sub),
                bin_ok(f_mul),
                bin_ok(f_div),
                un_ok(f_cnt),
                n == gradients@.len(),
                n_in == self.spec_inputs(),
                n_out == self.spec_outputs(),
                j2 <= n_out,
                new_bias@.len() == j2,
                forall|jj: int|
                    0 <= jj < j2 ==> sgd_update_post(
                        f_add,
                        f_sub,
                        f_mul,
                        f_div,
                        f_cnt,
                        zero,
                        n,
                        lr,
                        self.biases_view()[jj],
                        bg_col(gradients@, jj),
                        #[trigger] new_bias@[jj],
                    ),
            decreases n_out - j2,
        {
            let mut acc: T = zero;
            let ghost mut col: Seq<T> = Seq::empty();
            proof {
                crate::ops::lemma_fold_rel_nil(f_add, zero);
            }
            let mut k: usize = 0;
            while k < n
                invariant
                    all_linear_fits(gradients@, n_in as int, n_out as int),
                    bin_ok(f_add),
                    n == gradients@.len(),
                    j2 < n_out,
                    k <= n,
                    col.len() == k,
                    forall|kk: int|
                        0 <= kk < k ==> #[trigger] col[kk] == bg_col(gradients@, j2 as int)[kk],
                    fold_rel(f_add, zero, col, acc),
                decreases n - k,
            {
                let v: T = match &gradients[k] {
                    ParamGradient::Linear(lg) => {
                        proof {
                            assert(linear_part(gradients@[k as int]) == *lg);
                        }
                        lg.bias_gradient.get(j2)
                    },
                    ParamGradient::Activation => vstd::pervasive::unreached(),
                };
                let next = f_add(acc, v);
                proof {
                    assert(v == bg_col(gradients@, j2 as int)[k as int]);
                    crate::ops::lemma_fold_rel_push(f_add, zero, col, acc, v, next);
                    col = col.push(v);
                }
                acc = next;
                k += 1;
            }
            let nv = f_cnt(n);
            let q = f_div(acc, nv);
            let d = f_mul(q, lr);
            let b1 = f_sub(self.biases.get(j2), d);
            proof {
                assert(col =~= bg_col(gradients@, j2 as int));
                lemma_sgd_intro(
                    f_add,
                    f_sub,
                    f_mul,
                    f_div,
                    f_cnt,
                    zero,
                    n,
                    lr,
                    self.biases_view()[j2 as int],
                    col,
                    acc,
                    nv,
                    q,
                    d,
                    b1,
                );
            }
            new_bias.push(b1);
            j2 += 1;
        }
        self.weights = new_rows;
        self.biases = FloatVec::from_vec(new_bias);
        proof {
            assert forall|j: int| 0 <= j < old(self).spec_outputs() implies #[trigger] self.weights_view()[j]
                == self.weights@[j]@ by {}
        }
    }
}

/// `y` is an affine unit's output: a dot product `d` of `w` and `x`, then
/// `bias + d`.
pub open spec fn affine_post<T, FMul: Fn(T, T) -> T, FAdd: Fn(T, T) -> T>(
    f_mul: FMul,
    f_add: FAdd,
    zero: T,
    bias: T,
    w: Seq<T>,
    x: Seq<T>,
    y: T,
) -> bool {
    exists|d: T| #[trigger] dot_post(f_mul, f_add, zero, w, x, d) && bin_post(f_add, bias, d, y)
}

/// `wb` and `bb` are 32-bit encodings, entry by entry, of the layer's
/// weights and biases under the caller's scalar encoding.
pub open spec fn encodes_linear<T, FEnc: Fn(T) -> u32>(
    l: Linear<T>,
    wb: Seq<Seq<u32>>,
    bb: Seq<u32>,
    f_enc: FEnc,
) -> bool {
    &&& wb.len() == l.weights_view().len()
    &&& forall|j: int| 0 <= j < wb.len() ==> (#[trigger] wb[j]).len() == l.weights_view()[j].len()
    &&& forall|j: int, i: int|
        0 <= j < wb.len() && 0 <= i < wb[j].len() ==> un_post(
            f_enc,
            l.weights_view()[j][i],
            #[trigger] wb[j][i],
        )
    &&& bb.len() == l.biases_view().len()
    &&& forall|j: int| 0 <= j < bb.len() ==> un_post(f_enc, l.biases_view()[j], #[trigger] bb[j])
}

/// A parsed frame can stand as a layer: the input count fits the machine,
/// there is one weight row per bias, and every row is as long as the input
/// count.
pub open spec fn linear_shape_ok(t: (u64, Seq<Seq<u32>>, Seq<u32>)) -> bool {
    &&& t.0 <= usize::MAX
    &&& t.1.len() == t.2.len()
    &&& forall|j: int| 0 <= j < t.1.len() ==> (#[trigger] t.1[j]).len() == t.0
}

/// `l` is a decoding, entry by entry, of the parsed frame `t` under the
/// caller's scalar decoding.
pub open spec fn decodes_linear<T, FDec: Fn(u32) -> T>(
    l: Linear<T>,
    t: (u64, Seq<Seq<u32>>, Seq<u32>),
    f_dec: FDec,
) -> bool {
    &&& l.wf()
    &&& l.spec_inputs() == t.0
    &&& l.weights_view().len() == t.1.len()
    &&& forall|j: int|
        0 <= j < t.1.len() ==> (#[trigger] l.weights_view()[j]).len() == t.1[j].len()
    &&& forall|j: int, i: int|
        0 <= j < t.1.len() && 0 <= i < t.1[j].len() ==> un_post(
            f_dec,
            t.1[j][i],
            #[trigger] l.weights_view()[j][i],
        )
    &&& l.biases_view().len() == t.2.len()
    &&& forall|j: int| 0 <= j < t.2.len() ==> un_post(f_dec, t.2[j], #[trigger] l.biases_view()[j])
}

/// `w1` is the gradient-descent update of `w0`: the per-example contributions
/// `col` are summed from `zero` in batch order, divided by the batch count
/// `n`, scaled by the learning rate `lr`, and subtracted from `w0`.
pub open spec fn sgd_update_post<
    T,
    FAdd: Fn(T, T) -> T,
    FSub: Fn(T, T) -> T,
    FMul: Fn(T, T) -> T,
    FDiv: Fn(T, T) -> T,
    FCnt: Fn(usize) -> T,
>(
    f_add: FAdd,
    f_sub: FSub,
    f_mul: FMul,
    f_div: FDiv,
    f_cnt: FCnt,
    zero: T,
    n: usize,
    lr: T,
    w0: T,
    col: Seq<T>,
    w1: T,
) -> bool {
    exists|s: T|
        #[trigger] fold_rel(f_add, zero, col, s) && exists|nv: T|
            #[trigger] un_post(f_cnt, n, nv) && exists|q: T|
                #[trigger] bin_post(f_div, s, nv, q) && exists|d: T|
                    #[trigger] bin_post(f_mul, q, lr, d) && bin_post(f_sub, w0, d, w1)
}

/// Concrete intermediate values witness an `sgd_update_post`.
pub proof fn lemma_sgd_intro<
    T,
    FAdd: Fn(T, T) -> T,
    FSub: Fn(T, T) -> T,
    FMul: Fn(T, T) -> T,
    FDiv: Fn(T, T) -> T,
    FCnt: Fn(usize) -> T,
>(
    f_add: FAdd,
    f_sub: FSub,
    f_mul: FMul,
    f_div: FDiv,
    f_cnt: FCnt,
    zero: T,
    n: usize,
    lr: T,
    w0: T,
    col: Seq<T>,
    s: T,
    nv: T,
    q: T,
    d: T,
    w1: T,
)
    requires
        fold_rel(f_add, zero, col, s),
        un_post(f_cnt, n, nv),
        bin_post(f_div, s, nv, q),
        bin_post(f_mul, q, lr, d),
        bin_post(f_sub, w0, d, w1),
    ensures
        sgd_update_post(f_add, f_sub, f_mul, f_div, f_cnt, zero, n, lr, w0, col, w1),
{
}

/// `y` is the weighted column sum at input position `i`: the `f_add`-fold,
/// from `zero`, of `w[j][i] * og[j]` over the output units `j` in order.
pub open spec fn colsum_post<T, FMul: Fn(T, T) -> T, FAdd: Fn(T, T) -> T>(
    f_mul: FMul,
    f_add: FAdd,
    zero: T,
    w: Seq<Seq<T>>,
    og: Seq<T>,
    i: int,
    y: T,
) -> bool {
    exists|col: Seq<T>|
        col.len() == w.len() && (forall|j: int|
            0 <= j < w.len() ==> bin_post(f_mul, w[j][i], og[j], #[trigger] col[j])) && fold_rel(
            f_add,
            zero,
            col,
            y,
        )
}

} // verus!
