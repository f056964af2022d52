//! Layered arithmetic circuits: gate graphs evaluated layer by layer over the field.
use crate::field::{fe_add, fe_mul, FieldElem};
use vstd::prelude::*;

verus! {

/// One gate, reading two values of the previous layer by index.
#[derive(Clone, Copy, Debug, PartialEq, Eq, Structural)]
pub enum Gate {
    Add(usize, usize),
    Mul(usize, usize),
}

/// One layer: an ordered list of gates.
#[derive(Clone, Debug)]
pub struct Layer {
    pub gates: Vec<Gate>,
}

/// A layered circuit with a declared input width. Every gate of layer `i`
/// must reference values of layer `i - 1` (the inputs, for layer 0).
#[derive(Clone, Debug)]
pub struct Circuit {
    pub layers: Vec<Layer>,
    pub input_size: usize,
}

/// Structural failures of circuit evaluation.
#[derive(Clone, Copy, Debug, PartialEq, Eq, Structural)]
pub enum CircuitError {
    /// Expected width, provided width.
    InvalidInputSize(usize, usize),
    /// Offending gate index, width of the layer it reads.
    InvalidGateIndex(usize, usize),
}

/// Every entry is a reduced residue.
pub open spec fn all_wf(s: Seq<FieldElem>) -> bool {
    forall|i: int| 0 <= i < s.len() ==> s[i].wf()
}

/// A gate is in bounds when both of its inputs read existing values.
pub open spec fn gate_in_bounds(g: Gate, n: nat) -> bool {
    match g {
        Gate::Add(i, j) => i < n && j < n,
        Gate::Mul(i, j) => i < n && j < n,
    }
}

/// The bigger of a gate's two inputs: what a bounds failure reports.
pub open spec fn gate_max_index(g: Gate) -> usize {
    match g {
        Gate::Add(i, j) => if i >= j { i } else { j },
        Gate::Mul(i, j) => if i >= j { i } else { j },
    }
}

/// The value a gate produces from the previous layer's values.
pub open spec fn gate_value(g: Gate, prev: Seq<FieldElem>) -> FieldElem {
    match g {
        Gate::Add(i, j) => fe_add(prev[i as int], prev[j as int]),
        Gate::Mul(i, j) => fe_mul(prev[i as int], prev[j as int]),
    }
}

/// The values one layer produces, or the first bounds failure:
/// the offending gate's larger index paired with the previous layer's width.
pub open spec fn eval_gates(gates: Seq<Gate>, prev: Seq<FieldElem>) -> Result<
    Seq<FieldElem>,
    (usize, usize),
>
    decreases gates.len(),
{
    if gates.len() == 0 {
        Ok(Seq::empty())
    } else {
        match eval_gates(gates.drop_last(), prev) {
            Ok(vals) => if gate_in_bounds(gates.last(), prev.len()) {
                Ok(vals.push(gate_value(gates.last(), prev)))
            } else {
                Err((gate_max_index(gates.last()), prev.len() as usize))
            },
            Err(e) => Err(e),
        }
    }
}

/// The final values of a stack of layers applied to `vals`, or the first failure.
pub open spec fn eval_layers(layers: Seq<Layer>, vals: Seq<FieldElem>) -> Result<
    Seq<FieldElem>,
    (usize, usize),
>
    decreases layers.len(),
{
    if layers.len() == 0 {
        Ok(vals)
    } else {
        match eval_gates(layers[0].gates@, vals) {
            Ok(next) => eval_layers(layers.drop_first(), next),
            Err(e) => Err(e),
        }
    }
}

/// `w` records the inputs followed by every layer's values, all consistent
/// with the circuit's gates.
pub open spec fn witness_ok(c: Circuit, inputs: Seq<FieldElem>, w: Seq<Vec<FieldElem>>) -> bool {
    &&& w.len() == c.layers@.len() + 1
    &&& w[0]@ == inputs
    &&& forall|l: int|
        0 <= l < c.layers@.len() ==> #[trigger] eval_gates(c.layers@[l].gates@, w[l]@) == Ok::<
            Seq<FieldElem>,
            (usize, usize),
        >(w[l + 1]@)
}

/// A successful layer evaluation yields one in-bounds gate value per gate.
pub proof fn lemma_eval_gates_ok(gates: Seq<Gate>, prev: Seq<FieldElem>, vals: Seq<FieldElem>)
    requires
        eval_gates(gates, prev) == Ok::<Seq<FieldElem>, (usize, usize)>(vals),
    ensures
        vals.len() == gates.len(),
        forall|g: int|
            0 <= g < gates.len() ==> gate_in_bounds(#[trigger] gates[g], prev.len()) && vals[g]
                == gate_value(gates[g], prev),
    decreases gates.len(),
{
    if gates.len() > 0 {
        let prefix = gates.drop_last();
        let rest = eval_gates(prefix, prev)->Ok_0;
        lemma_eval_gates_ok(prefix, prev, rest);
        assert(vals == rest.push(gate_value(gates.last(), prev)));
        assert forall|g: int|
            0 <= g < gates.len() implies gate_in_bounds(#[trigger] gates[g], prev.len()) && vals[g]
            == gate_value(gates[g], prev) by {
            if g < gates.len() - 1 {
                assert(gates[g] == prefix[g]);
                assert(vals[g] == rest[g]);
            } else {
                assert(gates[g] == gates.last());
            }
        }
    }
}

/// Gate values are always reduced residues.
pub proof fn lemma_eval_gates_wf(gates: Seq<Gate>, prev: Seq<FieldElem>, vals: Seq<FieldElem>)
    requires
        eval_gates(gates, prev) == Ok::<Seq<FieldElem>, (usize, usize)>(vals),
    ensures
        all_wf(vals),
{
    lemma_eval_gates_ok(gates, prev, vals);
    assert forall|i: int| 0 <= i < vals.len() implies vals[i].wf() by {
        assert(vals[i] == gate_value(gates[i], prev));
    }
}

/// After a failing prefix, evaluating the full list gives that same failure.
pub proof fn lemma_eval_gates_prefix_err(gates: Seq<Gate>, prev: Seq<FieldElem>, k: int)
    requires
        0 <= k <= gates.len(),
        eval_gates(gates.take(k), prev) is Err,
    ensures
        eval_gates(gates, prev) == eval_gates(gates.take(k), prev),
    decreases gates.len() - k,
{
    if k == gates.len() {
        assert(gates.take(k) =~= gates);
    } else {
        assert(gates.take(k + 1).drop_last() =~= gates.take(k));
        assert(gates.take(k + 1).last() == gates[k]);
        lemma_eval_gates_prefix_err(gates, prev, k + 1);
    }
}

impl Circuit {
    pub fn new(input_size: usize) -> (r: Self)
        ensures
            r.layers@.len() == 0,
            r.input_size == input_size,
    {
        Circuit { layers: Vec::new(), input_size }
    }

    pub fn add_layer(&mut self, gates: Vec<Gate>)
        ensures
            final(self).layers@ == old(self).layers@.push((Layer { gates })),
            final(self).input_size == old(self).input_size,
    {
        self.layers.push(Layer { gates });
    }

    /// Runs the circuit and returns the last layer's values (the inputs, if
    /// there is no layer). Fails exactly when the input width is wrong or a
    /// gate reads past the previous layer.
    pub fn evaluate(&self, inputs: &Vec<FieldElem>) -> (r: Result<Vec<FieldElem>, CircuitError>)
        requires
            all_wf(inputs@),
        ensures
            inputs@.len() != self.input_size ==> r == Err::<Vec<FieldElem>, CircuitError>(
                CircuitError::InvalidInputSize(self.input_size, inputs@.len() as usize),
            ),
            inputs@.len() == self.input_size && eval_layers(self.layers@, inputs@) is Ok ==> r is Ok
                && r->Ok_0@ == eval_layers(self.layers@, inputs@)->Ok_0,
            inputs@.len() == self.input_size && eval_layers(self.layers@, inputs@) is Err ==> r
                == Err::<Vec<FieldElem>, CircuitError>(
                CircuitError::InvalidGateIndex(
                    eval_layers(self.layers@, inputs@)->Err_0.0,
                    eval_layers(self.layers@, inputs@)->Err_0.1,
                ),
            ),
    {
        if inputs.len() != self.input_size {
            return Err(CircuitError::InvalidInputSize(self.input_size, inputs.len()));
        }
        let mut values: Vec<FieldElem> = inputs.clone();
        let mut i: usize = 0;
        proof {
            assert(self.layers@.skip(0) =~= self.layers@);
        }
        while i < self.layers.len()
            invariant
                0 <= i <= self.layers@.len(),
                inputs@.len() == self.input_size,
                all_wf(values@),
                eval_layers(self.layers@, inputs@) == eval_layers(self.layers@.skip(i as int), values@),
            decreases self.layers@.len() - i,
        {
            let ghost pre = values@;
            let next = match self.eval_one_layer(i, &values) {
                Ok(next) => next,
                Err(e) => {
                    proof {
                        assert(self.layers@.skip(i as int)[0] == self.layers@[i as int]);
                    }
                    return Err(e);
                },
            };
            proof {
                assert(self.layers@.skip(i as int)[0] == self.layers@[i as int]);
                assert(self.layers@.skip(i as int).drop_first() =~= self.layers@.skip(i as int + 1));
                lemma_eval_gates_wf(self.layers@[i as int].gates@, pre, next@);
            }
            values = next;
            i = i + 1;
        }
        proof {
            assert(self.layers@.skip(self.layers@.len() as int) =~= Seq::<Layer>::empty());
        }
        Ok(values)
    }

    /// One layer's values from the previous layer's values, or the bounds failure.
    fn eval_one_layer(&self, l: usize, prev: &Vec<FieldElem>) -> (r: Result<
        Vec<FieldElem>,
        CircuitError,
    >)
        requires
            l < self.layers@.len(),
            all_wf(prev@),
        ensures
            eval_gates(self.layers@[l as int].gates@, prev@) is Ok ==> r is Ok && r->Ok_0@
                == eval_gates(self.layers@[l as int].gates@, prev@)->Ok_0,
            eval_gates(self.layers@[l as int].gates@, prev@) is Err ==> r == Err::<
                Vec<FieldElem>,
                CircuitError,
            >(
                CircuitError::InvalidGateIndex(
                    eval_gates(self.layers@[l as int].gates@, prev@)->Err_0.0,
                    eval_gates(self.layers@[l as int].gates@, prev@)->Err_0.1,
                ),
            ),
    {
        let gates = &self.layers[l].gates;
        let ghost gseq = gates@;
        let mut next: Vec<FieldElem> = Vec::new();
        let mut g: usize = 0;
        while g < gates.len()
            invariant
                0 <= g <= gseq.len(),
                all_wf(prev@),
                l < self.layers@.len(),
                gates@ == gseq,
                gseq == self.layers@[l as int].gates@,
                eval_gates(gseq.take(g as int), prev@) == Ok::<Seq<FieldElem>, (usize, usize)>(
                    next@,
                ),
            decreases gseq.len() - g,
        {
            let gate = gates[g];
            proof {
                assert(gseq.take(g as int + 1).drop_last() =~= gseq.take(g as int));
                assert(gseq.take(g as int + 1).last() == gseq[g as int]);
            }
            let (i, j, is_add) = match gate {
                Gate::Add(i, j) => (i, j, true),
                Gate::Mul(i, j) => (i, j, false),
            };
            if i >= prev.len() || j >= prev.len() {
                let bad = if i >= j {
                    i
                } else {
                    j
                };
                proof {
                    lemma_eval_gates_prefix_err(gseq, prev@, g as int + 1);
                }
                return Err(CircuitError::InvalidGateIndex(bad, prev.len()));
            }
            let v = if is_add {
                prev[i].add(prev[j])
            } else {
                prev[i].mul(prev[j])
            };
            next.push(v);
            g = g + 1;
        }
        proof {
            assert(gseq.take(gseq.len() as int) =~= gseq);
        }
        Ok(next)
    }

    /// Runs the circuit and additionally returns every layer's value vector,
    /// the inputs first. Fails exactly as `evaluate` does.
    pub fn compute_witness(&self, inputs: &Vec<FieldElem>) -> (r: Result<
        Vec<Vec<FieldElem>>,
        CircuitError,
    >)
        requires
            all_wf(inputs@),
        ensures
            inputs@.len() != self.input_size ==> r == Err::<Vec<Vec<FieldElem>>, CircuitError>(
                CircuitError::InvalidInputSize(self.input_size, inputs@.len() as usize),
            ),
            inputs@.len() == self.input_size && eval_layers(self.layers@, inputs@) is Ok ==> r is Ok
                && witness_ok(*self, inputs@, r->Ok_0@) && r->Ok_0@.last()@ == eval_layers(
                self.layers@,
                inputs@,
            )->Ok_0,
            inputs@.len() == self.input_size && eval_layers(self.layers@, inputs@) is Err ==> r
                == Err::<Vec<Vec<FieldElem>>, CircuitError>(
                CircuitError::InvalidGateIndex(
                    eval_layers(self.layers@, inputs@)->Err_0.0,
                    eval_layers(self.layers@, inputs@)->Err_0.1,
                ),
            ),
    {
        if inputs.len() != self.input_size {
            return Err(CircuitError::InvalidInputSize(self.input_size, inputs.len()));
        }
        let mut witness: Vec<Vec<FieldElem>> = Vec::new();
        witness.push(inputs.clone());
        let mut i: usize = 0;
        proof {
            assert(self.layers@.skip(0) =~= self.layers@);
        }
        while i < self.layers.len()
            invariant
                0 <= i <= self.layers@.len(),
                inputs@.len() == self.input_size,
                witness@.len() == i + 1,
                witness@[0]@ == inputs@,
                forall|l: int|
                    0 <= l < i ==> #[trigger] eval_gates(self.layers@[l].gates@, witness@[l]@)
                        == Ok::<Seq<FieldElem>, (usize, usize)>(witness@[l + 1]@),
                all_wf(witness@.last()@),
                eval_layers(self.layers@, inputs@) == eval_layers(
                    self.layers@.skip(i as int),
                    witness@.last()@,
                ),
            decreases self.layers@.len() - i,
        {
            let prev_idx = witness.len() - 1;
            let next = match self.eval_one_layer(i, &witness[prev_idx]) {
                Ok(next) => next,
                Err(e) => {
                    proof {
                        assert(self.layers@.skip(i as int)[0] == self.layers@[i as int]);
                    }
                    return Err(e);
                },
            };
            proof {
                assert(self.layers@.skip(i as int)[0] == self.layers@[i as int]);
                assert(self.layers@.skip(i as int).drop_first() =~= self.layers@.skip(i as int + 1));
                lemma_eval_gates_wf(self.layers@[i as int].gates@, witness@.last()@, next@);
            }
            witness.push(next);
            i = i + 1;
        }
        proof {
            assert(self.layers@.skip(self.layers@.len() as int) =~= Seq::<Layer>::empty());
        }
        Ok(witness)
    }
}

} // verus!
