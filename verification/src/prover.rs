//! The proving side of the protocol: a circuit together with its full witness.
use crate::circuit::{all_wf, eval_layers, Circuit, CircuitError};
use crate::field::FieldElem;
use vstd::prelude::*;

verus! {

/// The prover owns the circuit, the input assignment, and every layer's
/// values: `witness[0]` is the inputs, `witness[l + 1]` the values of layer `l`.
pub struct Prover {
    pub circuit: Circuit,
    pub inputs: Vec<FieldElem>,
    pub witness: Vec<Vec<FieldElem>>,
}

impl Prover {
    /// The witness matches the circuit gate by gate and holds only reduced residues.
    pub open spec fn wf(&self) -> bool {
        &&& all_wf(self.inputs@)
        &&& crate::circuit::witness_ok(self.circuit, self.inputs@, self.witness@)
        &&& forall|l: int| 0 <= l < self.witness@.len() ==> all_wf(#[trigger] self.witness@[l]@)
    }

    /// Evaluates the circuit on `inputs` and keeps every layer's values.
    /// Fails exactly as `Circuit::compute_witness` does.
    pub fn new(circuit: Circuit, inputs: Vec<FieldElem>) -> (r: Result<Prover, CircuitError>)
        requires
            all_wf(inputs@),
        ensures
            inputs@.len() == circuit.input_size && eval_layers(circuit.layers@, inputs@) is Ok
                ==> r is Ok,
            r is Ok ==> r->Ok_0.wf() && r->Ok_0.circuit == circuit && r->Ok_0.inputs@ == inputs@,
            inputs@.len() != circuit.input_size ==> r == Err::<Prover, CircuitError>(
                CircuitError::InvalidInputSize(circuit.input_size, inputs@.len() as usize),
            ),
            inputs@.len() == circuit.input_size && eval_layers(circuit.layers@, inputs@) is Err
                ==> r == Err::<Prover, CircuitError>(
                CircuitError::InvalidGateIndex(
                    eval_layers(circuit.layers@, inputs@)->Err_0.0,
                    eval_layers(circuit.layers@, inputs@)->Err_0.1,
                ),
            ),
    {
        let witness = match circuit.compute_witness(&inputs) {
            Ok(w) => w,
            Err(e) => {
                return Err(e);
            },
        };
        proof {
            assert forall|l: int| 0 <= l < witness@.len() implies all_wf(#[trigger] witness@[l]@) by {
                if l == 0 {
                    assert(witness@[0]@ == inputs@);
                } else {
                    crate::circuit::lemma_eval_gates_wf(
                        circuit.layers@[l - 1].gates@,
                        witness@[l - 1]@,
                        witness@[l]@,
                    );
                }
            }
        }
        Ok(Prover { circuit, inputs, witness })
    }
}

} // verus!
