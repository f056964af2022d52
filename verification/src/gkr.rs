//! The GKR orchestrator: one sum-check per layer, from the output layer down
//! to the input layer. Each layer's reduced claim is checked against the
//! witness oracle inside its sum-check run; the claim that seeds layer `i - 1`
//! is the witness-derived sum of that layer's values, and the bottom layer's
//! final check reads the declared inputs themselves.
use crate::circuit::all_wf;
use crate::prover::Prover;
use crate::sumcheck::{
    fe_seq_sum, final_check, power_of_two, sum_check_protocol, sum_values, SumCheckError,
};
use crate::verfier::Verifier;
use vstd::prelude::*;

verus! {

/// Runs the whole protocol against the verifier's claimed output sum.
/// Accepts exactly when the claim equals the sum of the circuit's output
/// values; a false claim is rejected at the output layer, and a layer whose
/// gate count is not a power of two aborts the run.
pub fn run_gkr_protocol(prover: &Prover, verifier: &Verifier, rng: &mut rand::rngs::StdRng) -> (r:
    Result<bool, SumCheckError>)
    requires
        prover.wf(),
        verifier.circuit == prover.circuit,
        verifier.claimed_output.wf(),
    ensures
        ({
            let layers = prover.circuit.layers@;
            let total = fe_seq_sum(prover.witness@[layers.len() as int]@);
            let claimed = verifier.claimed_output;
            &&& layers.len() == 0 && claimed == total ==> r == Ok::<bool, SumCheckError>(true)
            &&& layers.len() == 0 && claimed != total ==> r == Err::<bool, SumCheckError>(
                SumCheckError::FinalCheckFailed,
            )
            &&& layers.len() > 0 ==> ({
                let top = layers[layers.len() - 1].gates@;
                &&& claimed == total && (forall|l: int|
                    0 <= l < layers.len() ==> #[trigger] power_of_two(layers[l].gates@.len()))
                    ==> r == Ok::<bool, SumCheckError>(true)
                &&& claimed == total && !(forall|l: int|
                    0 <= l < layers.len() ==> #[trigger] power_of_two(layers[l].gates@.len()))
                    ==> r == Err::<bool, SumCheckError>(SumCheckError::LayerSizeNotPowerOfTwo)
                &&& claimed != total && !power_of_two(top.len()) ==> r == Err::<
                    bool,
                    SumCheckError,
                >(SumCheckError::LayerSizeNotPowerOfTwo)
                &&& claimed != total && power_of_two(top.len()) && top.len() == 1 ==> r == Err::<
                    bool,
                    SumCheckError,
                >(SumCheckError::FinalCheckFailed)
                &&& claimed != total && power_of_two(top.len()) && top.len() != 1 ==> r == Err::<
                    bool,
                    SumCheckError,
                >(SumCheckError::InvalidSum(0, claimed, total))
            })
        }),
{
    let num_layers = prover.circuit.layers.len();
    if num_layers == 0 {
        proof {
            assert(all_wf(prover.witness@[0]@));
        }
        let total = sum_values(&prover.witness[0]);
        return final_check(verifier.claimed_output, total);
    }
    let mut i: usize = 0;
    while i < num_layers
        invariant
            prover.wf(),
            verifier.circuit == prover.circuit,
            verifier.claimed_output.wf(),
            num_layers == prover.circuit.layers@.len(),
            num_layers > 0,
            0 <= i <= num_layers,
            forall|l: int|
                num_layers - i <= l < num_layers ==> #[trigger] power_of_two(
                    prover.circuit.layers@[l].gates@.len(),
                ),
            i > 0 ==> verifier.claimed_output == fe_seq_sum(
                prover.witness@[num_layers as int]@,
            ),
        decreases num_layers - i,
    {
        let l = num_layers - 1 - i;
        let claim = if l == num_layers - 1 {
            verifier.claimed_output
        } else {
            proof {
                assert(all_wf(prover.witness@[l as int + 1]@));
            }
            sum_values(&prover.witness[l + 1])
        };
        match sum_check_protocol(prover, verifier, l, claim, rng) {
            Ok(_) => {},
            Err(e) => {
                return Err(e);
            },
        }
        i = i + 1;
    }
    Ok(true)
}

} // verus!
