//! The verifying side of the protocol: the circuit and the claim under test.
use crate::circuit::Circuit;
use crate::field::FieldElem;
use vstd::prelude::*;

verus! {

/// The verifier knows the circuit and the claimed output sum; it never sees
/// the witness except through the protocol's oracle answers.
pub struct Verifier {
    pub circuit: Circuit,
    pub claimed_output: FieldElem,
}

impl Verifier {
    pub fn new(circuit: Circuit, claimed_output: FieldElem) -> (r: Self)
        ensures
            r.circuit == circuit,
            r.claimed_output == claimed_output,
    {
        Verifier { circuit, claimed_output }
    }
}

} // verus!
