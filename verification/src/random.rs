//! The injected randomness source: uniform field elements and random
//! evaluation tables drawn from a seedable generator, so that whole protocol
//! runs are reproducible from a seed.
use crate::circuit::all_wf;
use crate::field::{FieldElem, P};
use crate::mle::{pow2_checked, DenseMultilinearExtension};
use vstd::arithmetic::power2::pow2;
use vstd::prelude::*;

verus! {

#[verifier::external_type_specification]
#[verifier::external_body]
pub struct ExStdRng(rand::rngs::StdRng);

/// Relies on rand's `RngExt::random_range`: a uniform draw from the half-open
/// range `0..bound`, which the precondition keeps nonempty. Nothing more is
/// assumed of the value.
#[verifier::external_body]
pub(crate) fn sample_below(rng: &mut rand::rngs::StdRng, bound: u64) -> (r: u64)
    requires
        bound >= 1,
    ensures
        r < bound,
{
    rand::RngExt::random_range(rng, 0..bound)
}

/// One verifier challenge, drawn uniformly from the field.
pub fn next_challenge(rng: &mut rand::rngs::StdRng) -> (r: FieldElem)
    ensures
        r.wf(),
{
    FieldElem { val: sample_below(rng, P) }
}

/// `degree` independent extensions over `nv` variables, each with a uniformly
/// random table.
pub fn random_mle_list(nv: usize, degree: usize, rng: &mut rand::rngs::StdRng) -> (r: Vec<
    DenseMultilinearExtension,
>)
    requires
        pow2(nv as nat) <= usize::MAX,
    ensures
        r@.len() == degree,
        forall|l: int| 0 <= l < degree ==> (#[trigger] r@[l]).wf() && r@[l].num_vars == nv,
{
    let total = match pow2_checked(nv) {
        Some(c) => c,
        None => 0,
    };
    let mut out: Vec<DenseMultilinearExtension> = Vec::new();
    let mut l: usize = 0;
    while l < degree
        invariant
            total as nat == pow2(nv as nat),
            0 <= l <= degree,
            out@.len() == l,
            forall|j: int| 0 <= j < l ==> (#[trigger] out@[j]).wf() && out@[j].num_vars == nv,
        decreases degree - l,
    {
        let mut tbl: Vec<FieldElem> = Vec::new();
        let mut i: usize = 0;
        while i < total
            invariant
                0 <= i <= total,
                tbl@.len() == i,
                all_wf(tbl@),
            decreases total - i,
        {
            tbl.push(next_challenge(rng));
            i = i + 1;
        }
        out.push(DenseMultilinearExtension { num_vars: nv, evaluations: tbl });
        l = l + 1;
    }
    out
}

} // verus!
