use gkr::circuit::{Circuit, Gate};
use gkr::field::FieldElem;
use gkr::gkr::run_gkr_protocol;
use gkr::prover::Prover;
use gkr::sumcheck::{
    compute_layer_polynomial, evaluate_polynomial, final_check, generate_sum_check_polynomial,
    sum_check_protocol, sum_check_virtual, sum_values, verify_round, SumCheckError,
};
use gkr::virtual_poly::VirtualPolynomial;
use gkr::verfier::Verifier;
use rand::rngs::StdRng;
use rand::SeedableRng;

fn demo_circuit() -> Circuit {
    let mut circuit = Circuit::new(4);
    circuit.add_layer(vec![Gate::Add(0, 1), Gate::Add(2, 3)]);
    circuit.add_layer(vec![Gate::Mul(0, 1)]);
    circuit
}

fn demo_inputs() -> Vec<FieldElem> {
    vec![
        FieldElem::new(1),
        FieldElem::new(2),
        FieldElem::new(3),
        FieldElem::new(4),
    ]
}

#[test]
fn test_evaluate_polynomial_horner() {
    // 1 + 2x + 3x^2 at x = 2 is 17.
    let poly = vec![FieldElem::new(1), FieldElem::new(2), FieldElem::new(3)];
    assert_eq!(
        evaluate_polynomial(&poly, FieldElem::new(2)),
        FieldElem::new(17)
    );
    assert_eq!(
        evaluate_polynomial(&poly, FieldElem::zero()),
        FieldElem::new(1)
    );
}

#[test]
fn test_sum_check_honest_run_accepts() {
    let circuit = demo_circuit();
    let prover = Prover::new(circuit.clone(), demo_inputs()).unwrap();
    let verifier = Verifier::new(circuit, FieldElem::new(21));
    let mut rng = StdRng::seed_from_u64(7);
    // Layer 0 has two gates with values 3 and 7: the true sum is 10.
    for _ in 0..20 {
        let r = sum_check_protocol(&prover, &verifier, 0, FieldElem::new(10), &mut rng);
        assert!(matches!(r, Ok(true)));
    }
}

#[test]
fn test_sum_check_wrong_claim_rejected() {
    let circuit = demo_circuit();
    let prover = Prover::new(circuit.clone(), demo_inputs()).unwrap();
    let verifier = Verifier::new(circuit, FieldElem::new(21));
    let mut rng = StdRng::seed_from_u64(9);
    let r = sum_check_protocol(&prover, &verifier, 0, FieldElem::new(11), &mut rng);
    match r {
        Err(SumCheckError::InvalidSum(round, expected, got)) => {
            assert_eq!(round, 0);
            assert_eq!(expected, FieldElem::new(11));
            assert_eq!(got, FieldElem::new(10));
        }
        other => panic!("expected InvalidSum, got {:?}", other),
    }
    // The single-gate output layer has no rounds, so a wrong claim there is
    // caught by the final oracle check instead.
    let r = sum_check_protocol(&prover, &verifier, 1, FieldElem::new(22), &mut rng);
    assert!(matches!(r, Err(SumCheckError::FinalCheckFailed)));
}

#[test]
fn test_sum_check_rejects_non_power_of_two_layer() {
    let mut circuit = Circuit::new(2);
    circuit.add_layer(vec![Gate::Add(0, 1), Gate::Mul(0, 1), Gate::Add(1, 1)]);
    let inputs = vec![FieldElem::new(1), FieldElem::new(2)];
    let prover = Prover::new(circuit.clone(), inputs).unwrap();
    let verifier = Verifier::new(circuit, FieldElem::new(0));
    let mut rng = StdRng::seed_from_u64(11);
    let r = sum_check_protocol(&prover, &verifier, 0, FieldElem::new(7), &mut rng);
    assert!(matches!(r, Err(SumCheckError::LayerSizeNotPowerOfTwo)));
}

#[test]
fn test_compute_layer_polynomial_bounds() {
    let circuit = demo_circuit();
    let prover = Prover::new(circuit, demo_inputs()).unwrap();
    // Layer 0 has one variable; a fixed prefix of length 1 leaves no variable
    // to set.
    let fixed = vec![FieldElem::new(5)];
    let r = compute_layer_polynomial(&prover, 0, &fixed, FieldElem::zero());
    assert!(matches!(r, Err(SumCheckError::IndexOutOfBounds)));
    // With nothing fixed, the round values at 0 and 1 are the two gate values.
    let none: Vec<FieldElem> = Vec::new();
    assert_eq!(
        compute_layer_polynomial(&prover, 0, &none, FieldElem::zero()).unwrap(),
        FieldElem::new(3)
    );
    assert_eq!(
        compute_layer_polynomial(&prover, 0, &none, FieldElem::one()).unwrap(),
        FieldElem::new(7)
    );
    let poly = generate_sum_check_polynomial(&prover, 0, &none).unwrap();
    assert_eq!(poly, vec![FieldElem::new(3), FieldElem::new(4)]);
}

#[test]
fn test_verify_round_detects_corruption() {
    // Honest round polynomial [3, 4]: values 3 at 0 and 7 at 1, carrying the
    // claim 10. Corrupting either coefficient changes the round sum.
    let claim = FieldElem::new(10);
    let challenge = FieldElem::new(42);
    let honest = vec![FieldElem::new(3), FieldElem::new(4)];
    let reduced = verify_round(claim, &honest, 0, challenge).unwrap();
    assert_eq!(reduced, evaluate_polynomial(&honest, challenge));

    let corrupt0 = vec![FieldElem::new(4), FieldElem::new(4)];
    match verify_round(claim, &corrupt0, 3, challenge) {
        Err(SumCheckError::InvalidSum(round, expected, got)) => {
            assert_eq!(round, 3);
            assert_eq!(expected, FieldElem::new(10));
            assert_eq!(got, FieldElem::new(12));
        }
        other => panic!("expected InvalidSum, got {:?}", other),
    }

    let corrupt1 = vec![FieldElem::new(3), FieldElem::new(5)];
    assert!(matches!(
        verify_round(claim, &corrupt1, 0, challenge),
        Err(SumCheckError::InvalidSum(_, _, _))
    ));
}

#[test]
fn test_final_check() {
    assert!(matches!(
        final_check(FieldElem::new(4), FieldElem::new(4)),
        Ok(true)
    ));
    assert!(matches!(
        final_check(FieldElem::new(4), FieldElem::new(5)),
        Err(SumCheckError::FinalCheckFailed)
    ));
}

#[test]
fn test_sum_values() {
    let v = vec![FieldElem::new(50), FieldElem::new(60), FieldElem::new(1)];
    assert_eq!(sum_values(&v), FieldElem::new(10));
}

#[test]
fn test_gkr_end_to_end_accepts_true_output() {
    let circuit = demo_circuit();
    let prover = Prover::new(circuit.clone(), demo_inputs()).unwrap();
    let verifier = Verifier::new(circuit, FieldElem::new(21));
    let mut rng = StdRng::seed_from_u64(13);
    for _ in 0..20 {
        let r = run_gkr_protocol(&prover, &verifier, &mut rng);
        assert!(matches!(r, Ok(true)));
    }
}

#[test]
fn test_gkr_end_to_end_rejects_false_output() {
    let circuit = demo_circuit();
    let prover = Prover::new(circuit.clone(), demo_inputs()).unwrap();
    let verifier = Verifier::new(circuit, FieldElem::new(22));
    let mut rng = StdRng::seed_from_u64(15);
    // The single-gate output layer has no rounds, so the false claim is
    // rejected by its final check.
    let r = run_gkr_protocol(&prover, &verifier, &mut rng);
    assert!(matches!(r, Err(SumCheckError::FinalCheckFailed)));
}

#[test]
fn test_gkr_rejects_false_sum_with_rounds() {
    // A circuit whose output layer has two gates: the false claim is rejected
    // in the first sum-check round.
    let mut circuit = Circuit::new(4);
    circuit.add_layer(vec![Gate::Add(0, 1), Gate::Add(2, 3)]);
    let prover = Prover::new(circuit.clone(), demo_inputs()).unwrap();
    // True output sum is 3 + 7 = 10.
    let good = Verifier::new(circuit.clone(), FieldElem::new(10));
    let bad = Verifier::new(circuit, FieldElem::new(11));
    let mut rng = StdRng::seed_from_u64(19);
    assert!(matches!(run_gkr_protocol(&prover, &good, &mut rng), Ok(true)));
    match run_gkr_protocol(&prover, &bad, &mut rng) {
        Err(SumCheckError::InvalidSum(round, expected, got)) => {
            assert_eq!(round, 0);
            assert_eq!(expected, FieldElem::new(11));
            assert_eq!(got, FieldElem::new(10));
        }
        other => panic!("expected InvalidSum, got {:?}", other),
    }
}

#[test]
fn test_sum_check_virtual_honest_run() {
    let mut rng = StdRng::seed_from_u64(29);
    for nv in 2..5 {
        for num_products in 2..5 {
            let (poly, expected_sum) = VirtualPolynomial::random(nv, (2, 3), num_products, &mut rng);
            let r = sum_check_virtual(&poly, expected_sum, &mut rng);
            assert!(matches!(r, Ok(true)));
            // A corrupted claim is rejected in the first round.
            let bad = expected_sum.add(FieldElem::one());
            match sum_check_virtual(&poly, bad, &mut rng) {
                Err(SumCheckError::InvalidSum(round, expected, got)) => {
                    assert_eq!(round, 0);
                    assert_eq!(expected, bad);
                    assert_eq!(got, expected_sum);
                }
                other => panic!("expected InvalidSum, got {:?}", other),
            }
        }
    }
}
