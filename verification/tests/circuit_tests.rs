use gkr::circuit::{Circuit, CircuitError, Gate};
use gkr::field::{FieldElem, FieldError};

#[test]
fn main_test_field_arithmetic() {
    let a = FieldElem::new(50);
    let b = FieldElem::new(60);

    assert_eq!(a.add(b), FieldElem::new(9)); // 50 + 60 = 110 ≡ 9 (mod 101)
    assert_eq!(a.mul(b), FieldElem::new(71)); // 50 * 60 = 3000 ≡ 71 (mod 101)
}

#[test]
fn main_test_circuit_evaluation() {
    let mut circuit = Circuit::new(4);
    circuit.add_layer(vec![Gate::Add(0, 1), Gate::Add(2, 3)]);
    circuit.add_layer(vec![Gate::Mul(0, 1)]);

    let inputs = vec![
        FieldElem::new(1),
        FieldElem::new(2),
        FieldElem::new(3),
        FieldElem::new(4),
    ];
    let output = circuit.evaluate(&inputs).unwrap();
    assert_eq!(output, vec![FieldElem::new(21)]); // (1 + 2) * (3 + 4) = 3 * 7 = 21
}

#[test]
fn main_test_invalid_input_size() {
    let circuit = Circuit::new(4);
    let inputs = vec![FieldElem::new(1), FieldElem::new(2)];
    let result = circuit.evaluate(&inputs);
    assert!(matches!(result, Err(CircuitError::InvalidInputSize(4, 2))));
}

#[test]
fn main_test_invalid_gate_index() {
    let mut circuit = Circuit::new(2);
    circuit.add_layer(vec![Gate::Add(0, 2)]); // Index 2 is out of bounds
    let inputs = vec![FieldElem::new(1), FieldElem::new(2)];
    let result = circuit.evaluate(&inputs);
    assert!(matches!(result, Err(CircuitError::InvalidGateIndex(2, 2))));
}

#[test]
fn circuit_test_field_arithmetic() {
    let a = FieldElem::new(5);
    let b = FieldElem::new(6);

    assert_eq!(a.add(b), FieldElem::new(11));
    assert_eq!(a.mul(b), FieldElem::new(30));
}

#[test]
fn circuit_test_circuit_evaluation() {
    let mut circuit = Circuit::new(4);
    circuit.add_layer(vec![Gate::Add(0, 1), Gate::Add(2, 3)]);
    circuit.add_layer(vec![Gate::Mul(0, 1)]);

    let inputs = vec![
        FieldElem::new(1),
        FieldElem::new(2),
        FieldElem::new(3),
        FieldElem::new(4),
    ];
    let output = circuit.evaluate(&inputs).unwrap();
    assert_eq!(output, vec![FieldElem::new(21)]); // (1 + 2) * (3 + 4) = 3 * 7 = 21
}

#[test]
fn circuit_test_invalid_input_size() {
    let circuit = Circuit::new(4);
    let inputs = vec![FieldElem::new(1), FieldElem::new(2)];
    let result = circuit.evaluate(&inputs);
    assert!(matches!(result, Err(CircuitError::InvalidInputSize(4, 2))));
}

#[test]
fn circuit_test_invalid_gate_index() {
    let mut circuit = Circuit::new(2);
    circuit.add_layer(vec![Gate::Add(0, 2)]); // Index 2 is out of bounds
    let inputs = vec![FieldElem::new(1), FieldElem::new(2)];
    let result = circuit.evaluate(&inputs);
    assert!(matches!(result, Err(CircuitError::InvalidGateIndex(2, 2))));
}

#[test]
fn test_field_sub_neg_and_units() {
    // Subtraction and negation wrap exactly as big-integer arithmetic mod 101.
    let a = FieldElem::new(2);
    let b = FieldElem::new(3);
    assert_eq!(a.sub(b), FieldElem::new(100)); // 2 - 3 ≡ -1 ≡ 100
    assert_eq!(b.neg(), FieldElem::new(98)); // -3 ≡ 98
    assert_eq!(FieldElem::zero(), FieldElem::new(0));
    assert_eq!(FieldElem::one(), FieldElem::new(1));
    assert_eq!(FieldElem::from_u64(205).value(), 3);
    assert_eq!(FieldElem::new(u64::MAX).value(), u64::MAX % 101);
}

#[test]
fn test_field_inverse_all_nonzero() {
    // a * invert(a) == 1 for every nonzero residue; zero has no inverse.
    for v in 1u64..101 {
        let a = FieldElem::new(v);
        let inv = a.inv().unwrap();
        assert_eq!(inv.mul(a), FieldElem::one());
    }
    assert!(matches!(
        FieldElem::new(0).inv(),
        Err(FieldError::DivisionByZero)
    ));
}

#[test]
fn test_compute_witness_records_all_layers() {
    let mut circuit = Circuit::new(4);
    circuit.add_layer(vec![Gate::Add(0, 1), Gate::Add(2, 3)]);
    circuit.add_layer(vec![Gate::Mul(0, 1)]);

    let inputs = vec![
        FieldElem::new(1),
        FieldElem::new(2),
        FieldElem::new(3),
        FieldElem::new(4),
    ];
    let witness = circuit.compute_witness(&inputs).unwrap();
    assert_eq!(witness.len(), 3);
    assert_eq!(witness[0], inputs);
    assert_eq!(witness[1], vec![FieldElem::new(3), FieldElem::new(7)]);
    assert_eq!(witness[2], vec![FieldElem::new(21)]);
}
