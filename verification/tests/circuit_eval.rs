use logup_gkr::circuit::{Circuit, CircuitError, CircuitLayer, Gate, GateType};
use logup_gkr::field::Fq;

/// A two-layer circuit: output gate adds the two products of four inputs.
fn small_circuit() -> Circuit {
    let muls = vec![
        Gate::new(GateType::Mul, [0, 1]),
        Gate::new(GateType::Mul, [2, 3]),
    ];
    let adds = vec![Gate::new(GateType::Add, [0, 1])];
    let layers = vec![CircuitLayer::new(adds), CircuitLayer::new(muls)];
    Circuit::new(layers, 4).unwrap()
}

#[test]
fn evaluate_small_circuit() {
    let c = small_circuit();
    let input = vec![Fq::from_u64(2), Fq::from_u64(3), Fq::from_u64(4), Fq::from_u64(5)];
    let ev = c.evaluate(&input).unwrap();
    assert_eq!(ev.layers.len(), 3);
    // products: 6 and 20 = 3; output: 6 + 3 = 9
    assert_eq!(ev.layers[1], vec![Fq::from_u64(6), Fq::from_u64(3)]);
    assert_eq!(ev.layers[0], vec![Fq::from_u64(9)]);
    assert_eq!(ev.layers[2], input);
}

#[test]
fn evaluate_is_pure() {
    let c = small_circuit();
    let input = vec![Fq::from_u64(1), Fq::from_u64(16), Fq::from_u64(7), Fq::from_u64(0)];
    let a = c.evaluate(&input).unwrap();
    let b = c.evaluate(&input).unwrap();
    assert_eq!(a.layers, b.layers);
}

#[test]
fn wiring_out_of_range_is_a_construction_error() {
    let bad = vec![CircuitLayer::new(vec![Gate::new(GateType::Add, [0, 4])])];
    assert_eq!(Circuit::new(bad, 4).unwrap_err(), CircuitError::Wiring);
}

#[test]
fn wrong_input_length_is_rejected() {
    let c = small_circuit();
    let input = vec![Fq::one(), Fq::one()];
    assert_eq!(c.evaluate(&input).unwrap_err(), CircuitError::InputLength);
}

#[test]
fn num_vars_at_levels() {
    let c = small_circuit();
    assert_eq!(c.num_vars_at(0), Some(0));
    assert_eq!(c.num_vars_at(1), Some(1));
    assert_eq!(c.num_vars_at(2), Some(2));
    assert_eq!(c.num_vars_at(3), None);
}
