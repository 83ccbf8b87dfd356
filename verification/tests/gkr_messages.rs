use logup_gkr::field::Fq;
use logup_gkr::frac::gen_circuit;
use logup_gkr::gkr::{lagrange3, ProverMessage, Verifier, VerifierError, VerifierMessage};
use logup_gkr::mle::mle_eval;
use logup_gkr::rng::seed_rng;

fn fqv(vals: &[u64]) -> Vec<Fq> {
    vals.iter().map(|v| Fq::from_u64(*v)).collect()
}

#[test]
fn lagrange_interpolation_exact_value() {
    // s(X) = 3 + 2X + X^2: s(0) = 3, s(1) = 6, s(2) = 11, s(5) = 38 = 4
    let r = lagrange3(Fq::from_u64(3), Fq::from_u64(6), Fq::from_u64(11), Fq::from_u64(5));
    assert_eq!(r, Fq::from_u64(4));
    // at the three interpolation points the values themselves come back
    assert_eq!(
        lagrange3(Fq::from_u64(3), Fq::from_u64(6), Fq::from_u64(11), Fq::zero()),
        Fq::from_u64(3)
    );
    assert_eq!(
        lagrange3(Fq::from_u64(3), Fq::from_u64(6), Fq::from_u64(11), Fq::from_u64(2)),
        Fq::from_u64(11)
    );
}

#[test]
fn extension_agrees_with_table_and_extends_it() {
    let table = fqv(&[1, 2, 3, 4]);
    // Boolean points reproduce the table
    assert_eq!(mle_eval(&table, &fqv(&[0, 0])), Fq::from_u64(1));
    assert_eq!(mle_eval(&table, &fqv(&[0, 1])), Fq::from_u64(2));
    assert_eq!(mle_eval(&table, &fqv(&[1, 0])), Fq::from_u64(3));
    assert_eq!(mle_eval(&table, &fqv(&[1, 1])), Fq::from_u64(4));
    // (1-5)(1-7)*1 + (1-5)*7*2 + 5*(1-7)*3 + 5*7*4 = 35 = 1 mod 17
    assert_eq!(mle_eval(&table, &fqv(&[5, 7])), Fq::from_u64(1));
}

#[test]
fn message_out_of_sequence_is_a_protocol_violation() {
    let c = gen_circuit(1);
    let mut rng = seed_rng(1);
    let mut verifier = Verifier::new(c);
    let msg = ProverMessage::RoundPolynomial { evals: fqv(&[1, 2, 3]) };
    assert_eq!(
        verifier.receive_prover_msg(msg, &mut rng).unwrap_err(),
        VerifierError::ProtocolViolation
    );
    // a challenge cannot be drawn before the last round polynomial arrived
    assert_eq!(
        verifier.final_random_point(&mut rng).unwrap_err(),
        VerifierError::ProtocolViolation
    );
}

#[test]
fn failed_round_check_is_a_rejection() {
    let c = gen_circuit(1);
    let mut rng = seed_rng(2);
    let mut verifier = Verifier::new(c);
    // claimed outputs of the right width open the protocol
    let begin = ProverMessage::Begin { circuit_outputs: fqv(&[0, 9]) };
    let z = verifier.receive_prover_msg(begin, &mut rng).unwrap();
    assert!(matches!(z, VerifierMessage::R { .. }));
    let ack = verifier.receive_prover_msg(ProverMessage::LayerStart, &mut rng).unwrap();
    assert!(matches!(ack, VerifierMessage::R { .. }));
    // a round polynomial of the wrong degree bound is rejected
    let short = ProverMessage::RoundPolynomial { evals: fqv(&[1, 2, 3, 4]) };
    assert_eq!(
        verifier.receive_prover_msg(short, &mut rng).unwrap_err(),
        VerifierError::Rejected
    );
    // one whose boundary values cannot match the carried value either
    let wrong = ProverMessage::RoundPolynomial { evals: fqv(&[1, 1, 1]) };
    assert_eq!(
        verifier.receive_prover_msg(wrong, &mut rng).unwrap_err(),
        VerifierError::Rejected
    );
}
