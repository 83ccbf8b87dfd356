use logup_gkr::field::Fq;
use logup_gkr::frac::{build_frac_input, FracError, gen_circuit, verify_rational_sum};
use logup_gkr::rng::seed_rng;

fn fqv(vals: &[u64]) -> Vec<Fq> {
    vals.iter().map(|v| Fq::from_u64(*v)).collect()
}

#[test]
fn combination_circuit_combines_two_fractions() {
    let c = gen_circuit(1);
    // input (p0, q0, p1, q1) = (2, 3, 5, 7)
    let input = build_frac_input(&fqv(&[2, 5]), &fqv(&[3, 7]));
    let ev = c.evaluate(&input).unwrap();
    // numerator: p0*q1 + p1*q0 = 14 + 15 = 29 = 12; denominator: 2*q0*q1 = 42 = 8
    assert_eq!(ev.layers[0], fqv(&[12, 8]));
}

#[test]
fn zero_sum_is_accepted() {
    // p/q = -1 - 1 - 1 + 3 = 0: the last fraction is 5/13 = 5 * 4 = 3 mod 17
    let p = fqv(&[16, 16, 16, 5]);
    let q = fqv(&[1, 1, 1, 13]);
    let mut rng = seed_rng(3);
    let outs = verify_rational_sum(2, &p, &q, &mut rng).unwrap();
    assert_eq!(outs[0], Fq::zero());
    assert_ne!(outs[1], Fq::zero());
}

#[test]
fn worked_example_with_eight_fractions() {
    // seven ones and a ten over unit denominators: 7 + 10 = 17 = 0
    let p = fqv(&[1, 1, 1, 1, 1, 1, 1, 10]);
    let q = fqv(&[1, 1, 1, 1, 1, 1, 1, 1]);
    let mut rng = seed_rng(5);
    let outs = verify_rational_sum(3, &p, &q, &mut rng).unwrap();
    assert_eq!(outs[0], Fq::zero());
}

#[test]
fn flipping_one_denominator_breaks_the_sum() {
    let p = fqv(&[16, 16, 16, 5]);
    for i in 0..4usize {
        let mut q = fqv(&[1, 1, 1, 13]);
        q[i] = Fq::from_u64(2);
        let mut rng = seed_rng(3);
        assert_eq!(verify_rational_sum(2, &p, &q, &mut rng).unwrap_err(), FracError::Rejected);
    }
}

#[test]
fn nonzero_sum_is_rejected_for_every_seed() {
    let p = fqv(&[1, 1, 1, 1]);
    let q = fqv(&[1, 1, 1, 1]);
    for seed in 0..10u64 {
        let mut rng = seed_rng(seed);
        assert_eq!(verify_rational_sum(2, &p, &q, &mut rng).unwrap_err(), FracError::Rejected);
    }
}
