use logup_gkr::field::Fq;
use logup_gkr::poly::{eval_at, Mono, SparsePoly, sum_poly, VarPow};
use logup_gkr::rng::{sample_fq, seed_rng};
use logup_gkr::sumcheck::{prover_gen_s, run_sumcheck, verify_si};

/// The linear polynomial `x0 + x1 + x2` over three variables.
fn demo_poly() -> SparsePoly {
    let terms = vec![
        Mono { coeff: Fq::one(), vars: vec![VarPow { var: 0, pow: 1 }] },
        Mono { coeff: Fq::one(), vars: vec![VarPow { var: 1, pow: 1 }] },
        Mono { coeff: Fq::one(), vars: vec![VarPow { var: 2, pow: 1 }] },
    ];
    SparsePoly { num_vars: 3, terms }
}

/// A denser polynomial: `2*x0^2*x1 + 5*x2 + 7`.
fn curvy_poly() -> SparsePoly {
    let terms = vec![
        Mono {
            coeff: Fq::from_u64(2),
            vars: vec![VarPow { var: 0, pow: 2 }, VarPow { var: 1, pow: 1 }],
        },
        Mono { coeff: Fq::from_u64(5), vars: vec![VarPow { var: 2, pow: 1 }] },
        Mono { coeff: Fq::from_u64(7), vars: vec![] },
    ];
    SparsePoly { num_vars: 3, terms }
}

#[test]
fn evaluate_examples() {
    let p = demo_poly();
    let point = vec![Fq::from_u64(3), Fq::from_u64(5), Fq::from_u64(16)];
    assert_eq!(p.evaluate(&point), Fq::from_u64(7));
    let q = curvy_poly();
    // 2*9*5 + 5*16 + 7 = 90 + 80 + 7 = 177 = 7 mod 17
    assert_eq!(q.evaluate(&point), Fq::from_u64(7));
}

#[test]
fn sum_over_hypercube() {
    // sum of (a + b + c) over the Boolean cube: each variable is 1 in
    // four of the eight points, so the sum is 12
    assert_eq!(sum_poly(&demo_poly()), Fq::from_u64(12));
    // sum of 2*a^2*b + 5*c + 7: 2*2 + 5*4 + 7*8 = 80 = 12 mod 17
    assert_eq!(sum_poly(&curvy_poly()), Fq::from_u64(12));
}

#[test]
fn fix_variables_round_trip() {
    let p = curvy_poly();
    let point = vec![Fq::from_u64(3), Fq::from_u64(5), Fq::from_u64(16)];
    let direct = p.evaluate(&point);
    let residue = p.fix_variables(&point);
    assert_eq!(residue.num_vars, 0);
    assert_eq!(residue.evaluate(&Vec::new()), direct);
    // partial fixing then evaluating the rest agrees too
    let partial = p.fix_variables(&vec![Fq::from_u64(3)]);
    assert_eq!(partial.num_vars, 2);
    assert_eq!(partial.evaluate(&vec![Fq::from_u64(5), Fq::from_u64(16)]), direct);
}

#[test]
fn set_values_keeps_one_variable() {
    let p = curvy_poly();
    let values = vec![Fq::from_u64(3), Fq::zero(), Fq::from_u64(16)];
    let uni = logup_gkr::poly::set_values(&p, 1, &values);
    assert_eq!(uni.num_vars, 1);
    for t in 0u64..17 {
        let full = vec![Fq::from_u64(3), Fq::from_u64(t), Fq::from_u64(16)];
        assert_eq!(eval_at(&uni, Fq::from_u64(t)), p.evaluate(&full));
    }
}

#[test]
fn honest_run_is_accepted() {
    let p = demo_poly();
    let claimed = sum_poly(&p);
    let mut rng = seed_rng(7);
    let tr = run_sumcheck(&p, claimed, &mut rng);
    assert!(tr.accepted);
    let q = curvy_poly();
    let claimed_q = sum_poly(&q);
    let mut rng2 = seed_rng(8);
    assert!(run_sumcheck(&q, claimed_q, &mut rng2).accepted);
}

#[test]
fn wrong_claim_is_rejected() {
    let p = demo_poly();
    let claimed = sum_poly(&p).add(Fq::one());
    for seed in 0..20u64 {
        let mut rng = seed_rng(seed);
        let tr = run_sumcheck(&p, claimed, &mut rng);
        assert!(!tr.accepted);
    }
}

#[test]
fn round_consistency_of_honest_rounds() {
    let p = curvy_poly();
    let claimed = sum_poly(&p);
    for seed in 0..10u64 {
        let mut rng = seed_rng(seed);
        let mut rs: Vec<Fq> = Vec::new();
        let mut ss: Vec<SparsePoly> = Vec::new();
        for i in 1..=3usize {
            let s_i = prover_gen_s(&p, i, &rs);
            ss.push(s_i);
            assert!(verify_si(&ss, &rs, i, claimed));
            rs.push(sample_fq(&mut rng));
        }
        // final oracle check
        assert_eq!(eval_at(&ss[2], rs[2]), p.evaluate(&rs));
    }
}

#[test]
fn tampered_first_round_is_rejected() {
    let p = demo_poly();
    let claimed = sum_poly(&p);
    let rs: Vec<Fq> = Vec::new();
    let mut s1 = prover_gen_s(&p, 1, &rs);
    s1.terms[0].coeff = s1.terms[0].coeff.add(Fq::one());
    let ss = vec![s1];
    assert!(!verify_si(&ss, &rs, 1, claimed));
}

#[test]
fn tampered_middle_round_is_rejected_across_seeds() {
    let p = curvy_poly();
    let claimed = sum_poly(&p);
    for seed in 0..20u64 {
        let mut rng = seed_rng(seed);
        let mut rs: Vec<Fq> = Vec::new();
        let s1 = prover_gen_s(&p, 1, &rs);
        let mut ss = vec![s1];
        assert!(verify_si(&ss, &rs, 1, claimed));
        rs.push(sample_fq(&mut rng));
        let mut s2 = prover_gen_s(&p, 2, &rs);
        // shift one coefficient of the honest round polynomial
        s2.terms[0].coeff = s2.terms[0].coeff.add(Fq::one());
        ss.push(s2);
        assert!(!verify_si(&ss, &rs, 2, claimed));
    }
}

#[test]
fn over_degree_round_message_is_rejected() {
    // a lone x^3 term exceeds a bound of two and meets a bound of three
    let s = SparsePoly {
        num_vars: 1,
        terms: vec![Mono { coeff: Fq::one(), vars: vec![VarPow { var: 0, pow: 3 }] }],
    };
    assert!(!logup_gkr::sumcheck::check_degree(&s, 2));
    assert!(logup_gkr::sumcheck::check_degree(&s, 3));
    // honest rounds of a multilinear polynomial stay within degree one
    let p = demo_poly();
    let s1 = prover_gen_s(&p, 1, &Vec::new());
    assert!(logup_gkr::sumcheck::check_degree(&s1, 1));
}
