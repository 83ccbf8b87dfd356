use logup_gkr::field::Fq;
use logup_gkr::frac::{FracError, multiplicities, verify_lookup};
use logup_gkr::rng::seed_rng;

fn fqv(vals: &[u64]) -> Vec<Fq> {
    vals.iter().map(|v| Fq::from_u64(*v)).collect()
}

fn table() -> Vec<Fq> {
    fqv(&[1, 2, 3, 4])
}

fn good_rows() -> Vec<Vec<Fq>> {
    vec![
        fqv(&[1, 2, 1, 1]),
        fqv(&[2, 3, 1, 1]),
        fqv(&[4, 4, 4, 4]),
    ]
}

#[test]
fn multiplicities_are_exact_counts() {
    let m = multiplicities(&good_rows(), &table());
    // value 1 occurs 5 times, 2 twice, 3 once, 4 four times
    assert_eq!(m, fqv(&[5, 2, 1, 4]));
}

#[test]
fn multiplicity_of_absent_value_is_zero() {
    let m = multiplicities(&good_rows(), &fqv(&[7, 1, 9, 4]));
    assert_eq!(m, fqv(&[0, 5, 0, 4]));
}

#[test]
fn witnesses_from_the_table_are_accepted() {
    let mut accepted = false;
    for seed in 0..10u64 {
        let mut rng = seed_rng(seed);
        match verify_lookup(2, 2, &good_rows(), &table(), &mut rng) {
            Ok(outs) => {
                assert_eq!(outs[0], Fq::zero());
                assert_ne!(outs[1], Fq::zero());
                accepted = true;
                break;
            },
            // a random offset may coincide with a table or witness value
            // in a field of seventeen elements; try the next seed
            Err(FracError::Rejected) => {},
            Err(e) => panic!("{:?}", e),
        }
    }
    assert!(accepted);
}

#[test]
fn witness_outside_the_table_is_rejected() {
    let mut rows = good_rows();
    rows[1] = fqv(&[2, 5, 1, 1]);
    for seed in 0..10u64 {
        let mut rng = seed_rng(seed);
        let res = verify_lookup(2, 2, &rows, &table(), &mut rng);
        assert!(res.is_err());
    }
}
