use logup_gkr::field::{FieldError, Fq, FqConfig};

#[test]
fn modulus_and_generator() {
    assert_eq!(FqConfig::modulus(), 17);
    assert_eq!(FqConfig::generator(), Fq::from_u64(3));
}

#[test]
fn add_sub_mul_neg() {
    let a = Fq::from_u64(9);
    let b = Fq::from_u64(12);
    assert_eq!(a.add(b), Fq::from_u64(4));
    assert_eq!(a.sub(b), Fq::from_u64(14));
    assert_eq!(b.sub(a), Fq::from_u64(3));
    assert_eq!(a.mul(b), Fq::from_u64(6));
    assert_eq!(a.neg(), Fq::from_u64(8));
    assert_eq!(Fq::zero().neg(), Fq::zero());
}

#[test]
fn from_u64_reduces() {
    assert_eq!(Fq::from_u64(17), Fq::zero());
    assert_eq!(Fq::from_u64(35), Fq::from_u64(1));
}

#[test]
fn pow_examples() {
    let g = Fq::from_u64(3);
    assert_eq!(g.pow(0), Fq::one());
    assert_eq!(g.pow(1), g);
    assert_eq!(g.pow(2), Fq::from_u64(9));
    assert_eq!(g.pow(16), Fq::one());
}

#[test]
fn inverse_of_every_nonzero_element() {
    for v in 1u64..17 {
        let x = Fq::from_u64(v);
        let y = x.inv().unwrap();
        assert_eq!(x.mul(y), Fq::one());
    }
}

#[test]
fn inverse_of_zero_is_a_distinct_error() {
    assert_eq!(Fq::zero().inv(), Err(FieldError::ZeroInverse));
}
