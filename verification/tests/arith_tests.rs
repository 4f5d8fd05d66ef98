use accumulator_rsa::arith::{
    bezouts_coefficients, big_div_rem, big_mod_exp, big_mod_inv, big_mul, big_product,
    generate_prime, generate_safe_prime, parse_decimal, Field,
};
use accumulator_rsa::bignum::Bignum;

#[test]
fn mul_div_test() {
    let a = Bignum::from_u64(123_456_789);
    let b = Bignum::from_u64(987_654_321);
    let p = big_mul(&a, &b);
    assert_eq!(p, parse_decimal(b"121932631112635269").unwrap());
    let (q, r) = big_div_rem(&p, &a);
    assert_eq!(q, b);
    assert_eq!(r, Bignum::zero());
}

#[test]
fn mod_exp_test() {
    let base = Bignum::from_u64(2);
    let e = Bignum::from_u64(10);
    let n = Bignum::from_u64(1000);
    let r = big_mod_exp(&base, &e, &n);
    assert_eq!(r, Bignum::from_u64(24));
    let f = Field::new(&n);
    assert_eq!(f.exp(&base, &e), Bignum::from_u64(24));
    assert_eq!(f.mul(&Bignum::from_u64(999), &Bignum::from_u64(999)), Bignum::from_u64(1));
}

#[test]
fn mod_inv_test() {
    let a = Bignum::from_u64(271);
    let n = Bignum::from_u64(383);
    let inv = big_mod_inv(&a, &n).unwrap();
    assert_eq!(inv, Bignum::from_u64(106));
    // no inverse when the numbers share a factor
    assert!(big_mod_inv(&Bignum::from_u64(6), &Bignum::from_u64(9)).is_none());
}

#[test]
fn bezout_test() {
    let a = Bignum::from_u64(240);
    let b = Bignum::from_u64(46);
    let res = bezouts_coefficients(&a, &b);
    assert_eq!(res.value, Bignum::from_u64(2));
    // 240 * (-9) + 46 * 47 == 2
    assert!(res.a.negative);
    assert_eq!(res.a.magnitude, Bignum::from_u64(9));
    assert!(!res.b.negative);
    assert_eq!(res.b.magnitude, Bignum::from_u64(47));
}

#[test]
fn product_test() {
    let v = vec![Bignum::from_u64(2), Bignum::from_u64(3), Bignum::from_u64(5)];
    assert_eq!(big_product(&v), Bignum::from_u64(30));
    let f = Field::new(&Bignum::from_u64(7));
    assert_eq!(f.product_mod(&v), Bignum::from_u64(2));
}

#[test]
fn generate_prime_test() {
    let p = generate_prime(256);
    assert_eq!(p.bytes.len(), 32);
    assert!(p.bytes[0] >= 128);
    assert!(accumulator_rsa::hash::prime_check(&p));
    let sp = generate_safe_prime(256);
    assert_eq!(sp.bytes.len(), 32);
}

#[test]
fn parse_decimal_test() {
    assert_eq!(parse_decimal(b"0").unwrap(), Bignum::zero());
    assert_eq!(parse_decimal(b"18446744073709551615").unwrap(), Bignum::from_u64(u64::MAX));
    assert!(parse_decimal(b"").is_none());
    assert!(parse_decimal(b"12a").is_none());
}
