use accumulator_rsa::accumulator::Accumulator;
use accumulator_rsa::arith::parse_decimal_signed;
use accumulator_rsa::hash::hash_to_prime;
use accumulator_rsa::key::AccumulatorSecretKey;
use accumulator_rsa::nonwitness::NonMembershipWitness;
use accumulator_rsa::witness::MembershipWitness;
use accumulator_rsa::{FACTOR_SIZE, MEMBER_SIZE};

#[test]
fn witness_witnesses() {
    let key = AccumulatorSecretKey::default();
    let members: Vec<[u8; 8]> = vec![
        3u64.to_be_bytes(),
        7u64.to_be_bytes(),
        11u64.to_be_bytes(),
        13u64.to_be_bytes(),
    ];
    let elements: Vec<Vec<u8>> = members.iter().map(|m| m.to_vec()).collect();
    let mut acc = Accumulator::with_members(&key, &elements);
    let witness = MembershipWitness::new(&acc, &members[0]).unwrap();
    let x = hash_to_prime(&members[0]);
    assert_eq!(witness.x, x);

    acc.remove_assign(&key, &members[0]).unwrap();

    assert_eq!(acc.value, witness.u);
}

#[test]
fn rsa_witness_witnesses() {
    let key = AccumulatorSecretKey::default();
    let members: Vec<[u8; 8]> = vec![
        3u64.to_be_bytes(),
        7u64.to_be_bytes(),
        11u64.to_be_bytes(),
        13u64.to_be_bytes(),
    ];
    let elements: Vec<Vec<u8>> = members.iter().map(|m| m.to_vec()).collect();
    let mut acc = Accumulator::with_members(&key, &elements);
    let witness = MembershipWitness::new(&acc, &members[0]).unwrap();
    let x = hash_to_prime(&members[0]);
    assert_eq!(witness.x, x);

    acc.remove_mut(&key, &members[0]).unwrap();

    assert_eq!(acc.value, witness.u);
}

#[test]
fn secret_key_witness_agrees_test() {
    let key = AccumulatorSecretKey::default();
    let members: Vec<[u8; 8]> = vec![3u64.to_be_bytes(), 7u64.to_be_bytes(), 11u64.to_be_bytes()];
    let elements: Vec<Vec<u8>> = members.iter().map(|m| m.to_vec()).collect();
    let acc = Accumulator::with_members(&key, &elements);
    let public = MembershipWitness::new(&acc, &members[1]).unwrap();
    let fast = MembershipWitness::with_secret_key(&acc, &key, &members[1]).unwrap();
    assert_eq!(public.u, fast.u);
    assert_eq!(public.x, fast.x);
}

#[test]
fn nonwitness_witnesses() {
    let key = AccumulatorSecretKey::default();
    let members: Vec<[u8; 8]> = vec![
        23u64.to_be_bytes(),
        7u64.to_be_bytes(),
        11u64.to_be_bytes(),
        13u64.to_be_bytes(),
    ];
    let member = 17u64.to_be_bytes();
    let elements: Vec<Vec<u8>> = members.iter().map(|m| m.to_vec()).collect();
    let acc = Accumulator::with_members(&key, &elements);
    let witness = NonMembershipWitness::new(&acc, &member).unwrap();
    let x = hash_to_prime(&member);
    assert_eq!(witness.x, x);
    assert_eq!(
        witness.a,
        parse_decimal_signed(
            b"-15810496871052012929721951174424824308288730437435807996081044306834293553183"
        )
        .unwrap()
    );

    // the stored co-factor satisfies the witness equation
    // `V^a * b^x == g mod n`, which pins it down given `a`
    let n = num_bigint::BigUint::from_bytes_be(&acc.modulus.bytes);
    let v = num_bigint::BigUint::from_bytes_be(&acc.value.bytes);
    let g = num_bigint::BigUint::from_bytes_be(&acc.generator.bytes);
    let bhat = num_bigint::BigUint::from_bytes_be(&witness.b.bytes);
    let xv = num_bigint::BigUint::from_bytes_be(&witness.x.bytes);
    let amag = num_bigint::BigUint::from_bytes_be(&witness.a.magnitude.bytes);
    let va = if witness.a.negative {
        v.modinv(&n).unwrap().modpow(&amag, &n)
    } else {
        v.modpow(&amag, &n)
    };
    assert_eq!(va * bhat.modpow(&xv, &n) % &n, g % &n);

    assert_eq!(witness.to_bytes().len(), 4 * FACTOR_SIZE + MEMBER_SIZE);
}

#[test]
fn nonwitness_present_fails_test() {
    let key = AccumulatorSecretKey::default();
    let elements: Vec<Vec<u8>> = vec![3u64.to_be_bytes().to_vec()];
    let acc = Accumulator::with_members(&key, &elements);
    let err = NonMembershipWitness::new(&acc, &3u64.to_be_bytes()).unwrap_err();
    assert_eq!(
        err.kind(),
        accumulator_rsa::error::AccumulatorErrorKind::InvalidMemberSupplied
    );
    let err = MembershipWitness::new(&acc, &17u64.to_be_bytes()).unwrap_err();
    assert_eq!(
        err.kind(),
        accumulator_rsa::error::AccumulatorErrorKind::InvalidMemberSupplied
    );
    let err = MembershipWitness::with_secret_key(&acc, &key, &17u64.to_be_bytes()).unwrap_err();
    assert_eq!(
        err.kind(),
        accumulator_rsa::error::AccumulatorErrorKind::InvalidMemberSupplied
    );
}
