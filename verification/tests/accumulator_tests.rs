use accumulator_rsa::accumulator::Accumulator;
use accumulator_rsa::error::AccumulatorErrorKind;
use accumulator_rsa::key::AccumulatorSecretKey;
use accumulator_rsa::MIN_BYTES;

#[test]
fn bytes_test() {
    let acc = Accumulator::default();
    let bytes = acc.to_bytes();
    assert_eq!(bytes.len(), MIN_BYTES);
    let res = Accumulator::from_bytes(&bytes);
    assert!(res.is_ok());
    let acc2 = res.unwrap();
    assert_eq!(acc, acc2);
}

#[test]
fn default_test() {
    let acc = Accumulator::default();
    assert_eq!(acc.generator, acc.value);
}

#[test]
fn with_members_test() {
    let members: Vec<[u8; 8]> = vec![
        3u64.to_be_bytes(),
        7u64.to_be_bytes(),
        11u64.to_be_bytes(),
        13u64.to_be_bytes(),
    ];
    let mut acc = Accumulator::default();
    for m in &members {
        acc.insert_mut(m);
    }
    let key = AccumulatorSecretKey::default();
    let elements: Vec<Vec<u8>> = members.iter().map(|m| m.to_vec()).collect();
    let acc1 = Accumulator::with_members(&key, &elements);
    assert_eq!(acc.value, acc1.value);
}

#[test]
fn add_biguint_test() {
    let biguint = num_bigint::BigUint::from(345_617_283_975_612_837_561_827_365u128);
    let acc = Accumulator::default();
    let acc1 = acc.insert(&biguint.to_bytes_be());
    assert_ne!(acc1.value, acc.value);
}

#[test]
fn add_string_test() {
    let acc = Accumulator::default();
    let acc1 = acc.insert("a test to see if my value is in the accumulator".as_bytes());
    assert_ne!(acc1.value, acc.value);
}

#[test]
fn add_u64_test() {
    let acc = Accumulator::default();
    let acc1 = acc.insert(&12_345_678_987_654u64.to_be_bytes());
    assert_ne!(acc1.value, acc.value);
}

#[test]
fn add_u32_test() {
    let acc = Accumulator::default();
    let acc1 = acc.insert(&123_456_789u32.to_be_bytes());
    assert_ne!(acc1.value, acc.value);
}

#[test]
fn add_i64_test() {
    let acc = Accumulator::default();
    let acc1 = acc.insert(&12_345_678_987_654i64.to_be_bytes());
    assert_ne!(acc1.value, acc.value);
}

#[test]
fn add_i32_test() {
    let acc = Accumulator::default();
    let acc1 = acc.insert(&123_456_789i32.to_be_bytes());
    assert_ne!(acc1.value, acc.value);
}

#[test]
fn insert_idempotent_test() {
    let acc = Accumulator::default();
    let e = 42u64.to_be_bytes();
    let once = acc.insert(&e);
    let twice = once.insert(&e);
    assert_eq!(once.value, twice.value);
    assert_eq!(once.members.len(), 1);
    assert_eq!(twice.members.len(), 1);
}

#[test]
fn insert_remove_round_trip_test() {
    let key = AccumulatorSecretKey::default();
    let acc = Accumulator::new(&key);
    let e = 42u64.to_be_bytes();
    let mut grown = acc.insert(&e);
    grown.remove_assign(&key, &e).unwrap();
    assert_eq!(acc, grown);
}

#[test]
fn order_independence_test() {
    let key = AccumulatorSecretKey::default();
    let forward: Vec<Vec<u8>> = vec![
        3u64.to_be_bytes().to_vec(),
        7u64.to_be_bytes().to_vec(),
        11u64.to_be_bytes().to_vec(),
    ];
    let backward: Vec<Vec<u8>> = forward.iter().rev().cloned().collect();
    let a1 = Accumulator::with_members(&key, &forward);
    let a2 = Accumulator::with_members(&key, &backward);
    assert_eq!(a1.value, a2.value);
    assert_eq!(a1, a2);
}

#[test]
fn remove_absent_test() {
    let key = AccumulatorSecretKey::default();
    let mut acc = Accumulator::new(&key);
    let err = acc.remove_assign(&key, &17u64.to_be_bytes()).unwrap_err();
    assert_eq!(err.kind(), AccumulatorErrorKind::InvalidMemberSupplied);
}

#[test]
fn with_prime_members_rejects_test() {
    let key = AccumulatorSecretKey::default();
    // four is no prime, so the whole construction is rejected
    let primes = vec![accumulator_rsa::bignum::Bignum::from_u64(4)];
    let err = Accumulator::with_prime_members(&key, &primes).unwrap_err();
    assert_eq!(err.kind(), AccumulatorErrorKind::InvalidType);
}

#[test]
fn from_bytes_bad_length_test() {
    let err = Accumulator::from_bytes(&[0u8; 10]).unwrap_err();
    assert_eq!(err.kind(), AccumulatorErrorKind::SerializationError);
    let acc = Accumulator::default().insert(&5u64.to_be_bytes());
    let mut bytes = acc.to_bytes();
    bytes.pop();
    let err = Accumulator::from_bytes(&bytes).unwrap_err();
    assert_eq!(err.kind(), AccumulatorErrorKind::SerializationError);
}

#[test]
fn serialization_with_members_test() {
    let acc = Accumulator::default()
        .insert(&3u64.to_be_bytes())
        .insert(&7u64.to_be_bytes());
    let bytes = acc.to_bytes();
    assert_eq!(bytes.len(), MIN_BYTES + 2 * accumulator_rsa::MEMBER_SIZE);
    let acc2 = Accumulator::from_bytes(&bytes).unwrap();
    assert_eq!(acc, acc2);
}

#[test]
fn batch_test() {
    let key = AccumulatorSecretKey::default();
    let elements: Vec<Vec<u8>> = vec![
        3u64.to_be_bytes().to_vec(),
        7u64.to_be_bytes().to_vec(),
        11u64.to_be_bytes().to_vec(),
    ];
    let mut acc = Accumulator::new(&key);
    acc.add_batch(&elements);
    assert_eq!(acc.members.len(), 3);
    let one_by_one = Accumulator::new(&key)
        .insert(&3u64.to_be_bytes())
        .insert(&7u64.to_be_bytes())
        .insert(&11u64.to_be_bytes());
    assert_eq!(acc.value, one_by_one.value);
    let mut shrunk = acc.duplicate();
    shrunk.remove_batch(&key, &elements).unwrap();
    assert_eq!(shrunk, Accumulator::new(&key));
    // a batch removal with one absent element changes nothing
    let before = acc.duplicate();
    let bad: Vec<Vec<u8>> = vec![3u64.to_be_bytes().to_vec(), 99u64.to_be_bytes().to_vec()];
    let err = acc.remove_batch(&key, &bad).unwrap_err();
    assert_eq!(err.kind(), AccumulatorErrorKind::InvalidMemberSupplied);
    assert_eq!(acc, before);
}
