use accumulator_rsa::hash::{hash_to_prime, prime_check};
use rand::{thread_rng, RngCore};

#[test]
fn test_hash() {
    let t = hash_to_prime(b"This is a test to find a prime");
    assert!(prime_check(&t));
    let mut bytes = vec![0u8; 32];
    for _ in 0..10 {
        thread_rng().fill_bytes(bytes.as_mut_slice());
        let t = hash_to_prime(&bytes);
        assert!(prime_check(&t));
    }
}

#[test]
fn hash_is_odd_and_bounded_test() {
    for seed in 0u64..8 {
        let t = hash_to_prime(&seed.to_be_bytes());
        assert!(t.bytes.len() <= 32);
        let last = *t.bytes.last().unwrap();
        assert_eq!(last % 2, 1);
        assert!(prime_check(&t));
    }
}

#[test]
fn hash_deterministic_test() {
    let a = hash_to_prime(b"determinism");
    let b = hash_to_prime(b"determinism");
    assert_eq!(a, b);
    let c = hash_to_prime(b"determinism2");
    assert_ne!(a, c);
}
