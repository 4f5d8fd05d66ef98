use accumulator_rsa::accumulator::Accumulator;
use accumulator_rsa::key::AccumulatorSecretKey;
use accumulator_rsa::memproof::MembershipProof;
use accumulator_rsa::nonmemproof::NonMembershipProof;
use accumulator_rsa::nonwitness::NonMembershipWitness;
use accumulator_rsa::poke2::Poke2Proof;
use accumulator_rsa::witness::MembershipWitness;
use accumulator_rsa::{FACTOR_SIZE, MEMBER_SIZE, MEMBER_SIZE_BITS};

#[test]
fn memproof_proof_test() {
    let key = AccumulatorSecretKey::default();
    let members: Vec<[u8; 8]> = vec![
        3u64.to_be_bytes(),
        7u64.to_be_bytes(),
        11u64.to_be_bytes(),
        13u64.to_be_bytes(),
    ];
    let elements: Vec<Vec<u8>> = members.iter().map(|m| m.to_vec()).collect();
    let mut acc = Accumulator::with_members(&key, &elements);
    let witness = MembershipWitness::new(&acc, &members[0]).unwrap();
    let nonce = b"proof_test";

    let proof = MembershipProof::new(&witness, &acc, nonce);
    assert!(proof.verify(&acc, nonce));
    acc.remove_assign(&key, &members[0]).unwrap();

    assert!(!proof.verify(&acc, nonce));
    assert_eq!(proof.to_bytes().len(), 6 * FACTOR_SIZE + MEMBER_SIZE);
}

#[test]
fn many_members_proof_test() {
    // the full membership flow over a large set of random primes
    let key = AccumulatorSecretKey::default();
    let members = accumulator_rsa::arith::generate_primes(500, MEMBER_SIZE_BITS);
    let mut acc = Accumulator::with_prime_members(&key, &members).unwrap();
    let witness = MembershipWitness::new_prime(&acc, &members[0]).unwrap();
    let nonce = b"big_proof_test";

    let proof = MembershipProof::new(&witness, &acc, nonce);
    assert!(proof.verify(&acc, nonce));
    acc.remove_prime_assign(&key, &members[0]).unwrap();

    assert!(!proof.verify(&acc, nonce));
}

#[test]
fn nonmemproof_proof_test() {
    let key = AccumulatorSecretKey::default();
    let members: Vec<[u8; 8]> = vec![
        3u64.to_be_bytes(),
        7u64.to_be_bytes(),
        11u64.to_be_bytes(),
        13u64.to_be_bytes(),
    ];
    let member = 17u64.to_be_bytes();
    let elements: Vec<Vec<u8>> = members.iter().map(|m| m.to_vec()).collect();
    let mut acc = Accumulator::with_members(&key, &elements);
    let witness = NonMembershipWitness::new(&acc, &member).unwrap();
    let nonce = b"proof_test";

    let proof = NonMembershipProof::new(&witness, &acc, nonce).unwrap();
    assert!(proof.verify(&acc, nonce));
    acc.insert_mut(&member);

    assert!(!proof.verify(&acc, nonce));
    assert_eq!(proof.to_bytes().len(), 2 * Poke2Proof::SIZE_BYTES);
}

#[test]
fn nonce_binding_test() {
    let key = AccumulatorSecretKey::default();
    let elements: Vec<Vec<u8>> = vec![3u64.to_be_bytes().to_vec(), 7u64.to_be_bytes().to_vec()];
    let acc = Accumulator::with_members(&key, &elements);
    let witness = MembershipWitness::new(&acc, &elements[0]).unwrap();
    let proof = MembershipProof::new(&witness, &acc, b"first nonce");
    assert!(proof.verify(&acc, b"first nonce"));
    assert!(!proof.verify(&acc, b"second nonce"));
}

#[test]
fn memproof_round_trip_test() {
    let key = AccumulatorSecretKey::default();
    let elements: Vec<Vec<u8>> = vec![3u64.to_be_bytes().to_vec(), 7u64.to_be_bytes().to_vec()];
    let acc = Accumulator::with_members(&key, &elements);
    let witness = MembershipWitness::new(&acc, &elements[0]).unwrap();
    let nonce = b"round_trip";
    let proof = MembershipProof::new(&witness, &acc, nonce);
    let bytes = proof.to_bytes();
    let back = MembershipProof::from_bytes(&bytes).unwrap();
    assert_eq!(back.to_bytes(), bytes);
    assert!(back.verify(&acc, nonce));
    assert!(MembershipProof::from_bytes(&bytes[1..]).is_err());
}

#[test]
fn nonmemproof_round_trip_test() {
    let key = AccumulatorSecretKey::default();
    let elements: Vec<Vec<u8>> = vec![3u64.to_be_bytes().to_vec(), 7u64.to_be_bytes().to_vec()];
    let acc = Accumulator::with_members(&key, &elements);
    let witness = NonMembershipWitness::new(&acc, &17u64.to_be_bytes()).unwrap();
    let nonce = b"round_trip";
    let proof = NonMembershipProof::new(&witness, &acc, nonce).unwrap();
    let bytes = proof.to_bytes();
    let back = NonMembershipProof::from_bytes(&bytes).unwrap();
    assert_eq!(back.to_bytes(), bytes);
    assert!(back.verify(&acc, nonce));
    assert!(NonMembershipProof::from_bytes(&bytes[1..]).is_err());
}
