//! The deterministic map from byte strings to odd probable primes of at
//! most 256 bits, built from a 512-bit digest and a primality test.
//!
//! The digest and the test outcome are named (`digest_of`,
//! `probably_prime`); both calls are deterministic functions of their
//! input, so the map itself is a function of the message alone, and
//! `lemma_hash_to_prime_deterministic` proves it.
use vstd::prelude::*;
use crate::bignum::Bignum;
use crate::codec::{be_nat, fixed_bytes_of};
use vstd::arithmetic::power::pow;
use blake2::{Blake2b512, Digest};
use num_bigint::BigUint;
use rand_core::SeedableRng;

verus! {

/// The Blake2b-512 digest of a byte string.
pub uninterp spec fn digest_of(input: Seq<u8>) -> Seq<u8>;

/// The outcome of the fixed probable-prime test on a number.
pub uninterp spec fn probably_prime(x: nat) -> bool;

/// Relies on `blake2::Blake2b512::digest`: a 64-byte digest that depends
/// on the input bytes alone.
#[verifier::external_body]
fn raw_blake2b(data: &[u8]) -> (r: Vec<u8>)
    ensures
        r@ =~= digest_of(data@),
        r@.len() == 64,
{
    Blake2b512::digest(data).to_vec()
}

/// Relies on `glass_pumpkin::prime::strong_check_with`, a Baillie-PSW
/// style check: trial division by the first primes, a Fermat test,
/// Miller-Rabin rounds with base two forced, and a strong Lucas test.
/// The base generator is seeded with a fixed constant, so the outcome
/// depends on the candidate alone; the check rejects zero and one
/// outright, so a passing candidate is at least two. The candidate two
/// itself is excluded: on it the Lucas stage's Jacobi symbol panics, so
/// the caller answers for two without the call.
#[verifier::external_body]
fn raw_prime_check(x: &Bignum) -> (r: bool)
    requires
        x@ != 2,
    ensures
        r == probably_prime(x@),
        r ==> x@ >= 2,
{
    let n = BigUint::from_bytes_be(&x.bytes);
    let mut rng = rand_chacha::ChaCha20Rng::seed_from_u64(0x72736163636d756c);
    glass_pumpkin::prime::strong_check_with(&n, &mut rng)
}

/// The 64-byte digest used by the Fiat-Shamir transform.
pub(crate) fn digest_bytes(data: &[u8]) -> (r: Vec<u8>)
    ensures
        r@ =~= digest_of(data@),
        r@.len() == 64,
{
    raw_blake2b(data)
}

/// The number passes the library's primality test: two is prime, and
/// every other number goes to the named fixed test.
pub open spec fn passes_prime_test(x: nat) -> bool {
    x == 2 || probably_prime(x)
}

/// The fixed probable-prime test on a number; the prime two, on which
/// the underlying test does not return, is answered directly.
pub fn prime_check(x: &Bignum) -> (r: bool)
    requires
        x.wf(),
    ensures
        r == passes_prime_test(x@),
        r ==> x@ >= 2,
{
    if x.bytes.len() == 1 && x.bytes[0] == 2 {
        proof {
            assert(x.bytes@.drop_last() =~= Seq::<u8>::empty());
            assert(crate::codec::be_nat(Seq::<u8>::empty()) == 0);
            assert(x@ == 2);
        }
        return true;
    }
    proof {
        if x@ == 2 {
            crate::codec::lemma_minimal_is_min_bytes(x.bytes@);
            assert(crate::codec::min_bytes_of(2) =~= crate::codec::min_bytes_of(0).push(2u8));
            assert(crate::codec::min_bytes_of(0) =~= Seq::<u8>::empty());
            assert(x.bytes@ =~= seq![2u8]);
            assert(x.bytes@.len() == 1 && x.bytes@[0] == 2);
            assert(false);
        }
    }
    raw_prime_check(x)
}

/// The candidate drawn for message `m` at counter `i`: the low 32 bytes of
/// the digest of `m` followed by the 8-byte big-endian counter, with the
/// lowest bit forced to one.
pub open spec fn h2p_candidate(m: Seq<u8>, i: nat) -> nat {
    let d = digest_of(m + fixed_bytes_of(i, 8));
    let c = d.subrange(32, 64);
    be_nat(c.update(31, (c[31] | 1) as u8))
}

/// `r` is the candidate at counter `i`, every earlier counter failed the
/// test, and `r` passes it.
pub open spec fn is_h2p_at(m: Seq<u8>, r: nat, i: nat) -> bool {
    &&& 1 <= i <= 0xFFFF_FFFF_FFFF_FFFF
    &&& r == h2p_candidate(m, i)
    &&& probably_prime(r)
    &&& forall|j: nat| 1 <= j < i ==> !probably_prime(#[trigger] h2p_candidate(m, j))
}

/// No candidate for `m` in the whole counter range passes the test; primes
/// below `2^256` are dense, so no input is expected to reach this.
pub open spec fn h2p_exhausted(m: Seq<u8>) -> bool {
    forall|j: nat|
        1 <= j <= 0xFFFF_FFFF_FFFF_FFFF ==> !probably_prime(#[trigger] h2p_candidate(m, j))
}

/// `r` is the first candidate for `m` that passes the test, or the last
/// candidate drawn when every one fails.
pub open spec fn is_h2p_result(m: Seq<u8>, r: nat) -> bool {
    ||| exists|i: nat| is_h2p_at(m, r, i)
    ||| (h2p_exhausted(m) && r == h2p_candidate(m, 0xFFFF_FFFF_FFFF_FFFF))
}

/// The prime that `m` hashes to: the unique value related to `m` by
/// `is_h2p_result`.
pub open spec fn h2p_of(m: Seq<u8>) -> nat {
    choose|r: nat| is_h2p_result(m, r)
}

/// The map is a function of the message: two results for one message are
/// equal.
pub proof fn lemma_hash_to_prime_deterministic(m: Seq<u8>, r1: nat, r2: nat)
    requires
        is_h2p_result(m, r1),
        is_h2p_result(m, r2),
    ensures
        r1 == r2,
{
    if exists|i: nat| is_h2p_at(m, r1, i) {
        let i1 = choose|i: nat| is_h2p_at(m, r1, i);
        if exists|i: nat| is_h2p_at(m, r2, i) {
            let i2 = choose|i: nat| is_h2p_at(m, r2, i);
            if i1 < i2 {
                assert(!probably_prime(h2p_candidate(m, i1)));
            } else if i2 < i1 {
                assert(!probably_prime(h2p_candidate(m, i2)));
            }
        } else {
            assert(!probably_prime(h2p_candidate(m, i1)));
        }
    } else {
        if exists|i: nat| is_h2p_at(m, r2, i) {
            let i2 = choose|i: nat| is_h2p_at(m, r2, i);
            assert(!probably_prime(h2p_candidate(m, i2)));
        }
    }
}

/// Any result pins down `h2p_of`.
pub proof fn lemma_h2p_of(m: Seq<u8>, r: nat)
    requires
        is_h2p_result(m, r),
    ensures
        h2p_of(m) == r,
{
    let picked = choose|x: nat| is_h2p_result(m, x);
    assert(is_h2p_result(m, picked));
    lemma_hash_to_prime_deterministic(m, picked, r);
}

/// Hash a byte string to an odd probable prime below `2^256`.
///
/// The counter is appended to the message as eight big-endian bytes,
/// starting at one; the first candidate that passes the primality test is
/// returned.
pub fn hash_to_prime(input: &[u8]) -> (r: Bignum)
    ensures
        r.wf(),
        is_h2p_result(input@, r@),
        r@ == h2p_of(input@),
        !h2p_exhausted(input@) ==> probably_prime(r@) && 2 <= r@,
        r@ % 2 == 1,
        r@ < pow(256, 32),
{
    let mut i: u64 = 1;
    loop
        invariant
            1 <= i <= u64::MAX,
            forall|j: nat| 1 <= j < i ==> !probably_prime(#[trigger] h2p_candidate(input@, j)),
        decreases u64::MAX - i,
    {
        let mut data = crate::codec::sub_bytes(input, 0, input.len());
        let mut counter = crate::codec::u64_to_be_bytes(i);
        data.append(&mut counter);
        proof {
            assert(data@ =~= input@ + fixed_bytes_of(i as nat, 8));
        }
        let d = raw_blake2b(data.as_slice());
        let mut c = crate::codec::sub_bytes(d.as_slice(), 32, 63);
        let low: u8 = d[63] | 1;
        c.push(low);
        proof {
            let full = d@.subrange(32, 64);
            assert(c@ =~= full.update(31, (full[31] | 1) as u8));
        }
        let num = Bignum::from_be_bytes(c.as_slice());
        proof {
            assert(num@ == h2p_candidate(input@, i as nat));
            crate::codec::lemma_be_nat_bound(c@);
            crate::codec::lemma_be_nat_parity(c@);
            let lb = d@[63];
            assert(low == lb | 1);
            assert((lb | 1) % 2 == 1) by (bit_vector);
        }
        if raw_prime_check(&num) {
            proof {
                assert(is_h2p_at(input@, num@, i as nat));
                lemma_h2p_of(input@, num@);
            }
            return num;
        }
        if i == u64::MAX {
            proof {
                assert(h2p_exhausted(input@));
                assert(is_h2p_result(input@, num@));
                lemma_h2p_of(input@, num@);
            }
            return num;
        }
        i = i + 1;
    }
}

} // verus!
