//! The accumulator's secret key: two distinct safe primes of 1024 bits.
//!
//! `generate` samples fresh safe primes; `Default` yields a fixed
//! deterministic pair taken from a published chain of safe primes, so that
//! callers and tests can build reproducible accumulators.
use vstd::prelude::*;
use crate::bignum::Bignum;
use crate::codec::{be_nat, lemma_pow256_pow2, lemma_be_nat_bound, lemma_be_nat_head_weight};
use crate::error::{AccumulatorError, AccumulatorErrorKind};
use vstd::arithmetic::power::pow;

verus! {

/// A modulus factor lies in `[2^1023, 2^1024)`.
pub open spec fn factor_in_range(x: nat) -> bool {
    pow(2, 1023) <= x < pow(2, 1024)
}

/// 128 bytes with the top bit set encode a number in `[2^1023, 2^1024)`.
pub proof fn lemma_factor_range(s: Seq<u8>)
    requires
        s.len() == 128,
        s[0] >= 128,
    ensures
        factor_in_range(be_nat(s)),
{
    lemma_be_nat_bound(s);
    lemma_pow256_pow2(128);
    lemma_be_nat_head_weight(s);
    lemma_pow256_pow2(127);
    vstd::arithmetic::power::lemma_pow_positive(2, 1016);
    assert(s[0] * pow(2, 1016) >= 128 * pow(2, 1016)) by (nonlinear_arith)
        requires
            s[0] >= 128,
            pow(2, 1016) > 0,
    ;
    reveal_with_fuel(pow, 8);
    assert(pow(2, 7) == 128);
    vstd::arithmetic::power::lemma_pow_adds(2, 7, 1016);
}

/// The totient of a well-formed key is large; in particular above one.
pub proof fn lemma_totient_large(key: &AccumulatorSecretKey)
    requires
        key.wf(),
    ensures
        key.spec_totient() > 1,
{
    vstd::arithmetic::power::lemma_pow_strictly_increases(2, 1, 1023);
    vstd::arithmetic::power::lemma_pow1(2);
    assert((key.p@ - 1) * (key.q@ - 1) > 1) by (nonlinear_arith)
        requires
            key.p@ - 1 >= 2,
            key.q@ - 1 >= 2,
    ;
}

/// The bytes of the fixed first factor: a published 1024-bit safe prime.
pub open spec fn default_p_bytes() -> Seq<u8> {
    seq![188, 208, 153, 57, 233, 222, 191, 106, 172, 226, 182, 66, 121, 115, 27, 221, 132, 140, 208, 141, 3, 164, 148, 79, 160, 45, 120, 228, 237, 208, 191, 165, 23, 74, 62, 248, 208, 42, 59, 51, 253, 203, 94, 197, 63, 123, 74, 15, 224, 133, 49, 39, 122, 70, 65, 21, 75, 152, 79, 238, 236, 172, 10, 201, 23, 50, 19, 98, 21, 2, 142, 6, 157, 97, 184, 219, 229, 248, 178, 216, 152, 15, 145, 254, 33, 213, 179, 58, 250, 169, 61, 225, 132, 222, 148, 9, 163, 179, 111, 165, 19, 158, 129, 221, 117, 172, 199, 67, 49, 249, 191, 150, 199, 28, 109, 147, 103, 119, 24, 210, 38, 123, 30, 39, 15, 60, 96, 119]
}

/// The bytes of the fixed second factor: a published 1024-bit safe prime.
pub open spec fn default_q_bytes() -> Seq<u8> {
    seq![212, 139, 89, 129, 194, 242, 105, 161, 93, 229, 183, 30, 43, 107, 134, 27, 229, 170, 227, 119, 168, 66, 16, 3, 4, 15, 63, 28, 239, 131, 56, 103, 134, 240, 3, 131, 176, 140, 28, 221, 194, 26, 173, 161, 238, 228, 56, 163, 183, 223, 146, 139, 40, 241, 200, 233, 64, 143, 86, 216, 164, 91, 250, 85, 123, 205, 219, 184, 82, 147, 17, 72, 93, 78, 197, 242, 13, 180, 216, 30, 82, 130, 181, 184, 23, 88, 22, 148, 246, 68, 183, 88, 147, 163, 48, 140, 13, 171, 114, 89, 60, 188, 212, 82, 57, 28, 100, 146, 252, 139, 41, 187, 55, 217, 67, 108, 25, 237, 143, 237, 201, 192, 182, 192, 19, 142, 211, 23]
}

/// The value of the fixed first factor.
pub open spec fn default_p_value() -> nat {
    be_nat(default_p_bytes())
}

/// The value of the fixed second factor.
pub open spec fn default_q_value() -> nat {
    be_nat(default_q_bytes())
}

/// The secret factorization of the modulus: two distinct safe primes.
#[derive(Debug, Clone)]
pub struct AccumulatorSecretKey {
    /// The first safe prime, 1024 bits.
    pub p: Bignum,
    /// The second safe prime, 1024 bits, distinct from the first.
    pub q: Bignum,
}

impl AccumulatorSecretKey {
    /// Both factors are well-formed 1024-bit numbers and differ.
    pub open spec fn wf(&self) -> bool {
        &&& self.p.wf()
        &&& self.q.wf()
        &&& factor_in_range(self.p@)
        &&& factor_in_range(self.q@)
        &&& self.p@ != self.q@
    }

    /// The public modulus `n = p * q`.
    pub open spec fn spec_modulus(&self) -> nat {
        self.p@ * self.q@
    }

    /// The secret totient `(p - 1) * (q - 1)`.
    pub open spec fn spec_totient(&self) -> nat {
        ((self.p@ - 1) * (self.q@ - 1)) as nat
    }

    /// Sample two fresh, distinct safe primes of 1024 bits each, and
    /// re-check each drawn factor with the library's own primality test.
    ///
    /// Sampling equal primes twice, or drawing a candidate the test then
    /// rejects, has negligible probability; if it persists, the draw is
    /// reported as failed rather than looping on.
    pub fn generate() -> (r: Result<AccumulatorSecretKey, AccumulatorError>)
        ensures
            r matches Ok(k) ==> k.wf() && crate::hash::passes_prime_test(k.p@)
                && crate::hash::passes_prime_test(k.q@),
    {
        let p = crate::arith::generate_safe_prime(1024);
        if !crate::hash::prime_check(&p) {
            return Err(AccumulatorError::from_msg(
                AccumulatorErrorKind::InvalidType,
                "drawn factor failed the primality re-check",
            ));
        }
        let mut tries: usize = 0;
        while tries < 64
            invariant
                p.wf(),
                factor_in_range(p@),
                crate::hash::passes_prime_test(p@),
            decreases 64 - tries,
        {
            let q = crate::arith::generate_safe_prime(1024);
            if !p.eq_value(&q) {
                if !crate::hash::prime_check(&q) {
                    return Err(AccumulatorError::from_msg(
                        AccumulatorErrorKind::InvalidType,
                        "drawn factor failed the primality re-check",
                    ));
                }
                return Ok(AccumulatorSecretKey { p, q });
            }
            tries = tries + 1;
        }
        Err(AccumulatorError::from_msg(
            AccumulatorErrorKind::InvalidType,
            "could not draw two distinct safe primes",
        ))
    }

    /// The public modulus `n = p * q`.
    pub fn modulus(&self) -> (r: Bignum)
        requires
            self.wf(),
        ensures
            r.wf(),
            r@ == self.spec_modulus(),
    {
        crate::arith::big_mul(&self.p, &self.q)
    }

    /// The totient `(p - 1) * (q - 1)` of the modulus.
    pub fn totient(&self) -> (r: Bignum)
        requires
            self.wf(),
        ensures
            r.wf(),
            r@ == self.spec_totient(),
    {
        proof {
            vstd::arithmetic::power::lemma_pow_positive(2, 1023);
        }
        let pm = crate::arith::big_sub_one(&self.p);
        let qm = crate::arith::big_sub_one(&self.q);
        crate::arith::big_mul(&pm, &qm)
    }
}

impl Default for AccumulatorSecretKey {
    /// The fixed pair of safe primes, for reproducible accumulators:
    /// both factors equal the named byte constants.
    fn default() -> (r: AccumulatorSecretKey)
        ensures
            r.wf(),
            r.p@ == default_p_value(),
            r.q@ == default_q_value(),
    {
        let pbytes: Vec<u8> = vec![188, 208, 153, 57, 233, 222, 191, 106, 172, 226, 182, 66, 121, 115, 27, 221, 132, 140, 208, 141, 3, 164, 148, 79, 160, 45, 120, 228, 237, 208, 191, 165, 23, 74, 62, 248, 208, 42, 59, 51, 253, 203, 94, 197, 63, 123, 74, 15, 224, 133, 49, 39, 122, 70, 65, 21, 75, 152, 79, 238, 236, 172, 10, 201, 23, 50, 19, 98, 21, 2, 142, 6, 157, 97, 184, 219, 229, 248, 178, 216, 152, 15, 145, 254, 33, 213, 179, 58, 250, 169, 61, 225, 132, 222, 148, 9, 163, 179, 111, 165, 19, 158, 129, 221, 117, 172, 199, 67, 49, 249, 191, 150, 199, 28, 109, 147, 103, 119, 24, 210, 38, 123, 30, 39, 15, 60, 96, 119];
        let qbytes: Vec<u8> = vec![212, 139, 89, 129, 194, 242, 105, 161, 93, 229, 183, 30, 43, 107, 134, 27, 229, 170, 227, 119, 168, 66, 16, 3, 4, 15, 63, 28, 239, 131, 56, 103, 134, 240, 3, 131, 176, 140, 28, 221, 194, 26, 173, 161, 238, 228, 56, 163, 183, 223, 146, 139, 40, 241, 200, 233, 64, 143, 86, 216, 164, 91, 250, 85, 123, 205, 219, 184, 82, 147, 17, 72, 93, 78, 197, 242, 13, 180, 216, 30, 82, 130, 181, 184, 23, 88, 22, 148, 246, 68, 183, 88, 147, 163, 48, 140, 13, 171, 114, 89, 60, 188, 212, 82, 57, 28, 100, 146, 252, 139, 41, 187, 55, 217, 67, 108, 25, 237, 143, 237, 201, 192, 182, 192, 19, 142, 211, 23];
        proof {
            assert(pbytes@ =~= default_p_bytes());
            assert(qbytes@ =~= default_q_bytes());
            lemma_factor_range(pbytes@);
            lemma_factor_range(qbytes@);
            assert(be_nat(pbytes@) % 256 == 119) by {
                assert(be_nat(pbytes@) == be_nat(pbytes@.drop_last()) * 256 + 119);
                assert((be_nat(pbytes@.drop_last()) * 256 + 119) % 256 == 119)
                    by (nonlinear_arith);
            }
            assert(be_nat(qbytes@) % 256 == 23) by {
                assert(be_nat(qbytes@) == be_nat(qbytes@.drop_last()) * 256 + 23);
                assert((be_nat(qbytes@.drop_last()) * 256 + 23) % 256 == 23)
                    by (nonlinear_arith);
            }
        }
        AccumulatorSecretKey { p: Bignum { bytes: pbytes }, q: Bignum { bytes: qbytes } }
    }
}

} // verus!
