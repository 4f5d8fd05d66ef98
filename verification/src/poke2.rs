//! The PoKE2 proof of knowledge of an exponent (Boneh-Bunz-Fisch): a
//! non-interactive proof that the prover knows `x` with `u^x = w mod n`.
//!
//! The verifier's challenges are a hashed prime `l` and a 512-bit integer
//! `alpha`, both derived from the transcript `g' || n || w || u || z ||
//! nonce` by the Fiat-Shamir transform, with `g'` the generator raised to
//! the nonce. Proving a true statement yields a proof that verifies:
//! that is stated on the constructors and proved from the exponent
//! algebra.
use vstd::prelude::*;
use crate::accumulator::Accumulator;
use crate::arith::{
    pow_mod, is_inv_mod, is_signed_pow_mod, signed_pow_val, signed_pow_ok, Field,
    lemma_pow_mod_compose, lemma_pow_mod_adds, lemma_pow_mod_base, lemma_pow_mod_distributes,
    lemma_mul_mod_both, lemma_pow_mod_cancel_pair, lemma_mul_mod_cancel,
};
use crate::bignum::{Bignum, SignedBignum};
use crate::codec::{be_nat, min_bytes_of, fixed_bytes_of, lemma_minimal_is_min_bytes};
use crate::error::{AccumulatorError, AccumulatorErrorKind};
use crate::hash::{hash_to_prime, h2p_of, digest_of};
use vstd::arithmetic::power::pow;

verus! {

/// A proof of knowledge of an exponent.
#[derive(Debug)]
pub struct Poke2Proof {
    /// The base the exponent acts on.
    pub u: Bignum,
    /// The nonce base raised to the secret exponent.
    pub z: Bignum,
    /// The quotient commitment.
    pub q: Bignum,
    /// The remainder of the exponent by the challenge prime.
    pub r: Bignum,
}

/// The Fiat-Shamir transcript: each number as its minimal big-endian
/// bytes, then the nonce.
pub open spec fn transcript(gp: nat, n: nat, w: nat, u: nat, z: nat, nonce: Seq<u8>) -> Seq<u8> {
    min_bytes_of(gp) + min_bytes_of(n) + min_bytes_of(w) + min_bytes_of(u) + min_bytes_of(z)
        + nonce
}

/// The integer challenge: the digest of the transcript extended by the
/// prime challenge's bytes.
pub open spec fn challenge_alpha(t: Seq<u8>) -> nat {
    be_nat(digest_of(t + min_bytes_of(h2p_of(t))))
}

/// The prover's construction succeeds for a signed exponent: the powers
/// it takes exist, which only a negative exponent can prevent.
pub open spec fn poke2_new_ok(x: int, u: nat, g: nat, n: nat, w: nat, nonce: Seq<u8>) -> bool {
    let gp = pow_mod(g, be_nat(nonce), n);
    &&& signed_pow_ok(gp, x, n)
    &&& ({
        let z = signed_pow_val(gp, x, n);
        let t = transcript(gp, n, w, u, z, nonce);
        let l = h2p_of(t) as int;
        let alpha = challenge_alpha(t);
        let q = x / l;
        signed_pow_ok(u, q, n) && signed_pow_ok(gp, q * (alpha as int), n)
    })
}

/// The prover's whole output tuple, as the protocol fixes it: the
/// committed power of the nonce base, the remainder of the exponent by
/// the challenge prime, and the quotient commitment.
pub open spec fn poke2_new_out(
    p: Poke2Proof,
    x: int,
    u: nat,
    g: nat,
    n: nat,
    w: nat,
    nonce: Seq<u8>,
) -> bool {
    let gp = pow_mod(g, be_nat(nonce), n);
    let t = transcript(gp, n, w, u, p.z@, nonce);
    let l = h2p_of(t) as int;
    let alpha = challenge_alpha(t);
    let q = x / l;
    &&& p.u@ == u
    &&& p.z@ == signed_pow_val(gp, x, n)
    &&& p.r@ == x % l
    &&& p.q@ == (signed_pow_val(u, q, n) * signed_pow_val(gp, q * (alpha as int), n)) % n
}

/// The prover's output in its inverse-aware form: each component stands
/// in the signed-power relation to its exponent, so a negative exponent's
/// component is known to be a modular inverse.
pub open spec fn poke2_new_rel(
    p: Poke2Proof,
    x: int,
    u: nat,
    g: nat,
    n: nat,
    w: nat,
    nonce: Seq<u8>,
) -> bool {
    let gp = pow_mod(g, be_nat(nonce), n);
    let t = transcript(gp, n, w, u, p.z@, nonce);
    let l = h2p_of(t) as int;
    let alpha = challenge_alpha(t);
    let q = x / l;
    &&& 1 <= l
    &&& p.u@ == u
    &&& is_signed_pow_mod(gp, x, n, p.z@)
    &&& p.r@ == x % l
    &&& exists|t1: nat, t2: nat|
        #[trigger] is_signed_pow_mod(u, q, n, t1) && #[trigger] is_signed_pow_mod(
            gp,
            q * (alpha as int),
            n,
            t2,
        ) && p.q@ == (t1 * t2) % n
}

/// The verification equation on a proof record, for public data
/// `(g, n, w, nonce)`.
pub open spec fn poke2_verifies(pf: Poke2Proof, g: nat, n: nat, w: nat, nonce: Seq<u8>) -> bool {
    let gp = pow_mod(g, be_nat(nonce), n);
    let t = transcript(gp, n, w, pf.u@, pf.z@, nonce);
    let l = h2p_of(t);
    let alpha = challenge_alpha(t);
    (pow_mod(pf.q@, l, n) * ((pow_mod(pf.u@, pf.r@, n) * pow_mod(gp, alpha * pf.r@, n)) % n)) % n
        == (w * pow_mod(pf.z@, alpha, n)) % n
}

/// Build the transcript bytes from well-formed numbers and the nonce.
#[verifier::rlimit(50)]
fn transcript_bytes(gp: &Bignum, n: &Bignum, w: &Bignum, u: &Bignum, z: &Bignum, nonce: &[u8]) -> (r:
    Vec<u8>)
    requires
        gp.wf(),
        n.wf(),
        w.wf(),
        u.wf(),
        z.wf(),
    ensures
        r@ =~= transcript(gp@, n@, w@, u@, z@, nonce@),
{
    proof {
        lemma_minimal_is_min_bytes(gp.bytes@);
        lemma_minimal_is_min_bytes(n.bytes@);
        lemma_minimal_is_min_bytes(w.bytes@);
        lemma_minimal_is_min_bytes(u.bytes@);
        lemma_minimal_is_min_bytes(z.bytes@);
    }
    let mut out = crate::codec::sub_bytes(gp.bytes.as_slice(), 0, gp.bytes.len());
    let mut t1 = crate::codec::sub_bytes(n.bytes.as_slice(), 0, n.bytes.len());
    let mut t2 = crate::codec::sub_bytes(w.bytes.as_slice(), 0, w.bytes.len());
    let mut t3 = crate::codec::sub_bytes(u.bytes.as_slice(), 0, u.bytes.len());
    let mut t4 = crate::codec::sub_bytes(z.bytes.as_slice(), 0, z.bytes.len());
    let mut t5 = crate::codec::sub_bytes(nonce, 0, nonce.len());
    out.append(&mut t1);
    out.append(&mut t2);
    out.append(&mut t3);
    out.append(&mut t4);
    out.append(&mut t5);
    out
}

/// Compute the two challenges for a transcript: the hashed prime and the
/// digest integer.
fn challenges(t: &Vec<u8>) -> (r: (Bignum, Bignum))
    ensures
        r.0.wf(),
        r.0@ == h2p_of(t@),
        1 <= r.0@ < pow(256, 32),
        r.1.wf(),
        r.1@ == challenge_alpha(t@),
{
    let l = hash_to_prime(t.as_slice());
    proof {
        lemma_minimal_is_min_bytes(l.bytes@);
    }
    let mut t2 = crate::codec::sub_bytes(t.as_slice(), 0, t.len());
    let mut lb = crate::codec::sub_bytes(l.bytes.as_slice(), 0, l.bytes.len());
    t2.append(&mut lb);
    proof {
        assert(t2@ =~= t@ + min_bytes_of(h2p_of(t@)));
    }
    let d = crate::hash::digest_bytes(t2.as_slice());
    let alpha = Bignum::from_be_bytes(d.as_slice());
    (l, alpha)
}

impl Poke2Proof {
    /// The size of this proof serialized.
    pub const SIZE_BYTES: usize = 6 * crate::FACTOR_SIZE + crate::MEMBER_SIZE;

    /// All parts are well-formed and within their wire widths.
    pub open spec fn wf(&self) -> bool {
        &&& self.u.wf()
        &&& self.z.wf()
        &&& self.q.wf()
        &&& self.r.wf()
        &&& self.u.fits(256)
        &&& self.z.fits(256)
        &&& self.q.fits(256)
        &&& self.r.fits(32)
    }

    /// Prove knowledge of a non-negative exponent `x` with `u^x = w`.
    ///
    /// The resulting record satisfies the verification equation for
    /// `(g, n, w, nonce)` whenever `w` really is `u^x mod n`.
    pub(crate) fn prove(
        x: &Bignum,
        u: &Bignum,
        w: &Bignum,
        accumulator: &Accumulator,
        nonce: &[u8],
    ) -> (p: Poke2Proof)
        requires
            accumulator.wf(),
            x.wf(),
            u.wf(),
            u@ < accumulator.modulus@,
            w.wf(),
        ensures
            p.wf(),
            p.u@ == u@,
            poke2_new_out(
                p,
                x@ as int,
                u@,
                accumulator.generator@,
                accumulator.modulus@,
                w@,
                nonce@,
            ),
            1 <= h2p_of(
                transcript(
                    pow_mod(accumulator.generator@, be_nat(nonce@), accumulator.modulus@),
                    accumulator.modulus@,
                    w@,
                    u@,
                    p.z@,
                    nonce@,
                ),
            ),
            pow_mod(u@, x@, accumulator.modulus@) == w@ ==> poke2_verifies(
                p,
                accumulator.generator@,
                accumulator.modulus@,
                w@,
                nonce@,
            ),
    {
        let n = &accumulator.modulus;
        let f = Field::new(n);
        let nonce_num = Bignum::from_be_bytes(nonce);
        let gp = f.exp(&accumulator.generator, &nonce_num);
        let z = f.exp(&gp, x);
        let t = transcript_bytes(&gp, n, w, u, &z, nonce);
        let (l, alpha) = challenges(&t);
        let (q, rr) = crate::arith::big_div_rem(x, &l);
        let aq = crate::arith::big_mul(&alpha, &q);
        let q1 = f.exp(u, &q);
        let q2 = f.exp(&gp, &aq);
        let bigq = f.mul(&q1, &q2);
        let p = Poke2Proof { u: u.duplicate(), z, q: bigq, r: rr };
        proof {
            crate::bignum::lemma_fits_bound(&accumulator.modulus, 256);
            crate::bignum::lemma_fits(&p.u, 256);
            crate::bignum::lemma_fits(&p.z, 256);
            crate::bignum::lemma_fits(&p.q, 256);
            crate::bignum::lemma_fits(&p.r, 32);
            vstd::arithmetic::div_mod::lemma_mod_bound(x@ as int, l@ as int);
            assert((x@ as int) / (l@ as int) == (x@ / l@) as int);
            assert((x@ as int) % (l@ as int) == (x@ % l@) as int);
            assert(aq@ == (x@ / l@) * alpha@) by (nonlinear_arith)
                requires
                    aq@ == alpha@ * (x@ / l@),
            ;
            if pow_mod(u@, x@, accumulator.modulus@) == w@ {
                lemma_poke2_equation(u@, x@, gp@, accumulator.modulus@, l@, alpha@, p.z@, p.q@, p.r@);
            }
        }
        p
    }

    /// Prove knowledge of a signed exponent `x` with `u^x = w`; a
    /// negative exponent needs modular inverses, and the construction
    /// fails when one does not exist.
    pub fn new(
        x: &SignedBignum,
        u: &Bignum,
        w: &Bignum,
        accumulator: &Accumulator,
        nonce: &[u8],
    ) -> (r: Result<Poke2Proof, AccumulatorError>)
        requires
            accumulator.wf(),
            x.wf(),
            u.wf(),
            u@ < accumulator.modulus@,
            w.wf(),
        ensures
            (r is Ok) == poke2_new_ok(
                x@,
                u@,
                accumulator.generator@,
                accumulator.modulus@,
                w@,
                nonce@,
            ),
            r matches Err(e) ==> e.kind == AccumulatorErrorKind::InvalidType,
            r matches Ok(p) ==> p.wf() && p.u@ == u@ && poke2_new_out(
                p,
                x@,
                u@,
                accumulator.generator@,
                accumulator.modulus@,
                w@,
                nonce@,
            ) && poke2_new_rel(
                p,
                x@,
                u@,
                accumulator.generator@,
                accumulator.modulus@,
                w@,
                nonce@,
            ),
            r matches Ok(p) ==> (x@ >= 0 && pow_mod(u@, x@ as nat, accumulator.modulus@) == w@
                ==> poke2_verifies(
                p,
                accumulator.generator@,
                accumulator.modulus@,
                w@,
                nonce@,
            )),
    {
        let ghost gv = accumulator.generator@;
        let ghost nv = accumulator.modulus@;
        if !x.negative {
            let p = Self::prove(&x.magnitude, u, w, accumulator, nonce);
            proof {
                let gp = pow_mod(gv, be_nat(nonce@), nv);
                let zs = signed_pow_val(gp, x@, nv);
                let ts = transcript(gp, nv, w@, u@, zs, nonce@);
                let ls = h2p_of(ts) as int;
                let qs = x@ / ls;
                assert(ls >= 1);
                vstd::arithmetic::div_mod::lemma_div_pos_is_pos(x@, ls);
                assert(qs >= 0);
                assert(qs * (challenge_alpha(ts) as int) >= 0) by (nonlinear_arith)
                    requires
                        qs >= 0,
                ;
                assert(poke2_new_ok(x@, u@, gv, nv, w@, nonce@));
                let alphas = challenge_alpha(ts);
                assert(p.z@ == pow_mod(gp, x@ as nat, nv));
                assert(is_signed_pow_mod(gp, x@ as int, nv, p.z@));
                let wt1 = pow_mod(u@, qs as nat, nv);
                let wt2 = pow_mod(gp, (qs * (alphas as int)) as nat, nv);
                assert(is_signed_pow_mod(u@, qs, nv, wt1) && is_signed_pow_mod(
                    gp,
                    qs * (alphas as int),
                    nv,
                    wt2,
                ) && p.q@ == (wt1 * wt2) % nv);
                assert(poke2_new_rel(p, x@, u@, gv, nv, w@, nonce@));
            }
            return Ok(p);
        }
        let n = &accumulator.modulus;
        let f = Field::new(n);
        let nonce_num = Bignum::from_be_bytes(nonce);
        let gp = f.exp(&accumulator.generator, &nonce_num);
        let z = match f.exp_signed(&gp, x) {
            Some(v) => v,
            None => {
                return Err(AccumulatorError::from_msg(
                    AccumulatorErrorKind::InvalidType,
                    "nonce base power is not invertible",
                ));
            },
        };
        let t = transcript_bytes(&gp, n, w, u, &z, nonce);
        let (l, alpha) = challenges(&t);
        let (q, rr) = crate::arith::signed_div_rem(x, &l);
        proof {
            vstd::arithmetic::div_mod::lemma_fundamental_div_mod_converse(
                x@,
                l@ as int,
                q@,
                rr@ as int,
            );
            assert(q@ == x@ / (l@ as int));
            assert(rr@ as int == x@ % (l@ as int));
        }
        let aq = crate::arith::mul_signed_unsigned(&q, &alpha);
        let q1 = match f.exp_signed(u, &q) {
            Some(v) => v,
            None => {
                return Err(AccumulatorError::from_msg(
                    AccumulatorErrorKind::InvalidType,
                    "base power is not invertible",
                ));
            },
        };
        let q2 = match f.exp_signed(&gp, &aq) {
            Some(v) => v,
            None => {
                return Err(AccumulatorError::from_msg(
                    AccumulatorErrorKind::InvalidType,
                    "nonce base power is not invertible",
                ));
            },
        };
        let bigq = f.mul(&q1, &q2);
        let p = Poke2Proof { u: u.duplicate(), z, q: bigq, r: rr };
        proof {
            crate::bignum::lemma_fits_bound(&accumulator.modulus, 256);
            crate::bignum::lemma_fits(&p.u, 256);
            crate::bignum::lemma_fits(&p.z, 256);
            crate::bignum::lemma_fits(&p.q, 256);
            crate::bignum::lemma_fits(&p.r, 32);
            assert(poke2_new_ok(x@, u@, gv, nv, w@, nonce@));
            assert(poke2_new_out(p, x@, u@, gv, nv, w@, nonce@));
            assert(is_signed_pow_mod(u@, q@, nv, q1@) && is_signed_pow_mod(gp@, aq@, nv, q2@)
                && p.q@ == (q1@ * q2@) % nv);
            assert(poke2_new_rel(p, x@, u@, gv, nv, w@, nonce@));
        }
        Ok(p)
    }

    /// Check the verification equation against another committed value in
    /// place of the accumulator's.
    pub fn verify_with(&self, value: &Bignum, accumulator: &Accumulator, nonce: &[u8]) -> (r: bool)
        requires
            self.wf(),
            accumulator.wf(),
            value.wf(),
        ensures
            r == poke2_verifies(
                *self,
                accumulator.generator@,
                accumulator.modulus@,
                value@,
                nonce@,
            ),
    {
        let n = &accumulator.modulus;
        let f = Field::new(n);
        let nonce_num = Bignum::from_be_bytes(nonce);
        let gp = f.exp(&accumulator.generator, &nonce_num);
        let t = transcript_bytes(&gp, n, value, &self.u, &self.z, nonce);
        let (l, alpha) = challenges(&t);
        let p1 = f.exp(&self.q, &l);
        let p2 = f.exp(&self.u, &self.r);
        let ar = crate::arith::big_mul(&alpha, &self.r);
        let p3 = f.exp(&gp, &ar);
        let left = f.mul(&p1, &f.mul(&p2, &p3));
        let right = f.mul(value, &f.exp(&self.z, &alpha));
        left.eq_value(&right)
    }

    /// Check the verification equation against the accumulator's value.
    pub fn verify(&self, accumulator: &Accumulator, nonce: &[u8]) -> (r: bool)
        requires
            self.wf(),
            accumulator.wf(),
        ensures
            r == poke2_verifies(
                *self,
                accumulator.generator@,
                accumulator.modulus@,
                accumulator.value@,
                nonce@,
            ),
    {
        self.verify_with(&accumulator.value, accumulator, nonce)
    }

    /// Serialize as `u || z || q (256 bytes each) || r (32 bytes)`.
    pub fn to_bytes(&self) -> (r: Vec<u8>)
        requires
            self.wf(),
        ensures
            r@.len() == 800,
            r@ =~= spec_proof_bytes(*self),
    {
        let mut out = self.u.to_fixed_bytes(256);
        let mut zb = self.z.to_fixed_bytes(256);
        let mut qb = self.q.to_fixed_bytes(256);
        let mut rb = self.r.to_fixed_bytes(32);
        out.append(&mut zb);
        out.append(&mut qb);
        out.append(&mut rb);
        out
    }

    /// Parse a serialized proof; fails exactly when the length is wrong.
    pub fn from_bytes(data: &[u8]) -> (r: Result<Poke2Proof, AccumulatorError>)
        ensures
            (r is Err) == (data@.len() != 800),
            r matches Err(e) ==> e.kind == AccumulatorErrorKind::SerializationError,
            r matches Ok(p) ==> p.wf() && p.u@ == be_nat(data@.subrange(0, 256)) && p.z@ == be_nat(
                data@.subrange(256, 512),
            ) && p.q@ == be_nat(data@.subrange(512, 768)) && p.r@ == be_nat(
                data@.subrange(768, 800),
            ),
    {
        if data.len() != 800 {
            return Err(AccumulatorError::from_msg(
                AccumulatorErrorKind::SerializationError,
                "a proof is six factor widths and one member width",
            ));
        }
        let u = Bignum::from_be_bytes(crate::codec::sub_bytes(data, 0, 256).as_slice());
        let z = Bignum::from_be_bytes(crate::codec::sub_bytes(data, 256, 512).as_slice());
        let q = Bignum::from_be_bytes(crate::codec::sub_bytes(data, 512, 768).as_slice());
        let r = Bignum::from_be_bytes(crate::codec::sub_bytes(data, 768, 800).as_slice());
        proof {
            crate::codec::lemma_be_nat_bound(data@.subrange(0, 256));
            crate::codec::lemma_be_nat_bound(data@.subrange(256, 512));
            crate::codec::lemma_be_nat_bound(data@.subrange(512, 768));
            crate::codec::lemma_be_nat_bound(data@.subrange(768, 800));
        }
        let p = Poke2Proof { u, z, q, r };
        proof {
            crate::bignum::lemma_fits(&p.u, 256);
            crate::bignum::lemma_fits(&p.z, 256);
            crate::bignum::lemma_fits(&p.q, 256);
            crate::bignum::lemma_fits(&p.r, 32);
        }
        Ok(p)
    }
}

/// The wire form of a proof record.
pub open spec fn spec_proof_bytes(pf: Poke2Proof) -> Seq<u8> {
    fixed_bytes_of(pf.u@, 256) + fixed_bytes_of(pf.z@, 256) + fixed_bytes_of(pf.q@, 256)
        + fixed_bytes_of(pf.r@, 32)
}

/// Serialization round trip: the wire form of a well-formed proof parses
/// back to the same field values.
pub proof fn lemma_proof_round_trip(pf: Poke2Proof)
    requires
        pf.wf(),
    ensures
        ({
            let b = spec_proof_bytes(pf);
            &&& b.len() == 800
            &&& be_nat(b.subrange(0, 256)) == pf.u@
            &&& be_nat(b.subrange(256, 512)) == pf.z@
            &&& be_nat(b.subrange(512, 768)) == pf.q@
            &&& be_nat(b.subrange(768, 800)) == pf.r@
        }),
{
    let b = spec_proof_bytes(pf);
    crate::codec::lemma_fixed_bytes_of(pf.u@, 256);
    crate::codec::lemma_fixed_bytes_of(pf.z@, 256);
    crate::codec::lemma_fixed_bytes_of(pf.q@, 256);
    crate::codec::lemma_fixed_bytes_of(pf.r@, 32);
    crate::bignum::lemma_fits_bound(&pf.u, 256);
    crate::bignum::lemma_fits_bound(&pf.z, 256);
    crate::bignum::lemma_fits_bound(&pf.q, 256);
    crate::bignum::lemma_fits_bound(&pf.r, 32);
    vstd::arithmetic::div_mod::lemma_small_mod(pf.u@, pow(256, 256) as nat);
    vstd::arithmetic::div_mod::lemma_small_mod(pf.z@, pow(256, 256) as nat);
    vstd::arithmetic::div_mod::lemma_small_mod(pf.q@, pow(256, 256) as nat);
    vstd::arithmetic::div_mod::lemma_small_mod(pf.r@, pow(256, 32) as nat);
    assert(b.subrange(0, 256) =~= fixed_bytes_of(pf.u@, 256));
    assert(b.subrange(256, 512) =~= fixed_bytes_of(pf.z@, 256));
    assert(b.subrange(512, 768) =~= fixed_bytes_of(pf.q@, 256));
    assert(b.subrange(768, 800) =~= fixed_bytes_of(pf.r@, 32));
}

/// The prover's output is a function of its inputs: two tuples that both
/// satisfy the output relation for the same inputs are equal field by
/// field.
pub proof fn lemma_poke2_new_deterministic(
    p1: Poke2Proof,
    p2: Poke2Proof,
    x: int,
    u: nat,
    g: nat,
    n: nat,
    w: nat,
    nonce: Seq<u8>,
)
    requires
        poke2_new_out(p1, x, u, g, n, w, nonce),
        poke2_new_out(p2, x, u, g, n, w, nonce),
    ensures
        p1.u@ == p2.u@,
        p1.z@ == p2.z@,
        p1.r@ == p2.r@,
        p1.q@ == p2.q@,
{
    let gp = pow_mod(g, be_nat(nonce), n);
    assert(p1.z@ == signed_pow_val(gp, x, n) && p2.z@ == signed_pow_val(gp, x, n));
}

/// The PoKE2 equation for a negative exponent `a`: the inverse
/// components of the tuple cancel against the matching direct powers, so
/// the verification equation holds whenever the committed value `w` is
/// the signed power `u^a`.
#[verifier::rlimit(60)]
pub proof fn lemma_poke2_equation_neg(
    u: nat,
    a: int,
    gp: nat,
    n: nat,
    l: int,
    alpha: nat,
    z: nat,
    t1: nat,
    t2: nat,
    bq: nat,
    rr: nat,
    w: nat,
)
    requires
        n > 1,
        l >= 1,
        a < 0,
        is_inv_mod(pow_mod(gp, (-a) as nat, n), z, n),
        rr as int == a % l,
        is_signed_pow_mod(u, a / l, n, t1),
        is_signed_pow_mod(gp, (a / l) * (alpha as int), n, t2),
        bq == (t1 * t2) % n,
        is_inv_mod(pow_mod(u, (-a) as nat, n), w, n),
    ensures
        (pow_mod(bq, l as nat, n) * ((pow_mod(u, rr, n) * pow_mod(gp, alpha * rr, n)) % n)) % n
            == (w * pow_mod(z, alpha, n)) % n,
{
    let q = a / l;
    vstd::arithmetic::div_mod::lemma_fundamental_div_mod(a, l);
    vstd::arithmetic::div_mod::lemma_mod_bound(a, l);
    assert(q < 0) by (nonlinear_arith)
        requires
            a == q * l + (a % l),
            0 <= a % l < l,
            a < 0,
            l >= 1,
    ;
    let qm = (-q) as nat;
    let m = (-a) as nat;
    let ln = l as nat;
    assert(is_inv_mod(pow_mod(u, qm, n), t1, n));
    assert(qm * ln == m + rr) by (nonlinear_arith)
        requires
            a == q * l + (rr as int),
            qm == -q,
            m == -a,
            ln == l,
    ;
    // the four factors of the multiplier that cancels everything
    let um = pow_mod(u, qm, n);
    let aqm = (qm * alpha) as nat;
    let gm = pow_mod(gp, aqm, n);
    let cu = pow_mod(u, qm * ln, n);
    let cg = pow_mod(gp, alpha * (qm * ln), n);
    let c = (cu * cg) % n;
    let p1 = pow_mod(t1, ln, n);
    let p2 = pow_mod(t2, ln, n);
    let d = pow_mod(bq, ln, n);
    // Step A: bq^l * c == 1
    lemma_pow_mod_base(t1 * t2, ln, n);
    lemma_pow_mod_distributes(t1, t2, ln, n);
    assert(d == (p1 * p2) % n);
    lemma_pow_mod_compose(u, qm, ln, n);
    assert(cu == pow_mod(um, ln, n));
    vstd::arithmetic::div_mod::lemma_small_mod(1nat, n);
    assert((t1 * um) % n == 1) by {
        assert(t1 * um == um * t1) by (nonlinear_arith);
    }
    lemma_pow_mod_cancel_pair(t1, um, ln, n);
    assert((p1 * cu) % n == 1);
    assert(alpha * (qm * ln) == aqm * ln) by (nonlinear_arith)
        requires
            aqm == qm * alpha,
    ;
    lemma_pow_mod_compose(gp, aqm, ln, n);
    assert(cg == pow_mod(gm, ln, n));
    if alpha == 0 {
        assert(q * (alpha as int) == 0) by (nonlinear_arith)
            requires
                alpha == 0,
        ;
        assert(t2 == pow_mod(gp, 0, n));
        assert(aqm == 0) by (nonlinear_arith)
            requires
                aqm == qm * alpha,
                alpha == 0,
        ;
        assert(t2 == gm);
        vstd::arithmetic::power::lemma_pow0(gp as int);
        vstd::arithmetic::div_mod::lemma_small_mod(1nat, n);
        assert(gm == 1);
        assert((t2 * gm) % n == 1);
    } else {
        assert(q * (alpha as int) < 0) by (nonlinear_arith)
            requires
                q < 0,
                alpha >= 1,
        ;
        assert((-(q * (alpha as int))) as nat == aqm) by (nonlinear_arith)
            requires
                qm == -q,
                aqm == qm * alpha,
        ;
        assert(is_inv_mod(gm, t2, n));
        vstd::arithmetic::div_mod::lemma_small_mod(1nat, n);
        assert((gm * t2) % n == 1);
        assert((t2 * gm) % n == 1) by {
            assert(t2 * gm == gm * t2) by (nonlinear_arith);
        }
    }
    lemma_pow_mod_cancel_pair(t2, gm, ln, n);
    assert((p2 * cg) % n == 1);
    // assemble (d * c) % n == 1
    assert((d * c) % n == 1) by {
        lemma_mul_mod_both((p1 * p2) as nat, (cu * cg) as nat, n);
        assert((((p1 * p2) % n) * ((cu * cg) % n)) % n == ((p1 * p2) * (cu * cg)) % n);
        assert((p1 * p2) * (cu * cg) == (p1 * cu) * (p2 * cg)) by (nonlinear_arith);
        lemma_mul_mod_both((p1 * cu) as nat, (p2 * cg) as nat, n);
        vstd::arithmetic::div_mod::lemma_small_mod(1nat, n);
        assert((1 * 1) % n == 1) by {
            assert(1nat * 1nat == 1nat) by (nonlinear_arith);
        }
    }
    // Step B: right side times c equals the inner pair
    let inner = (pow_mod(u, rr, n) * pow_mod(gp, alpha * rr, n)) % n;
    let rhs = (w * pow_mod(z, alpha, n)) % n;
    assert((rhs * c) % n == inner) by {
        let zm = pow_mod(z, alpha, n);
        let ur = pow_mod(u, rr, n);
        let gr = pow_mod(gp, alpha * rr, n);
        // w * u^(qm l) == u^r modulo n
        lemma_pow_mod_adds(u, m, rr, n);
        assert((pow_mod(u, m, n) * ur) % n == cu) by {
            assert(m + rr == qm * ln);
        }
        // z^alpha * gp^(alpha qm l) == gp^(alpha r) modulo n
        assert(alpha * (qm * ln) == alpha * m + alpha * rr) by (nonlinear_arith)
            requires
                qm * ln == m + rr,
        ;
        lemma_pow_mod_adds(gp, alpha * m, alpha * rr, n);
        assert((pow_mod(gp, alpha * m, n) * gr) % n == cg);
        lemma_pow_mod_compose(gp, m, alpha, n);
        lemma_pow_mod_base(vstd::arithmetic::power::pow(gp as int, m) as nat, alpha, n);
        crate::arith::lemma_pow_nonneg(gp, m);
        let gpm = pow_mod(gp, m, n);
        assert(pow_mod(gp, alpha * m, n) == pow_mod(gpm, alpha, n)) by {
            assert(m * alpha == alpha * m) by (nonlinear_arith);
        }
        lemma_pow_mod_distributes(z, gpm, alpha, n);
        lemma_pow_mod_base(z * gpm, alpha, n);
        vstd::arithmetic::div_mod::lemma_small_mod(1nat, n);
        assert((z * gpm) % n == 1);
        vstd::arithmetic::power::lemma1_pow(alpha);
        assert((zm * pow_mod(gpm, alpha, n)) % n == 1);
        // now multiply everything out and regroup
        lemma_mul_mod_both((w * zm) as nat, (cu * cg) as nat, n);
        assert(((rhs * ((cu * cg) % n)) % n) == ((w * zm) * (cu * cg)) % n) by {
            lemma_mul_mod_both((w * zm) as nat, ((cu * cg) % n) as nat, n);
            vstd::arithmetic::div_mod::lemma_mod_bound((cu * cg) as int, n as int);
            vstd::arithmetic::div_mod::lemma_small_mod((((cu * cg) as nat) % n) as nat, n);
        }
        let wu = (w * ((pow_mod(u, m, n) * ur) % n)) % n;
        let zg = (zm * ((pow_mod(gp, alpha * m, n) * gr) % n)) % n;
        assert((w * zm) * (cu * cg) == (w * cu) * (zm * cg)) by (nonlinear_arith);
        lemma_mul_mod_both((w * cu) as nat, (zm * cg) as nat, n);
        assert(((w * zm) * (cu * cg)) % n == (((w * cu) % n) * ((zm * cg) % n)) % n);
        // w * cu reduces to u^r
        assert((w * cu) % n == ur) by {
            lemma_mul_mod_both(w, (pow_mod(u, m, n) * ur) as nat, n);
            assert(w * (pow_mod(u, m, n) * ur) == (w * pow_mod(u, m, n)) * ur)
                by (nonlinear_arith);
            lemma_mul_mod_both((w * pow_mod(u, m, n)) as nat, ur, n);
            assert((w * pow_mod(u, m, n)) % n == 1) by {
                assert(w * pow_mod(u, m, n) == pow_mod(u, m, n) * w) by (nonlinear_arith);
                vstd::arithmetic::div_mod::lemma_small_mod(1nat, n);
            }
            assert((1 * ur) % n == ur) by {
                assert(1 * ur == ur) by (nonlinear_arith);
                vstd::arithmetic::div_mod::lemma_mod_bound(
                    vstd::arithmetic::power::pow(u as int, rr),
                    n as int,
                );
                vstd::arithmetic::div_mod::lemma_small_mod(ur, n);
            }
        }
        // zm * cg reduces to gp^(alpha r)
        assert((zm * cg) % n == gr) by {
            lemma_mul_mod_both(zm, (pow_mod(gp, alpha * m, n) * gr) as nat, n);
            assert(zm * (pow_mod(gp, alpha * m, n) * gr) == (zm * pow_mod(gpm, alpha, n)) * gr)
                by (nonlinear_arith)
                requires
                    pow_mod(gp, alpha * m, n) == pow_mod(gpm, alpha, n),
            ;
            lemma_mul_mod_both((zm * pow_mod(gpm, alpha, n)) as nat, gr, n);
            assert((1 * gr) % n == gr) by {
                assert(1 * gr == gr) by (nonlinear_arith);
                vstd::arithmetic::div_mod::lemma_mod_bound(
                    vstd::arithmetic::power::pow(gp as int, alpha * rr),
                    n as int,
                );
                vstd::arithmetic::div_mod::lemma_small_mod(gr, n);
            }
        }
        // and the inner pair is already reduced
        lemma_mul_mod_both(ur, gr, n);
        vstd::arithmetic::div_mod::lemma_mod_bound(
            vstd::arithmetic::power::pow(u as int, rr),
            n as int,
        );
        vstd::arithmetic::div_mod::lemma_mod_bound(
            vstd::arithmetic::power::pow(gp as int, alpha * rr),
            n as int,
        );
        vstd::arithmetic::div_mod::lemma_small_mod(ur, n);
        vstd::arithmetic::div_mod::lemma_small_mod(gr, n);
    }
    // Step C: left side times c also equals the inner pair
    let lhs = (d * inner) % n;
    assert((lhs * c) % n == inner) by {
        lemma_mul_mod_both((d * inner) as nat, c, n);
        vstd::arithmetic::div_mod::lemma_small_mod(c, n);
        assert(((d * inner) * c) % n == (inner * (d * c)) % n) by {
            assert((d * inner) * c == inner * (d * c)) by (nonlinear_arith);
        }
        lemma_mul_mod_both(inner, (d * c) as nat, n);
        assert((inner * 1) % n == inner) by {
            assert(inner * 1 == inner) by (nonlinear_arith);
            vstd::arithmetic::div_mod::lemma_mod_bound(
                (pow_mod(u, rr, n) * pow_mod(gp, alpha * rr, n)) as int,
                n as int,
            );
            vstd::arithmetic::div_mod::lemma_small_mod(inner, n);
        }
    }
    // Step D: cancel c
    vstd::arithmetic::div_mod::lemma_mod_bound((d * inner) as int, n as int);
    vstd::arithmetic::div_mod::lemma_mod_bound(
        (w * pow_mod(z, alpha, n)) as int,
        n as int,
    );
    lemma_mul_mod_cancel(lhs, rhs, c, d, n);
    assert((d * c) % n == (c * d) % n) by {
        assert(d * c == c * d) by (nonlinear_arith);
    }
}

/// The PoKE2 equation: with `z = g'^x`, `r = x mod l` and
/// `Q = u^(x/l) * g'^(alpha * (x/l))`, the checked products agree whenever
/// `w = u^x`, by splitting `x` into quotient and remainder.
proof fn lemma_poke2_equation(
    u: nat,
    x: nat,
    gp: nat,
    n: nat,
    l: nat,
    alpha: nat,
    z: nat,
    bq: nat,
    rr: nat,
)
    requires
        n > 1,
        l >= 1,
        z == pow_mod(gp, x, n),
        rr == x % l,
        bq == (pow_mod(u, x / l, n) * pow_mod(gp, alpha * (x / l), n)) % n,
    ensures
        (pow_mod(bq, l, n) * ((pow_mod(u, rr, n) * pow_mod(gp, alpha * rr, n)) % n)) % n == (
        pow_mod(u, x, n) * pow_mod(z, alpha, n)) % n,
{
    let q = x / l;
    vstd::arithmetic::div_mod::lemma_fundamental_div_mod(x as int, l as int);
    vstd::arithmetic::div_mod::lemma_mod_bound(x as int, l as int);
    assert(q * l == l * q) by (nonlinear_arith);
    assert(x == q * l + rr);
    let bx = pow_mod(u, q, n);
    let by = pow_mod(gp, alpha * q, n);
    // Q^l splits into the two powers raised to l
    lemma_pow_mod_base(bx * by, l, n);
    lemma_pow_mod_distributes(bx, by, l, n);
    assert(pow_mod(bq, l, n) == (pow_mod(bx, l, n) * pow_mod(by, l, n)) % n);
    lemma_pow_mod_compose(u, q, l, n);
    lemma_pow_mod_base(pow(u as int, q) as nat, l, n);
    crate::arith::lemma_pow_nonneg(u, q);
    assert(pow_mod(bx, l, n) == pow_mod(u, q * l, n));
    lemma_pow_mod_compose(gp, alpha * q, l, n);
    lemma_pow_mod_base(pow(gp as int, alpha * q) as nat, l, n);
    crate::arith::lemma_pow_nonneg(gp, alpha * q);
    assert(pow_mod(by, l, n) == pow_mod(gp, (alpha * q) * l, n));
    let cx = pow_mod(u, q * l, n);
    let cy = pow_mod(gp, (alpha * q) * l, n);
    let sx = pow_mod(u, rr, n);
    let sy = pow_mod(gp, alpha * rr, n);
    // regroup the four factors by base
    lemma_mul_mod_both((cx * cy) as nat, (sx * sy) as nat, n);
    assert((pow_mod(bq, l, n) * ((sx * sy) % n)) % n == ((cx * cy) * (sx * sy)) % n) by {
        lemma_mul_mod_both((cx * cy) as nat, ((sx * sy) % n) as nat, n);
        vstd::arithmetic::div_mod::lemma_mod_mod((sx * sy) as int, n as int, 1);
        vstd::arithmetic::div_mod::lemma_mod_bound((sx * sy) as int, n as int);
        vstd::arithmetic::div_mod::lemma_small_mod((((sx * sy) as nat) % n) as nat, n);
    }
    assert((cx * cy) * (sx * sy) == (cx * sx) * (cy * sy)) by (nonlinear_arith);
    lemma_mul_mod_both((cx * sx) as nat, (cy * sy) as nat, n);
    lemma_pow_mod_adds(u, q * l, rr, n);
    assert((cx * sx) % n == pow_mod(u, q * l + rr, n));
    assert(q * l + rr == x);
    lemma_pow_mod_adds(gp, (alpha * q) * l, alpha * rr, n);
    assert((cy * sy) % n == pow_mod(gp, (alpha * q) * l + alpha * rr, n));
    assert((alpha * q) * l + alpha * rr == alpha * x) by (nonlinear_arith)
        requires
            x == q * l + rr,
    ;
    assert(((cx * sx) * (cy * sy)) % n == (pow_mod(u, x, n) * pow_mod(gp, alpha * x, n)) % n) by {
        lemma_mul_mod_both((cx * sx) as nat, (cy * sy) as nat, n);
        lemma_mul_mod_both(pow_mod(u, x, n), pow_mod(gp, alpha * x, n), n);
        vstd::arithmetic::div_mod::lemma_small_mod(pow_mod(u, x, n), n);
        vstd::arithmetic::div_mod::lemma_small_mod(pow_mod(gp, alpha * x, n), n);
        vstd::arithmetic::div_mod::lemma_mod_bound(pow(u as int, x), n as int);
        vstd::arithmetic::div_mod::lemma_mod_bound(pow(gp as int, alpha * x), n as int);
    }
    // the right-hand side: z^alpha is the same power of g'
    lemma_pow_mod_compose(gp, x, alpha, n);
    lemma_pow_mod_base(pow(gp as int, x) as nat, alpha, n);
    crate::arith::lemma_pow_nonneg(gp, x);
    assert(pow_mod(z, alpha, n) == pow_mod(gp, x * alpha, n));
    assert(x * alpha == alpha * x) by (nonlinear_arith);
}

} // verus!
