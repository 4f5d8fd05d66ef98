//! Non-membership proofs: two composed PoKE2 instances binding `V^a` and
//! `g / V^a` to the current accumulator value.
//!
//! On the wire the first instance's base is elided: the verifier puts the
//! accumulator's current value in its place, so a proof stops verifying
//! as soon as the accumulator changes.
use vstd::prelude::*;
use crate::accumulator::Accumulator;
use crate::arith::{
    is_inv_mod, is_signed_pow_mod, inv_of, signed_pow_val, signed_pow_ok, spec_gcd, pow_mod, Field,
    lemma_mul_mod_both, lemma_inv_unique,
};
use crate::bignum::Bignum;
use crate::codec::fixed_bytes_of;
use crate::error::{AccumulatorError, AccumulatorErrorKind};
use crate::nonwitness::NonMembershipWitness;
use crate::poke2::{
    Poke2Proof, poke2_verifies, poke2_new_ok, poke2_new_out, poke2_new_rel, transcript,
    challenge_alpha, lemma_poke2_equation_neg,
};
use crate::codec::be_nat;

verus! {

/// A proof that an element is not accumulated.
#[derive(Debug)]
pub struct NonMembershipProof {
    /// The committed power of the accumulator value.
    pub v: Bignum,
    /// The remainder part of the first instance.
    pub r: Bignum,
    /// The quotient commitment of the first instance.
    pub q: Bignum,
    /// The nonce-base power of the first instance.
    pub z: Bignum,
    /// The second instance, for the complementary base.
    pub proof_g: Poke2Proof,
}

impl NonMembershipProof {
    /// All parts are well-formed and within their wire widths.
    pub open spec fn wf(&self) -> bool {
        &&& self.v.wf()
        &&& self.r.wf()
        &&& self.q.wf()
        &&& self.z.wf()
        &&& self.proof_g.wf()
        &&& self.v.fits(256)
        &&& self.r.fits(32)
        &&& self.q.fits(256)
        &&& self.z.fits(256)
    }

    /// The proof passes verification: the committed power is invertible,
    /// the first instance, rebased onto the accumulator's current value,
    /// opens it, and the second opens the generator divided by it.
    pub open spec fn verifies(&self, acc: Accumulator, nonce: Seq<u8>) -> bool {
        let n = acc.modulus@;
        &&& spec_gcd(self.v@, n) == 1
        &&& (forall|t: nat|
            is_inv_mod(self.v@, t, n) ==> poke2_verifies(
                self.proof_g,
                acc.generator@,
                n,
                #[trigger] ((acc.generator@ * t) % n),
                nonce,
            ))
        &&& poke2_verifies(
            (Poke2Proof { u: acc.value, r: self.r, q: self.q, z: self.z }),
            acc.generator@,
            n,
            self.v@,
            nonce,
        )
    }

    /// The construction succeeds for the witness exponent `a`: the power
    /// of the value exists, it is invertible, and the first instance's
    /// prover succeeds on it.
    pub open spec fn spec_new_ok(a: int, acc: Accumulator, nonce: Seq<u8>) -> bool {
        let n = acc.modulus@;
        &&& signed_pow_ok(acc.value@, a, n)
        &&& spec_gcd(signed_pow_val(acc.value@, a, n), n) == 1
        &&& poke2_new_ok(
            a,
            acc.value@,
            acc.generator@,
            n,
            signed_pow_val(acc.value@, a, n),
            nonce,
        )
    }

    /// Prove non-membership from a witness: commit to `V^a`, then prove
    /// knowledge of `a` from `V` to the commitment and of `x` from the
    /// stored `b` to the generator divided by the commitment. Both
    /// emitted instances are the PoKE2 prover's tuples, and the first
    /// one's base, the accumulator value, is elided from the record.
    ///
    /// The signed exponent may ask for an inverse that does not exist;
    /// exactly those degenerate cases are reported as `InvalidType`, and
    /// success is owed on every other input.
    pub fn new(witness: &NonMembershipWitness, accumulator: &Accumulator, nonce: &[u8]) -> (r:
        Result<NonMembershipProof, AccumulatorError>)
        requires
            accumulator.wf(),
            witness.wf(),
            witness.b@ < accumulator.modulus@,
        ensures
            (r is Ok) == Self::spec_new_ok(witness.a@, *accumulator, nonce@),
            r matches Err(e) ==> e.kind == AccumulatorErrorKind::InvalidType,
            r matches Ok(p) ==> p.wf() && p.v@ == signed_pow_val(
                accumulator.value@,
                witness.a@,
                accumulator.modulus@,
            ) && poke2_new_out(
                (Poke2Proof { u: accumulator.value, r: p.r, q: p.q, z: p.z }),
                witness.a@,
                accumulator.value@,
                accumulator.generator@,
                accumulator.modulus@,
                p.v@,
                nonce@,
            ) && poke2_new_out(
                p.proof_g,
                witness.x@ as int,
                witness.b@,
                accumulator.generator@,
                accumulator.modulus@,
                ((accumulator.generator@ * inv_of(p.v@, accumulator.modulus@))
                    % accumulator.modulus@),
                nonce@,
            ),
            r matches Ok(p) ==> (witness.opens(*accumulator) ==> p.verifies(
                *accumulator,
                nonce@,
            )),
    {
        let f = Field::new(&accumulator.modulus);
        let va = match f.exp_signed(&accumulator.value, &witness.a) {
            Some(v) => v,
            None => {
                return Err(AccumulatorError::from_msg(
                    AccumulatorErrorKind::InvalidType,
                    "value power is not invertible",
                ));
            },
        };
        let v_inv = match f.inv(&va) {
            Some(v) => v,
            None => {
                return Err(AccumulatorError::from_msg(
                    AccumulatorErrorKind::InvalidType,
                    "committed power is not invertible",
                ));
            },
        };
        let gv_inv = f.mul(&accumulator.generator, &v_inv);
        let proof_v = match Poke2Proof::new(&witness.a, &accumulator.value, &va, accumulator, nonce) {
            Ok(p) => p,
            Err(e) => {
                return Err(e);
            },
        };
        let proof_g = Poke2Proof::prove(&witness.x, &witness.b, &gv_inv, accumulator, nonce);
        proof {
            crate::bignum::lemma_fits_bound(&accumulator.modulus, 256);
            crate::bignum::lemma_fits(&va, 256);
        }
        let p = NonMembershipProof { v: va, r: proof_v.r, q: proof_v.q, z: proof_v.z, proof_g };
        proof {
            let g = accumulator.generator@;
            let n = accumulator.modulus@;
            let vv = accumulator.value@;
            let a = witness.a@;
            let rv = (Poke2Proof { u: accumulator.value, r: p.r, q: p.q, z: p.z });
            assert(poke2_new_out(rv, a, vv, g, n, p.v@, nonce@) == poke2_new_out(
                proof_v,
                a,
                vv,
                g,
                n,
                p.v@,
                nonce@,
            ));
            assert(poke2_new_rel(rv, a, vv, g, n, p.v@, nonce@) == poke2_new_rel(
                proof_v,
                a,
                vv,
                g,
                n,
                p.v@,
                nonce@,
            ));
            if witness.opens(*accumulator) {
                vstd::arithmetic::div_mod::lemma_small_mod(1nat, n);
                let bx = pow_mod(witness.b@, witness.x@, n);
                // in both sign cases the witness equation reads the same
                // over the computed power of the value
                assert((va@ * bx) % n == g % n) by {
                    if a >= 0 {
                        assert(va@ == pow_mod(vv, a as nat, n));
                    } else {
                        assert(is_inv_mod(pow_mod(vv, (-a) as nat, n), va@, n));
                    }
                }
                // hence the second instance's committed value is exactly
                // the power of the witness co-factor
                assert(bx == gv_inv@) by {
                    assert(((va@ * bx) * v_inv@) % n == (gv_inv@)) by {
                        lemma_mul_mod_both((va@ * bx) as nat, v_inv@, n);
                        assert(((g % n) * v_inv@) % n == (g * v_inv@) % n) by {
                            lemma_mul_mod_both(g, v_inv@, n);
                        }
                    }
                    assert((va@ * bx) * v_inv@ == bx * (va@ * v_inv@)) by (nonlinear_arith);
                    lemma_mul_mod_both(bx, (va@ * v_inv@) as nat, n);
                    assert((bx * 1) % n == bx) by {
                        assert(bx * 1 == bx) by (nonlinear_arith);
                        vstd::arithmetic::div_mod::lemma_mod_bound(
                            vstd::arithmetic::power::pow(witness.b@ as int, witness.x@),
                            n as int,
                        );
                        vstd::arithmetic::div_mod::lemma_small_mod(bx, n);
                    }
                }
                assert(poke2_verifies(p.proof_g, g, n, gv_inv@, nonce@));
                // every inverse of the committed power is the one used
                assert forall|t: nat| is_inv_mod(p.v@, t, n) implies poke2_verifies(
                    p.proof_g,
                    g,
                    n,
                    #[trigger] ((g * t) % n),
                    nonce@,
                ) by {
                    lemma_inv_unique(p.v@, t, v_inv@, n);
                }
                // the first instance verifies against the committed power
                if a >= 0 {
                    assert(poke2_verifies(proof_v, g, n, p.v@, nonce@)) by {
                        assert(pow_mod(vv, a as nat, n) == va@);
                    }
                    assert(poke2_verifies(rv, g, n, p.v@, nonce@) == poke2_verifies(
                        proof_v,
                        g,
                        n,
                        p.v@,
                        nonce@,
                    ));
                } else {
                    let gp = pow_mod(g, be_nat(nonce@), n);
                    let t = transcript(gp, n, p.v@, vv, p.z@, nonce@);
                    let l = crate::hash::h2p_of(t) as int;
                    let alpha = challenge_alpha(t);
                    let q = a / l;
                    let (t1, t2) = choose|t1: nat, t2: nat|
                        #[trigger] is_signed_pow_mod(vv, q, n, t1)
                            && #[trigger] is_signed_pow_mod(
                            gp,
                            q * (alpha as int),
                            n,
                            t2,
                        ) && rv.q@ == (t1 * t2) % n;
                    lemma_poke2_equation_neg(
                        vv,
                        a,
                        gp,
                        n,
                        l,
                        alpha,
                        p.z@,
                        t1,
                        t2,
                        rv.q@,
                        rv.r@,
                        p.v@,
                    );
                }
            }
        }
        Ok(p)
    }

    /// Check the proof against the accumulator's current value: the first
    /// instance's elided base is replaced by that value, binding the proof
    /// to the present state.
    pub fn verify(&self, accumulator: &Accumulator, nonce: &[u8]) -> (r: bool)
        requires
            self.wf(),
            accumulator.wf(),
        ensures
            r == self.verifies(*accumulator, nonce@),
    {
        let f = Field::new(&accumulator.modulus);
        let v_inv = match f.inv(&self.v) {
            Some(v) => v,
            None => {
                return false;
            },
        };
        let gv_inv = f.mul(&accumulator.generator, &v_inv);
        let proof_v = Poke2Proof {
            u: accumulator.value.duplicate(),
            r: self.r.duplicate(),
            q: self.q.duplicate(),
            z: self.z.duplicate(),
        };
        proof {
            crate::bignum::lemma_bignum_eq(&proof_v.u, &accumulator.value);
            crate::bignum::lemma_bignum_eq(&proof_v.r, &self.r);
            crate::bignum::lemma_bignum_eq(&proof_v.q, &self.q);
            crate::bignum::lemma_bignum_eq(&proof_v.z, &self.z);
            assert(poke2_verifies(
                proof_v,
                accumulator.generator@,
                accumulator.modulus@,
                self.v@,
                nonce@,
            ) == poke2_verifies(
                (Poke2Proof { u: accumulator.value, r: self.r, q: self.q, z: self.z }),
                accumulator.generator@,
                accumulator.modulus@,
                self.v@,
                nonce@,
            ));
        }
        let v_res = proof_v.verify_with(&self.v, accumulator, nonce);
        let g_res = self.proof_g.verify_with(&gv_inv, accumulator, nonce);
        proof {
            assert forall|t: nat| is_inv_mod(self.v@, t, accumulator.modulus@) implies (
            #[trigger] ((accumulator.generator@ * t) % accumulator.modulus@)) == gv_inv@ by {
                crate::arith::lemma_inv_unique(self.v@, t, v_inv@, accumulator.modulus@);
            }
            assert(is_inv_mod(self.v@, v_inv@, accumulator.modulus@));
        }
        g_res && v_res
    }

    /// Serialize as `v || z || q (256 bytes each) || r (32 bytes)`
    /// followed by the second instance.
    pub fn to_bytes(&self) -> (r: Vec<u8>)
        requires
            self.wf(),
        ensures
            r@.len() == 1600,
            r@ =~= fixed_bytes_of(self.v@, 256) + fixed_bytes_of(self.z@, 256) + fixed_bytes_of(
                self.q@,
                256,
            ) + fixed_bytes_of(self.r@, 32) + (fixed_bytes_of(self.proof_g.u@, 256)
                + fixed_bytes_of(self.proof_g.z@, 256) + fixed_bytes_of(self.proof_g.q@, 256)
                + fixed_bytes_of(self.proof_g.r@, 32)),
    {
        let mut out = self.v.to_fixed_bytes(256);
        let mut zb = self.z.to_fixed_bytes(256);
        let mut qb = self.q.to_fixed_bytes(256);
        let mut rb = self.r.to_fixed_bytes(32);
        let mut gb = self.proof_g.to_bytes();
        out.append(&mut zb);
        out.append(&mut qb);
        out.append(&mut rb);
        out.append(&mut gb);
        out
    }

    /// Parse a serialized proof; fails exactly when the length is wrong.
    pub fn from_bytes(data: &[u8]) -> (r: Result<NonMembershipProof, AccumulatorError>)
        ensures
            (r is Err) == (data@.len() != 1600),
            r matches Err(e) ==> e.kind == AccumulatorErrorKind::SerializationError,
            r matches Ok(p) ==> p.wf() && p.v@ == be_nat(data@.subrange(0, 256)) && p.z@ == be_nat(
                data@.subrange(256, 512),
            ) && p.q@ == be_nat(data@.subrange(512, 768)) && p.r@ == be_nat(
                data@.subrange(768, 800),
            ) && p.proof_g.u@ == be_nat(data@.subrange(800, 1056)) && p.proof_g.z@ == be_nat(
                data@.subrange(1056, 1312),
            ) && p.proof_g.q@ == be_nat(data@.subrange(1312, 1568)) && p.proof_g.r@ == be_nat(
                data@.subrange(1568, 1600),
            ),
    {
        if data.len() != 1600 {
            return Err(AccumulatorError::from_msg(
                AccumulatorErrorKind::SerializationError,
                "a composed proof is twice the base proof width",
            ));
        }
        let v = Bignum::from_be_bytes(crate::codec::sub_bytes(data, 0, 256).as_slice());
        let z = Bignum::from_be_bytes(crate::codec::sub_bytes(data, 256, 512).as_slice());
        let q = Bignum::from_be_bytes(crate::codec::sub_bytes(data, 512, 768).as_slice());
        let r = Bignum::from_be_bytes(crate::codec::sub_bytes(data, 768, 800).as_slice());
        let tail = crate::codec::sub_bytes(data, 800, 1600);
        let proof_g = match Poke2Proof::from_bytes(tail.as_slice()) {
            Ok(p) => p,
            Err(e) => {
                return Err(e);
            },
        };
        proof {
            crate::codec::lemma_be_nat_bound(data@.subrange(0, 256));
            crate::codec::lemma_be_nat_bound(data@.subrange(256, 512));
            crate::codec::lemma_be_nat_bound(data@.subrange(512, 768));
            crate::codec::lemma_be_nat_bound(data@.subrange(768, 800));
            assert(tail@.subrange(0, 256) =~= data@.subrange(800, 1056));
            assert(tail@.subrange(256, 512) =~= data@.subrange(1056, 1312));
            assert(tail@.subrange(512, 768) =~= data@.subrange(1312, 1568));
            assert(tail@.subrange(768, 800) =~= data@.subrange(1568, 1600));
        }
        let p = NonMembershipProof { v, r, q, z, proof_g };
        proof {
            crate::bignum::lemma_fits(&p.v, 256);
            crate::bignum::lemma_fits(&p.z, 256);
            crate::bignum::lemma_fits(&p.q, 256);
            crate::bignum::lemma_fits(&p.r, 32);
        }
        Ok(p)
    }
}

} // verus!
