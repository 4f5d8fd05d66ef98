//! Membership proofs: a PoKE2 instance for the statement `u^x = V mod n`
//! with `u` the witness co-factor and `V` the accumulator value.
use vstd::prelude::*;
use crate::accumulator::Accumulator;
use crate::error::AccumulatorError;
use crate::poke2::{Poke2Proof, poke2_verifies};
use crate::witness::MembershipWitness;

verus! {

/// A proof that a witnessed element is accumulated.
#[derive(Debug)]
pub struct MembershipProof {
    /// The underlying proof of knowledge of the witnessed exponent.
    pub poke: Poke2Proof,
}

impl MembershipProof {
    /// The underlying record is well-formed.
    pub open spec fn wf(&self) -> bool {
        self.poke.wf()
    }

    /// The proof passes verification against an accumulator and nonce.
    pub open spec fn verifies(&self, acc: Accumulator, nonce: Seq<u8>) -> bool {
        poke2_verifies(self.poke, acc.generator@, acc.modulus@, acc.value@, nonce)
    }

    /// Prove membership from a witness: the underlying record is the
    /// PoKE2 prover's tuple for the witnessed exponent, its co-factor as
    /// the base, and the accumulator value as the committed result.
    ///
    /// A witness that opens the accumulator value yields a proof that
    /// verifies against that accumulator and the same nonce.
    pub fn new(witness: &MembershipWitness, accumulator: &Accumulator, nonce: &[u8]) -> (r:
        MembershipProof)
        requires
            accumulator.wf(),
            witness.wf(),
            witness.u@ < accumulator.modulus@,
        ensures
            r.wf(),
            r.poke.u@ == witness.u@,
            crate::poke2::poke2_new_out(
                r.poke,
                witness.x@ as int,
                witness.u@,
                accumulator.generator@,
                accumulator.modulus@,
                accumulator.value@,
                nonce@,
            ),
            witness.opens(*accumulator) ==> r.verifies(*accumulator, nonce@),
    {
        let poke = Poke2Proof::prove(
            &witness.x,
            &witness.u,
            &accumulator.value,
            accumulator,
            nonce,
        );
        MembershipProof { poke }
    }

    /// Check the proof against the accumulator's current value.
    pub fn verify(&self, accumulator: &Accumulator, nonce: &[u8]) -> (r: bool)
        requires
            self.wf(),
            accumulator.wf(),
        ensures
            r == self.verifies(*accumulator, nonce@),
    {
        self.poke.verify(accumulator, nonce)
    }

    /// Serialize as the underlying record: `u || z || q || r`.
    pub fn to_bytes(&self) -> (r: Vec<u8>)
        requires
            self.wf(),
        ensures
            r@.len() == 800,
            r@ =~= crate::poke2::spec_proof_bytes(self.poke),
    {
        self.poke.to_bytes()
    }

    /// Parse a serialized proof; fails exactly when the length is wrong.
    pub fn from_bytes(data: &[u8]) -> (r: Result<MembershipProof, AccumulatorError>)
        ensures
            (r is Err) == (data@.len() != 800),
            r matches Err(e) ==> e.kind == crate::error::AccumulatorErrorKind::SerializationError,
            r matches Ok(p) ==> p.wf() && p.poke.u@ == crate::codec::be_nat(
                data@.subrange(0, 256),
            ) && p.poke.z@ == crate::codec::be_nat(data@.subrange(256, 512)) && p.poke.q@
                == crate::codec::be_nat(data@.subrange(512, 768)) && p.poke.r@
                == crate::codec::be_nat(data@.subrange(768, 800)),
    {
        match Poke2Proof::from_bytes(data) {
            Ok(poke) => Ok(MembershipProof { poke }),
            Err(e) => Err(e),
        }
    }
}

} // verus!
