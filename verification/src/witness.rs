//! Membership witnesses: a pair `(u, x)` with `u^x = V mod n`, where `u`
//! is the generator raised to the product of every member but `x`.
use vstd::prelude::*;
use crate::accumulator::Accumulator;
use crate::arith::{pow_mod, prod_seq, views_of, Field, lemma_prod_insert, lemma_pow_mod_compose};
use crate::bignum::Bignum;
use crate::error::{AccumulatorError, AccumulatorErrorKind};
use crate::hash::{hash_to_prime, h2p_of};
use crate::key::AccumulatorSecretKey;

verus! {

/// A witness that an element is accumulated.
#[derive(Debug)]
pub struct MembershipWitness {
    /// The co-factor: the generator raised to the product of the other
    /// members.
    pub u: Bignum,
    /// The member's prime exponent.
    pub x: Bignum,
}

/// Copy every member but the one at `k`.
fn members_without(members: &Vec<Bignum>, k: usize) -> (r: Vec<Bignum>)
    requires
        k < members@.len(),
        forall|i: int| 0 <= i < members@.len() ==> (#[trigger] members@[i]).wf(),
    ensures
        views_of(r@) =~= views_of(members@).remove(k as int),
        forall|i: int| 0 <= i < r@.len() ==> (#[trigger] r@[i]).wf(),
        r@.len() == members@.len() - 1,
{
    let mut out: Vec<Bignum> = Vec::new();
    let mut i: usize = 0;
    while i < members.len()
        invariant
            k < members@.len(),
            forall|j: int| 0 <= j < members@.len() ==> (#[trigger] members@[j]).wf(),
            forall|j: int| 0 <= j < out@.len() ==> (#[trigger] out@[j]).wf(),
            0 <= i <= members@.len(),
            i <= k ==> views_of(out@) =~= views_of(members@).subrange(0, i as int),
            i > k ==> views_of(out@) =~= views_of(members@).subrange(0, k as int) + views_of(
                members@,
            ).subrange(k + 1, i as int),
        decreases members@.len() - i,
    {
        if i != k {
            let ghost preview = views_of(out@);
            out.push(members[i].duplicate());
            proof {
                assert(views_of(out@) =~= preview.push(views_of(members@)[i as int]));
                if i < k {
                    assert(views_of(out@) =~= views_of(members@).subrange(0, i + 1));
                } else {
                    assert(views_of(out@) =~= views_of(members@).subrange(0, k as int) + views_of(
                        members@,
                    ).subrange(k + 1, i + 1));
                }
            }
        } else {
            proof {
                if k == 0 {
                    assert(views_of(out@) =~= views_of(members@).subrange(0, 0) + views_of(
                        members@,
                    ).subrange(1, 1));
                } else {
                    assert(views_of(out@) =~= views_of(members@).subrange(0, k as int) + views_of(
                        members@,
                    ).subrange(k + 1, (k + 1) as int));
                }
            }
        }
        i = i + 1;
    }
    proof {
        assert(views_of(out@) =~= views_of(members@).remove(k as int));
    }
    out
}

impl MembershipWitness {
    /// Both parts are well-formed numbers.
    pub open spec fn wf(&self) -> bool {
        self.u.wf() && self.x.wf()
    }

    /// The witness opens the accumulator value: `u^x == V mod n`.
    pub open spec fn opens(&self, acc: Accumulator) -> bool {
        pow_mod(self.u@, self.x@, acc.modulus@) == acc.value@
    }

    /// Build a witness for an element, hashing it to its prime first.
    ///
    /// On an accumulator satisfying its algebraic invariant, the returned
    /// witness opens the accumulator value.
    pub fn new(accumulator: &Accumulator, x: &[u8]) -> (r: Result<
        MembershipWitness,
        AccumulatorError,
    >)
        requires
            accumulator.wf(),
        ensures
            (r is Ok) == accumulator.has(h2p_of(x@)),
            r matches Err(e) ==> e.kind == AccumulatorErrorKind::InvalidMemberSupplied,
            r matches Ok(w) ==> w.wf() && w.x@ == h2p_of(x@) && w.u@ < accumulator.modulus@ && (
            exists|k: int|
                0 <= k < accumulator.member_seq().len() && accumulator.member_seq()[k] == h2p_of(
                    x@,
                ) && w.u@ == pow_mod(
                    accumulator.generator@,
                    prod_seq(accumulator.member_seq().remove(k)),
                    accumulator.modulus@,
                )) && (accumulator.exact() ==> w.opens(*accumulator)),
    {
        let p = hash_to_prime(x);
        Self::new_prime(accumulator, &p)
    }

    /// Build a witness for a prime already in member form.
    ///
    /// On an accumulator satisfying its algebraic invariant, the returned
    /// witness opens the accumulator value.
    pub fn new_prime(accumulator: &Accumulator, x: &Bignum) -> (r: Result<
        MembershipWitness,
        AccumulatorError,
    >)
        requires
            accumulator.wf(),
            x.wf(),
        ensures
            (r is Ok) == accumulator.has(x@),
            r matches Err(e) ==> e.kind == AccumulatorErrorKind::InvalidMemberSupplied,
            r matches Ok(w) ==> w.wf() && w.x@ == x@ && w.u@ < accumulator.modulus@ && (exists|
                k: int,
            |
                0 <= k < accumulator.member_seq().len() && accumulator.member_seq()[k] == x@
                    && w.u@ == pow_mod(
                    accumulator.generator@,
                    prod_seq(accumulator.member_seq().remove(k)),
                    accumulator.modulus@,
                )) && (accumulator.exact() ==> w.opens(*accumulator)),
    {
        let k = accumulator.find_index(x);
        let present = if k < accumulator.members.len() {
            accumulator.members[k].eq_value(x)
        } else {
            false
        };
        proof {
            lemma_find_settles(accumulator, x, k as int, present);
        }
        if !present {
            return Err(AccumulatorError::from_msg(
                AccumulatorErrorKind::InvalidMemberSupplied,
                "value is not in the accumulator",
            ));
        }
        let others = members_without(&accumulator.members, k);
        let exp = crate::arith::big_product(&others);
        let u = crate::arith::big_mod_exp_wide(&accumulator.generator, &exp, &accumulator.modulus);
        let w = MembershipWitness { u, x: x.duplicate() };
        proof {
            if accumulator.exact() {
                lemma_witness_opens(*accumulator, k as int, w.u@);
            }
        }
        Ok(w)
    }

    /// Build a witness with the secret key, hashing the element first and
    /// reducing the exponent modulo the totient; fails exactly when the
    /// element is not accumulated.
    pub fn with_secret_key(
        accumulator: &Accumulator,
        secret_key: &AccumulatorSecretKey,
        x: &[u8],
    ) -> (r: Result<MembershipWitness, AccumulatorError>)
        requires
            accumulator.wf(),
            secret_key.wf(),
        ensures
            (r is Ok) == accumulator.has(h2p_of(x@)),
            r matches Err(e) ==> e.kind == AccumulatorErrorKind::InvalidMemberSupplied,
            r matches Ok(w) ==> w.wf() && w.x@ == h2p_of(x@) && w.u@ < accumulator.modulus@ && (
            exists|k: int|
                0 <= k < accumulator.member_seq().len() && accumulator.member_seq()[k] == h2p_of(
                    x@,
                ) && w.u@ == pow_mod(
                    accumulator.generator@,
                    prod_seq(accumulator.member_seq().remove(k)) % secret_key.spec_totient(),
                    accumulator.modulus@,
                )),
    {
        let p = hash_to_prime(x);
        Self::with_prime_and_secret_key(accumulator, secret_key, &p)
    }

    /// Build a witness for a prime with the secret key, reducing the
    /// exponent modulo the totient; fails exactly when the prime is not
    /// accumulated.
    pub fn with_prime_and_secret_key(
        accumulator: &Accumulator,
        secret_key: &AccumulatorSecretKey,
        x: &Bignum,
    ) -> (r: Result<MembershipWitness, AccumulatorError>)
        requires
            accumulator.wf(),
            secret_key.wf(),
            x.wf(),
        ensures
            (r is Ok) == accumulator.has(x@),
            r matches Err(e) ==> e.kind == AccumulatorErrorKind::InvalidMemberSupplied,
            r matches Ok(w) ==> w.wf() && w.x@ == x@ && w.u@ < accumulator.modulus@ && (exists|
                k: int,
            |
                0 <= k < accumulator.member_seq().len() && accumulator.member_seq()[k] == x@
                    && w.u@ == pow_mod(
                    accumulator.generator@,
                    prod_seq(accumulator.member_seq().remove(k)) % secret_key.spec_totient(),
                    accumulator.modulus@,
                )),
    {
        let k = accumulator.find_index(x);
        let present = if k < accumulator.members.len() {
            accumulator.members[k].eq_value(x)
        } else {
            false
        };
        proof {
            lemma_find_settles(accumulator, x, k as int, present);
        }
        if !present {
            return Err(AccumulatorError::from_msg(
                AccumulatorErrorKind::InvalidMemberSupplied,
                "value is not in the accumulator",
            ));
        }
        proof {
            crate::key::lemma_totient_large(secret_key);
        }
        let tot = secret_key.totient();
        let ftot = Field::new(&tot);
        let others = members_without(&accumulator.members, k);
        let exp = ftot.product_mod(&others);
        let u = crate::arith::big_mod_exp(&accumulator.generator, &exp, &accumulator.modulus);
        Ok(MembershipWitness { u, x: x.duplicate() })
    }
}

/// After a sorted search, an equality test at the landing index settles
/// membership.
pub(crate) proof fn lemma_find_settles(acc: &Accumulator, x: &Bignum, k: int, present: bool)
    requires
        acc.wf(),
        x.wf(),
        0 <= k <= acc.member_seq().len(),
        forall|i: int| 0 <= i < k ==> acc.member_seq()[i] < x@,
        forall|i: int| k <= i < acc.member_seq().len() ==> acc.member_seq()[i] >= x@,
        present == (k < acc.member_seq().len() && acc.member_seq()[k] == x@),
    ensures
        present == acc.has(x@),
        present ==> acc.member_seq()[k] == x@,
{
    if present {
    } else if acc.has(x@) {
        let j = choose|j: int| 0 <= j < acc.member_seq().len() && acc.member_seq()[j] == x@;
        if j > k {
            assert(acc.member_seq()[k] < acc.member_seq()[j]);
        } else if j < k {
            assert(acc.member_seq()[j] < x@);
        }
    }
}

/// Witness correctness: on an exact accumulator, the generator raised to
/// the product of all members but `x`, then to `x`, lands back on the
/// accumulator value.
proof fn lemma_witness_opens(acc: Accumulator, k: int, u: nat)
    requires
        acc.wf(),
        acc.exact(),
        0 <= k < acc.member_seq().len(),
        u == pow_mod(acc.generator@, prod_seq(acc.member_seq().remove(k)), acc.modulus@),
    ensures
        pow_mod(u, acc.member_seq()[k], acc.modulus@) == acc.value@,
{
    let s = acc.member_seq();
    let rest = s.remove(k);
    assert(rest.insert(k, s[k]) =~= s);
    lemma_prod_insert(rest, k, s[k]);
    lemma_pow_mod_compose(acc.generator@, prod_seq(rest), s[k], acc.modulus@);
}

} // verus!
