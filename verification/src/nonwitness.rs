//! Non-membership witnesses: Bezout coefficients `(a, b)` for the member
//! product and the absent prime, with `b` stored pre-exponentiated as
//! `g^b mod n`, so that `V^a * b^x = g mod n`.
use vstd::prelude::*;
use crate::accumulator::Accumulator;
use crate::arith::{
    pow_mod, prod_seq, is_inv_mod, is_signed_pow_mod, signed_pow_val, signed_pow_ok, spec_gcd,
    egcd_coeff_a, egcd_coeff_b, Field, lemma_pow_mod_compose, lemma_pow_mod_adds,
    lemma_pow_mod_base, lemma_pow_mod_distributes, lemma_mul_mod_both,
};
use crate::bignum::{Bignum, SignedBignum};
use crate::codec::fixed_bytes_of;
use crate::error::{AccumulatorError, AccumulatorErrorKind};
use crate::hash::{hash_to_prime, h2p_of};
use vstd::arithmetic::power::pow;

verus! {

/// A witness that an element is not accumulated.
#[derive(Debug)]
pub struct NonMembershipWitness {
    /// Bezout coefficient of the member product, signed.
    pub a: SignedBignum,
    /// The generator raised to the Bezout coefficient of the prime.
    pub b: Bignum,
    /// The absent element's prime exponent.
    pub x: Bignum,
}

impl NonMembershipWitness {
    /// All parts are well-formed and within their wire widths.
    pub open spec fn wf(&self) -> bool {
        &&& self.a.wf()
        &&& self.b.wf()
        &&& self.x.wf()
        &&& self.a.magnitude.fits(256)
        &&& self.b.fits(256)
        &&& self.x.fits(32)
    }

    /// The witness equation `V^a * b^x == g mod n`: for a negative `a`
    /// the power of the value is replaced by any of its inverses.
    pub open spec fn opens(&self, acc: Accumulator) -> bool {
        let n = acc.modulus@;
        let bx = pow_mod(self.b@, self.x@, n);
        if self.a@ >= 0 {
            (pow_mod(acc.value@, self.a@ as nat, n) * bx) % n == acc.generator@ % n
        } else {
            forall|t: nat|
                #[trigger] is_inv_mod(pow_mod(acc.value@, (-self.a@) as nat, n), t, n) ==> (t * bx)
                    % n == acc.generator@ % n
        }
    }

    /// The construction of a witness for the absent prime `x` succeeds:
    /// the member product and the prime are non-degenerate and coprime,
    /// and the generator power for the prime's Bezout coefficient exists.
    pub open spec fn spec_new_ok(acc: Accumulator, x: nat) -> bool {
        let s = prod_seq(acc.member_seq());
        &&& !acc.has(x)
        &&& s >= 1
        &&& x >= 1
        &&& spec_gcd(s, x) == 1
        &&& signed_pow_ok(acc.generator@, egcd_coeff_b(s, x), acc.modulus@)
    }

    /// Build a witness for an element, hashing it to its prime first.
    pub fn new(accumulator: &Accumulator, x: &[u8]) -> (r: Result<
        NonMembershipWitness,
        AccumulatorError,
    >)
        requires
            accumulator.wf(),
        ensures
            (r is Ok) == Self::spec_new_ok(*accumulator, h2p_of(x@)),
            r matches Err(e) ==> e.kind == (if accumulator.has(h2p_of(x@)) {
                AccumulatorErrorKind::InvalidMemberSupplied
            } else {
                AccumulatorErrorKind::InvalidType
            }),
            r matches Ok(w) ==> w.wf() && w.x@ == h2p_of(x@) && w.b@ < accumulator.modulus@ && w.a@
                == egcd_coeff_a(prod_seq(accumulator.member_seq()), h2p_of(x@)) && w.b@
                == signed_pow_val(
                accumulator.generator@,
                egcd_coeff_b(prod_seq(accumulator.member_seq()), h2p_of(x@)),
                accumulator.modulus@,
            ) && exists|bc: int|
                prod_seq(accumulator.member_seq()) * w.a@ + h2p_of(x@) * bc == 1
                    && is_signed_pow_mod(accumulator.generator@, bc, accumulator.modulus@, w.b@),
            r matches Ok(w) ==> (accumulator.exact() ==> w.opens(*accumulator)),
    {
        let p = hash_to_prime(x);
        proof {
            crate::bignum::lemma_fits(&p, 32);
        }
        Self::new_prime(accumulator, &p)
    }

    /// Build a witness for a prime already in member form.
    ///
    /// Fails with `InvalidMemberSupplied` exactly when the prime is
    /// accumulated; degenerate states (a zero product, a shared factor,
    /// a non-invertible power) are reported as `InvalidType`, and success
    /// is owed on every other input.
    pub fn new_prime(accumulator: &Accumulator, x: &Bignum) -> (r: Result<
        NonMembershipWitness,
        AccumulatorError,
    >)
        requires
            accumulator.wf(),
            x.wf(),
            x.fits(32),
        ensures
            (r is Ok) == Self::spec_new_ok(*accumulator, x@),
            r matches Err(e) ==> e.kind == (if accumulator.has(x@) {
                AccumulatorErrorKind::InvalidMemberSupplied
            } else {
                AccumulatorErrorKind::InvalidType
            }),
            r matches Ok(w) ==> w.wf() && w.x@ == x@ && w.b@ < accumulator.modulus@ && w.a@
                == egcd_coeff_a(prod_seq(accumulator.member_seq()), x@) && w.b@ == signed_pow_val(
                accumulator.generator@,
                egcd_coeff_b(prod_seq(accumulator.member_seq()), x@),
                accumulator.modulus@,
            ) && exists|bc: int|
                prod_seq(accumulator.member_seq()) * w.a@ + x@ * bc == 1 && is_signed_pow_mod(
                    accumulator.generator@,
                    bc,
                    accumulator.modulus@,
                    w.b@,
                ),
            r matches Ok(w) ==> (accumulator.exact() ==> w.opens(*accumulator)),
    {
        if accumulator.contains_prime(x) {
            return Err(AccumulatorError::from_msg(
                AccumulatorErrorKind::InvalidMemberSupplied,
                "value is in the accumulator",
            ));
        }
        let s = crate::arith::big_product(&accumulator.members);
        if s.is_zero() || x.is_zero() {
            return Err(AccumulatorError::from_msg(
                AccumulatorErrorKind::InvalidType,
                "degenerate member product or prime",
            ));
        }
        let gcd_res = crate::arith::bezouts_coefficients(&s, x);
        let one = Bignum::one();
        if !gcd_res.value.eq_value(&one) {
            return Err(AccumulatorError::from_msg(
                AccumulatorErrorKind::InvalidType,
                "prime shares a factor with the member product",
            ));
        }
        let f = Field::new(&accumulator.modulus);
        let bhat = match f.exp_signed(&accumulator.generator, &gcd_res.b) {
            Some(v) => v,
            None => {
                return Err(AccumulatorError::from_msg(
                    AccumulatorErrorKind::InvalidType,
                    "generator power is not invertible",
                ));
            },
        };
        proof {
            crate::bignum::lemma_fits_bound(&accumulator.modulus, 256);
            crate::bignum::lemma_fits(&bhat, 256);
            crate::bignum::lemma_fits_bound(x, 32);
            crate::bignum::lemma_fits(&gcd_res.a.magnitude, 32);
        }
        let w = NonMembershipWitness { a: gcd_res.a, b: bhat, x: x.duplicate() };
        proof {
            if accumulator.exact() {
                lemma_nonmem_opens(
                    *accumulator,
                    prod_seq(accumulator.member_seq()),
                    w.a@,
                    gcd_res.b@,
                    w.b@,
                    x@,
                );
            }
        }
        Ok(w)
    }

    /// Serialize as `a (256 bytes) || b (256 bytes) || x (32 bytes)`,
    /// each unsigned big-endian, left-padded; the sign of `a` is not
    /// carried on the wire.
    pub fn to_bytes(&self) -> (r: Vec<u8>)
        requires
            self.wf(),
        ensures
            r@.len() == 544,
            r@ =~= fixed_bytes_of(self.a.magnitude@, 256) + fixed_bytes_of(self.b@, 256)
                + fixed_bytes_of(self.x@, 32),
    {
        let mut out = self.a.magnitude.to_fixed_bytes(256);
        let mut bb = self.b.to_fixed_bytes(256);
        let mut xb = self.x.to_fixed_bytes(32);
        out.append(&mut bb);
        out.append(&mut xb);
        out
    }
}

/// Non-membership correctness: Bezout coefficients for the member product
/// and the prime make `V^a * b^x` land on the generator, whatever the
/// signs; a negative power stands for any inverse.
proof fn lemma_nonmem_opens(acc: Accumulator, p: nat, a: int, bc: int, bh: nat, x: nat)
    requires
        acc.wf(),
        acc.exact(),
        p == prod_seq(acc.member_seq()),
        p >= 1,
        x >= 1,
        p * a + x * bc == 1,
        is_signed_pow_mod(acc.generator@, bc, acc.modulus@, bh),
    ensures
        ({
            let n = acc.modulus@;
            let bx = pow_mod(bh, x, n);
            if a >= 0 {
                (pow_mod(acc.value@, a as nat, n) * bx) % n == acc.generator@ % n
            } else {
                forall|t: nat|
                    #[trigger] is_inv_mod(pow_mod(acc.value@, (-a) as nat, n), t, n) ==> (t * bx)
                        % n == acc.generator@ % n
            }
        }),
{
    let g = acc.generator@;
    let n = acc.modulus@;
    let v = acc.value@;
    let bx = pow_mod(bh, x, n);
    vstd::arithmetic::power::lemma_pow1(g as int);
    vstd::arithmetic::div_mod::lemma_mod_bound(g as int, n as int);
    assert(pow_mod(g, 1, n) == g % n);
    if a >= 0 {
        if bc >= 0 {
            // both coefficients non-negative: plain exponent arithmetic
            lemma_pow_mod_compose(g, p, a as nat, n);
            assert(pow_mod(v, a as nat, n) == pow_mod(g, (p * a) as nat, n)) by {
                lemma_pow_mod_base(pow(g as int, p) as nat, a as nat, n);
                crate::arith::lemma_pow_nonneg(g, p);
            }
            lemma_pow_mod_compose(g, bc as nat, x, n);
            assert(bx == pow_mod(g, (bc * x) as nat, n)) by {
                crate::arith::lemma_pow_nonneg(g, bc as nat);
            }
            lemma_pow_mod_adds(g, (p * a) as nat, (bc * x) as nat, n);
            assert((p * a) as nat + (bc * x) as nat == 1) by (nonlinear_arith)
                requires
                    p * a + x * bc == 1,
                    a >= 0,
                    bc >= 0,
                    p >= 1,
                    x >= 1,
            ;
        } else {
            // the prime's coefficient is negative: its power stands as an
            // inverse, which cancels against the matching direct power
            let babs = (-bc) as nat;
            assert(is_inv_mod(pow_mod(g, babs, n), bh, n));
            let t = pow_mod(g, babs, n);
            vstd::arithmetic::div_mod::lemma_small_mod(1nat, n);
            assert((t * bh) % n == 1);
            lemma_pow_mod_distributes(t, bh, x, n);
            lemma_pow_mod_base(t * bh, x, n);
            vstd::arithmetic::power::lemma1_pow(x);
            assert((pow_mod(t, x, n) * bx) % n == pow_mod(1, x, n));
            assert(pow_mod(1, x, n) == 1);
            lemma_pow_mod_compose(g, babs, x, n);
            assert(pow_mod(t, x, n) == pow_mod(g, babs * x, n));
            let e1 = (p * a) as nat;
            assert(e1 == 1 + babs * x) by (nonlinear_arith)
                requires
                    p * a + x * bc == 1,
                    bc == -(babs as int),
                    e1 == p * a,
                    babs * x == x * babs,
            ;
            lemma_pow_mod_compose(g, p, a as nat, n);
            assert(pow_mod(v, a as nat, n) == pow_mod(g, e1, n)) by {
                lemma_pow_mod_base(pow(g as int, p) as nat, a as nat, n);
                crate::arith::lemma_pow_nonneg(g, p);
            }
            lemma_pow_mod_adds(g, 1, babs * x, n);
            assert((pow_mod(g, 1, n) * pow_mod(g, babs * x, n)) % n == pow_mod(g, e1, n));
            // assemble: V^a * b^x == (g^1 * g^(|bc| x)) * b^x == g^1 * ((t^x) * b^x)
            let c1 = pow_mod(g, 1, n);
            let c2 = pow_mod(g, babs * x, n);
            lemma_mul_mod_both((c1 * c2) as nat, bx, n);
            assert((pow_mod(g, e1, n) * bx) % n == (c1 * c2 * bx) % n);
            assert(c1 * c2 * bx == c1 * (c2 * bx)) by (nonlinear_arith);
            lemma_mul_mod_both(c1, (c2 * bx) as nat, n);
            assert((c1 * (c2 * bx)) % n == (c1 * ((c2 * bx) % n)) % n);
            assert((c2 * bx) % n == 1);
            vstd::arithmetic::div_mod::lemma_mod_bound(pow(g as int, 1), n as int);
            vstd::arithmetic::div_mod::lemma_small_mod(c1, n);
        }
    } else {
        // the product's coefficient is negative: the goal quantifies over
        // every inverse of the matching power of the value
        let aabs = (-a) as nat;
        assert(bc >= 1) by (nonlinear_arith)
            requires
                p * a + x * bc == 1,
                p >= 1,
                x >= 1,
                a <= -1,
        ;
        let e2 = (x * bc) as nat;
        assert(e2 == 1 + p * aabs) by (nonlinear_arith)
            requires
                p * a + x * bc == 1,
                a == -(aabs as int),
                e2 == x * bc,
        ;
        lemma_pow_mod_compose(g, bc as nat, x, n);
        assert(bx == pow_mod(g, (bc * x) as nat, n)) by {
            crate::arith::lemma_pow_nonneg(g, bc as nat);
        }
        assert((bc * x) as nat == e2) by (nonlinear_arith)
            requires
                bc >= 1,
                x >= 1,
                e2 == x * bc,
        ;
        lemma_pow_mod_compose(g, p, aabs, n);
        assert(pow_mod(v, aabs, n) == pow_mod(g, p * aabs, n)) by {
            lemma_pow_mod_base(pow(g as int, p) as nat, aabs, n);
            crate::arith::lemma_pow_nonneg(g, p);
        }
        let c1 = pow_mod(g, 1, n);
        let c2 = pow_mod(g, p * aabs, n);
        lemma_pow_mod_adds(g, 1, p * aabs, n);
        assert((c1 * c2) % n == pow_mod(g, e2, n));
        assert forall|t: nat| is_inv_mod(pow_mod(v, aabs, n), t, n) implies (t * bx) % n == g
            % n by {
            vstd::arithmetic::div_mod::lemma_small_mod(1nat, n);
            assert((c2 * t) % n == 1);
            lemma_mul_mod_both(t, (c1 * c2) as nat, n);
            assert((t * bx) % n == (t * (c1 * c2)) % n) by {
                lemma_mul_mod_both(t, bx, n);
            }
            assert(t * (c1 * c2) == c1 * (c2 * t)) by (nonlinear_arith);
            lemma_mul_mod_both(c1, (c2 * t) as nat, n);
            assert((c1 * (c2 * t)) % n == (c1 * ((c2 * t) % n)) % n);
            vstd::arithmetic::div_mod::lemma_mod_bound(pow(g as int, 1), n as int);
            vstd::arithmetic::div_mod::lemma_small_mod(c1, n);
        }
    }
}

} // verus!
