//! Big-number arithmetic. The mathematical specifications (`pow_mod`,
//! `spec_gcd`, `prod_seq`) are the crate's own; the heavy operations are
//! performed by the `num-bigint` crate behind trusted wrappers whose
//! contracts state exactly what that crate documents, and everything built
//! on top of them (the modular field, signed exponentiation, Euclidean
//! division of signed values, modular products) is verified.
use vstd::prelude::*;
use crate::bignum::{Bignum, SignedBignum};
use crate::codec::be_nat;
use vstd::arithmetic::power::pow;
use num_bigint::{BigInt, BigUint, Sign};
use num_integer::Integer;
use rayon::iter::{IndexedParallelIterator, IntoParallelIterator, IntoParallelRefIterator, ParallelIterator};

verus! {

/// `b^e mod m` over the natural numbers.
pub open spec fn pow_mod(b: nat, e: nat, m: nat) -> nat {
    (pow(b as int, e) % (m as int)) as nat
}

/// The greatest common divisor, by Euclid.
pub open spec fn spec_gcd(a: nat, b: nat) -> nat
    decreases b,
{
    if b == 0 {
        a
    } else {
        spec_gcd(b, a % b)
    }
}

/// The product of a sequence of naturals.
pub open spec fn prod_seq(s: Seq<nat>) -> nat
    decreases s.len(),
{
    if s.len() == 0 {
        1
    } else {
        prod_seq(s.drop_last()) * s.last()
    }
}

/// The values of a sequence of numbers.
pub open spec fn views_of(s: Seq<Bignum>) -> Seq<nat> {
    s.map_values(|b: Bignum| b@)
}

/// `r` is the inverse of `a` modulo `m`.
pub open spec fn is_inv_mod(a: nat, r: nat, m: nat) -> bool {
    r < m && (a * r) % m == 1nat % m
}

/// The Bezout coefficient of the first operand that the fixed extended
/// Euclidean algorithm returns.
pub uninterp spec fn egcd_coeff_a(a: nat, b: nat) -> int;

/// The Bezout coefficient of the second operand that the fixed extended
/// Euclidean algorithm returns.
pub uninterp spec fn egcd_coeff_b(a: nat, b: nat) -> int;

/// A signed value from a sign flag and a magnitude.
pub open spec fn signed_val(neg: bool, mag: nat) -> int {
    if neg {
        -(mag as int)
    } else {
        mag as int
    }
}

/// Relies on `num_bigint::BigUint`: `Mul` returns the product.
#[verifier::external_body]
fn raw_mul(a: &Bignum, b: &Bignum) -> (r: Vec<u8>)
    ensures
        be_nat(r@) == a@ * b@,
{
    let av = BigUint::from_bytes_be(&a.bytes);
    let bv = BigUint::from_bytes_be(&b.bytes);
    (av * bv).to_bytes_be()
}

/// Relies on `num_bigint::BigUint`: `Add` returns the sum.
#[verifier::external_body]
fn raw_add(a: &Bignum, b: &Bignum) -> (r: Vec<u8>)
    ensures
        be_nat(r@) == a@ + b@,
{
    let av = BigUint::from_bytes_be(&a.bytes);
    let bv = BigUint::from_bytes_be(&b.bytes);
    (av + bv).to_bytes_be()
}

/// Relies on `num_bigint::BigUint`: `Sub` returns the difference; the
/// operand one is converted in the body.
#[verifier::external_body]
fn raw_sub_one(a: &Bignum) -> (r: Vec<u8>)
    requires
        a@ >= 1,
    ensures
        be_nat(r@) == a@ - 1,
{
    let av = BigUint::from_bytes_be(&a.bytes);
    (av - 1u32).to_bytes_be()
}

/// Relies on `num_bigint::BigUint`: `Sub` returns the difference, and
/// panics only on underflow, which the contract excludes.
#[verifier::external_body]
fn raw_sub(a: &Bignum, b: &Bignum) -> (r: Vec<u8>)
    requires
        b@ <= a@,
    ensures
        be_nat(r@) == a@ - b@,
{
    let av = BigUint::from_bytes_be(&a.bytes);
    let bv = BigUint::from_bytes_be(&b.bytes);
    (av - bv).to_bytes_be()
}

/// Relies on `num_integer::Integer::div_rem` for `BigUint`: Euclidean
/// quotient and remainder.
#[verifier::external_body]
fn raw_div_rem(a: &Bignum, b: &Bignum) -> (r: (Vec<u8>, Vec<u8>))
    requires
        b@ > 0,
    ensures
        be_nat(r.0@) == a@ / b@,
        be_nat(r.1@) == a@ % b@,
{
    let av = BigUint::from_bytes_be(&a.bytes);
    let bv = BigUint::from_bytes_be(&b.bytes);
    let (q, rem) = av.div_rem(&bv);
    (q.to_bytes_be(), rem.to_bytes_be())
}

/// Relies on `num_bigint::BigUint::modpow`: returns `self^exponent mod
/// modulus`, and panics only on a zero modulus, which the contract excludes.
#[verifier::external_body]
fn raw_mod_exp(base: &Bignum, e: &Bignum, n: &Bignum) -> (r: Vec<u8>)
    requires
        n@ > 0,
    ensures
        be_nat(r@) == pow_mod(base@, e@, n@),
{
    let b = BigUint::from_bytes_be(&base.bytes);
    let ev = BigUint::from_bytes_be(&e.bytes);
    let nv = BigUint::from_bytes_be(&n.bytes);
    b.modpow(&ev, &nv).to_bytes_be()
}

/// Relies on `num_bigint::BigUint::modinv`: returns the inverse in
/// `[0, modulus)`, which exists if and only if `gcd(self, modulus) == 1`.
#[verifier::external_body]
fn raw_mod_inv(a: &Bignum, n: &Bignum) -> (r: Option<Vec<u8>>)
    requires
        n@ > 0,
    ensures
        r matches Some(v) ==> be_nat(v@) < n@ && (a@ * be_nat(v@)) % n@ == 1nat % n@,
        (r is Some) == (spec_gcd(a@, n@) == 1),
{
    let av = BigUint::from_bytes_be(&a.bytes);
    let nv = BigUint::from_bytes_be(&n.bytes);
    av.modinv(&nv).map(|v| v.to_bytes_be())
}

/// Relies on `num_integer::Integer::extended_gcd` for `BigInt`: a
/// non-negative gcd with Bezout coefficients `gcd == x*a + y*b`; for
/// positive inputs the classical algorithm keeps `|x| <= b` and `|y| <= a`.
/// The algorithm is a fixed function of its operands, so the two
/// coefficients carry the names `egcd_coeff_a` and `egcd_coeff_b`.
#[verifier::external_body]
#[allow(unused_variables)]
fn raw_extended_gcd(a: &Bignum, b: &Bignum) -> (r: (Vec<u8>, bool, Vec<u8>, bool, Vec<u8>))
    requires
        a@ >= 1,
        b@ >= 1,
    ensures
        be_nat(r.0@) == spec_gcd(a@, b@),
        be_nat(r.0@) == a@ * signed_val(r.1, be_nat(r.2@)) + b@ * signed_val(r.3, be_nat(r.4@)),
        be_nat(r.2@) <= b@,
        be_nat(r.4@) <= a@,
        signed_val(r.1, be_nat(r.2@)) == egcd_coeff_a(a@, b@),
        signed_val(r.3, be_nat(r.4@)) == egcd_coeff_b(a@, b@),
{
    let av = BigInt::from_biguint(Sign::Plus, BigUint::from_bytes_be(&a.bytes));
    let bv = BigInt::from_biguint(Sign::Plus, BigUint::from_bytes_be(&b.bytes));
    let res = av.extended_gcd(&bv);
    let (xs, xm) = res.x.to_bytes_be();
    let (ys, ym) = res.y.to_bytes_be();
    (res.gcd.to_bytes_be().1, xs == Sign::Minus, xm, ys == Sign::Minus, ym)
}

/// Relies on `rayon`'s parallel `product` over `num_bigint::BigUint`:
/// multiplication is associative and commutative, so every reduction order
/// yields the product of all items; the closure only converts each item.
#[verifier::external_body]
fn raw_product(v: &Vec<Bignum>) -> (r: Vec<u8>)
    ensures
        be_nat(r@) == prod_seq(views_of(v@)),
{
    let p: BigUint = v.par_iter().map(|b| BigUint::from_bytes_be(&b.bytes)).product();
    p.to_bytes_be()
}

/// Relies on `num_bigint::BigUint::modpow`, applied twice per task and in
/// parallel across tasks: task `i` computes
/// `(base^pre[i])^exps[i] mod modulus`.
#[verifier::external_body]
fn raw_mod_exp_tasks(base: &Bignum, pre: &Vec<Bignum>, exps: &Vec<Bignum>, n: &Bignum) -> (r: Vec<
    Vec<u8>,
>)
    requires
        n@ > 0,
        pre@.len() == exps@.len(),
    ensures
        r@.len() == exps@.len(),
        forall|i: int|
            0 <= i < r@.len() ==> be_nat(#[trigger] r@[i]@) == pow_mod(
                pow_mod(base@, pre@[i]@, n@),
                exps@[i]@,
                n@,
            ),
{
    let b = BigUint::from_bytes_be(&base.bytes);
    let nv = BigUint::from_bytes_be(&n.bytes);
    pre.par_iter().zip(exps.par_iter()).map(|(p, e)| {
        let pv = BigUint::from_bytes_be(&p.bytes);
        let ev = BigUint::from_bytes_be(&e.bytes);
        b.modpow(&pv, &nv).modpow(&ev, &nv).to_bytes_be()
    }).collect()
}

/// The power of 256 with `z` zero bytes: `[1] ++ zeros(z)`.
fn power_of_base(z: usize) -> (r: Bignum)
    ensures
        r.wf(),
        r@ == pow(256, z as nat),
{
    let mut bytes: Vec<u8> = Vec::new();
    bytes.push(1u8);
    let mut i: usize = 0;
    while i < z
        invariant
            0 <= i <= z,
            bytes@.len() == i + 1,
            bytes@[0] == 1,
            forall|j: int| 1 <= j <= i ==> bytes@[j] == 0,
        decreases z - i,
    {
        bytes.push(0u8);
        i = i + 1;
    }
    proof {
        let head = bytes@.subrange(0, 1);
        let tail = bytes@.subrange(1, bytes@.len() as int);
        assert(bytes@ =~= head + tail);
        crate::codec::lemma_be_nat_concat(head, tail);
        crate::codec::lemma_be_nat_zeros(tail);
        assert(head.drop_last() =~= Seq::<u8>::empty());
        assert(be_nat(Seq::<u8>::empty()) == 0);
        assert(be_nat(head) == 1);
        assert(be_nat(bytes@) == 1 * pow(256, tail.len() as nat) + 0);
    }
    Bignum { bytes }
}

/// `base^e mod n` for a very wide exponent: the exponent is cut into
/// four big-endian segments, each handled on its own thread as
/// `(base^(256^z))^segment`, and the partial powers are multiplied back
/// together; the segment widths keep the threads' loads level.
pub fn big_mod_exp_wide(base: &Bignum, e: &Bignum, n: &Bignum) -> (r: Bignum)
    requires
        e.wf(),
        n.wf(),
        n@ > 1,
    ensures
        r.wf(),
        r@ == pow_mod(base@, e@, n@),
        r@ < n@,
{
    let len = e.bytes.len();
    if len < 64 || len >= 100_000_000 {
        return big_mod_exp(base, e, n);
    }
    // lowest segment first; the splits balance a thread's own shift
    // (squarings) against its share of the exponent
    let l1 = len / 1000 * 771 + len % 1000 * 771 / 1000;
    let l2 = len / 1000 * 178 + len % 1000 * 178 / 1000;
    let l3 = len / 1000 * 41 + len % 1000 * 41 / 1000;
    if l1 + l2 + l3 > len {
        return big_mod_exp(base, e, n);
    }
    let c3 = len - l1 - l2 - l3;
    let c2 = c3 + l3;
    let c1 = c2 + l2;
    let ghost eb = e.bytes@;
    let s3 = crate::codec::sub_bytes(e.bytes.as_slice(), 0, c3);
    let s2 = crate::codec::sub_bytes(e.bytes.as_slice(), c3, c2);
    let s1 = crate::codec::sub_bytes(e.bytes.as_slice(), c2, c1);
    let s0 = crate::codec::sub_bytes(e.bytes.as_slice(), c1, len);
    let mut pre: Vec<Bignum> = Vec::new();
    let mut exps: Vec<Bignum> = Vec::new();
    pre.push(power_of_base(0));
    exps.push(Bignum::from_be_bytes(s0.as_slice()));
    pre.push(power_of_base(l1));
    exps.push(Bignum::from_be_bytes(s1.as_slice()));
    pre.push(power_of_base(l1 + l2));
    exps.push(Bignum::from_be_bytes(s2.as_slice()));
    pre.push(power_of_base(l1 + l2 + l3));
    exps.push(Bignum::from_be_bytes(s3.as_slice()));
    let parts = raw_mod_exp_tasks(base, &pre, &exps, n);
    let p0 = Bignum::from_be_bytes(parts[0].as_slice());
    let p1 = Bignum::from_be_bytes(parts[1].as_slice());
    let p2 = Bignum::from_be_bytes(parts[2].as_slice());
    let p3 = Bignum::from_be_bytes(parts[3].as_slice());
    let f = Field::new(n);
    let m1 = f.mul(&p1, &p0);
    let m2 = f.mul(&p2, &m1);
    let m3 = f.mul(&p3, &m2);
    proof {
        lemma_wide_exponent_split(base@, eb, n@, l1 as int, l2 as int, l3 as int);
        let w0 = be_nat(eb.subrange(c1 as int, len as int));
        let w1 = be_nat(eb.subrange(c2 as int, c1 as int));
        let w2 = be_nat(eb.subrange(c3 as int, c2 as int));
        let w3 = be_nat(eb.subrange(0, c3 as int));
        lemma_pow_mod_compose(base@, pow(256, 0) as nat, w0, n@);
        lemma_pow_mod_compose(base@, pow(256, l1 as nat) as nat, w1, n@);
        lemma_pow_mod_compose(base@, pow(256, (l1 + l2) as nat) as nat, w2, n@);
        lemma_pow_mod_compose(base@, pow(256, (l1 + l2 + l3) as nat) as nat, w3, n@);
        lemma_pow_nonneg(256, 0);
        lemma_pow_nonneg(256, l1 as nat);
        lemma_pow_nonneg(256, (l1 + l2) as nat);
        lemma_pow_nonneg(256, (l1 + l2 + l3) as nat);
        let e0 = (pow(256, 0) * w0) as nat;
        let e1 = (pow(256, l1 as nat) * w1) as nat;
        let e2 = (pow(256, (l1 + l2) as nat) * w2) as nat;
        let e3 = (pow(256, (l1 + l2 + l3) as nat) * w3) as nat;
        assert(p1@ * p0@ == pow_mod(base@, e1, n@) * pow_mod(base@, e0, n@));
        lemma_pow_mod_adds(base@, e1, e0, n@);
        assert(m1@ == pow_mod(base@, (e1 + e0) as nat, n@));
        lemma_pow_mod_adds(base@, e2, (e1 + e0) as nat, n@);
        assert(m2@ == pow_mod(base@, (e2 + e1 + e0) as nat, n@));
        lemma_pow_mod_adds(base@, e3, (e2 + e1 + e0) as nat, n@);
        assert(m3@ == pow_mod(base@, (e3 + e2 + e1 + e0) as nat, n@));
        assert(e3 + e2 + e1 + e0 == be_nat(eb));
    }
    m3
}

/// Cutting a big-endian exponent into four segments decomposes its value
/// as the weighted sum of the segments' values.
proof fn lemma_wide_exponent_split(g: nat, eb: Seq<u8>, n: nat, l1: int, l2: int, l3: int)
    requires
        0 <= l1,
        0 <= l2,
        0 <= l3,
        l1 + l2 + l3 <= eb.len(),
    ensures
        ({
            let len = eb.len() as int;
            let c3 = len - l1 - l2 - l3;
            let c2 = c3 + l3;
            let c1 = c2 + l2;
            be_nat(eb) == pow(256, (l1 + l2 + l3) as nat) * be_nat(eb.subrange(0, c3)) + pow(
                256,
                (l1 + l2) as nat,
            ) * be_nat(eb.subrange(c3, c2)) + pow(256, l1 as nat) * be_nat(eb.subrange(c2, c1))
                + pow(256, 0) * be_nat(eb.subrange(c1, len))
        }),
{
    let len = eb.len() as int;
    let c3 = len - l1 - l2 - l3;
    let c2 = c3 + l3;
    let c1 = c2 + l2;
    let s3 = eb.subrange(0, c3);
    let s2 = eb.subrange(c3, c2);
    let s1 = eb.subrange(c2, c1);
    let s0 = eb.subrange(c1, len);
    assert(eb =~= s3 + (s2 + (s1 + s0)));
    crate::codec::lemma_be_nat_concat(s1, s0);
    crate::codec::lemma_be_nat_concat(s2, s1 + s0);
    crate::codec::lemma_be_nat_concat(s3, s2 + (s1 + s0));
    vstd::arithmetic::power::lemma_pow_adds(256, (l1 + l2) as nat, l3 as nat);
    vstd::arithmetic::power::lemma_pow_adds(256, l1 as nat, l2 as nat);
    vstd::arithmetic::power::lemma_pow0(256);
    let b0 = be_nat(s0);
    let b1 = be_nat(s1);
    let b2 = be_nat(s2);
    let b3 = be_nat(s3);
    let p1 = pow(256, l1 as nat);
    let p12 = pow(256, (l1 + l2) as nat);
    let p123 = pow(256, (l1 + l2 + l3) as nat);
    assert((s1 + s0).len() == l2 + l1);
    assert((s2 + (s1 + s0)).len() == l3 + l2 + l1);
    assert(be_nat(s1 + s0) == b1 * p1 + b0);
    assert(be_nat(s2 + (s1 + s0)) == b2 * p12 + (b1 * p1 + b0));
    assert(be_nat(eb) == b3 * p123 + (b2 * p12 + (b1 * p1 + b0)));
    assert(b3 * p123 == p123 * b3) by (nonlinear_arith);
    assert(b2 * p12 == p12 * b2) by (nonlinear_arith);
    assert(b1 * p1 == p1 * b1) by (nonlinear_arith);
    assert(b0 == pow(256, 0) * b0) by (nonlinear_arith)
        requires
            pow(256, 0) == 1,
    ;
}

/// Relies on `glass_pumpkin::prime::new`: a probable prime of exactly
/// `bit_length` bits, drawn from the system generator; the call requires
/// at least 128 bits and then retries until it finds one.
#[verifier::external_body]
fn raw_generate_prime(bits: usize) -> (r: Vec<u8>)
    requires
        128 <= bits,
    ensures
        pow(2, (bits - 1) as nat) <= be_nat(r@) < pow(2, bits as nat),
{
    glass_pumpkin::prime::new(bits).unwrap().to_bytes_be()
}

/// Relies on `glass_pumpkin::safe_prime::new`: a probable safe prime `p`
/// of exactly `bit_length` bits with `(p-1)/2` also probably prime, drawn
/// from the system generator; the call requires at least 128 bits.
#[verifier::external_body]
fn raw_generate_safe_prime(bits: usize) -> (r: Vec<u8>)
    requires
        128 <= bits,
    ensures
        pow(2, (bits - 1) as nat) <= be_nat(r@) < pow(2, bits as nat),
{
    glass_pumpkin::safe_prime::new(bits).unwrap().to_bytes_be()
}

/// Relies on `rayon` and `glass_pumpkin::prime::new`: `count` independent
/// probable primes of exactly `bits` bits each, drawn in parallel.
#[verifier::external_body]
fn raw_generate_primes(count: usize, bits: usize) -> (r: Vec<Vec<u8>>)
    requires
        128 <= bits,
    ensures
        r@.len() == count,
        forall|i: int|
            0 <= i < count ==> pow(2, (bits - 1) as nat) <= be_nat(#[trigger] r@[i]@) < pow(
                2,
                bits as nat,
            ),
{
    (0..count).into_par_iter().map(|_| {
        glass_pumpkin::prime::new(bits).unwrap().to_bytes_be()
    }).collect()
}

/// Sample `count` probable primes of exactly `bits` bits, in parallel.
pub fn generate_primes(count: usize, bits: usize) -> (r: Vec<Bignum>)
    requires
        128 <= bits,
    ensures
        r@.len() == count,
        forall|i: int|
            0 <= i < count ==> (#[trigger] r@[i]).wf() && pow(2, (bits - 1) as nat) <= r@[i]@
                < pow(2, bits as nat),
{
    let raw = raw_generate_primes(count, bits);
    let mut out: Vec<Bignum> = Vec::new();
    let mut i: usize = 0;
    while i < raw.len()
        invariant
            0 <= i <= raw@.len(),
            raw@.len() == count,
            out@.len() == i,
            forall|j: int|
                0 <= j < raw@.len() ==> pow(2, (bits - 1) as nat) <= be_nat(#[trigger] raw@[j]@)
                    < pow(2, bits as nat),
            forall|j: int|
                0 <= j < i ==> (#[trigger] out@[j]).wf() && pow(2, (bits - 1) as nat) <= out@[j]@
                    < pow(2, bits as nat),
        decreases raw@.len() - i,
    {
        out.push(Bignum::from_be_bytes(raw[i].as_slice()));
        i = i + 1;
    }
    out
}

/// Sample a probable prime of exactly `bits` bits.
pub fn generate_prime(bits: usize) -> (r: Bignum)
    requires
        128 <= bits,
    ensures
        r.wf(),
        pow(2, (bits - 1) as nat) <= r@ < pow(2, bits as nat),
{
    let raw = raw_generate_prime(bits);
    Bignum::from_be_bytes(raw.as_slice())
}

/// Sample a probable safe prime of exactly `bits` bits.
pub fn generate_safe_prime(bits: usize) -> (r: Bignum)
    requires
        128 <= bits,
    ensures
        r.wf(),
        pow(2, (bits - 1) as nat) <= r@ < pow(2, bits as nat),
{
    let raw = raw_generate_safe_prime(bits);
    Bignum::from_be_bytes(raw.as_slice())
}

/// The natural number written by a string of decimal digits.
pub open spec fn dec_nat(s: Seq<u8>) -> nat
    decreases s.len(),
{
    if s.len() == 0 {
        0
    } else {
        dec_nat(s.drop_last()) * 10 + (if s.last() >= 48 {
            (s.last() - 48) as nat
        } else {
            0
        })
    }
}

/// Every byte is an ASCII decimal digit.
pub open spec fn all_decimal_digits(s: Seq<u8>) -> bool {
    forall|i: int| 0 <= i < s.len() ==> 48 <= #[trigger] s[i] <= 57
}

/// Relies on `num_bigint::BigUint::parse_bytes` with base ten: on a
/// non-empty string of decimal digits it returns the written value; the
/// caller keeps other strings away (the parser itself would also take a
/// leading plus sign or underscore separators).
#[verifier::external_body]
fn raw_parse_decimal(s: &[u8]) -> (r: Vec<u8>)
    requires
        s@.len() > 0,
        all_decimal_digits(s@),
    ensures
        be_nat(r@) == dec_nat(s@),
{
    BigUint::parse_bytes(s, 10).unwrap().to_bytes_be()
}

/// Parse an unsigned decimal string: succeeds exactly on a non-empty
/// string of decimal digits.
pub fn parse_decimal(s: &[u8]) -> (r: Option<Bignum>)
    ensures
        (r is Some) == (s@.len() > 0 && all_decimal_digits(s@)),
        r matches Some(v) ==> v.wf() && v@ == dec_nat(s@),
{
    if s.len() == 0 {
        return None;
    }
    let mut i: usize = 0;
    while i < s.len()
        invariant
            0 <= i <= s@.len(),
            forall|j: int| 0 <= j < i ==> 48 <= #[trigger] s@[j] <= 57,
        decreases s@.len() - i,
    {
        if s[i] < 48 || s[i] > 57 {
            return None;
        }
        i = i + 1;
    }
    let raw = raw_parse_decimal(s);
    Some(Bignum::from_be_bytes(raw.as_slice()))
}

/// Parse a decimal string with an optional leading minus sign.
pub fn parse_decimal_signed(s: &[u8]) -> (r: Option<SignedBignum>)
    ensures
        r matches Some(v) ==> v.wf() && v@ == (if s@.len() > 0 && s@[0] == 45 {
            -(dec_nat(s@.subrange(1, s@.len() as int)) as int)
        } else {
            dec_nat(s@) as int
        }),
{
    if s.len() > 0 && s[0] == 45 {
        let rest = crate::codec::sub_bytes(s, 1, s.len());
        match parse_decimal(rest.as_slice()) {
            Some(m) => Some(SignedBignum::from_sign_magnitude(true, m)),
            None => None,
        }
    } else {
        match parse_decimal(s) {
            Some(m) => Some(SignedBignum::from_bignum(m)),
            None => None,
        }
    }
}

/// The product of two numbers.
pub fn big_mul(a: &Bignum, b: &Bignum) -> (r: Bignum)
    ensures
        r.wf(),
        r@ == a@ * b@,
{
    let raw = raw_mul(a, b);
    Bignum::from_be_bytes(raw.as_slice())
}

/// One less than a positive number.
pub fn big_sub_one(a: &Bignum) -> (r: Bignum)
    requires
        a@ >= 1,
    ensures
        r.wf(),
        r@ == a@ - 1,
{
    let raw = raw_sub_one(a);
    Bignum::from_be_bytes(raw.as_slice())
}

/// Euclidean quotient and remainder.
pub fn big_div_rem(a: &Bignum, b: &Bignum) -> (r: (Bignum, Bignum))
    requires
        b@ > 0,
    ensures
        r.0.wf(),
        r.1.wf(),
        r.0@ == a@ / b@,
        r.1@ == a@ % b@,
{
    let (q, rem) = raw_div_rem(a, b);
    (Bignum::from_be_bytes(q.as_slice()), Bignum::from_be_bytes(rem.as_slice()))
}

/// `base^e mod n`.
pub fn big_mod_exp(base: &Bignum, e: &Bignum, n: &Bignum) -> (r: Bignum)
    requires
        n@ > 0,
    ensures
        r.wf(),
        r@ == pow_mod(base@, e@, n@),
        r@ < n@,
{
    let raw = raw_mod_exp(base, e, n);
    let r = Bignum::from_be_bytes(raw.as_slice());
    proof {
        vstd::arithmetic::div_mod::lemma_mod_bound(pow(base@ as int, e@), n@ as int);
    }
    r
}

/// The inverse modulo `n`, where one exists.
pub fn big_mod_inv(a: &Bignum, n: &Bignum) -> (r: Option<Bignum>)
    requires
        n@ > 0,
    ensures
        r matches Some(v) ==> v.wf() && is_inv_mod(a@, v@, n@),
        (r is Some) == (spec_gcd(a@, n@) == 1),
{
    match raw_mod_inv(a, n) {
        Some(raw) => Some(Bignum::from_be_bytes(raw.as_slice())),
        None => None,
    }
}

/// The result of running the extended Euclidean algorithm.
#[derive(Debug)]
pub struct GcdResult {
    /// The greatest common divisor.
    pub value: Bignum,
    /// Bezout coefficient `a`, for the first operand.
    pub a: SignedBignum,
    /// Bezout coefficient `b`, for the second operand.
    pub b: SignedBignum,
}

impl GcdResult {
    /// All parts are well-formed numbers.
    pub open spec fn wf(&self) -> bool {
        self.value.wf() && self.a.wf() && self.b.wf()
    }
}

/// The gcd of two positive numbers with its Bezout coefficients:
/// `value == a * x + b * y`.
pub fn bezouts_coefficients(x: &Bignum, y: &Bignum) -> (r: GcdResult)
    requires
        x@ >= 1,
        y@ >= 1,
    ensures
        r.wf(),
        r.value@ == spec_gcd(x@, y@),
        r.value@ == x@ * r.a@ + y@ * r.b@,
        r.a.magnitude@ <= y@,
        r.b.magnitude@ <= x@,
        r.a@ == egcd_coeff_a(x@, y@),
        r.b@ == egcd_coeff_b(x@, y@),
{
    let (g, a, b) = big_extended_gcd(x, y);
    GcdResult { value: g, a, b }
}

/// The gcd of two positive numbers with its Bezout coefficients.
pub fn big_extended_gcd(a: &Bignum, b: &Bignum) -> (r: (Bignum, SignedBignum, SignedBignum))
    requires
        a@ >= 1,
        b@ >= 1,
    ensures
        r.0.wf(),
        r.1.wf(),
        r.2.wf(),
        r.0@ == spec_gcd(a@, b@),
        r.0@ == a@ * r.1@ + b@ * r.2@,
        r.1.magnitude@ <= b@,
        r.2.magnitude@ <= a@,
        r.1@ == egcd_coeff_a(a@, b@),
        r.2@ == egcd_coeff_b(a@, b@),
{
    let (g, xneg, xmag, yneg, ymag) = raw_extended_gcd(a, b);
    let gv = Bignum::from_be_bytes(g.as_slice());
    let x = SignedBignum::from_sign_magnitude(xneg, Bignum::from_be_bytes(xmag.as_slice()));
    let y = SignedBignum::from_sign_magnitude(yneg, Bignum::from_be_bytes(ymag.as_slice()));
    (gv, x, y)
}

/// The product of a list of numbers.
pub fn big_product(v: &Vec<Bignum>) -> (r: Bignum)
    ensures
        r.wf(),
        r@ == prod_seq(views_of(v@)),
{
    let raw = raw_product(v);
    Bignum::from_be_bytes(raw.as_slice())
}

/// The sum of two numbers.
pub fn big_add(a: &Bignum, b: &Bignum) -> (r: Bignum)
    ensures
        r.wf(),
        r@ == a@ + b@,
{
    let raw = raw_add(a, b);
    Bignum::from_be_bytes(raw.as_slice())
}

/// The difference of two numbers, the second no larger than the first.
pub fn big_sub(a: &Bignum, b: &Bignum) -> (r: Bignum)
    requires
        b@ <= a@,
    ensures
        r.wf(),
        r@ == a@ - b@,
{
    let raw = raw_sub(a, b);
    Bignum::from_be_bytes(raw.as_slice())
}

/// Euclidean division of a signed value by a positive one: the remainder
/// is always in `[0, b)`.
pub fn signed_div_rem(a: &SignedBignum, b: &Bignum) -> (r: (SignedBignum, Bignum))
    requires
        a.wf(),
        b.wf(),
        b@ > 0,
    ensures
        r.0.wf(),
        r.1.wf(),
        a@ == r.0@ * b@ + r.1@,
        0 <= r.1@ < b@,
{
    let (q0, r0) = big_div_rem(&a.magnitude, b);
    if !a.negative {
        proof {
            vstd::arithmetic::div_mod::lemma_fundamental_div_mod(a.magnitude@ as int, b@ as int);
            vstd::arithmetic::div_mod::lemma_mod_bound(a.magnitude@ as int, b@ as int);
        }
        (SignedBignum::from_bignum(q0), r0)
    } else {
        proof {
            vstd::arithmetic::div_mod::lemma_fundamental_div_mod(a.magnitude@ as int, b@ as int);
            vstd::arithmetic::div_mod::lemma_mod_bound(a.magnitude@ as int, b@ as int);
        }
        if r0.is_zero() {
            let q = SignedBignum::from_sign_magnitude(true, q0);
            proof {
                assert(a@ == q@ * b@ + 0) by (nonlinear_arith)
                    requires
                        a@ == -(a.magnitude@ as int),
                        a.magnitude@ == (a.magnitude@ / b@) * b@,
                        q@ == -((a.magnitude@ / b@) as int),
                ;
            }
            (q, Bignum::zero())
        } else {
            let one = Bignum::one();
            let q1 = big_add(&q0, &one);
            let rem = big_sub(b, &r0);
            let q = SignedBignum::from_sign_magnitude(true, q1);
            proof {
                assert(a@ == q@ * b@ + rem@) by (nonlinear_arith)
                    requires
                        a@ == -(a.magnitude@ as int),
                        a.magnitude@ == (a.magnitude@ / b@) * b@ + a.magnitude@ % b@,
                        q@ == -((a.magnitude@ / b@) as int + 1),
                        rem@ == b@ - a.magnitude@ % b@,
                        0 < a.magnitude@ % b@ < b@,
                ;
            }
            (q, rem)
        }
    }
}

/// The product of a signed value and an unsigned one.
pub fn mul_signed_unsigned(a: &SignedBignum, b: &Bignum) -> (r: SignedBignum)
    requires
        a.wf(),
        b.wf(),
    ensures
        r.wf(),
        r@ == a@ * b@,
        r.magnitude@ == a.magnitude@ * b@,
{
    let mag = big_mul(&a.magnitude, b);
    let r = SignedBignum::from_sign_magnitude(a.negative, mag);
    proof {
        if a.negative {
            assert(r@ == a@ * b@) by (nonlinear_arith)
                requires
                    a@ == -(a.magnitude@ as int),
                    r@ == -((a.magnitude@ * b@) as int),
            ;
        } else {
            assert(r@ == a@ * b@) by (nonlinear_arith)
                requires
                    a@ == a.magnitude@ as int,
                    r@ == (a.magnitude@ * b@) as int,
            ;
        }
    }
    r
}

/// `r` satisfies `b^e mod m` with a signed exponent: a negative exponent
/// means the inverse of the power of the magnitude.
pub open spec fn is_signed_pow_mod(b: nat, e: int, m: nat, r: nat) -> bool {
    if e >= 0 {
        r == pow_mod(b, e as nat, m)
    } else {
        is_inv_mod(pow_mod(b, (-e) as nat, m), r, m)
    }
}

/// The inverse of `a` modulo `n`, where one exists: inverses are unique
/// in `[0, n)`, so this picks the one.
pub open spec fn inv_of(a: nat, n: nat) -> nat {
    choose|t: nat| is_inv_mod(a, t, n)
}

/// Any inverse pins down `inv_of`.
pub proof fn lemma_inv_of(a: nat, t: nat, n: nat)
    requires
        n > 0,
        is_inv_mod(a, t, n),
    ensures
        inv_of(a, n) == t,
{
    let picked = choose|t2: nat| is_inv_mod(a, t2, n);
    assert(is_inv_mod(a, picked, n));
    lemma_inv_unique(a, picked, t, n);
}

/// The value of `b^e mod n` with a signed exponent, where it exists: for
/// a negative exponent, the inverse of the power of the magnitude.
pub open spec fn signed_pow_val(b: nat, e: int, n: nat) -> nat {
    if e >= 0 {
        pow_mod(b, e as nat, n)
    } else {
        inv_of(pow_mod(b, (-e) as nat, n), n)
    }
}

/// A signed power exists: always for a non-negative exponent, and for a
/// negative one exactly when the power of the magnitude is invertible.
pub open spec fn signed_pow_ok(b: nat, e: int, n: nat) -> bool {
    e >= 0 || spec_gcd(pow_mod(b, (-e) as nat, n), n) == 1
}

/// A sequence of naturals is strictly increasing.
pub open spec fn strictly_sorted(vs: Seq<nat>) -> bool {
    forall|i: int, j: int| 0 <= i < j < vs.len() ==> vs[i] < vs[j]
}

/// Inserting an element anywhere multiplies the product by it.
pub proof fn lemma_prod_insert(s: Seq<nat>, k: int, x: nat)
    requires
        0 <= k <= s.len(),
    ensures
        prod_seq(s.insert(k, x)) == prod_seq(s) * x,
    decreases s.len(),
{
    let t = s.insert(k, x);
    if k == s.len() {
        assert(t =~= s.push(x));
        assert(t.drop_last() =~= s);
    } else {
        assert(t.last() == s.last());
        assert(t.drop_last() =~= s.drop_last().insert(k, x));
        lemma_prod_insert(s.drop_last(), k, x);
        assert(prod_seq(t) == (prod_seq(s.drop_last()) * x) * s.last());
        assert((prod_seq(s.drop_last()) * x) * s.last() == (prod_seq(s.drop_last()) * s.last())
            * x) by (nonlinear_arith);
    }
}

/// Composing two modular powers multiplies the exponents.
pub proof fn lemma_pow_mod_compose(g: nat, a: nat, b: nat, n: nat)
    requires
        n > 0,
    ensures
        pow_mod(pow_mod(g, a, n), b, n) == pow_mod(g, a * b, n),
{
    let ga = pow(g as int, a);
    if g > 0 {
        vstd::arithmetic::power::lemma_pow_positive(g as int, a);
    } else if a > 0 {
        vstd::arithmetic::power::lemma0_pow(a);
    }
    vstd::arithmetic::power::lemma_pow_mod_noop(ga, b, n as int);
    vstd::arithmetic::power::lemma_pow_multiplies(g as int, a, b);
    vstd::arithmetic::div_mod::lemma_mod_bound(ga, n as int);
}

/// Two strictly sorted sequences over the same set are the same sequence.
pub proof fn lemma_sorted_unique(s1: Seq<nat>, s2: Seq<nat>)
    requires
        strictly_sorted(s1),
        strictly_sorted(s2),
        s1.to_set() =~= s2.to_set(),
    ensures
        s1 =~= s2,
    decreases s1.len(),
{
    if s1.len() == 0 {
        if s2.len() > 0 {
            assert(s2.to_set().contains(s2.last()));
            assert(false);
        }
    } else {
        assert(s1.to_set().contains(s1.last()));
        assert(s2.to_set().contains(s1.last()));
        assert(s2.len() > 0);
        assert(s2.to_set().contains(s2.last()));
        assert(s1.to_set().contains(s2.last()));
        let i1 = choose|i: int| 0 <= i < s2.len() && s2[i] == s1.last();
        let i2 = choose|i: int| 0 <= i < s1.len() && s1[i] == s2.last();
        assert(s1.last() <= s2.last() && s2.last() <= s1.last());
        assert(s1.drop_last().to_set() =~= s2.drop_last().to_set()) by {
            assert forall|x: nat| s1.drop_last().to_set().contains(x) implies s2.drop_last(
            ).to_set().contains(x) by {
                let i = choose|i: int| 0 <= i < s1.len() - 1 && s1[i] == x;
                assert(x < s1.last());
                assert(s2.to_set().contains(x));
                let j = choose|j: int| 0 <= j < s2.len() && s2[j] == x;
                assert(j < s2.len() - 1);
                assert(s2.drop_last()[j] == x);
            }
            assert forall|x: nat| s2.drop_last().to_set().contains(x) implies s1.drop_last(
            ).to_set().contains(x) by {
                let i = choose|i: int| 0 <= i < s2.len() - 1 && s2[i] == x;
                assert(x < s2.last());
                assert(s1.to_set().contains(x));
                let j = choose|j: int| 0 <= j < s1.len() && s1[j] == x;
                assert(j < s1.len() - 1);
                assert(s1.drop_last()[j] == x);
            }
        }
        lemma_sorted_unique(s1.drop_last(), s2.drop_last());
        assert(s1 =~= s1.drop_last().push(s1.last()));
        assert(s2 =~= s2.drop_last().push(s2.last()));
    }
}

/// Multiplication modulo `n` ignores prior reductions of either factor.
pub proof fn lemma_mul_mod_both(x: nat, y: nat, n: nat)
    requires
        n > 0,
    ensures
        ((x % n) * (y % n)) % n == (x * y) % n,
        ((x % n) * y) % n == (x * y) % n,
        (x * (y % n)) % n == (x * y) % n,
{
    vstd::arithmetic::div_mod::lemma_mul_mod_noop_general(x as int, y as int, n as int);
}

/// The power of a reduced base equals the reduced power.
pub proof fn lemma_pow_mod_base(x: nat, e: nat, n: nat)
    requires
        n > 0,
    ensures
        pow_mod(x % n, e, n) == pow_mod(x, e, n),
{
    vstd::arithmetic::power::lemma_pow_mod_noop(x as int, e, n as int);
}

/// A power of a natural number is non-negative.
pub proof fn lemma_pow_nonneg(g: nat, e: nat)
    ensures
        pow(g as int, e) >= 0,
{
    if g > 0 {
        vstd::arithmetic::power::lemma_pow_positive(g as int, e);
    } else if e > 0 {
        vstd::arithmetic::power::lemma0_pow(e);
    } else {
        vstd::arithmetic::power::lemma_pow0(g as int);
    }
}

/// Multiplying powers of one base adds the exponents, modulo `n`.
pub proof fn lemma_pow_mod_adds(g: nat, e1: nat, e2: nat, n: nat)
    requires
        n > 0,
    ensures
        (pow_mod(g, e1, n) * pow_mod(g, e2, n)) % n == pow_mod(g, e1 + e2, n),
{
    lemma_pow_nonneg(g, e1);
    lemma_pow_nonneg(g, e2);
    vstd::arithmetic::power::lemma_pow_adds(g as int, e1, e2);
    vstd::arithmetic::div_mod::lemma_mul_mod_noop_general(
        pow(g as int, e1),
        pow(g as int, e2),
        n as int,
    );
}

/// Powers of a product split into a product of powers, modulo `n`.
pub proof fn lemma_pow_mod_distributes(x: nat, y: nat, e: nat, n: nat)
    requires
        n > 0,
    ensures
        (pow_mod(x, e, n) * pow_mod(y, e, n)) % n == pow_mod(x * y, e, n),
{
    lemma_pow_nonneg(x, e);
    lemma_pow_nonneg(y, e);
    vstd::arithmetic::power::lemma_pow_distributes(x as int, y as int, e);
    vstd::arithmetic::div_mod::lemma_mul_mod_noop_general(
        pow(x as int, e),
        pow(y as int, e),
        n as int,
    );
}

/// Reducing an exponent modulo the totient does not change the power,
/// whenever the base satisfies Euler's identity `b^tot == 1 mod n` — a
/// property of the RSA group that is not provable from the integer
/// arithmetic alone, so it stands as a hypothesis. This is why the
/// secret-key construction paths, which reduce their exponents, agree
/// with the public ones.
pub proof fn lemma_reduced_exponent(b: nat, e: nat, tot: nat, n: nat)
    requires
        n > 1,
        tot > 0,
        pow_mod(b, tot, n) == 1nat % n,
    ensures
        pow_mod(b, e % tot, n) == pow_mod(b, e, n),
{
    let q = e / tot;
    vstd::arithmetic::div_mod::lemma_fundamental_div_mod(e as int, tot as int);
    assert(e == tot * q + e % tot);
    vstd::arithmetic::div_mod::lemma_small_mod(1nat, n);
    lemma_pow_mod_adds(b, (tot * q) as nat, e % tot, n);
    assert(pow_mod(b, (tot * q) as nat, n) == 1) by {
        assert((tot * q) as nat == tot * (q as nat)) by (nonlinear_arith)
            requires
                e == tot * q + e % tot,
                e >= 0,
                tot > 0,
        ;
        lemma_pow_mod_compose(b, tot, q as nat, n);
        assert(pow_mod(pow_mod(b, tot, n), q as nat, n) == pow_mod(1, q as nat, n));
        vstd::arithmetic::power::lemma1_pow(q as nat);
    }
    vstd::arithmetic::div_mod::lemma_mod_bound(pow(b as int, e % tot), n as int);
    assert((1 * pow_mod(b, e % tot, n)) % n == pow_mod(b, e % tot, n)) by {
        assert(1 * pow_mod(b, e % tot, n) == pow_mod(b, e % tot, n)) by (nonlinear_arith);
        vstd::arithmetic::div_mod::lemma_small_mod(pow_mod(b, e % tot, n), n);
    }
}

/// Raising an inverse pair to a power keeps it an inverse pair.
pub proof fn lemma_pow_mod_cancel_pair(t: nat, b: nat, l: nat, n: nat)
    requires
        n > 1,
        (t * b) % n == 1,
    ensures
        (pow_mod(t, l, n) * pow_mod(b, l, n)) % n == 1,
{
    lemma_pow_mod_distributes(t, b, l, n);
    lemma_pow_mod_base(t * b, l, n);
    vstd::arithmetic::power::lemma1_pow(l);
    vstd::arithmetic::div_mod::lemma_small_mod(1nat, n);
    assert(pow_mod((t * b) % n, l, n) == pow_mod(1, l, n));
}

/// Cancellation: equal products with an invertible factor have equal
/// other factors.
pub proof fn lemma_mul_mod_cancel(x: nat, y: nat, c: nat, d: nat, n: nat)
    requires
        n > 1,
        x < n,
        y < n,
        (x * c) % n == (y * c) % n,
        (c * d) % n == 1,
    ensures
        x == y,
{
    vstd::arithmetic::div_mod::lemma_small_mod(x, n);
    vstd::arithmetic::div_mod::lemma_small_mod(y, n);
    assert(x * (c * d) == (x * c) * d) by (nonlinear_arith);
    assert(y * (c * d) == (y * c) * d) by (nonlinear_arith);
    lemma_mul_mod_both(x, (c * d) as nat, n);
    lemma_mul_mod_both(y, (c * d) as nat, n);
    lemma_mul_mod_both((x * c) as nat, d, n);
    lemma_mul_mod_both((y * c) as nat, d, n);
    assert((x * 1) % n == x % n) by {
        assert(x * 1 == x) by (nonlinear_arith);
    }
    assert((y * 1) % n == y % n) by {
        assert(y * 1 == y) by (nonlinear_arith);
    }
}

/// A modular inverse is unique in `[0, n)`.
pub proof fn lemma_inv_unique(a: nat, t1: nat, t2: nat, n: nat)
    requires
        n > 0,
        is_inv_mod(a, t1, n),
        is_inv_mod(a, t2, n),
    ensures
        t1 == t2,
{
    vstd::arithmetic::div_mod::lemma_small_mod(t1, n);
    vstd::arithmetic::div_mod::lemma_small_mod(t2, n);
    assert(t1 * (a * t2) == (t1 * a) * t2) by (nonlinear_arith);
    assert(t1 * a == a * t1) by (nonlinear_arith);
    lemma_mul_mod_both(t1, (a * t2) as nat, n);
    assert((t1 * ((a * t2) % n)) % n == (t1 * (a * t2)) % n);
    lemma_mul_mod_both((t1 * a) as nat, t2, n);
    assert((((t1 * a) % n) * t2) % n == ((t1 * a) * t2) % n);
    assert((t1 * (1nat % n)) % n == t1 % n) by {
        lemma_mul_mod_both(t1, 1nat, n);
    }
    assert(((1nat % n) * t2) % n == t2 % n) by {
        lemma_mul_mod_both(1nat, t2, n);
    }
}

/// A stateless view of the field of integers modulo `n`.
pub struct Field {
    /// The modulus.
    pub modulus: Bignum,
}

impl Field {
    /// The modulus is a well-formed number above one.
    pub open spec fn wf(&self) -> bool {
        self.modulus.wf() && self.modulus@ > 1
    }

    /// View a modulus as a field.
    pub fn new(m: &Bignum) -> (r: Field)
        requires
            m.wf(),
            m@ > 1,
        ensures
            r.wf(),
            r.modulus@ == m@,
    {
        Field { modulus: m.duplicate() }
    }

    /// `a * b mod n`.
    pub fn mul(&self, a: &Bignum, b: &Bignum) -> (r: Bignum)
        requires
            self.wf(),
        ensures
            r.wf(),
            r@ == (a@ * b@) % self.modulus@,
            r@ < self.modulus@,
    {
        let t = big_mul(a, b);
        let (_, rem) = big_div_rem(&t, &self.modulus);
        proof {
            vstd::arithmetic::div_mod::lemma_mod_bound(
                (a@ * b@) as int,
                self.modulus@ as int,
            );
        }
        rem
    }

    /// `a^e mod n`.
    pub fn exp(&self, a: &Bignum, e: &Bignum) -> (r: Bignum)
        requires
            self.wf(),
        ensures
            r.wf(),
            r@ == pow_mod(a@, e@, self.modulus@),
            r@ < self.modulus@,
    {
        big_mod_exp(a, e, &self.modulus)
    }

    /// `a^e mod n` for a signed exponent; `None` when a negative exponent
    /// asks for an inverse that does not exist.
    pub fn exp_signed(&self, a: &Bignum, e: &SignedBignum) -> (r: Option<Bignum>)
        requires
            self.wf(),
            e.wf(),
        ensures
            r matches Some(v) ==> v.wf() && v@ < self.modulus@ && is_signed_pow_mod(
                a@,
                e@,
                self.modulus@,
                v@,
            ) && v@ == signed_pow_val(a@, e@, self.modulus@),
            (r is Some) == signed_pow_ok(a@, e@, self.modulus@),
    {
        let p = big_mod_exp(a, &e.magnitude, &self.modulus);
        if !e.negative {
            Some(p)
        } else {
            proof {
                vstd::arithmetic::div_mod::lemma_small_mod(1nat, self.modulus@);
            }
            match big_mod_inv(&p, &self.modulus) {
                Some(v) => {
                    proof {
                        lemma_inv_of(p@, v@, self.modulus@);
                    }
                    Some(v)
                },
                None => None,
            }
        }
    }

    /// The product of a list of numbers, reduced modulo `n`.
    pub fn product_mod(&self, v: &Vec<Bignum>) -> (r: Bignum)
        requires
            self.wf(),
            forall|i: int| 0 <= i < v@.len() ==> (#[trigger] v@[i]).wf(),
        ensures
            r.wf(),
            r@ == prod_seq(views_of(v@)) % self.modulus@,
            r@ < self.modulus@,
    {
        let mut acc = Bignum::one();
        proof {
            assert(views_of(v@).subrange(0, 0) =~= Seq::<nat>::empty());
            vstd::arithmetic::div_mod::lemma_small_mod(1nat, self.modulus@);
        }
        let mut i: usize = 0;
        while i < v.len()
            invariant
                self.wf(),
                forall|j: int| 0 <= j < v@.len() ==> (#[trigger] v@[j]).wf(),
                0 <= i <= v@.len(),
                acc.wf(),
                acc@ == prod_seq(views_of(v@).subrange(0, i as int)) % self.modulus@,
                acc@ < self.modulus@,
            decreases v@.len() - i,
        {
            let ghost pre = prod_seq(views_of(v@).subrange(0, i as int));
            acc = self.mul(&acc, &v[i]);
            proof {
                let x = views_of(v@)[i as int];
                vstd::arithmetic::div_mod::lemma_mul_mod_noop_left(
                    pre as int,
                    x as int,
                    self.modulus@ as int,
                );
                assert(views_of(v@).subrange(0, i + 1).drop_last() =~= views_of(v@).subrange(
                    0,
                    i as int,
                ));
            }
            i = i + 1;
        }
        proof {
            assert(views_of(v@).subrange(0, v@.len() as int) =~= views_of(v@));
        }
        acc
    }

    /// The inverse of `a` modulo `n`, where one exists.
    pub fn inv(&self, a: &Bignum) -> (r: Option<Bignum>)
        requires
            self.wf(),
        ensures
            r matches Some(v) ==> v.wf() && is_inv_mod(a@, v@, self.modulus@) && v@ == inv_of(
                a@,
                self.modulus@,
            ),
            (r is Some) == (spec_gcd(a@, self.modulus@) == 1),
    {
        match big_mod_inv(a, &self.modulus) {
            Some(v) => {
                proof {
                    lemma_inv_of(a@, v@, self.modulus@);
                }
                Some(v)
            },
            None => None,
        }
    }
}

} // verus!
