//! The universal RSA accumulator: a commitment `V = g^(prod M) mod n` to a
//! strictly sorted set `M` of hashed prime exponents.
//!
//! Insertion without the secret key raises the value to the new prime;
//! construction and removal with the key reduce exponents modulo the
//! totient first. The structural invariant `wf` (sorted distinct members,
//! field bounds) is maintained by every operation; the algebraic invariant
//! `exact` (the value is the generator raised to the product of the
//! members) is stated separately and is preserved by the public-path
//! operations.
use vstd::prelude::*;
use crate::bignum::Bignum;
use crate::codec::be_nat;
use crate::arith::{
    pow_mod, prod_seq, views_of, strictly_sorted, Field, lemma_prod_insert, lemma_pow_mod_compose,
};
use crate::error::{AccumulatorError, AccumulatorErrorKind};
use crate::hash::{hash_to_prime, h2p_of};
use crate::key::AccumulatorSecretKey;
use vstd::arithmetic::power::pow;

verus! {

/// The bytes of the fixed generator: a published 1023-bit safe prime.
pub open spec fn generator_bytes() -> Seq<u8> {
    seq![108, 244, 107, 93, 221, 99, 158, 66, 26, 183, 99, 247, 222, 82, 163, 194, 134, 40, 36, 59, 152, 245, 84, 67, 13, 197, 181, 230, 233, 1, 237, 22, 166, 196, 149, 178, 31, 231, 82, 176, 120, 132, 93, 242, 243, 110, 108, 181, 68, 105, 117, 183, 101, 119, 93, 200, 118, 45, 8, 101, 218, 201, 231, 212, 8, 119, 195, 137, 254, 245, 205, 175, 69, 86, 106, 67, 52, 233, 60, 200, 234, 138, 162, 125, 171, 98, 43, 12, 85, 12, 220, 168, 236, 242, 68, 0, 167, 171, 68, 83, 15, 182, 63, 187, 224, 243, 14, 83, 108, 201, 46, 49, 139, 231, 188, 209, 46, 72, 217, 185, 36, 184, 116, 67, 88, 126, 66, 43]
}

/// The value of the fixed generator.
pub open spec fn default_generator_value() -> nat {
    be_nat(generator_bytes())
}

/// The fixed generator used by every accumulator this crate builds.
pub fn default_generator() -> (r: Bignum)
    ensures
        r.wf(),
        r@ == default_generator_value(),
        r.fits(128),
        2 <= r@,
        r@ < pow(2, 1024),
{
    let bytes: Vec<u8> = vec![108, 244, 107, 93, 221, 99, 158, 66, 26, 183, 99, 247, 222, 82, 163, 194, 134, 40, 36, 59, 152, 245, 84, 67, 13, 197, 181, 230, 233, 1, 237, 22, 166, 196, 149, 178, 31, 231, 82, 176, 120, 132, 93, 242, 243, 110, 108, 181, 68, 105, 117, 183, 101, 119, 93, 200, 118, 45, 8, 101, 218, 201, 231, 212, 8, 119, 195, 137, 254, 245, 205, 175, 69, 86, 106, 67, 52, 233, 60, 200, 234, 138, 162, 125, 171, 98, 43, 12, 85, 12, 220, 168, 236, 242, 68, 0, 167, 171, 68, 83, 15, 182, 63, 187, 224, 243, 14, 83, 108, 201, 46, 49, 139, 231, 188, 209, 46, 72, 217, 185, 36, 184, 116, 67, 88, 126, 66, 43];
    proof {
        assert(bytes@ =~= generator_bytes());
        crate::codec::lemma_be_nat_lower(bytes@);
        crate::codec::lemma_be_nat_bound(bytes@);
        crate::codec::lemma_pow256_pow2(128);
        vstd::arithmetic::power::lemma_pow_increases(256, 1, 127);
        vstd::arithmetic::power::lemma_pow1(256);
    }
    Bignum { bytes }
}

/// A universal RSA accumulator.
#[derive(Debug)]
pub struct Accumulator {
    /// The generator: the accumulator value over the empty member set.
    pub generator: Bignum,
    /// The accumulated primes, strictly ascending.
    pub members: Vec<Bignum>,
    /// The RSA modulus.
    pub modulus: Bignum,
    /// The current accumulator value.
    pub value: Bignum,
}

impl Accumulator {
    /// The member values in order.
    pub open spec fn member_seq(&self) -> Seq<nat> {
        views_of(self.members@)
    }

    /// `x` is accumulated.
    pub open spec fn has(&self, x: nat) -> bool {
        self.member_seq().contains(x)
    }

    /// Structural invariant: well-formed fields within their wire widths,
    /// a plausible modulus, and strictly sorted members.
    pub open spec fn wf(&self) -> bool {
        &&& self.generator.wf()
        &&& self.modulus.wf()
        &&& self.value.wf()
        &&& self.generator.fits(128)
        &&& self.modulus.fits(256)
        &&& self.value.fits(256)
        &&& self.modulus@ > 1
        &&& self.generator@ < self.modulus@
        &&& self.value@ < self.modulus@
        &&& self.members@.len() <= 0xFFFF_FFFF
        &&& (forall|i: int|
            0 <= i < self.members@.len() ==> (#[trigger] self.members@[i]).wf()
                && self.members@[i].fits(32))
        &&& strictly_sorted(self.member_seq())
    }

    /// Algebraic invariant: the value is the generator raised to the
    /// product of all members, modulo the modulus.
    pub open spec fn exact(&self) -> bool {
        self.value@ == pow_mod(self.generator@, prod_seq(self.member_seq()), self.modulus@)
    }

    /// The relation between an accumulator and the result of inserting
    /// the prime `x` into it.
    pub open spec fn spec_inserted(pre: Accumulator, post: Accumulator, x: nat) -> bool {
        &&& post.generator@ == pre.generator@
        &&& post.modulus@ == pre.modulus@
        &&& post.has(x)
        &&& if pre.has(x) {
            post.member_seq() =~= pre.member_seq() && post.value@ == pre.value@
        } else {
            (exists|k: int|
                0 <= k <= pre.member_seq().len() && post.member_seq() =~= pre.member_seq().insert(
                    k,
                    x,
                )) && post.value@ == pow_mod(pre.value@, x, pre.modulus@)
        }
        &&& forall|y: nat| post.has(y) <==> (pre.has(y) || y == x)
    }

    /// An explicit copy with the same bytes in every field.
    pub fn duplicate(&self) -> (r: Accumulator)
        ensures
            r.generator.bytes@ =~= self.generator.bytes@,
            r.modulus.bytes@ =~= self.modulus.bytes@,
            r.value.bytes@ =~= self.value.bytes@,
            r.members@.len() == self.members@.len(),
            forall|i: int|
                0 <= i < self.members@.len() ==> (#[trigger] r.members@[i]).bytes@
                    =~= self.members@[i].bytes@,
            r.member_seq() =~= self.member_seq(),
            r.wf() == self.wf(),
            r.exact() == self.exact(),
    {
        let mut members: Vec<Bignum> = Vec::new();
        let mut i: usize = 0;
        while i < self.members.len()
            invariant
                0 <= i <= self.members@.len(),
                members@.len() == i,
                forall|j: int|
                    0 <= j < i ==> (#[trigger] members@[j]).bytes@ =~= self.members@[j].bytes@,
            decreases self.members@.len() - i,
        {
            members.push(self.members[i].duplicate());
            i = i + 1;
        }
        let r = Accumulator {
            generator: self.generator.duplicate(),
            members,
            modulus: self.modulus.duplicate(),
            value: self.value.duplicate(),
        };
        proof {
            assert(r.member_seq() =~= self.member_seq());
            assert(r.generator.bytes@ == self.generator.bytes@);
            assert(r.modulus.bytes@ == self.modulus.bytes@);
            assert(r.value.bytes@ == self.value.bytes@);
            assert forall|i: int| 0 <= i < r.members@.len() implies ((#[trigger] r.members@[i]).wf()
                == self.members@[i].wf() && r.members@[i].fits(32) == self.members@[i].fits(
                32,
            )) by {
                assert(r.members@[i].bytes@ =~= self.members@[i].bytes@);
                assert(r.members@[i].bytes@ == self.members@[i].bytes@);
            }
            assert(r.generator.wf() == self.generator.wf());
            assert(r.modulus.wf() == self.modulus.wf());
            assert(r.value.wf() == self.value.wf());
            assert(r.generator.fits(128) == self.generator.fits(128));
            assert(r.modulus.fits(256) == self.modulus.fits(256));
            assert(r.value.fits(256) == self.value.fits(256));
            assert(r.generator@ == self.generator@);
            assert(r.modulus@ == self.modulus@);
            assert(r.value@ == self.value@);
            assert(strictly_sorted(r.member_seq()) == strictly_sorted(self.member_seq()));
            if r.wf() {
                assert forall|i: int| 0 <= i < self.members@.len() implies ((
                #[trigger] self.members@[i]).wf() && self.members@[i].fits(32)) by {
                    assert(r.members@[i].wf() && r.members@[i].fits(32));
                    assert(r.members@[i].bytes@ == self.members@[i].bytes@);
                }
                assert(self.wf());
            }
            if self.wf() {
                assert forall|i: int| 0 <= i < r.members@.len() implies ((
                #[trigger] r.members@[i]).wf() && r.members@[i].fits(32)) by {
                    assert(self.members@[i].wf() && self.members@[i].fits(32));
                    assert(r.members@[i].bytes@ == self.members@[i].bytes@);
                }
                assert(r.wf());
            }
            assert(r.wf() == self.wf());
        }
        r
    }

    /// The index where `x` sits or would be inserted.
    pub(crate) fn find_index(&self, x: &Bignum) -> (r: usize)
        requires
            self.wf(),
            x.wf(),
        ensures
            r <= self.members@.len(),
            forall|i: int| 0 <= i < r ==> self.member_seq()[i] < x@,
            forall|i: int| r <= i < self.members@.len() ==> self.member_seq()[i] >= x@,
    {
        let mut i: usize = 0;
        while i < self.members.len() && self.members[i].lt(x)
            invariant
                self.wf(),
                x.wf(),
                0 <= i <= self.members@.len(),
                forall|j: int| 0 <= j < i ==> self.member_seq()[j] < x@,
            decreases self.members@.len() - i,
        {
            i = i + 1;
        }
        proof {
            if i < self.members@.len() {
                assert forall|j: int| i <= j < self.members@.len() implies self.member_seq()[j]
                    >= x@ by {
                    if j > i {
                        assert(self.member_seq()[i as int] < self.member_seq()[j]);
                    }
                }
            }
        }
        i
    }

    /// Whether the prime `x` is accumulated.
    pub fn contains_prime(&self, x: &Bignum) -> (r: bool)
        requires
            self.wf(),
            x.wf(),
        ensures
            r == self.has(x@),
    {
        let i = self.find_index(x);
        if i < self.members.len() {
            let eq = self.members[i].eq_value(x);
            proof {
                if eq {
                    assert(self.member_seq()[i as int] == x@);
                } else if self.has(x@) {
                    let j = choose|j: int|
                        0 <= j < self.member_seq().len() && self.member_seq()[j] == x@;
                    assert(j < i || j > i);
                    if j > i {
                        assert(self.member_seq()[i as int] < self.member_seq()[j]);
                    }
                }
            }
            eq
        } else {
            proof {
                if self.has(x@) {
                    let j = choose|j: int|
                        0 <= j < self.member_seq().len() && self.member_seq()[j] == x@;
                    assert(self.member_seq()[j] < x@);
                }
            }
            false
        }
    }

    /// Insert the prime `x` into the sorted member list if absent.
    fn insert_member(&mut self, x: Bignum)
        requires
            old(self).wf(),
            x.wf(),
            x.fits(32),
            old(self).members@.len() < 0xFFFF_FFFF,
        ensures
            final(self).generator == old(self).generator,
            final(self).modulus == old(self).modulus,
            final(self).value == old(self).value,
            final(self).wf(),
            final(self).has(x@),
            final(self).members@.len() <= old(self).members@.len() + 1,
            old(self).has(x@) ==> final(self).member_seq() =~= old(self).member_seq(),
            !old(self).has(x@) ==> exists|k: int|
                0 <= k <= old(self).member_seq().len() && final(self).member_seq() =~= old(
                    self,
                ).member_seq().insert(k, x@),
            forall|y: nat| final(self).has(y) <==> (old(self).has(y) || y == x@),
    {
        insert_sorted(&mut self.members, x);
    }

    /// A fresh accumulator over a secret key: the fixed generator, the
    /// key's modulus, no members, and the generator as its value.
    pub fn new(key: &AccumulatorSecretKey) -> (r: Accumulator)
        requires
            key.wf(),
        ensures
            r.wf(),
            r.exact(),
            r.members@.len() == 0,
            r.generator@ == default_generator_value(),
            r.modulus@ == key.spec_modulus(),
            r.value@ == r.generator@,
    {
        let generator = default_generator();
        let modulus = key.modulus();
        let value = generator.duplicate();
        proof {
            lemma_modulus_large(key);
            crate::codec::lemma_pow256_pow2(256);
            vstd::arithmetic::power::lemma_pow_strictly_increases(2, 1024, 2048);
            crate::bignum::lemma_fits(&modulus, 256);
            vstd::arithmetic::power::lemma_pow1(generator@ as int);
            vstd::arithmetic::div_mod::lemma_small_mod(generator@, modulus@);
        }
        let r = Accumulator { generator, members: Vec::new(), modulus, value };
        proof {
            assert(r.member_seq() =~= Seq::<nat>::empty());
            assert(prod_seq(r.member_seq()) == 1);
        }
        r
    }

    /// Insert a value, hashing it to a prime first; absent members extend
    /// the set and raise the value, present ones leave it unchanged.
    pub fn insert(&self, value: &[u8]) -> (r: Accumulator)
        requires
            self.wf(),
            self.members@.len() < 0xFFFF_FFFF,
        ensures
            r.wf(),
            Accumulator::spec_inserted(*self, r, h2p_of(value@)),
            self.exact() ==> r.exact(),
    {
        let mut r = self.duplicate();
        r.insert_mut(value);
        r
    }

    /// Insert a value in place; the hashed prime is added to the set and
    /// the value raised to it, unless it is already present.
    pub fn insert_mut(&mut self, value: &[u8])
        requires
            old(self).wf(),
            old(self).members@.len() < 0xFFFF_FFFF,
        ensures
            final(self).wf(),
            Accumulator::spec_inserted(*old(self), *final(self), h2p_of(value@)),
            old(self).exact() ==> final(self).exact(),
    {
        let x = hash_to_prime(value);
        proof {
            crate::bignum::lemma_fits(&x, 32);
        }
        if self.contains_prime(&x) {
            return ;
        }
        let f = Field::new(&self.modulus);
        let newval = f.exp(&self.value, &x);
        let ghost pre = *self;
        self.insert_member(x);
        self.value = newval;
        proof {
            crate::bignum::lemma_fits_bound(&pre.modulus, 256);
            crate::bignum::lemma_fits(&self.value, 256);
            if pre.exact() {
                lemma_insert_exact(pre, *self, x@);
            }
        }
    }
}

/// The modulus of a well-formed key is above the largest generator and
/// fits the wire width.
proof fn lemma_modulus_large(key: &AccumulatorSecretKey)
    requires
        key.wf(),
    ensures
        key.spec_modulus() > pow(2, 1024),
        key.spec_modulus() < pow(2, 2048),
{
    vstd::arithmetic::power::lemma_pow_adds(2, 1023, 1023);
    vstd::arithmetic::power::lemma_pow_adds(2, 1024, 1024);
    vstd::arithmetic::power::lemma_pow_positive(2, 1023);
    vstd::arithmetic::power::lemma_pow_positive(2, 1024);
    assert(key.p@ * key.q@ >= pow(2, 1023) * pow(2, 1023)) by (nonlinear_arith)
        requires
            key.p@ >= pow(2, 1023) > 0,
            key.q@ >= pow(2, 1023) > 0,
    ;
    assert(key.p@ * key.q@ < pow(2, 1024) * pow(2, 1024)) by (nonlinear_arith)
        requires
            0 < key.p@ < pow(2, 1024),
            0 < key.q@ < pow(2, 1024),
    ;
    vstd::arithmetic::power::lemma_pow_strictly_increases(2, 1024, 2046);
    vstd::arithmetic::power::lemma_pow_adds(2, 1023, 1023);
    assert(pow(2, 1023) * pow(2, 1023) == pow(2, 2046));
}

/// The members' wire form: each one as 32 big-endian bytes, in order.
pub open spec fn members_bytes(s: Seq<Bignum>) -> Seq<u8>
    decreases s.len(),
{
    if s.len() == 0 {
        Seq::<u8>::empty()
    } else {
        members_bytes(s.drop_last()) + crate::codec::fixed_bytes_of(s.last()@, 32)
    }
}

pub proof fn lemma_members_bytes_len(s: Seq<Bignum>)
    ensures
        members_bytes(s).len() == 32 * s.len(),
    decreases s.len(),
{
    if s.len() > 0 {
        lemma_members_bytes_len(s.drop_last());
        crate::codec::lemma_fixed_bytes_of(s.last()@, 32);
    }
}

/// Each member's 32-byte slot in the wire form holds its encoding.
pub proof fn lemma_members_bytes_index(s: Seq<Bignum>, k: int)
    requires
        0 <= k < s.len(),
    ensures
        members_bytes(s).subrange(32 * k, 32 * k + 32) =~= crate::codec::fixed_bytes_of(
            s[k]@,
            32,
        ),
    decreases s.len(),
{
    lemma_members_bytes_len(s);
    lemma_members_bytes_len(s.drop_last());
    crate::codec::lemma_fixed_bytes_of(s.last()@, 32);
    if k == s.len() - 1 {
        assert(members_bytes(s).subrange(32 * k, 32 * k + 32) =~= crate::codec::fixed_bytes_of(
            s.last()@,
            32,
        ));
    } else {
        lemma_members_bytes_index(s.drop_last(), k);
        assert(members_bytes(s).subrange(32 * k, 32 * k + 32) =~= members_bytes(
            s.drop_last(),
        ).subrange(32 * k, 32 * k + 32));
    }
}

/// The wire form of an accumulator: generator, value, modulus, member
/// count, then the members in ascending order.
pub open spec fn spec_to_bytes(a: Accumulator) -> Seq<u8> {
    crate::codec::fixed_bytes_of(a.generator@, 128) + crate::codec::fixed_bytes_of(a.value@, 256)
        + crate::codec::fixed_bytes_of(a.modulus@, 256) + crate::codec::fixed_bytes_of(
        a.members@.len() as nat,
        4,
    ) + members_bytes(a.members@)
}

impl Accumulator {
    /// Serialize: `g (128) || V (256) || n (256) || count (4) || members
    /// (32 each, ascending)`, all unsigned big-endian, left-padded.
    pub fn to_bytes(&self) -> (r: Vec<u8>)
        requires
            self.wf(),
        ensures
            r@ =~= spec_to_bytes(*self),
            r@.len() == 644 + 32 * self.members@.len(),
    {
        let mut out = self.generator.to_fixed_bytes(128);
        let mut vb = self.value.to_fixed_bytes(256);
        let mut nb = self.modulus.to_fixed_bytes(256);
        let mut cb = crate::codec::word_to_fixed_bytes(self.members.len() as u64, 4);
        out.append(&mut vb);
        out.append(&mut nb);
        out.append(&mut cb);
        proof {
            crate::codec::lemma_fixed_bytes_of(self.members@.len() as nat, 4);
        }
        let ghost head = out@;
        let mut i: usize = 0;
        while i < self.members.len()
            invariant
                self.wf(),
                0 <= i <= self.members@.len(),
                out@ =~= head + members_bytes(self.members@.subrange(0, i as int)),
            decreases self.members@.len() - i,
        {
            let mut mb = self.members[i].to_fixed_bytes(32);
            out.append(&mut mb);
            proof {
                let pre = self.members@.subrange(0, i as int);
                let now = self.members@.subrange(0, i + 1);
                assert(now.drop_last() =~= pre);
                assert(out@ =~= head + members_bytes(now));
            }
            i = i + 1;
        }
        proof {
            assert(self.members@.subrange(0, self.members@.len() as int) =~= self.members@);
            lemma_members_bytes_len(self.members@);
        }
        out
    }

    /// Parse a serialized accumulator; fails exactly when the byte length
    /// does not match the member count, and otherwise trusts the field
    /// boundaries, deduplicating and ordering the members.
    pub fn from_bytes(data: &[u8]) -> (r: Result<Accumulator, AccumulatorError>)
        ensures
            (r is Err) == (data@.len() < 644 || data@.len() != 644 + 32 * be_nat(
                data@.subrange(640, 644),
            )),
            r matches Err(e) ==> e.kind == AccumulatorErrorKind::SerializationError,
            r matches Ok(a) ==> {
                &&& a.generator.wf()
                &&& a.modulus.wf()
                &&& a.value.wf()
                &&& a.generator@ == be_nat(data@.subrange(0, 128))
                &&& a.value@ == be_nat(data@.subrange(128, 384))
                &&& a.modulus@ == be_nat(data@.subrange(384, 640))
                &&& a.members@.len() <= be_nat(data@.subrange(640, 644))
                &&& strictly_sorted(a.member_seq())
                &&& (forall|i: int|
                    0 <= i < a.members@.len() ==> (#[trigger] a.members@[i]).wf()
                        && a.members@[i].fits(32))
                &&& (forall|y: nat|
                    a.has(y) <==> exists|k: int|
                        0 <= k < be_nat(data@.subrange(640, 644)) && y == be_nat(
                            #[trigger] data@.subrange(644 + 32 * k, 676 + 32 * k),
                        ))
            },
    {
        if data.len() < 644 {
            return Err(AccumulatorError::from_msg(
                AccumulatorErrorKind::SerializationError,
                "too short for an accumulator",
            ));
        }
        let c0 = data[640] as usize;
        let c1 = data[641] as usize;
        let c2 = data[642] as usize;
        let c3 = data[643] as usize;
        let count = ((c0 * 256 + c1) * 256 + c2) * 256 + c3;
        proof {
            let cb = data@.subrange(640, 644);
            assert(cb.drop_last() =~= data@.subrange(640, 643));
            assert(data@.subrange(640, 643).drop_last() =~= data@.subrange(640, 642));
            assert(data@.subrange(640, 642).drop_last() =~= data@.subrange(640, 641));
            assert(data@.subrange(640, 641).drop_last() =~= Seq::<u8>::empty());
            assert(be_nat(Seq::<u8>::empty()) == 0);
            assert(be_nat(data@.subrange(640, 641)) == c0);
            assert(be_nat(data@.subrange(640, 642)) == c0 * 256 + c1);
            assert(be_nat(data@.subrange(640, 643)) == (c0 * 256 + c1) * 256 + c2);
            assert(be_nat(cb) == count);
        }
        let body = data.len() - 644;
        if body / 32 != count || body % 32 != 0 {
            proof {
                vstd::arithmetic::div_mod::lemma_fundamental_div_mod(body as int, 32);
            }
            return Err(AccumulatorError::from_msg(
                AccumulatorErrorKind::SerializationError,
                "length does not match the member count",
            ));
        }
        proof {
            vstd::arithmetic::div_mod::lemma_fundamental_div_mod(body as int, 32);
            assert(body == 32 * count);
        }
        let generator = Bignum::from_be_bytes(crate::codec::sub_bytes(data, 0, 128).as_slice());
        let value = Bignum::from_be_bytes(crate::codec::sub_bytes(data, 128, 384).as_slice());
        let modulus = Bignum::from_be_bytes(crate::codec::sub_bytes(data, 384, 640).as_slice());
        let mut members: Vec<Bignum> = Vec::new();
        let mut i: usize = 0;
        while i < count
            invariant
                0 <= i <= count,
                count <= 0xFFFF_FFFF,
                644 + 32 * count == data@.len(),
                data@.len() <= usize::MAX,
                members@.len() <= i,
                forall|j: int|
                    0 <= j < members@.len() ==> (#[trigger] members@[j]).wf()
                        && members@[j].fits(32),
                strictly_sorted(views_of(members@)),
                forall|y: nat|
                    views_of(members@).contains(y) <==> exists|k: int|
                        0 <= k < i && y == be_nat(
                            #[trigger] data@.subrange(644 + 32 * k, 676 + 32 * k),
                        ),
            decreases count - i,
        {
            proof {
                assert(32 * i + 32 <= 32 * count);
            }
            let m = Bignum::from_be_bytes(
                crate::codec::sub_bytes(data, 644 + 32 * i, 676 + 32 * i).as_slice(),
            );
            proof {
                crate::codec::lemma_be_nat_bound(data@.subrange(644 + 32 * i, 676 + 32 * i));
                crate::bignum::lemma_fits(&m, 32);
            }
            let ghost pre = views_of(members@);
            insert_sorted(&mut members, m);
            proof {
                assert forall|y: nat|
                    views_of(members@).contains(y) <==> exists|k: int|
                        0 <= k < i + 1 && y == be_nat(
                            #[trigger] data@.subrange(644 + 32 * k, 676 + 32 * k),
                        ) by {
                    if views_of(members@).contains(y) {
                        if pre.contains(y) {
                            let k = choose|k: int|
                                0 <= k < i && y == be_nat(
                                    #[trigger] data@.subrange(644 + 32 * k, 676 + 32 * k),
                                );
                            assert(0 <= k < i + 1 && y == be_nat(
                                data@.subrange(644 + 32 * k, 676 + 32 * k),
                            ));
                        } else {
                            assert(y == be_nat(data@.subrange(644 + 32 * i, 676 + 32 * i)));
                        }
                    }
                    if exists|k: int|
                        0 <= k < i + 1 && y == be_nat(
                            #[trigger] data@.subrange(644 + 32 * k, 676 + 32 * k),
                        ) {
                        let k = choose|k: int|
                            0 <= k < i + 1 && y == be_nat(
                                #[trigger] data@.subrange(644 + 32 * k, 676 + 32 * k),
                            );
                        if k < i {
                            assert(pre.contains(y));
                        }
                    }
                }
            }
            i = i + 1;
        }
        Ok(Accumulator { generator, members, modulus, value })
    }
}

/// Serialization round trip: the wire form of a well-formed accumulator
/// parses back to the same field values, member for member.
pub proof fn lemma_serialization_round_trip(a: Accumulator)
    requires
        a.wf(),
    ensures
        ({
            let b = spec_to_bytes(a);
            &&& b.len() == 644 + 32 * a.members@.len()
            &&& be_nat(b.subrange(0, 128)) == a.generator@
            &&& be_nat(b.subrange(128, 384)) == a.value@
            &&& be_nat(b.subrange(384, 640)) == a.modulus@
            &&& be_nat(b.subrange(640, 644)) == a.members@.len()
            &&& forall|k: int|
                0 <= k < a.members@.len() ==> be_nat(
                    #[trigger] b.subrange(644 + 32 * k, 676 + 32 * k),
                ) == a.member_seq()[k]
        }),
{
    let b = spec_to_bytes(a);
    let gb = crate::codec::fixed_bytes_of(a.generator@, 128);
    let vb = crate::codec::fixed_bytes_of(a.value@, 256);
    let nb = crate::codec::fixed_bytes_of(a.modulus@, 256);
    let cb = crate::codec::fixed_bytes_of(a.members@.len() as nat, 4);
    let mb = members_bytes(a.members@);
    crate::codec::lemma_fixed_bytes_of(a.generator@, 128);
    crate::codec::lemma_fixed_bytes_of(a.value@, 256);
    crate::codec::lemma_fixed_bytes_of(a.modulus@, 256);
    crate::codec::lemma_fixed_bytes_of(a.members@.len() as nat, 4);
    lemma_members_bytes_len(a.members@);
    crate::bignum::lemma_fits_bound(&a.generator, 128);
    crate::bignum::lemma_fits_bound(&a.value, 256);
    crate::bignum::lemma_fits_bound(&a.modulus, 256);
    vstd::arithmetic::div_mod::lemma_small_mod(
        a.generator@,
        vstd::arithmetic::power::pow(256, 128) as nat,
    );
    vstd::arithmetic::div_mod::lemma_small_mod(
        a.value@,
        vstd::arithmetic::power::pow(256, 256) as nat,
    );
    vstd::arithmetic::div_mod::lemma_small_mod(
        a.modulus@,
        vstd::arithmetic::power::pow(256, 256) as nat,
    );
    assert(b.subrange(0, 128) =~= gb);
    assert(b.subrange(128, 384) =~= vb);
    assert(b.subrange(384, 640) =~= nb);
    assert(b.subrange(640, 644) =~= cb);
    crate::codec::lemma_pow256_pow2(4);
    reveal_with_fuel(vstd::arithmetic::power::pow, 5);
    assert((a.members@.len() as nat) < vstd::arithmetic::power::pow(256, 4));
    vstd::arithmetic::div_mod::lemma_small_mod(
        a.members@.len() as nat,
        vstd::arithmetic::power::pow(256, 4) as nat,
    );
    assert forall|k: int| 0 <= k < a.members@.len() implies be_nat(
        #[trigger] b.subrange(644 + 32 * k, 676 + 32 * k),
    ) == a.member_seq()[k] by {
        lemma_members_bytes_index(a.members@, k);
        assert(b.subrange(644 + 32 * k, 676 + 32 * k) =~= mb.subrange(32 * k, 32 * k + 32));
        crate::codec::lemma_fixed_bytes_of(a.members@[k]@, 32);
        crate::bignum::lemma_fits_bound(&a.members@[k], 32);
        vstd::arithmetic::div_mod::lemma_small_mod(
            a.members@[k]@,
            vstd::arithmetic::power::pow(256, 32) as nat,
        );
    }
}

/// The members of `cur` are those of `orig` plus the hashes of the first
/// `i` elements.
pub open spec fn added_upto(orig: Accumulator, cur: Accumulator, elements: Seq<Seq<u8>>, i: int) -> bool {
    forall|y: nat|
        cur.has(y) <==> (orig.has(y) || exists|k: int|
            0 <= k < i && y == h2p_of(#[trigger] elements[k]))
}

/// The byte strings of a list of elements.
pub open spec fn views_of_elements(elements: Seq<Vec<u8>>) -> Seq<Seq<u8>> {
    elements.map_values(|e: Vec<u8>| e@)
}

/// `rs` lists, in ascending order, exactly the hashed primes of the
/// elements; at most one sequence does.
pub open spec fn hashes_sorted(elements: Seq<Seq<u8>>, rs: Seq<nat>) -> bool {

    &&& strictly_sorted(rs)
    &&& forall|y: nat|
        #[trigger] rs.contains(y) <==> exists|k: int|
            0 <= k < elements.len() && y == h2p_of(#[trigger] elements[k])
}

/// The members of `cur` are those of `orig` except the first `i` of `xs`.
pub open spec fn removed_upto(orig: Accumulator, cur: Accumulator, xs: Seq<nat>, i: int) -> bool {
    forall|y: nat|
        cur.has(y) <==> (orig.has(y) && !(exists|j: int| 0 <= j < i && y == #[trigger] xs[j]))
}

/// A usable prime input: well-formed, within the member wire width, and
/// passing the primality test.
pub open spec fn valid_prime_input(b: Bignum) -> bool {
    b.wf() && b.fits(32) && crate::hash::passes_prime_test(b@)
}

impl Accumulator {
    /// Finish a construction with the secret key: set the value to the
    /// generator raised to the member product reduced modulo the totient.
    fn set_value_with_key(&mut self, key: &AccumulatorSecretKey)
        requires
            old(self).wf(),
            key.wf(),
        ensures
            final(self).wf(),
            final(self).generator == old(self).generator,
            final(self).modulus == old(self).modulus,
            final(self).members == old(self).members,
            final(self).value@ == pow_mod(
                old(self).generator@,
                prod_seq(old(self).member_seq()) % key.spec_totient(),
                old(self).modulus@,
            ),
    {
        proof {
            crate::key::lemma_totient_large(key);
        }
        let tot = key.totient();
        let ftot = Field::new(&tot);
        let e = ftot.product_mod(&self.members);
        let value = crate::arith::big_mod_exp(&self.generator, &e, &self.modulus);
        proof {
            crate::bignum::lemma_fits_bound(&self.modulus, 256);
            crate::bignum::lemma_fits(&value, 256);
        }
        self.value = value;
    }

    /// Build an accumulator holding the given byte strings, each hashed
    /// to a prime and deduplicated; the value is computed with the secret
    /// key by reducing the member product modulo the totient.
    pub fn with_members(key: &AccumulatorSecretKey, elements: &Vec<Vec<u8>>) -> (r: Accumulator)
        requires
            key.wf(),
            elements@.len() <= 0xFFFF_FFFF,
        ensures
            r.wf(),
            r.generator@ == default_generator_value(),
            r.modulus@ == key.spec_modulus(),
            forall|y: nat|
                r.has(y) <==> exists|k: int|
                    0 <= k < elements@.len() && y == h2p_of(#[trigger] elements@[k]@),
            r.value@ == pow_mod(
                r.generator@,
                prod_seq(r.member_seq()) % key.spec_totient(),
                r.modulus@,
            ),
    {
        let mut acc = Accumulator::new(key);
        let mut i: usize = 0;
        while i < elements.len()
            invariant
                key.wf(),
                elements@.len() <= 0xFFFF_FFFF,
                acc.wf(),
                acc.generator@ == default_generator_value(),
                acc.modulus@ == key.spec_modulus(),
                acc.members@.len() <= i,
                0 <= i <= elements@.len(),
                forall|y: nat|
                    acc.has(y) <==> exists|k: int|
                        0 <= k < i && y == h2p_of(#[trigger] elements@[k]@),
            decreases elements@.len() - i,
        {
            let x = hash_to_prime(elements[i].as_slice());
            proof {
                crate::bignum::lemma_fits(&x, 32);
            }
            let ghost pre = acc;
            acc.insert_member(x);
            proof {
                assert forall|y: nat|
                    acc.has(y) <==> exists|k: int|
                        0 <= k < i + 1 && y == h2p_of(#[trigger] elements@[k]@) by {
                    if acc.has(y) {
                        if pre.has(y) {
                            let k = choose|k: int|
                                0 <= k < i && y == h2p_of(#[trigger] elements@[k]@);
                            assert(0 <= k < i + 1 && y == h2p_of(elements@[k]@));
                        } else {
                            assert(y == h2p_of(elements@[i as int]@));
                        }
                    }
                    if exists|k: int| 0 <= k < i + 1 && y == h2p_of(#[trigger] elements@[k]@) {
                        let k = choose|k: int|
                            0 <= k < i + 1 && y == h2p_of(#[trigger] elements@[k]@);
                        if k < i {
                            assert(pre.has(y));
                        }
                    }
                }
            }
            i = i + 1;
        }
        let ghost built = acc;
        acc.set_value_with_key(key);
        proof {
            assert(acc.member_seq() =~= built.member_seq());
            assert forall|y: nat|
                acc.has(y) <==> exists|k: int|
                    0 <= k < elements@.len() && y == h2p_of(#[trigger] elements@[k]@) by {
                assert(acc.has(y) == built.has(y));
            }
        }
        acc
    }

    /// Build an accumulator holding the given primes; every input must be
    /// a well-formed number of at most the member width that passes the
    /// primality test, else the whole construction is rejected.
    pub fn with_prime_members(key: &AccumulatorSecretKey, primes: &Vec<Bignum>) -> (r: Result<
        Accumulator,
        AccumulatorError,
    >)
        requires
            key.wf(),
            primes@.len() <= 0xFFFF_FFFF,
        ensures
            (r is Err) == (exists|k: int|
                0 <= k < primes@.len() && !valid_prime_input(#[trigger] primes@[k])),
            r matches Err(e) ==> e.kind == AccumulatorErrorKind::InvalidType,
            r matches Ok(a) ==> a.wf() && a.generator@ == default_generator_value() && a.modulus@
                == key.spec_modulus() && (forall|y: nat|
                a.has(y) <==> exists|k: int| 0 <= k < primes@.len() && (#[trigger] primes@[k])@
                    == y) && a.value@ == pow_mod(
                a.generator@,
                prod_seq(a.member_seq()) % key.spec_totient(),
                a.modulus@,
            ),
    {
        let mut i: usize = 0;
        while i < primes.len()
            invariant
                0 <= i <= primes@.len(),
                forall|k: int| 0 <= k < i ==> valid_prime_input(#[trigger] primes@[k]),
            decreases primes@.len() - i,
        {
            let p = &primes[i];
            let minimal = p.bytes.len() == 0 || p.bytes[0] != 0;
            if !(minimal && p.bytes.len() <= 32) {
                return Err(AccumulatorError::from_msg(
                    AccumulatorErrorKind::InvalidType,
                    "every member must be a number of the member width",
                ));
            }
            if !crate::hash::prime_check(p) {
                return Err(AccumulatorError::from_msg(
                    AccumulatorErrorKind::InvalidType,
                    "every member must pass the primality test",
                ));
            }
            i = i + 1;
        }
        let mut acc = Accumulator::new(key);
        let mut i: usize = 0;
        while i < primes.len()
            invariant
                key.wf(),
                primes@.len() <= 0xFFFF_FFFF,
                forall|k: int| 0 <= k < primes@.len() ==> valid_prime_input(#[trigger] primes@[k]),
                acc.wf(),
                acc.generator@ == default_generator_value(),
                acc.modulus@ == key.spec_modulus(),
                acc.members@.len() <= i,
                0 <= i <= primes@.len(),
                forall|y: nat|
                    acc.has(y) <==> exists|k: int| 0 <= k < i && (#[trigger] primes@[k])@ == y,
            decreases primes@.len() - i,
        {
            let x = primes[i].duplicate();
            let ghost pre = acc;
            acc.insert_member(x);
            proof {
                assert forall|y: nat|
                    acc.has(y) <==> exists|k: int|
                        0 <= k < i + 1 && (#[trigger] primes@[k])@ == y by {
                    if acc.has(y) {
                        if pre.has(y) {
                            let k = choose|k: int| 0 <= k < i && (#[trigger] primes@[k])@ == y;
                            assert(0 <= k < i + 1 && primes@[k]@ == y);
                        } else {
                            assert(primes@[i as int]@ == y);
                        }
                    }
                    if exists|k: int| 0 <= k < i + 1 && (#[trigger] primes@[k])@ == y {
                        let k = choose|k: int| 0 <= k < i + 1 && (#[trigger] primes@[k])@ == y;
                        if k < i {
                            assert(pre.has(y));
                        }
                    }
                }
            }
            i = i + 1;
        }
        let ghost built = acc;
        acc.set_value_with_key(key);
        proof {
            assert(acc.member_seq() =~= built.member_seq());
            assert forall|y: nat|
                acc.has(y) <==> exists|k: int|
                    0 <= k < primes@.len() && (#[trigger] primes@[k])@ == y by {
                assert(acc.has(y) == built.has(y));
            }
        }
        Ok(acc)
    }

    /// Remove an accumulated prime with the secret key: the value is
    /// raised to the inverse of the prime modulo the totient and the
    /// prime leaves the member set. Fails without touching the state when
    /// the prime is absent, or when it has no inverse.
    pub fn remove_prime_assign(&mut self, key: &AccumulatorSecretKey, x: &Bignum) -> (r: Result<
        (),
        AccumulatorError,
    >)
        requires
            old(self).wf(),
            key.wf(),
            x.wf(),
        ensures
            final(self).wf(),
            final(self).generator == old(self).generator,
            final(self).modulus == old(self).modulus,
            (r is Ok) == (old(self).has(x@) && crate::arith::spec_gcd(x@, key.spec_totient())
                == 1),
            r matches Err(e) ==> *final(self) == *old(self) && e.kind == (if !old(self).has(x@) {
                AccumulatorErrorKind::InvalidMemberSupplied
            } else {
                AccumulatorErrorKind::InvalidType
            }),
            r is Ok ==> exists|k: int|
                0 <= k < old(self).member_seq().len() && old(self).member_seq()[k] == x@
                    && final(self).member_seq() =~= old(self).member_seq().remove(k),
            r is Ok ==> forall|y: nat| final(self).has(y) <==> (old(self).has(y) && y != x@),
            r is Ok ==> exists|inv: nat|
                crate::arith::is_inv_mod(x@, inv, key.spec_totient()) && final(self).value@
                    == pow_mod(old(self).value@, inv, old(self).modulus@),
    {
        let i = self.find_index(x);
        let present = if i < self.members.len() {
            self.members[i].eq_value(x)
        } else {
            false
        };
        proof {
            if present {
                assert(self.member_seq()[i as int] == x@);
            } else if self.has(x@) {
                let j = choose|j: int|
                    0 <= j < self.member_seq().len() && self.member_seq()[j] == x@;
                if j > i {
                    assert(self.member_seq()[i as int] < self.member_seq()[j]);
                } else if j < i {
                    assert(self.member_seq()[j] < x@);
                }
            }
        }
        if !present {
            return Err(AccumulatorError::from_msg(
                AccumulatorErrorKind::InvalidMemberSupplied,
                "value is not in the accumulator",
            ));
        }
        proof {
            crate::key::lemma_totient_large(key);
        }
        let tot = key.totient();
        let invx = match crate::arith::big_mod_inv(x, &tot) {
            Some(v) => v,
            None => {
                return Err(AccumulatorError::from_msg(
                    AccumulatorErrorKind::InvalidType,
                    "member has no inverse modulo the totient",
                ));
            },
        };
        let ghost pre = *self;
        self.members.remove(i);
        let value = crate::arith::big_mod_exp(&self.value, &invx, &self.modulus);
        proof {
            crate::bignum::lemma_fits_bound(&pre.modulus, 256);
            crate::bignum::lemma_fits(&value, 256);
        }
        self.value = value;
        proof {
            assert(final(self).member_seq() =~= pre.member_seq().remove(i as int));
            let s = final(self).member_seq();
            let p = pre.member_seq();
            assert forall|a: int, b: int| 0 <= a < b < s.len() implies s[a] < s[b] by {
                if b < i {
                    assert(s[a] == p[a] && s[b] == p[b]);
                } else if a < i {
                    assert(s[a] == p[a] && s[b] == p[b + 1]);
                } else {
                    assert(s[a] == p[a + 1] && s[b] == p[b + 1]);
                }
            }
            assert forall|y: nat| final(self).has(y) <==> (pre.has(y) && y != x@) by {
                if s.contains(y) {
                    let j = choose|j: int| 0 <= j < s.len() && s[j] == y;
                    if j < i {
                        assert(p[j] == y);
                        assert(p[j] < p[i as int]);
                    } else {
                        assert(p[j + 1] == y);
                        assert(p[i as int] < p[j + 1]);
                    }
                }
                if pre.has(y) && y != x@ {
                    let j = choose|j: int| 0 <= j < p.len() && p[j] == y;
                    if j < i {
                        assert(s[j] == y);
                    } else if j > i {
                        assert(s[j - 1] == y);
                    }
                }
            }
        }
        Ok(())
    }

    /// Remove a value in place with the secret key, hashing it to its
    /// prime first.
    pub fn remove_assign(&mut self, key: &AccumulatorSecretKey, value: &[u8]) -> (r: Result<
        (),
        AccumulatorError,
    >)
        requires
            old(self).wf(),
            key.wf(),
        ensures
            final(self).wf(),
            final(self).generator == old(self).generator,
            final(self).modulus == old(self).modulus,
            (r is Ok) == (old(self).has(h2p_of(value@)) && crate::arith::spec_gcd(
                h2p_of(value@),
                key.spec_totient(),
            ) == 1),
            r matches Err(e) ==> *final(self) == *old(self) && e.kind == (if !old(self).has(
                h2p_of(value@),
            ) {
                AccumulatorErrorKind::InvalidMemberSupplied
            } else {
                AccumulatorErrorKind::InvalidType
            }),
            r is Ok ==> forall|y: nat|
                final(self).has(y) <==> (old(self).has(y) && y != h2p_of(value@)),
            r is Ok ==> exists|inv: nat|
                crate::arith::is_inv_mod(h2p_of(value@), inv, key.spec_totient())
                    && final(self).value@ == pow_mod(old(self).value@, inv, old(self).modulus@),
    {
        let x = hash_to_prime(value);
        self.remove_prime_assign(key, &x)
    }

    /// Remove a value in place with the secret key; an alias kept for
    /// callers that know this operation under its older name.
    pub fn remove_mut(&mut self, key: &AccumulatorSecretKey, value: &[u8]) -> (r: Result<
        (),
        AccumulatorError,
    >)
        requires
            old(self).wf(),
            key.wf(),
        ensures
            final(self).wf(),
            (r is Ok) == (old(self).has(h2p_of(value@)) && crate::arith::spec_gcd(
                h2p_of(value@),
                key.spec_totient(),
            ) == 1),
            r matches Err(e) ==> *final(self) == *old(self),
            r is Ok ==> forall|y: nat|
                final(self).has(y) <==> (old(self).has(y) && y != h2p_of(value@)),
            r is Ok ==> exists|inv: nat|
                crate::arith::is_inv_mod(h2p_of(value@), inv, key.spec_totient())
                    && final(self).value@ == pow_mod(old(self).value@, inv, old(self).modulus@),
    {
        self.remove_assign(key, value)
    }

    /// Remove a value with the secret key, returning the new accumulator.
    pub fn remove(&self, key: &AccumulatorSecretKey, value: &[u8]) -> (r: Result<
        Accumulator,
        AccumulatorError,
    >)
        requires
            self.wf(),
            key.wf(),
        ensures
            (r is Ok) == (self.has(h2p_of(value@)) && crate::arith::spec_gcd(
                h2p_of(value@),
                key.spec_totient(),
            ) == 1),
            r matches Ok(a) ==> a.wf() && a.generator@ == self.generator@ && a.modulus@
                == self.modulus@ && (forall|y: nat|
                a.has(y) <==> (self.has(y) && y != h2p_of(value@))) && exists|inv: nat|
                crate::arith::is_inv_mod(h2p_of(value@), inv, key.spec_totient()) && a.value@
                    == pow_mod(self.value@, inv, self.modulus@),
    {
        let mut a = self.duplicate();
        match a.remove_assign(key, value) {
            Ok(()) => Ok(a),
            Err(e) => Err(e),
        }
    }
}

impl Default for Accumulator {
    /// An empty accumulator over the fixed default key: the value is the
    /// generator.
    fn default() -> (r: Accumulator)
        ensures
            r.wf(),
            r.exact(),
            r.members@.len() == 0,
            r.generator@ == default_generator_value(),
            r.value@ == r.generator@,
            r.modulus@ == crate::key::default_p_value() * crate::key::default_q_value(),
    {
        let key = AccumulatorSecretKey::default();
        Accumulator::new(&key)
    }
}

/// Insertion is idempotent: inserting the same prime twice leaves the
/// value and the member count where the first insertion put them, and the
/// member count grows by at most one in all.
pub proof fn lemma_insert_idempotent(a: Accumulator, b: Accumulator, c: Accumulator, x: nat)
    requires
        Accumulator::spec_inserted(a, b, x),
        Accumulator::spec_inserted(b, c, x),
    ensures
        c.value@ == b.value@,
        c.member_seq() =~= b.member_seq(),
        !a.has(x) ==> b.member_seq().len() == a.member_seq().len() + 1,
        a.has(x) ==> b.member_seq().len() == a.member_seq().len(),
{
    assert(b.has(x));
    if !a.has(x) {
        let k = choose|k: int|
            0 <= k <= a.member_seq().len() && b.member_seq() =~= a.member_seq().insert(k, x);
        assert(b.member_seq().len() == a.member_seq().len() + 1);
    }
}

/// Removal reverses insertion: inserting a fresh prime and removing it
/// with the secret key restores the member set exactly, and restores the
/// value whenever the starting value satisfies Euler's identity
/// `V^totient == 1 mod n` — a property of the RSA group that holds of
/// every group element but is not provable from the integer arithmetic
/// alone, so it stands as a hypothesis here.
pub proof fn lemma_remove_reverses_insert(
    pre: Accumulator,
    mid: Accumulator,
    post: Accumulator,
    x: nat,
    tot: nat,
    inv: nat,
)
    requires
        pre.wf(),
        mid.wf(),
        !pre.has(x),
        Accumulator::spec_inserted(pre, mid, x),
        crate::arith::is_inv_mod(x, inv, tot),
        tot > 1,
        post.generator@ == mid.generator@,
        post.modulus@ == mid.modulus@,
        exists|k: int|
            0 <= k < mid.member_seq().len() && mid.member_seq()[k] == x
                && post.member_seq() =~= mid.member_seq().remove(k),
        post.value@ == pow_mod(mid.value@, inv, mid.modulus@),
        pow_mod(pre.value@, tot, pre.modulus@) == 1nat % pre.modulus@,
    ensures
        post.member_seq() =~= pre.member_seq(),
        post.value@ == pre.value@,
{
    let n = pre.modulus@;
    let v = pre.value@;
    // the member set comes back: the inserted prime sits at a unique
    // index of the sorted sequence, so the removal takes out exactly it
    let ki = choose|k: int|
        0 <= k <= pre.member_seq().len() && mid.member_seq() =~= pre.member_seq().insert(k, x);
    let kr = choose|k: int|
        0 <= k < mid.member_seq().len() && mid.member_seq()[k] == x && post.member_seq()
            =~= mid.member_seq().remove(k);
    assert(mid.member_seq()[ki] == x);
    if ki != kr {
        assert(mid.member_seq()[ki] < mid.member_seq()[kr] || mid.member_seq()[kr]
            < mid.member_seq()[ki]);
    }
    assert(post.member_seq() =~= pre.member_seq());
    // the value comes back: x * inv is one more than a multiple of the
    // totient, and each whole totient in the exponent acts as one
    vstd::arithmetic::div_mod::lemma_small_mod(1nat, n);
    assert(n > 1);
    let e = x * inv;
    vstd::arithmetic::div_mod::lemma_small_mod(1nat, tot);
    crate::arith::lemma_pow_mod_compose(v, x, inv, n);
    assert(mid.value@ == pow_mod(v, x, n));
    assert(pow_mod(mid.value@, inv, n) == pow_mod(v, e, n)) by {
        crate::arith::lemma_pow_mod_base(
            vstd::arithmetic::power::pow(v as int, x) as nat,
            inv,
            n,
        );
        crate::arith::lemma_pow_nonneg(v, x);
    }
    let q = e / tot;
    vstd::arithmetic::div_mod::lemma_fundamental_div_mod(e as int, tot as int);
    assert(e % tot == 1);
    assert(e == tot * q + 1);
    crate::arith::lemma_pow_mod_adds(v, (tot * q) as nat, 1, n);
    assert(pow_mod(v, (tot * q) as nat, n) == 1) by {
        assert((tot * q) as nat == tot * (q as nat)) by (nonlinear_arith)
            requires
                e == tot * q + 1,
                e >= 0,
                tot > 0,
        ;
        crate::arith::lemma_pow_mod_compose(v, tot, q as nat, n);
        assert(pow_mod(pow_mod(v, tot, n), q as nat, n) == pow_mod(1, q as nat, n)) by {
            assert(pow_mod(v, tot, n) == 1);
        }
        vstd::arithmetic::power::lemma1_pow(q as nat);
        vstd::arithmetic::div_mod::lemma_small_mod(1nat, n);
    }
    vstd::arithmetic::power::lemma_pow1(v as int);
    vstd::arithmetic::div_mod::lemma_small_mod(v, n);
    assert((pow_mod(v, (tot * q) as nat, n) * pow_mod(v, 1, n)) % n == pow_mod(
        v,
        (tot * q + 1) as nat,
        n,
    ));
    assert((1 * pow_mod(v, 1, n)) % n == v % n) by {
        assert(1 * pow_mod(v, 1, n) == pow_mod(v, 1, n)) by (nonlinear_arith);
    }
}

/// Order independence: two accumulators built with the secret key from
/// permuted element lists hold the same members and the same value.
pub proof fn lemma_order_independent(
    a1: Accumulator,
    a2: Accumulator,
    tot: nat,
    es1: Seq<Seq<u8>>,
    es2: Seq<Seq<u8>>,
)
    requires
        es1.to_multiset() == es2.to_multiset(),
        strictly_sorted(a1.member_seq()),
        strictly_sorted(a2.member_seq()),
        a1.generator@ == a2.generator@,
        a1.modulus@ == a2.modulus@,
        forall|y: nat|
            a1.has(y) <==> exists|k: int| 0 <= k < es1.len() && y == h2p_of(#[trigger] es1[k]),
        forall|y: nat|
            a2.has(y) <==> exists|k: int| 0 <= k < es2.len() && y == h2p_of(#[trigger] es2[k]),
        a1.value@ == pow_mod(a1.generator@, prod_seq(a1.member_seq()) % tot, a1.modulus@),
        a2.value@ == pow_mod(a2.generator@, prod_seq(a2.member_seq()) % tot, a2.modulus@),
    ensures
        a1.member_seq() =~= a2.member_seq(),
        a1.value@ == a2.value@,
{
    broadcast use vstd::seq_lib::group_to_multiset_ensures;

    assert forall|y: nat| a1.has(y) implies a2.has(y) by {
        let k = choose|k: int| 0 <= k < es1.len() && y == h2p_of(#[trigger] es1[k]);
        assert(es1.contains(es1[k]));
        assert(es1.to_multiset().contains(es1[k]));
        assert(es2.to_multiset().contains(es1[k]));
        assert(es2.contains(es1[k]));
        let j = choose|j: int| 0 <= j < es2.len() && es2[j] == es1[k];
        assert(y == h2p_of(es2[j]));
    }
    assert forall|y: nat| a2.has(y) implies a1.has(y) by {
        let k = choose|k: int| 0 <= k < es2.len() && y == h2p_of(#[trigger] es2[k]);
        assert(es2.contains(es2[k]));
        assert(es2.to_multiset().contains(es2[k]));
        assert(es1.to_multiset().contains(es2[k]));
        assert(es1.contains(es2[k]));
        let j = choose|j: int| 0 <= j < es1.len() && es1[j] == es2[k];
        assert(y == h2p_of(es1[j]));
    }
    assert(a1.member_seq().to_set() =~= a2.member_seq().to_set()) by {
        assert forall|y: nat| a1.member_seq().to_set().contains(y) implies a2.member_seq(
        ).to_set().contains(y) by {
            assert(a1.has(y));
            assert(a2.has(y));
        }
        assert forall|y: nat| a2.member_seq().to_set().contains(y) implies a1.member_seq(
        ).to_set().contains(y) by {
            assert(a2.has(y));
            assert(a1.has(y));
        }
    }
    crate::arith::lemma_sorted_unique(a1.member_seq(), a2.member_seq());
}

impl Accumulator {
    /// Insert several values at once, in place: the distinct absent
    /// primes are added to the set and the value is raised to their
    /// product in one exponentiation.
    pub fn add_batch(&mut self, elements: &Vec<Vec<u8>>)
        requires
            old(self).wf(),
            old(self).members@.len() + elements@.len() <= 0xFFFF_FFFF,
        ensures
            final(self).wf(),
            final(self).generator@ == old(self).generator@,
            final(self).modulus@ == old(self).modulus@,
            forall|y: nat|
                final(self).has(y) <==> (old(self).has(y) || exists|k: int|
                    0 <= k < elements@.len() && y == h2p_of(#[trigger] elements@[k]@)),
            exists|p: nat|
                final(self).value@ == pow_mod(old(self).value@, p, old(self).modulus@) && prod_seq(
                    final(self).member_seq(),
                ) == prod_seq(old(self).member_seq()) * p,
            old(self).exact() ==> final(self).exact(),
    {
        let ghost orig = *self;
        let mut adds: Vec<Bignum> = Vec::new();
        proof {
            assert(views_of(adds@) =~= Seq::<nat>::empty());
            assert(prod_seq(views_of(adds@)) == 1);
        }
        let mut i: usize = 0;
        while i < elements.len()
            invariant
                self.wf(),
                0 <= i <= elements@.len(),
                self.generator == orig.generator,
                self.modulus == orig.modulus,
                self.value == orig.value,
                orig.wf(),
                self.members@.len() <= orig.members@.len() + i,
                orig.members@.len() + elements@.len() <= 0xFFFF_FFFF,
                prod_seq(self.member_seq()) == prod_seq(orig.member_seq()) * prod_seq(
                    views_of(adds@),
                ),
                added_upto(orig, *self, elements@.map_values(|e: Vec<u8>| e@), i as int),
            decreases elements@.len() - i,
        {
            let x = hash_to_prime(elements[i].as_slice());
            proof {
                crate::bignum::lemma_fits(&x, 32);
                assert(x@ == h2p_of(elements@[i as int]@));
            }
            let ghost pre = *self;
            let ghost preadds = views_of(adds@);
            let ghost gx = x@;
            let ghost eview = elements@.map_values(|e: Vec<u8>| e@);
            proof {
                assert(added_upto(orig, pre, eview, i as int));
                assert(forall|y: nat|
                    pre.has(y) <==> (orig.has(y) || exists|k: int|
                        0 <= k < i && y == h2p_of(#[trigger] eview[k])));
            }
            let present = self.contains_prime(&x);
            if !present {
                let x2 = x.duplicate();
                self.insert_member(x);
                adds.push(x2);
                proof {
                    let k = choose|k: int|
                        0 <= k <= pre.member_seq().len() && self.member_seq() =~= pre.member_seq(
                        ).insert(k, x2@);
                    lemma_prod_insert(pre.member_seq(), k, x2@);
                    assert(views_of(adds@) =~= preadds.push(x2@));
                    assert(views_of(adds@).drop_last() =~= preadds);
                    assert(prod_seq(views_of(adds@)) == prod_seq(preadds) * x2@);
                    assert(prod_seq(self.member_seq()) == (prod_seq(orig.member_seq()) * prod_seq(
                        preadds,
                    )) * x2@);
                    assert((prod_seq(orig.member_seq()) * prod_seq(preadds)) * x2@ == prod_seq(
                        orig.member_seq(),
                    ) * (prod_seq(preadds) * x2@)) by (nonlinear_arith);
                    assert(self.has(gx));
                }
            } else {
                proof {
                    assert(self.has(gx));
                }
            }
            proof {
                assert(self.has(gx));
                assert(gx == h2p_of(eview[i as int]));
                assert forall|y: nat|
                    self.has(y) <==> (orig.has(y) || exists|k: int|
                        0 <= k < i + 1 && y == h2p_of(#[trigger] eview[k])) by {
                    if self.has(y) && !orig.has(y) {
                        if pre.has(y) {
                            let k = choose|k: int|
                                0 <= k < i && y == h2p_of(#[trigger] eview[k]);
                            assert(0 <= k < i + 1 && y == h2p_of(eview[k]));
                        } else {
                            assert(y == h2p_of(eview[i as int]));
                        }
                    }
                    if exists|k: int| 0 <= k < i + 1 && y == h2p_of(#[trigger] eview[k]) {
                        let k = choose|k: int|
                            0 <= k < i + 1 && y == h2p_of(#[trigger] eview[k]);
                        if k < i {
                            assert(pre.has(y));
                        } else {
                            assert(k == i);
                            assert(y == h2p_of(eview[i as int]));
                            assert(self.has(y));
                        }
                    }
                }
                assert(added_upto(orig, *self, eview, i + 1));
            }
            i = i + 1;
        }
        let p = crate::arith::big_product(&adds);
        let f = Field::new(&self.modulus);
        let newval = f.exp(&self.value, &p);
        proof {
            crate::bignum::lemma_fits_bound(&self.modulus, 256);
        }
        let ghost built = *self;
        self.value = newval;
        proof {
            crate::bignum::lemma_fits(&self.value, 256);
            assert(self.member_seq() =~= built.member_seq());
            if orig.exact() {
                lemma_pow_mod_compose(
                    orig.generator@,
                    prod_seq(orig.member_seq()),
                    p@,
                    orig.modulus@,
                );
            }
            let eview = elements@.map_values(|e: Vec<u8>| e@);
            assert(added_upto(orig, built, eview, elements@.len() as int));
            assert forall|y: nat|
                final(self).has(y) <==> (old(self).has(y) || exists|k: int|
                    0 <= k < elements@.len() && y == h2p_of(#[trigger] elements@[k]@)) by {
                assert(self.has(y) == built.has(y));
                if exists|k: int| 0 <= k < elements@.len() && y == h2p_of(#[trigger] elements@[k]@) {
                    let k = choose|k: int|
                        0 <= k < elements@.len() && y == h2p_of(#[trigger] elements@[k]@);
                    assert(eview[k] == elements@[k]@);
                    assert(y == h2p_of(eview[k]));
                }
                if exists|k: int| 0 <= k < eview.len() && y == h2p_of(#[trigger] eview[k]) {
                    let k = choose|k: int| 0 <= k < eview.len() && y == h2p_of(#[trigger] eview[k]);
                    assert(eview[k] == elements@[k]@);
                    assert(y == h2p_of(elements@[k]@));
                }
            }
        }
    }

    /// Remove several values at once with the secret key; fails without
    /// touching the state if any of them is absent, and otherwise divides
    /// the combined exponent out of the value in one step.
    #[verifier::rlimit(50)]
    pub fn remove_batch(&mut self, key: &AccumulatorSecretKey, elements: &Vec<Vec<u8>>) -> (r:
        Result<(), AccumulatorError>)
        requires
            old(self).wf(),
            key.wf(),
            elements@.len() <= 0xFFFF_FFFF,
        ensures
            final(self).wf(),
            final(self).generator@ == old(self).generator@,
            final(self).modulus@ == old(self).modulus@,
            (r is Ok) == ((forall|k: int|
                0 <= k < elements@.len() ==> old(self).has(h2p_of(#[trigger] elements@[k]@)))
                && (exists|rs: Seq<nat>|
                #[trigger] hashes_sorted(views_of_elements(elements@), rs)
                    && crate::arith::spec_gcd(
                    prod_seq(rs) % key.spec_totient(),
                    key.spec_totient(),
                ) == 1)),
            r matches Err(e) ==> *final(self) == *old(self) && (e.kind
                == AccumulatorErrorKind::InvalidMemberSupplied <==> exists|k: int|
                0 <= k < elements@.len() && !old(self).has(h2p_of(#[trigger] elements@[k]@))),
            r is Ok ==> forall|k: int|
                0 <= k < elements@.len() ==> old(self).has(h2p_of(#[trigger] elements@[k]@)),
            r is Ok ==> forall|y: nat|
                final(self).has(y) <==> (old(self).has(y) && !(exists|k: int|
                    0 <= k < elements@.len() && y == h2p_of(#[trigger] elements@[k]@))),
            r is Ok ==> exists|e: nat, inv: nat|
                crate::arith::is_inv_mod(e, inv, key.spec_totient()) && final(self).value@
                    == pow_mod(old(self).value@, inv, old(self).modulus@),
    {
        proof {
            crate::key::lemma_totient_large(key);
        }
        // hash and deduplicate the elements to remove
        let mut xs: Vec<Bignum> = Vec::new();
        let mut i: usize = 0;
        while i < elements.len()
            invariant
                0 <= i <= elements@.len(),
                elements@.len() <= 0xFFFF_FFFF,
                xs@.len() <= i,
                forall|j: int| 0 <= j < xs@.len() ==> (#[trigger] xs@[j]).wf() && xs@[j].fits(32),
                strictly_sorted(views_of(xs@)),
                forall|y: nat|
                    views_of(xs@).contains(y) <==> exists|k: int|
                        0 <= k < i && y == h2p_of(#[trigger] elements@[k]@),
            decreases elements@.len() - i,
        {
            let x = hash_to_prime(elements[i].as_slice());
            proof {
                crate::bignum::lemma_fits(&x, 32);
            }
            let ghost pre = views_of(xs@);
            insert_sorted(&mut xs, x);
            proof {
                assert forall|y: nat|
                    views_of(xs@).contains(y) <==> exists|k: int|
                        0 <= k < i + 1 && y == h2p_of(#[trigger] elements@[k]@) by {
                    if views_of(xs@).contains(y) {
                        if pre.contains(y) {
                            let k = choose|k: int|
                                0 <= k < i && y == h2p_of(#[trigger] elements@[k]@);
                            assert(0 <= k < i + 1 && y == h2p_of(elements@[k]@));
                        } else {
                            assert(y == h2p_of(elements@[i as int]@));
                        }
                    }
                    if exists|k: int| 0 <= k < i + 1 && y == h2p_of(#[trigger] elements@[k]@) {
                        let k = choose|k: int|
                            0 <= k < i + 1 && y == h2p_of(#[trigger] elements@[k]@);
                        if k < i {
                            assert(pre.contains(y));
                        }
                    }
                }
            }
            i = i + 1;
        }
        // all must be present before anything is touched
        let mut i: usize = 0;
        while i < xs.len()
            invariant
                self.wf(),
                *self == *old(self),
                forall|j: int| 0 <= j < xs@.len() ==> (#[trigger] xs@[j]).wf() && xs@[j].fits(32),
                0 <= i <= xs@.len(),
                forall|y: nat|
                    views_of(xs@).contains(y) <==> exists|k: int|
                        0 <= k < elements@.len() && y == h2p_of(#[trigger] elements@[k]@),
                forall|j: int| 0 <= j < i ==> self.has(#[trigger] views_of(xs@)[j]),
            decreases xs@.len() - i,
        {
            if !self.contains_prime(&xs[i]) {
                proof {
                    let y = views_of(xs@)[i as int];
                    assert(views_of(xs@).contains(y));
                    let k = choose|k: int|
                        0 <= k < elements@.len() && y == h2p_of(#[trigger] elements@[k]@);
                    assert(!old(self).has(h2p_of(elements@[k]@)));
                }
                return Err(AccumulatorError::from_msg(
                    AccumulatorErrorKind::InvalidMemberSupplied,
                    "a value to remove is not in the accumulator",
                ));
            }
            i = i + 1;
        }
        proof {
            assert forall|k: int|
                0 <= k < elements@.len() implies old(self).has(
                h2p_of(#[trigger] elements@[k]@),
            ) by {
                let y = h2p_of(elements@[k]@);
                assert(views_of(xs@).contains(y));
                let j = choose|j: int| 0 <= j < views_of(xs@).len() && views_of(xs@)[j] == y;
                assert(self.has(views_of(xs@)[j]));
            }
        }
        let ghost eview = views_of_elements(elements@);
        let ghost vxs = views_of(xs@);
        proof {
            assert(hashes_sorted(eview, vxs)) by {
                assert forall|y: nat|
                    #[trigger] vxs.contains(y) <==> exists|k: int|
                        0 <= k < eview.len() && y == h2p_of(#[trigger] eview[k]) by {
                    if vxs.contains(y) {
                        let k = choose|k: int|
                            0 <= k < elements@.len() && y == h2p_of(#[trigger] elements@[k]@);
                        assert(eview[k] == elements@[k]@);
                        assert(y == h2p_of(eview[k]));
                    }
                    if exists|k: int| 0 <= k < eview.len() && y == h2p_of(#[trigger] eview[k]) {
                        let k = choose|k: int|
                            0 <= k < eview.len() && y == h2p_of(#[trigger] eview[k]);
                        assert(eview[k] == elements@[k]@);
                        assert(y == h2p_of(elements@[k]@));
                        assert(vxs.contains(y));
                    }
                }
            }
        }
        let tot = key.totient();
        let ftot = Field::new(&tot);
        let p = ftot.product_mod(&xs);
        let invp = match crate::arith::big_mod_inv(&p, &tot) {
            Some(v) => v,
            None => {
                proof {
                    assert(!(exists|rs: Seq<nat>|
                        #[trigger] hashes_sorted(eview, rs) && crate::arith::spec_gcd(
                            prod_seq(rs) % key.spec_totient(),
                            key.spec_totient(),
                        ) == 1)) by {
                        if exists|rs: Seq<nat>|
                            #[trigger] hashes_sorted(eview, rs) && crate::arith::spec_gcd(
                                prod_seq(rs) % key.spec_totient(),
                                key.spec_totient(),
                            ) == 1 {
                            let rs = choose|rs: Seq<nat>|
                                #[trigger] hashes_sorted(eview, rs) && crate::arith::spec_gcd(
                                    prod_seq(rs) % key.spec_totient(),
                                    key.spec_totient(),
                                ) == 1;
                            assert(rs.to_set() =~= vxs.to_set()) by {
                                assert forall|y: nat| rs.to_set().contains(y) implies vxs.to_set(
                                ).contains(y) by {
                                    assert(rs.contains(y));
                                    assert(vxs.contains(y));
                                }
                                assert forall|y: nat| vxs.to_set().contains(y) implies rs.to_set(
                                ).contains(y) by {
                                    assert(vxs.contains(y));
                                    assert(rs.contains(y));
                                }
                            }
                            crate::arith::lemma_sorted_unique(rs, vxs);
                            assert(false);
                        }
                    }
                }
                return Err(AccumulatorError::from_msg(
                    AccumulatorErrorKind::InvalidType,
                    "combined exponent has no inverse modulo the totient",
                ));
            },
        };
        proof {
            assert(hashes_sorted(eview, vxs) && crate::arith::spec_gcd(
                prod_seq(vxs) % key.spec_totient(),
                key.spec_totient(),
            ) == 1);
        }
        let f = Field::new(&self.modulus);
        let newval = f.exp(&self.value, &invp);
        proof {
            crate::bignum::lemma_fits_bound(&self.modulus, 256);
        }
        let ghost orig = *self;
        self.value = newval;
        proof {
            crate::bignum::lemma_fits(&self.value, 256);
        }
        let ghost mid = *self;
        // drop each removed prime from the member list
        let mut i: usize = 0;
        while i < xs.len()
            invariant
                self.wf(),
                forall|j: int| 0 <= j < xs@.len() ==> (#[trigger] xs@[j]).wf() && xs@[j].fits(32),
                0 <= i <= xs@.len(),
                self.generator == orig.generator,
                self.modulus == orig.modulus,
                self.value == mid.value,
                removed_upto(orig, *self, views_of(xs@), i as int),
            decreases xs@.len() - i,
        {
            let ghost pre = *self;
            proof {
                assert(removed_upto(orig, pre, views_of(xs@), i as int));
                assert(forall|y: nat|
                    pre.has(y) <==> (orig.has(y) && !(exists|j: int|
                        0 <= j < i && y == #[trigger] views_of(xs@)[j])));
            }
            let k = self.find_index(&xs[i]);
            let present = if k < self.members.len() {
                self.members[k].eq_value(&xs[i])
            } else {
                false
            };
            proof {
                crate::witness::lemma_find_settles(self, &xs@[i as int], k as int, present);
            }
            if present {
                self.members.remove(k);
                proof {
                    assert(self.member_seq() =~= pre.member_seq().remove(k as int));
                    let s = self.member_seq();
                    let ps = pre.member_seq();
                    assert forall|a: int, b: int| 0 <= a < b < s.len() implies s[a] < s[b] by {
                        if b < k {
                        } else if a < k {
                            assert(s[a] == ps[a] && s[b] == ps[b + 1]);
                        } else {
                            assert(s[a] == ps[a + 1] && s[b] == ps[b + 1]);
                        }
                    }
                    assert forall|y: nat| self.has(y) <==> (pre.has(y) && y != views_of(xs@)[i as int]) by {
                        if s.contains(y) {
                            let j = choose|j: int| 0 <= j < s.len() && s[j] == y;
                            if j < k {
                                assert(ps[j] == y);
                                assert(ps[j] < ps[k as int]);
                            } else {
                                assert(ps[j + 1] == y);
                                assert(ps[k as int] < ps[j + 1]);
                            }
                        }
                        if pre.has(y) && y != views_of(xs@)[i as int] {
                            let j = choose|j: int| 0 <= j < ps.len() && ps[j] == y;
                            if j < k {
                                assert(s[j] == y);
                            } else if j > k {
                                assert(s[j - 1] == y);
                            }
                        }
                    }
                }
            }
            proof {
                let vi = views_of(xs@)[i as int];
                assert(vi == xs@[i as int]@);
                if !present {
                    assert(*self == pre);
                    assert(!pre.has(vi));
                }
                assert(removed_upto(orig, *self, views_of(xs@), i + 1)) by {
                    assert forall|y: nat|
                        self.has(y) <==> (orig.has(y) && !(exists|j: int|
                            0 <= j < i + 1 && y == #[trigger] views_of(xs@)[j])) by {
                        if self.has(y) {
                            assert(pre.has(y));
                            assert(y != vi);
                            assert(orig.has(y));
                            if exists|j: int| 0 <= j < i + 1 && y == #[trigger] views_of(xs@)[j] {
                                let j = choose|j: int|
                                    0 <= j < i + 1 && y == #[trigger] views_of(xs@)[j];
                                if j < i {
                                    assert(!pre.has(y));
                                } else {
                                    assert(y == vi);
                                }
                                assert(false);
                            }
                        }
                        if orig.has(y) && !(exists|j: int|
                            0 <= j < i + 1 && y == #[trigger] views_of(xs@)[j]) {
                            assert(!(exists|j: int| 0 <= j < i && y == views_of(xs@)[j]));
                            assert(pre.has(y));
                            assert(y != vi);
                            assert(self.has(y));
                        }
                    }
                }
            }
            i = i + 1;
        }
        proof {
            assert forall|y: nat|
                self.has(y) <==> (orig.has(y) && !(exists|k: int|
                    0 <= k < elements@.len() && y == h2p_of(#[trigger] elements@[k]@))) by {
                if orig.has(y) {
                    if exists|k: int|
                        0 <= k < elements@.len() && y == h2p_of(#[trigger] elements@[k]@) {
                        assert(views_of(xs@).contains(y));
                        let j = choose|j: int|
                            0 <= j < views_of(xs@).len() && views_of(xs@)[j] == y;
                        assert(!self.has(y));
                    }
                    if !self.has(y) {
                        let j = choose|j: int|
                            0 <= j < views_of(xs@).len() && y == views_of(xs@)[j];
                        assert(views_of(xs@).contains(y));
                    }
                }
            }
            assert(crate::arith::is_inv_mod(p@, invp@, key.spec_totient()) && final(self).value@
                == pow_mod(old(self).value@, invp@, old(self).modulus@));
        }
        Ok(())
    }
}

impl PartialEq for Accumulator {
    fn eq(&self, other: &Accumulator) -> (r: bool) {
        if !(crate::codec::bytes_eq(self.generator.bytes.as_slice(), other.generator.bytes.as_slice())
            && crate::codec::bytes_eq(self.modulus.bytes.as_slice(), other.modulus.bytes.as_slice())
            && crate::codec::bytes_eq(self.value.bytes.as_slice(), other.value.bytes.as_slice())
            && self.members.len() == other.members.len()) {
            return false;
        }
        let mut i: usize = 0;
        while i < self.members.len()
            invariant
                0 <= i <= self.members@.len(),
                self.members@.len() == other.members@.len(),
                forall|j: int| 0 <= j < i ==> (#[trigger] self.members@[j]).bytes@
                    =~= other.members@[j].bytes@,
            decreases self.members@.len() - i,
        {
            if !crate::codec::bytes_eq(
                self.members[i].bytes.as_slice(),
                other.members[i].bytes.as_slice(),
            ) {
                return false;
            }
            i = i + 1;
        }
        true
    }
}

impl vstd::std_specs::cmp::PartialEqSpecImpl for Accumulator {
    open spec fn obeys_eq_spec() -> bool {
        true
    }

    open spec fn eq_spec(&self, other: &Accumulator) -> bool {
        &&& self.generator.bytes@ =~= other.generator.bytes@
        &&& self.modulus.bytes@ =~= other.modulus.bytes@
        &&& self.value.bytes@ =~= other.value.bytes@
        &&& self.members@.len() == other.members@.len()
        &&& forall|j: int|
            0 <= j < self.members@.len() ==> (#[trigger] self.members@[j]).bytes@
                =~= other.members@[j].bytes@
    }
}

impl Eq for Accumulator {

}

/// Insert `x` into a strictly sorted list of well-formed numbers, unless
/// it is already there.
pub fn insert_sorted(members: &mut Vec<Bignum>, x: Bignum)
    requires
        forall|i: int|
            0 <= i < old(members)@.len() ==> (#[trigger] old(members)@[i]).wf()
                && old(members)@[i].fits(32),
        strictly_sorted(views_of(old(members)@)),
        x.wf(),
        x.fits(32),
        old(members)@.len() < 0xFFFF_FFFF,
    ensures
        forall|i: int|
            0 <= i < final(members)@.len() ==> (#[trigger] final(members)@[i]).wf()
                && final(members)@[i].fits(32),
        strictly_sorted(views_of(final(members)@)),
        views_of(final(members)@).contains(x@),
        final(members)@.len() <= old(members)@.len() + 1,
        views_of(old(members)@).contains(x@) ==> views_of(final(members)@) =~= views_of(
            old(members)@,
        ),
        !views_of(old(members)@).contains(x@) ==> exists|k: int|
            0 <= k <= old(members)@.len() && views_of(final(members)@) =~= views_of(
                old(members)@,
            ).insert(k, x@),
        forall|y: nat|
            views_of(final(members)@).contains(y) <==> (views_of(old(members)@).contains(y) || y
                == x@),
{
    let mut i: usize = 0;
    while i < members.len() && members[i].lt(&x)
        invariant
            forall|j: int|
                0 <= j < members@.len() ==> (#[trigger] members@[j]).wf() && members@[j].fits(32),
            strictly_sorted(views_of(members@)),
            x.wf(),
            0 <= i <= members@.len(),
            forall|j: int| 0 <= j < i ==> views_of(members@)[j] < x@,
        decreases members@.len() - i,
    {
        i = i + 1;
    }
    proof {
        if i < members@.len() {
            assert forall|j: int| i <= j < members@.len() implies views_of(members@)[j] >= x@ by {
                if j > i {
                    assert(views_of(members@)[i as int] < views_of(members@)[j]);
                }
            }
        }
    }
    let present = if i < members.len() {
        members[i].eq_value(&x)
    } else {
        false
    };
    proof {
        let pre = views_of(members@);
        if present {
            assert(pre[i as int] == x@);
        } else if pre.contains(x@) {
            let j = choose|j: int| 0 <= j < pre.len() && pre[j] == x@;
            if j > i {
                assert(pre[i as int] < pre[j]);
            } else if j < i {
                assert(pre[j] < x@);
            }
        }
    }
    if !present {
        let ghost pre = views_of(members@);
        members.insert(i, x);
        proof {
            assert(views_of(members@) =~= pre.insert(i as int, x@));
            assert(strictly_sorted(views_of(members@))) by {
                let s = views_of(members@);
                assert forall|a: int, b: int| 0 <= a < b < s.len() implies s[a] < s[b] by {
                    if a == i {
                        assert(s[b] == pre[b - 1] && pre[b - 1] >= x@ && pre[b - 1] != x@);
                    } else if b == i {
                        assert(s[a] == pre[a] && pre[a] < x@);
                    } else if a < i && b > i {
                        assert(s[a] == pre[a] && s[b] == pre[b - 1]);
                        assert(pre[a] < x@ && pre[b - 1] >= x@ && pre[b - 1] != x@);
                    } else if b < i {
                        assert(s[a] == pre[a] && s[b] == pre[b]);
                    } else {
                        assert(s[a] == pre[a - 1] && s[b] == pre[b - 1]);
                    }
                }
            }
            assert forall|y: nat|
                views_of(members@).contains(y) <==> (pre.contains(y) || y == x@) by {
                let s = views_of(members@);
                if s.contains(y) {
                    let j = choose|j: int| 0 <= j < s.len() && s[j] == y;
                    if j < i {
                        assert(pre[j] == y);
                    } else if j > i {
                        assert(pre[j - 1] == y);
                    }
                }
                if pre.contains(y) {
                    let j = choose|j: int| 0 <= j < pre.len() && pre[j] == y;
                    if j < i {
                        assert(s[j] == y);
                    } else {
                        assert(s[j + 1] == y);
                    }
                }
                if y == x@ {
                    assert(s[i as int] == y);
                }
            }
        }
    } else {
        proof {
            assert(views_of(members@).contains(x@));
        }
    }
}

/// Raising an exact value to a fresh prime keeps it exact.
proof fn lemma_insert_exact(pre: Accumulator, post: Accumulator, x: nat)
    requires
        pre.wf(),
        pre.exact(),
        !pre.has(x),
        Accumulator::spec_inserted(pre, post, x),
    ensures
        post.exact(),
{
    let k = choose|k: int|
        0 <= k <= pre.member_seq().len() && post.member_seq() =~= pre.member_seq().insert(k, x);
    lemma_prod_insert(pre.member_seq(), k, x);
    lemma_pow_mod_compose(pre.generator@, prod_seq(pre.member_seq()), x, pre.modulus@);
}

} // verus!
