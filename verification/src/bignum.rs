//! Arbitrary-precision numbers as the crate's contracts see them: an
//! unsigned number is its minimal big-endian byte string, viewed as a `nat`;
//! a signed number is a sign and a magnitude, viewed as an `int`.
use vstd::prelude::*;
use crate::codec::{
    be_nat, minimal_be, lemma_be_nat_minimal_unique, lemma_be_nat_shorter_smaller,
    lemma_be_nat_lex, lemma_be_nat_fixed_unique, lemma_be_nat_pad, lemma_be_nat_bound, bytes_eq,
};
use vstd::arithmetic::power::pow;

verus! {

/// An unsigned big number, stored as its minimal big-endian byte string.
#[derive(Debug, Clone)]
pub struct Bignum {
    /// Big-endian bytes with no leading zero; empty for zero.
    pub bytes: Vec<u8>,
}

impl View for Bignum {
    type V = nat;

    open spec fn view(&self) -> nat {
        be_nat(self.bytes@)
    }
}

impl Bignum {
    /// The stored bytes are a minimal encoding.
    pub open spec fn wf(&self) -> bool {
        minimal_be(self.bytes@)
    }

    /// Build a number from big-endian bytes, stripping leading zeros.
    pub fn from_be_bytes(data: &[u8]) -> (r: Bignum)
        ensures
            r.wf(),
            r@ == be_nat(data@),
    {
        let mut i: usize = 0;
        while i < data.len() && data[i] == 0
            invariant
                0 <= i <= data@.len(),
                forall|j: int| 0 <= j < i ==> data@[j] == 0,
            decreases data@.len() - i,
        {
            i = i + 1;
        }
        let bytes = crate::codec::sub_bytes(data, i, data.len());
        proof {
            let z = data@.subrange(0, i as int);
            assert(data@ =~= z + bytes@);
            lemma_be_nat_pad(z, bytes@);
        }
        Bignum { bytes }
    }

    /// The number zero.
    pub fn zero() -> (r: Bignum)
        ensures
            r.wf(),
            r@ == 0,
    {
        Bignum { bytes: Vec::new() }
    }

    /// The number one.
    pub fn one() -> (r: Bignum)
        ensures
            r.wf(),
            r@ == 1,
    {
        let mut bytes: Vec<u8> = Vec::new();
        bytes.push(1u8);
        proof {
            assert(bytes@.drop_last() =~= Seq::<u8>::empty());
            assert(be_nat(Seq::<u8>::empty()) == 0);
        }
        Bignum { bytes }
    }

    /// An explicit copy whose bytes are known to be the same.
    pub fn duplicate(&self) -> (r: Bignum)
        ensures
            r.bytes@ =~= self.bytes@,
            r@ == self@,
            r.wf() == self.wf(),
    {
        let bytes = crate::codec::sub_bytes(self.bytes.as_slice(), 0, self.bytes.len());
        proof {
            assert(bytes@ =~= self.bytes@);
        }
        Bignum { bytes }
    }

    /// Build a number from a machine word.
    pub fn from_u64(x: u64) -> (r: Bignum)
        ensures
            r.wf(),
            r@ == x,
    {
        let bytes = crate::codec::u64_to_be_bytes(x);
        Bignum::from_be_bytes(bytes.as_slice())
    }

    /// Left-pad the bytes to a fixed width.
    pub fn to_fixed_bytes(&self, width: usize) -> (r: Vec<u8>)
        requires
            self.bytes@.len() <= width,
        ensures
            r@.len() == width,
            be_nat(r@) == self@,
            r@ =~= crate::codec::fixed_bytes_of(self@, width as nat),
    {
        let mut out: Vec<u8> = Vec::new();
        let pad = width - self.bytes.len();
        let mut i: usize = 0;
        while i < pad
            invariant
                0 <= i <= pad,
                out@.len() == i,
                forall|j: int| 0 <= j < i ==> out@[j] == 0,
            decreases pad - i,
        {
            out.push(0u8);
            i = i + 1;
        }
        let ghost z = out@;
        let mut i: usize = 0;
        while i < self.bytes.len()
            invariant
                0 <= i <= self.bytes@.len(),
                out@ =~= z + self.bytes@.subrange(0, i as int),
            decreases self.bytes@.len() - i,
        {
            out.push(self.bytes[i]);
            i = i + 1;
        }
        proof {
            assert(out@ =~= z + self.bytes@);
            lemma_be_nat_pad(z, self.bytes@);
            crate::codec::lemma_fixed_bytes_of(self@, width as nat);
            lemma_be_nat_bound(self.bytes@);
            vstd::arithmetic::power::lemma_pow_increases(
                256,
                self.bytes@.len() as nat,
                width as nat,
            );
            vstd::arithmetic::div_mod::lemma_small_mod(self@, pow(256, width as nat) as nat);
            crate::codec::lemma_be_nat_fixed_unique(
                out@,
                crate::codec::fixed_bytes_of(self@, width as nat),
            );
        }
        out
    }

    /// Whether this number is zero.
    pub fn is_zero(&self) -> (r: bool)
        requires
            self.wf(),
        ensures
            r == (self@ == 0),
    {
        proof {
            if self.bytes@.len() > 0 {
                crate::codec::lemma_be_nat_lower(self.bytes@);
                vstd::arithmetic::power::lemma_pow_positive(256, (self.bytes@.len() - 1) as nat);
            }
        }
        self.bytes.len() == 0
    }

    /// Strict order on the encoded values.
    pub fn lt(&self, other: &Bignum) -> (r: bool)
        requires
            self.wf(),
            other.wf(),
        ensures
            r == (self@ < other@),
    {
        if self.bytes.len() < other.bytes.len() {
            proof {
                lemma_be_nat_shorter_smaller(self.bytes@, other.bytes@);
            }
            return true;
        }
        if other.bytes.len() < self.bytes.len() {
            proof {
                lemma_be_nat_shorter_smaller(other.bytes@, self.bytes@);
            }
            return false;
        }
        let mut i: usize = 0;
        while i < self.bytes.len()
            invariant
                0 <= i <= self.bytes@.len(),
                self.bytes@.len() == other.bytes@.len(),
                self.bytes@.subrange(0, i as int) =~= other.bytes@.subrange(0, i as int),
            decreases self.bytes@.len() - i,
        {
            if self.bytes[i] < other.bytes[i] {
                proof {
                    lemma_be_nat_lex(self.bytes@, other.bytes@, i as int);
                }
                return true;
            }
            if other.bytes[i] < self.bytes[i] {
                proof {
                    lemma_be_nat_lex(other.bytes@, self.bytes@, i as int);
                }
                return false;
            }
            proof {
                assert(self.bytes@.subrange(0, i + 1) =~= other.bytes@.subrange(0, i + 1));
            }
            i = i + 1;
        }
        proof {
            assert(self.bytes@.subrange(0, self.bytes@.len() as int) =~= self.bytes@);
            assert(other.bytes@.subrange(0, other.bytes@.len() as int) =~= other.bytes@);
            assert(self.bytes@ =~= other.bytes@);
        }
        false
    }

    /// Equality of the encoded values.
    pub fn eq_value(&self, other: &Bignum) -> (r: bool)
        requires
            self.wf(),
            other.wf(),
        ensures
            r == (self@ == other@),
    {
        proof {
            if self.bytes@ =~= other.bytes@ {
            } else if self@ == other@ {
                lemma_be_nat_minimal_unique(self.bytes@, other.bytes@);
            }
        }
        bytes_eq(self.bytes.as_slice(), other.bytes.as_slice())
    }

    /// The value is below the range of a `width`-byte field.
    pub open spec fn fits(&self, width: nat) -> bool {
        self.bytes@.len() <= width
    }
}

/// Equal values have equal minimal byte strings.
pub proof fn lemma_bignum_eq(a: &Bignum, b: &Bignum)
    requires
        a.wf(),
        b.wf(),
        a@ == b@,
    ensures
        a.bytes@ =~= b.bytes@,
{
    lemma_be_nat_minimal_unique(a.bytes@, b.bytes@);
}

/// A well-formed number below `pow(256, w)` fits in a `w`-byte field.
pub proof fn lemma_fits(a: &Bignum, w: nat)
    requires
        a.wf(),
        a@ < pow(256, w),
    ensures
        a.fits(w),
{
    if a.bytes@.len() > w {
        crate::codec::lemma_be_nat_lower(a.bytes@);
        vstd::arithmetic::power::lemma_pow_increases(256, w, (a.bytes@.len() - 1) as nat);
    }
}

/// A well-formed number fitting in a `w`-byte field is below `pow(256, w)`.
pub proof fn lemma_fits_bound(a: &Bignum, w: nat)
    requires
        a.fits(w),
    ensures
        a@ < pow(256, w),
{
    lemma_be_nat_bound(a.bytes@);
    vstd::arithmetic::power::lemma_pow_increases(256, a.bytes@.len() as nat, w);
}

impl PartialEq for Bignum {
    fn eq(&self, other: &Bignum) -> (r: bool) {
        bytes_eq(self.bytes.as_slice(), other.bytes.as_slice())
    }
}

impl vstd::std_specs::cmp::PartialEqSpecImpl for Bignum {
    open spec fn obeys_eq_spec() -> bool {
        true
    }

    open spec fn eq_spec(&self, other: &Bignum) -> bool {
        self.bytes@ =~= other.bytes@
    }
}

impl Eq for Bignum {

}

/// A signed big number: a sign and an unsigned magnitude.
#[derive(Debug, Clone)]
pub struct SignedBignum {
    /// True for a value below zero.
    pub negative: bool,
    /// The absolute value.
    pub magnitude: Bignum,
}

impl View for SignedBignum {
    type V = int;

    open spec fn view(&self) -> int {
        if self.negative {
            -(self.magnitude@ as int)
        } else {
            self.magnitude@ as int
        }
    }
}

impl SignedBignum {
    /// The magnitude is minimal and zero is not negative.
    pub open spec fn wf(&self) -> bool {
        &&& self.magnitude.wf()
        &&& (self.magnitude@ == 0 ==> !self.negative)
    }

    /// Wrap an unsigned number as non-negative.
    pub fn from_bignum(m: Bignum) -> (r: SignedBignum)
        requires
            m.wf(),
        ensures
            r.wf(),
            r@ == m@,
            r.magnitude@ == m@,
    {
        SignedBignum { negative: false, magnitude: m }
    }

    /// Wrap a magnitude with an explicit sign, normalizing a zero.
    pub fn from_sign_magnitude(negative: bool, m: Bignum) -> (r: SignedBignum)
        requires
            m.wf(),
        ensures
            r.wf(),
            r@ == if negative {
                -(m@ as int)
            } else {
                m@ as int
            },
            r.magnitude@ == m@,
    {
        let z = m.is_zero();
        SignedBignum { negative: negative && !z, magnitude: m }
    }

}

impl PartialEq for SignedBignum {
    fn eq(&self, other: &SignedBignum) -> (r: bool) {
        self.negative == other.negative && bytes_eq(
            self.magnitude.bytes.as_slice(),
            other.magnitude.bytes.as_slice(),
        )
    }
}

impl vstd::std_specs::cmp::PartialEqSpecImpl for SignedBignum {
    open spec fn obeys_eq_spec() -> bool {
        true
    }

    open spec fn eq_spec(&self, other: &SignedBignum) -> bool {
        self.negative == other.negative && self.magnitude.bytes@ =~= other.magnitude.bytes@
    }
}

impl Eq for SignedBignum {

}

} // verus!
