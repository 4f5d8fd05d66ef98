//! Big-endian byte encoding of natural numbers, with the lemmas that the
//! rest of the crate needs: bounds, concatenation, zero padding, uniqueness
//! of fixed-width and of minimal encodings, and lexicographic ordering.
use vstd::prelude::*;
use vstd::arithmetic::power::{pow, lemma_pow_adds, lemma_pow_positive, lemma_pow0, lemma_pow1};

verus! {

/// The natural number encoded by a big-endian byte string.
pub open spec fn be_nat(s: Seq<u8>) -> nat
    decreases s.len(),
{
    if s.len() == 0 {
        0
    } else {
        be_nat(s.drop_last()) * 256 + s.last() as nat
    }
}

/// The minimal (no leading zero) big-endian encoding of a natural number.
pub open spec fn min_bytes_of(n: nat) -> Seq<u8>
    decreases n,
{
    if n == 0 {
        Seq::<u8>::empty()
    } else {
        min_bytes_of(n / 256).push((n % 256) as u8)
    }
}

/// A byte string is minimal when it has no leading zero byte.
pub open spec fn minimal_be(s: Seq<u8>) -> bool {
    s.len() == 0 || s[0] != 0
}

/// The unique `w`-byte big-endian encoding of `n % pow(256, w)`.
pub open spec fn fixed_bytes_of(n: nat, w: nat) -> Seq<u8>
    decreases w,
{
    if w == 0 {
        Seq::<u8>::empty()
    } else {
        fixed_bytes_of(n / 256, (w - 1) as nat).push((n % 256) as u8)
    }
}

pub proof fn lemma_fixed_bytes_of(n: nat, w: nat)
    ensures
        fixed_bytes_of(n, w).len() == w,
        be_nat(fixed_bytes_of(n, w)) == n % (pow(256, w) as nat),
    decreases w,
{
    if w == 0 {
        lemma_pow0(256);
        assert(n % 1 == 0) by (nonlinear_arith);
    } else {
        lemma_fixed_bytes_of(n / 256, (w - 1) as nat);
        let s = fixed_bytes_of(n, w);
        assert(s.drop_last() =~= fixed_bytes_of(n / 256, (w - 1) as nat));
        assert(be_nat(s) == ((n / 256) % (pow(256, (w - 1) as nat) as nat)) * 256 + n % 256);
        lemma_pow1(256);
        lemma_pow_adds(256, 1, (w - 1) as nat);
        lemma_pow_positive(256, (w - 1) as nat);
        vstd::arithmetic::div_mod::lemma_mod_breakdown(
            n as int,
            256,
            pow(256, (w - 1) as nat) as int,
        );
    }
}

pub proof fn lemma_be_nat_bound(s: Seq<u8>)
    ensures
        be_nat(s) < pow(256, s.len() as nat),
    decreases s.len(),
{
    if s.len() == 0 {
        lemma_pow0(256);
    } else {
        lemma_be_nat_bound(s.drop_last());
        assert(pow(256, s.len() as nat) == pow(256, (s.len() - 1) as nat) * 256) by {
            lemma_pow_adds(256, (s.len() - 1) as nat, 1);
            lemma_pow1(256);
        }
        assert(be_nat(s.drop_last()) * 256 + s.last() < pow(256, (s.len() - 1) as nat) * 256) by {
            assert(be_nat(s.drop_last()) + 1 <= pow(256, (s.len() - 1) as nat));
            assert((be_nat(s.drop_last()) + 1) * 256 <= pow(256, (s.len() - 1) as nat) * 256)
                by (nonlinear_arith)
                requires
                    be_nat(s.drop_last()) + 1 <= pow(256, (s.len() - 1) as nat),
            ;
        }
    }
}

pub proof fn lemma_be_nat_concat(a: Seq<u8>, b: Seq<u8>)
    ensures
        be_nat(a + b) == be_nat(a) * pow(256, b.len() as nat) + be_nat(b),
    decreases b.len(),
{
    if b.len() == 0 {
        assert(a + b =~= a);
        lemma_pow0(256);
    } else {
        lemma_be_nat_concat(a, b.drop_last());
        assert((a + b).drop_last() =~= a + b.drop_last());
        assert((a + b).last() == b.last());
        assert(pow(256, b.len() as nat) == pow(256, (b.len() - 1) as nat) * 256) by {
            lemma_pow_adds(256, (b.len() - 1) as nat, 1);
            lemma_pow1(256);
        }
        assert(be_nat(a + b) == (be_nat(a) * pow(256, (b.len() - 1) as nat) + be_nat(b.drop_last()))
            * 256 + b.last());
        assert(be_nat(a) * pow(256, (b.len() - 1) as nat) * 256 == be_nat(a) * (pow(256, (b.len()
            - 1) as nat) * 256) && (be_nat(a) * pow(256, (b.len() - 1) as nat) + be_nat(
            b.drop_last())) * 256 == be_nat(a) * pow(256, (b.len() - 1) as nat) * 256 + be_nat(
            b.drop_last()) * 256) by (nonlinear_arith);
    }
}

pub proof fn lemma_be_nat_zeros(s: Seq<u8>)
    requires
        forall|i: int| 0 <= i < s.len() ==> s[i] == 0,
    ensures
        be_nat(s) == 0,
    decreases s.len(),
{
    if s.len() > 0 {
        lemma_be_nat_zeros(s.drop_last());
    }
}

/// Left-padding with zero bytes does not change the encoded value.
pub proof fn lemma_be_nat_pad(z: Seq<u8>, s: Seq<u8>)
    requires
        forall|i: int| 0 <= i < z.len() ==> z[i] == 0,
    ensures
        be_nat(z + s) == be_nat(s),
{
    lemma_be_nat_concat(z, s);
    lemma_be_nat_zeros(z);
}

/// A nonzero leading byte forces the encoded value up to its weight.
pub proof fn lemma_be_nat_lower(s: Seq<u8>)
    requires
        s.len() > 0,
        s[0] != 0,
    ensures
        be_nat(s) >= pow(256, (s.len() - 1) as nat),
{
    let head = s.subrange(0, 1);
    let tail = s.subrange(1, s.len() as int);
    assert(s =~= head + tail);
    lemma_be_nat_concat(head, tail);
    assert(head.drop_last() =~= Seq::<u8>::empty());
    assert(be_nat(Seq::<u8>::empty()) == 0);
    assert(be_nat(head) == s[0]);
    assert(be_nat(head) >= 1);
    lemma_pow_positive(256, tail.len() as nat);
    assert(be_nat(head) * pow(256, tail.len() as nat) >= pow(256, tail.len() as nat))
        by (nonlinear_arith)
        requires
            be_nat(head) >= 1,
            pow(256, tail.len() as nat) >= 0,
    ;
}

/// The leading byte weighs in with its full positional value.
pub proof fn lemma_be_nat_head_weight(s: Seq<u8>)
    requires
        s.len() > 0,
    ensures
        be_nat(s) >= s[0] * pow(256, (s.len() - 1) as nat),
{
    let head = s.subrange(0, 1);
    let tail = s.subrange(1, s.len() as int);
    assert(s =~= head + tail);
    lemma_be_nat_concat(head, tail);
    assert(head.drop_last() =~= Seq::<u8>::empty());
    assert(be_nat(Seq::<u8>::empty()) == 0);
    assert(be_nat(head) == s[0]);
}

/// Powers of 256 are powers of two: `256^k == 2^(8k)`.
pub proof fn lemma_pow256_pow2(k: nat)
    ensures
        pow(256, k) == pow(2, 8 * k),
{
    reveal_with_fuel(pow, 9);
    assert(pow(2, 8) == 256);
    vstd::arithmetic::power::lemma_pow_multiplies(2, 8, k);
}

/// Two encodings of the same width and the same value are the same bytes.
pub proof fn lemma_be_nat_fixed_unique(a: Seq<u8>, b: Seq<u8>)
    requires
        a.len() == b.len(),
        be_nat(a) == be_nat(b),
    ensures
        a =~= b,
    decreases a.len(),
{
    if a.len() > 0 {
        assert(be_nat(a) == be_nat(a.drop_last()) * 256 + a.last());
        assert(be_nat(b) == be_nat(b.drop_last()) * 256 + b.last());
        assert(a.last() == b.last() && be_nat(a.drop_last()) == be_nat(b.drop_last()))
            by (nonlinear_arith)
            requires
                be_nat(a.drop_last()) * 256 + a.last() == be_nat(b.drop_last()) * 256 + b.last(),
                a.last() < 256,
                b.last() < 256,
        ;
        lemma_be_nat_fixed_unique(a.drop_last(), b.drop_last());
        assert(a =~= a.drop_last().push(a.last()));
        assert(b =~= b.drop_last().push(b.last()));
    }
}

/// Two minimal encodings of the same value are the same bytes.
pub proof fn lemma_be_nat_minimal_unique(a: Seq<u8>, b: Seq<u8>)
    requires
        minimal_be(a),
        minimal_be(b),
        be_nat(a) == be_nat(b),
    ensures
        a =~= b,
{
    if a.len() == b.len() {
        lemma_be_nat_fixed_unique(a, b);
    } else if a.len() < b.len() {
        lemma_be_nat_bound(a);
        assert(b.len() > 0);
        if b[0] == 0 {
        } else {
            lemma_be_nat_lower(b);
            vstd::arithmetic::power::lemma_pow_increases(256, a.len() as nat, (b.len() - 1) as nat);
        }
        assert(false);
    } else {
        lemma_be_nat_bound(b);
        assert(a.len() > 0);
        lemma_be_nat_lower(a);
        vstd::arithmetic::power::lemma_pow_increases(256, b.len() as nat, (a.len() - 1) as nat);
        assert(false);
    }
}

/// A shorter minimal encoding means a smaller value than any encoding whose
/// leading byte is nonzero.
pub proof fn lemma_be_nat_shorter_smaller(a: Seq<u8>, b: Seq<u8>)
    requires
        a.len() < b.len(),
        b.len() > 0,
        b[0] != 0,
    ensures
        be_nat(a) < be_nat(b),
{
    lemma_be_nat_bound(a);
    lemma_be_nat_lower(b);
    vstd::arithmetic::power::lemma_pow_increases(256, a.len() as nat, (b.len() - 1) as nat);
}

/// With equal widths and an equal prefix, the first differing byte decides
/// the order of the encoded values.
pub proof fn lemma_be_nat_lex(a: Seq<u8>, b: Seq<u8>, i: int)
    requires
        a.len() == b.len(),
        0 <= i < a.len(),
        a.subrange(0, i) =~= b.subrange(0, i),
        a[i] < b[i],
    ensures
        be_nat(a) < be_nat(b),
{
    let k = a.len() as int;
    let ah = a.subrange(0, i + 1);
    let at = a.subrange(i + 1, k);
    let bh = b.subrange(0, i + 1);
    let bt = b.subrange(i + 1, k);
    assert(a =~= ah + at);
    assert(b =~= bh + bt);
    lemma_be_nat_concat(ah, at);
    lemma_be_nat_concat(bh, bt);
    assert(ah.drop_last() =~= a.subrange(0, i));
    assert(bh.drop_last() =~= b.subrange(0, i));
    assert(be_nat(ah) == be_nat(a.subrange(0, i)) * 256 + a[i]);
    assert(be_nat(bh) == be_nat(a.subrange(0, i)) * 256 + b[i]);
    assert(be_nat(bh) >= be_nat(ah) + 1);
    lemma_be_nat_bound(at);
    let w = pow(256, at.len() as nat);
    lemma_pow_positive(256, at.len() as nat);
    assert(be_nat(ah) * w + be_nat(at) < (be_nat(ah) + 1) * w) by (nonlinear_arith)
        requires
            be_nat(at) < w,
    ;
    assert((be_nat(ah) + 1) * w <= be_nat(bh) * w) by (nonlinear_arith)
        requires
            be_nat(ah) + 1 <= be_nat(bh),
            w >= 0,
    ;
}

/// The parity of the value is the parity of the last byte.
pub proof fn lemma_be_nat_parity(s: Seq<u8>)
    requires
        s.len() > 0,
    ensures
        be_nat(s) % 2 == s.last() % 2,
{
    let h = be_nat(s.drop_last());
    assert((h * 256 + s.last()) % 2 == s.last() % 2) by (nonlinear_arith);
}

/// `min_bytes_of` is a right inverse of `be_nat`, and is minimal.
pub proof fn lemma_min_bytes_of(n: nat)
    ensures
        be_nat(min_bytes_of(n)) == n,
        minimal_be(min_bytes_of(n)),
        n > 0 ==> min_bytes_of(n).len() > 0,
    decreases n,
{
    if n == 0 {
    } else {
        lemma_min_bytes_of(n / 256);
        let s = min_bytes_of(n);
        let h = min_bytes_of(n / 256);
        assert(s =~= h.push((n % 256) as u8));
        assert(s.drop_last() =~= h);
        assert(be_nat(s) == (n / 256) * 256 + n % 256);
        assert((n / 256) * 256 + n % 256 == n) by (nonlinear_arith);
        if n / 256 == 0 {
            assert(n % 256 == n) by (nonlinear_arith)
                requires
                    n / 256 == 0,
                    n > 0,
            ;
            assert(s[0] == n % 256);
        } else {
            assert(h.len() > 0);
            assert(s[0] == h[0]);
        }
    }
}

/// Hence a minimal encoding is exactly `min_bytes_of` of its value.
pub proof fn lemma_minimal_is_min_bytes(s: Seq<u8>)
    requires
        minimal_be(s),
    ensures
        s =~= min_bytes_of(be_nat(s)),
{
    lemma_min_bytes_of(be_nat(s));
    lemma_be_nat_minimal_unique(s, min_bytes_of(be_nat(s)));
}

/// Copy `data[start..end]` into a fresh vector.
pub fn sub_bytes(data: &[u8], start: usize, end: usize) -> (r: Vec<u8>)
    requires
        start <= end <= data@.len(),
    ensures
        r@ =~= data@.subrange(start as int, end as int),
{
    let mut out: Vec<u8> = Vec::new();
    let mut i: usize = start;
    while i < end
        invariant
            start <= i <= end <= data@.len(),
            out@ =~= data@.subrange(start as int, i as int),
        decreases end - i,
    {
        out.push(data[i]);
        i = i + 1;
    }
    out
}

/// Encode the low `w` bytes of a machine word, big-endian.
pub fn word_to_fixed_bytes(n: u64, w: usize) -> (r: Vec<u8>)
    ensures
        r@ =~= fixed_bytes_of(n as nat, w as nat),
    decreases w,
{
    if w == 0 {
        Vec::new()
    } else {
        let mut r = word_to_fixed_bytes(n / 256, w - 1);
        r.push((n % 256) as u8);
        r
    }
}

/// Encode a machine word as exactly eight big-endian bytes.
pub fn u64_to_be_bytes(x: u64) -> (r: Vec<u8>)
    ensures
        r@ =~= fixed_bytes_of(x as nat, 8),
        r@.len() == 8,
        be_nat(r@) == x,
{
    let r = word_to_fixed_bytes(x, 8);
    proof {
        lemma_fixed_bytes_of(x as nat, 8);
        reveal_with_fuel(pow, 9);
        assert((x as nat) < pow(256, 8));
        vstd::arithmetic::div_mod::lemma_small_mod(x as nat, pow(256, 8) as nat);
    }
    r
}

/// Compare two byte vectors for equality.
pub fn bytes_eq(a: &[u8], b: &[u8]) -> (r: bool)
    ensures
        r == (a@ =~= b@),
{
    if a.len() != b.len() {
        return false;
    }
    let mut i: usize = 0;
    while i < a.len()
        invariant
            0 <= i <= a@.len(),
            a@.len() == b@.len(),
            forall|j: int| 0 <= j < i ==> a@[j] == b@[j],
        decreases a@.len() - i,
    {
        if a[i] != b[i] {
            return false;
        }
        i = i + 1;
    }
    true
}

} // verus!
