//! Bit-level facts about left-aligned 128-bit addresses.
//!
//! Bit index `0` is the most significant bit of a `u128`; a prefix of length
//! `n` is determined by bits `0..n`.
use vstd::prelude::*;

verus! {

/// Bit `i` (counted from the most significant end) of `a`.
pub open spec fn bit(a: u128, i: nat) -> bool {
    i < 128 && (a >> (127 - i) as u128) & 1u128 == 1u128
}

/// The network mask with the upper `n` bits set.
pub open spec fn mask(n: nat) -> u128 {
    if n == 0 {
        0u128
    } else if n >= 128 {
        !0u128
    } else {
        !0u128 << (128 - n) as u128
    }
}

/// `a` and `b` agree on their upper `n` bits.
pub open spec fn agree(a: u128, b: u128, n: nat) -> bool {
    forall|i: nat| i < n ==> #[trigger] bit(a, i) == bit(b, i)
}

/// `a` comes before `b` in address order: at the first bit where they
/// differ, `a` has 0 and `b` has 1.
pub open spec fn addr_before(a: u128, b: u128) -> bool {
    exists|k: nat| k < 128 && agree(a, b, k) && !bit(a, k) && #[trigger] bit(b, k)
}

pub fn get_bit(a: u128, i: u8) -> (r: bool)
    requires
        i < 128,
    ensures
        r == bit(a, i as nat),
{
    (a >> (127 - i) as u128) & 1u128 == 1u128
}

pub fn mask_of(n: u8) -> (r: u128)
    requires
        n <= 128,
    ensures
        r == mask(n as nat),
{
    if n == 0 {
        0u128
    } else if n >= 128 {
        !0u128
    } else {
        !0u128 << (128 - n) as u128
    }
}

/// Masking with `mask(n)` keeps exactly the upper `n` bits.
pub proof fn lemma_mask_bit(a: u128, n: nat, i: nat)
    requires
        n <= 128,
        i < 128,
    ensures
        bit(a & mask(n), i) == (i < n && bit(a, i)),
{
    let s = (127 - i) as u128;
    if n == 0 {
        assert((a & 0u128) >> s & 1u128 == 0u128) by (bit_vector);
    } else if n >= 128 {
        assert((a & !0u128) == a) by (bit_vector);
    } else {
        let k = (128 - n) as u128;
        assert(s < 128u128 && 0u128 < k && k < 128u128 ==> (((a & (!0u128 << k)) >> s) & 1u128
            == 1u128) == (s >= k && ((a >> s) & 1u128 == 1u128))) by (bit_vector);
    }
}

pub proof fn lemma_mask_agree(a: u128, n: nat)
    requires
        n <= 128,
    ensures
        agree(a & mask(n), a, n),
        forall|i: nat| n <= i ==> !#[trigger] bit(a & mask(n), i),
{
    assert forall|i: nat| i < n implies #[trigger] bit(a & mask(n), i) == bit(a, i) by {
        lemma_mask_bit(a, n, i);
    }
    assert forall|i: nat| n <= i implies !#[trigger] bit(a & mask(n), i) by {
        if i < 128 {
            lemma_mask_bit(a, n, i);
        }
    }
}

/// Masking twice is masking once.
pub proof fn lemma_mask_idem(a: u128, n: nat)
    requires
        n <= 128,
    ensures
        (a & mask(n)) & mask(n) == a & mask(n),
{
    let m = mask(n);
    assert((a & m) & m == a & m) by (bit_vector);
}

/// The single bit at index `k`.
pub open spec fn single(k: nat) -> u128 {
    1u128 << (127 - k) as u128
}

pub fn single_of(k: u8) -> (r: u128)
    requires
        k < 128,
    ensures
        r == single(k as nat),
{
    1u128 << (127 - k) as u128
}

/// Setting bit `k` changes that bit only.
pub proof fn lemma_set_bit(a: u128, k: nat, i: nat)
    requires
        k < 128,
        i < 128,
    ensures
        bit(a | single(k), i) == (i == k || bit(a, i)),
{
    let s = (127 - i) as u128;
    let t = (127 - k) as u128;
    assert(s < 128u128 && t < 128u128 ==> ((((a | (1u128 << t)) >> s) & 1u128 == 1u128) == (s
        == t || ((a >> s) & 1u128 == 1u128)))) by (bit_vector);
}

/// A canonical address with `k` host-free upper bits stays canonical for
/// `k + 1` bits after setting bit `k`.
pub proof fn lemma_set_bit_canonical(a: u128, k: nat)
    requires
        k < 128,
        a & mask(k) == a,
    ensures
        (a | single(k)) & mask(k + 1) == a | single(k),
{
    let t = (127 - k) as u128;
    assert(single(k) == 1u128 << t);
    if k == 0 {
        assert(mask(k) == 0u128);
        assert(a & 0u128 == 0u128) by (bit_vector);
        assert(a == 0u128);
        assert(mask(k + 1) == !0u128 << 127u128);
        assert((0u128 | (1u128 << 127u128)) & (!0u128 << 127u128) == (0u128 | (1u128 << 127u128)))
            by (bit_vector);
    } else {
        let m = (128 - k) as u128;
        assert(mask(k) == !0u128 << m);
        if k == 127 {
            assert(!0u128 << 0u128 == !0u128) by (bit_vector);
        }
        assert(mask(k + 1) == !0u128 << t);
        assert(0u128 < m && m < 128u128 && t + 1 == m && a & (!0u128 << m) == a ==> (a | (1u128
            << t)) & (!0u128 << t) == a | (1u128 << t)) by (bit_vector);
    }
}

/// A word whose lowest `k` bits are clear, and whose bit `k` is clear, has
/// its lowest `k + 1` bits clear.
pub proof fn lemma_low_clear(x: u128, k: u128)
    requires
        k <= 128,
        forall|j: u128| j < k ==> (#[trigger] (x >> j)) & 1 == 0,
    ensures
        k < 128 ==> x & !(!0u128 << k) == 0,
        k == 128 ==> x == 0,
    decreases k,
{
    if k == 0 {
        assert(x & !(!0u128 << 0u128) == 0) by (bit_vector);
    } else {
        let p = (k - 1) as u128;
        lemma_low_clear(x, p);
        assert((x >> p) & 1 == 0);
        if k == 128 {
            assert(p == 127u128 && x & !(!0u128 << p) == 0 && (x >> p) & 1 == 0 ==> x == 0)
                by (bit_vector);
        } else {
            assert(p < 127u128 && x & !(!0u128 << p) == 0 && (x >> p) & 1 == 0 ==> x & !(!0u128 << (p
                + 1)) == 0) by (bit_vector);
        }
    }
}

/// A bit of a word is either set or clear.
pub proof fn lemma_bit_cases(a: u128, j: u128)
    requires
        j < 128,
    ensures
        (a >> j) & 1 == 1 || (a >> j) & 1 == 0,
{
    assert(j < 128 ==> ((a >> j) & 1 == 1 || (a >> j) & 1 == 0)) by (bit_vector);
}

/// Words with the same bits are equal.
pub proof fn lemma_word_ext(a: u128, b: u128)
    requires
        forall|j: u128| j < 128 ==> (#[trigger] (a >> j)) & 1 == (b >> j) & 1,
    ensures
        a == b,
{
    let x = a ^ b;
    assert forall|j: u128| j < 128 implies (#[trigger] (x >> j)) & 1 == 0 by {
        assert((a >> j) & 1 == (b >> j) & 1);
        assert(j < 128 ==> (((a ^ b) >> j) & 1 == 0 <==> ((a >> j) & 1 == (b >> j) & 1)))
            by (bit_vector);
    }
    lemma_low_clear(x, 128);
    assert(a ^ b == 0 ==> a == b) by (bit_vector);
}

/// Canonical addresses that agree on their upper `n` bits are equal.
pub proof fn lemma_canonical_eq(a: u128, b: u128, n: nat)
    requires
        n <= 128,
        a & mask(n) == a,
        b & mask(n) == b,
        agree(a, b, n),
    ensures
        a == b,
{
    assert forall|j: u128| j < 128 implies (#[trigger] (a >> j)) & 1 == (b >> j) & 1 by {
        let i = (127 - j) as nat;
        lemma_mask_bit(a, n, i);
        lemma_mask_bit(b, n, i);
        if i < n {
            assert(bit(a, i) == bit(b, i));
        }
        assert((127 - i) as u128 == j);
        lemma_bit_cases(a, j);
        lemma_bit_cases(b, j);
    }
    lemma_word_ext(a, b);
}

} // verus!
