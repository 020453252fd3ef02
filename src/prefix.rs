//! The address-family-independent prefix used inside the tree.
//!
//! Addresses of every family are held left-aligned in a `u128`, so an IPv4
//! address occupies the upper 32 bits. A prefix of length `n` is determined
//! by the upper `n` bits of its address.
use vstd::prelude::*;

use crate::bits::{
    agree, bit, get_bit, lemma_mask_agree, lemma_mask_bit, lemma_mask_idem, lemma_set_bit,
    lemma_set_bit_canonical, mask, mask_of, single, single_of,
};

verus! {

/// A prefix: a left-aligned address and a length.
#[derive(Clone, Copy, Debug, PartialEq, Eq, Structural)]
pub struct Prefix {
    pub bits: u128,
    pub length: u8,
}

/// The result of comparing two prefixes with [`Prefix::compare`].
///
/// The contained values are the number of upper bits shared by the two
/// prefixes.
#[derive(Clone, Copy, Debug, PartialEq, Eq, Structural)]
pub enum Comparison {
    /// `self` and `other` are equal.
    Equal,
    /// `other` is a strict sub-prefix of `self`.
    Subprefix(u8),
    /// `other` is a strict super-prefix of `self`.
    Superprefix(u8),
    /// Neither prefix contains the other.
    Divergent(u8),
}

/// `p` covers `q`: every address in `q` is also in `p`.
pub open spec fn covers(p: Prefix, q: Prefix) -> bool {
    p.length <= q.length && agree(p.bits, q.bits, p.length as nat)
}

/// Covering is transitive.
pub proof fn lemma_covers_trans(p: Prefix, q: Prefix, r: Prefix)
    requires
        covers(p, q),
        covers(q, r),
    ensures
        covers(p, r),
{
    assert forall|i: nat| i < p.length implies #[trigger] bit(p.bits, i) == bit(r.bits, i) by {
        assert(bit(p.bits, i) == bit(q.bits, i));
        assert(bit(q.bits, i) == bit(r.bits, i));
    }
}

/// Prefixes that differ in a bit that both fix cover nothing in common.
pub proof fn lemma_split_apart(p: Prefix, q: Prefix, k: nat, r: Prefix)
    requires
        k < p.length,
        k < q.length,
        bit(p.bits, k) != bit(q.bits, k),
    ensures
        !(covers(p, r) && covers(q, r)),
{
    if covers(p, r) && covers(q, r) {
        assert(bit(p.bits, k) == bit(r.bits, k));
        assert(bit(q.bits, k) == bit(r.bits, k));
    }
}

impl Prefix {
    /// The prefix fits a family of width `w` and has no bits set below its
    /// length.
    pub open spec fn wf(self, w: nat) -> bool {
        &&& w <= 128
        &&& self.length <= w
        &&& self.bits & mask(self.length as nat) == self.bits
    }

    /// Compare `self` with `other` to find whether one covers the other.
    pub fn compare(&self, other: &Prefix) -> (r: Comparison)
        requires
            self.length <= 128,
            other.length <= 128,
        ensures
            match r {
                Comparison::Equal => self.length == other.length && agree(
                    self.bits,
                    other.bits,
                    self.length as nat,
                ),
                Comparison::Subprefix(c) => c == self.length && self.length < other.length
                    && covers(*self, *other),
                Comparison::Superprefix(c) => c == other.length && other.length < self.length
                    && covers(*other, *self),
                Comparison::Divergent(c) => c < self.length && c < other.length && agree(
                    self.bits,
                    other.bits,
                    c as nat,
                ) && bit(self.bits, c as nat) != bit(other.bits, c as nat),
            },
    {
        let n: u8 = if self.length < other.length {
            self.length
        } else {
            other.length
        };
        let mut i: u8 = 0;
        while i < n
            invariant
                i <= n,
                n <= 128,
                n == self.length || n == other.length,
                n <= self.length && n <= other.length,
                agree(self.bits, other.bits, i as nat),
            decreases n - i,
        {
            if get_bit(self.bits, i) != get_bit(other.bits, i) {
                return Comparison::Divergent(i);
            }
            i = i + 1;
        }
        if self.length == other.length {
            Comparison::Equal
        } else if self.length < other.length {
            Comparison::Subprefix(n)
        } else {
            Comparison::Superprefix(n)
        }
    }

    /// The prefix of length `length` that covers `self`.
    pub fn truncate(&self, length: u8) -> (r: Prefix)
        requires
            length <= self.length,
            self.length <= 128,
        ensures
            r.length == length,
            r.bits == self.bits & mask(length as nat),
            covers(r, *self),
            r.wf(self.length as nat),
            forall|w: nat| self.length <= w <= 128 ==> r.wf(w),
    {
        let r = Prefix { bits: self.bits & mask_of(length), length };
        proof {
            lemma_mask_agree(self.bits, length as nat);
            lemma_mask_idem(self.bits, length as nat);
            assert forall|i: nat| i < length implies #[trigger] bit(r.bits, i) == bit(
                self.bits,
                i,
            ) by {
                lemma_mask_bit(self.bits, length as nat, i);
            }
        }
        r
    }

    /// The sub-prefix one bit longer than `self` whose new bit is `right`.
    pub fn child(&self, right: bool) -> (r: Prefix)
        requires
            self.wf(128),
            self.length < 128,
        ensures
            r.length == self.length + 1,
            covers(*self, r),
            bit(r.bits, self.length as nat) == right,
            forall|w: nat| self.length < w <= 128 ==> r.wf(w),
    {
        proof {
            lemma_canonical_extend(self.bits, self.length as nat);
            lemma_mask_bit(self.bits, self.length as nat, self.length as nat);
        }
        if right {
            let r = Prefix { bits: self.bits | single_of(self.length), length: self.length + 1 };
            proof {
                lemma_set_bit_canonical(self.bits, self.length as nat);
                lemma_set_bit(self.bits, self.length as nat, self.length as nat);
                assert forall|i: nat| i < self.length implies #[trigger] bit(self.bits, i) == bit(
                    r.bits,
                    i,
                ) by {
                    lemma_set_bit(self.bits, self.length as nat, i);
                }
            }
            r
        } else {
            Prefix { bits: self.bits, length: self.length + 1 }
        }
    }
}

/// A canonical address stays canonical for one more bit.
pub proof fn lemma_canonical_extend(a: u128, k: nat)
    requires
        k < 128,
        a & mask(k) == a,
    ensures
        a & mask(k + 1) == a,
{
    let t = (127 - k) as u128;
    if k == 0 {
        assert(a & 0u128 == 0u128) by (bit_vector);
        assert(0u128 & (!0u128 << 127u128) == 0u128) by (bit_vector);
    } else {
        let m = (128 - k) as u128;
        assert(mask(k) == !0u128 << m);
        if k == 127 {
            assert(!0u128 << 0u128 == !0u128) by (bit_vector);
        }
        assert(mask(k + 1) == !0u128 << t);
        assert(0u128 < m && m < 128u128 && t + 1 == m && a & (!0u128 << m) == a ==> a & (!0u128
            << t) == a) by (bit_vector);
    }
}

/// An address canonical for `k` bits is canonical for any longer length.
pub proof fn lemma_canonical_longer(a: u128, k: nat, l: nat)
    requires
        k <= l <= 128,
        a & mask(k) == a,
    ensures
        a & mask(l) == a,
    decreases l - k,
{
    if k < l {
        lemma_canonical_extend(a, k);
        lemma_canonical_longer(a, k + 1, l);
    }
}

/// The order of prefixes by covering: a prefix is greater than the strict
/// sub-prefixes it covers; prefixes that diverge are not ordered.
pub open spec fn prefix_order(p: Prefix, q: Prefix) -> Option<core::cmp::Ordering> {
    if p.length == q.length && agree(p.bits, q.bits, p.length as nat) {
        Some(core::cmp::Ordering::Equal)
    } else if covers(p, q) {
        Some(core::cmp::Ordering::Greater)
    } else if covers(q, p) {
        Some(core::cmp::Ordering::Less)
    } else {
        None
    }
}

impl Prefix {
    /// Compare `self` and `other` by covering.
    pub fn order(&self, other: &Prefix) -> (r: Option<core::cmp::Ordering>)
        requires
            self.length <= 128,
            other.length <= 128,
        ensures
            r == prefix_order(*self, *other),
    {
        match self.compare(other) {
            Comparison::Equal => Some(core::cmp::Ordering::Equal),
            Comparison::Subprefix(_) => Some(core::cmp::Ordering::Greater),
            Comparison::Superprefix(_) => Some(core::cmp::Ordering::Less),
            Comparison::Divergent(c) => {
                proof {
                    assert(!covers(*self, *other)) by {
                        if covers(*self, *other) {
                            assert(bit(self.bits, c as nat) == bit(other.bits, c as nat));
                        }
                    }
                    assert(!covers(*other, *self)) by {
                        if covers(*other, *self) {
                            assert(bit(self.bits, c as nat) == bit(other.bits, c as nat));
                        }
                    }
                }
                None
            },
        }
    }
}

} // verus!
