//! The length map kept in each tree node.
use vstd::prelude::*;

use crate::bits::{lemma_bit_cases, lemma_word_ext};

verus! {

/// A set of prefix lengths in `0..=128`.
///
/// Length `l < 128` is bit `l` of `bitmap`; length `128` is `hostbit`.
#[derive(Clone, Copy, Debug, PartialEq, Eq, Structural)]
pub struct GlueMap {
    pub bitmap: u128,
    pub hostbit: bool,
}

proof fn lemma_and_bit(a: u128, b: u128, l: u128)
    requires
        l < 128,
    ensures
        ((a & b) >> l) & 1 == 1 <==> ((a >> l) & 1 == 1 && (b >> l) & 1 == 1),
{
    assert(l < 128 ==> (((a & b) >> l) & 1 == 1 <==> ((a >> l) & 1 == 1 && (b >> l) & 1 == 1)))
        by (bit_vector);
}

proof fn lemma_or_bit(a: u128, b: u128, l: u128)
    requires
        l < 128,
    ensures
        ((a | b) >> l) & 1 == 1 <==> ((a >> l) & 1 == 1 || (b >> l) & 1 == 1),
{
    assert(l < 128 ==> (((a | b) >> l) & 1 == 1 <==> ((a >> l) & 1 == 1 || (b >> l) & 1 == 1)))
        by (bit_vector);
}

proof fn lemma_not_bit(a: u128, l: u128)
    requires
        l < 128,
    ensures
        ((!a) >> l) & 1 == 1 <==> !((a >> l) & 1 == 1),
{
    assert(l < 128 ==> (((!a) >> l) & 1 == 1 <==> !((a >> l) & 1 == 1))) by (bit_vector);
}

proof fn lemma_one_bit(l: u128, k: u128)
    requires
        l < 128,
        k < 128,
    ensures
        ((1u128 << l) >> k) & 1 == 1 <==> k == l,
{
    assert(l < 128 && k < 128 ==> (((1u128 << l) >> k) & 1 == 1 <==> k == l)) by (bit_vector);
}

proof fn lemma_zero_bit(k: u128)
    requires
        k < 128,
    ensures
        !((0u128 >> k) & 1 == 1),
{
    assert(k < 128 ==> !((0u128 >> k) & 1 == 1)) by (bit_vector);
}

impl GlueMap {
    /// Whether length `l` is in the map.
    pub open spec fn has(self, l: nat) -> bool {
        if l < 128 {
            (self.bitmap >> l as u128) & 1 == 1
        } else {
            l == 128 && self.hostbit
        }
    }

    /// No length is in the map.
    pub open spec fn is_empty_map(self) -> bool {
        self.bitmap == 0 && !self.hostbit
    }

    /// All lengths of the map lie in `lo..=hi`.
    pub open spec fn within(self, lo: nat, hi: nat) -> bool {
        forall|l: nat| #[trigger] self.has(l) ==> lo <= l <= hi
    }

    /// The number of lengths below `n` in the map.
    pub open spec fn count_below(self, n: nat) -> nat
        decreases n,
    {
        if n == 0 {
            0
        } else {
            self.count_below((n - 1) as nat) + if self.has((n - 1) as nat) {
                1nat
            } else {
                0nat
            }
        }
    }

    /// Maps holding the same lengths are equal.
    pub proof fn lemma_ext(self, other: GlueMap)
        requires
            forall|l: nat| #[trigger] self.has(l) == other.has(l),
        ensures
            self == other,
    {
        assert forall|j: u128| j < 128 implies (#[trigger] (self.bitmap >> j)) & 1 == (other.bitmap
            >> j) & 1 by {
            assert(self.has(j as nat) == other.has(j as nat));
            lemma_bit_cases(self.bitmap, j);
            lemma_bit_cases(other.bitmap, j);
        }
        lemma_word_ext(self.bitmap, other.bitmap);
        assert(self.has(128) == other.has(128));
    }

    pub proof fn lemma_empty(self)
        requires
            self.is_empty_map(),
        ensures
            forall|l: nat| !#[trigger] self.has(l),
    {
        assert forall|l: nat| !#[trigger] self.has(l) by {
            if l < 128 {
                lemma_zero_bit(l as u128);
            }
        }
    }

    /// The empty map.
    pub fn zero() -> (r: GlueMap)
        ensures
            r.is_empty_map(),
            forall|l: nat| !#[trigger] r.has(l),
    {
        let r = GlueMap { bitmap: 0, hostbit: false };
        proof {
            r.lemma_empty();
        }
        r
    }

    /// Whether the map is empty.
    pub fn is_zero(&self) -> (r: bool)
        ensures
            r == self.is_empty_map(),
            r ==> forall|l: nat| !#[trigger] self.has(l),
    {
        proof {
            if self.is_empty_map() {
                self.lemma_empty();
            }
        }
        self.bitmap == 0 && !self.hostbit
    }

    /// The map holding `length` alone.
    pub fn singleton(length: u8) -> (r: GlueMap)
        requires
            length <= 128,
        ensures
            forall|l: nat| #[trigger] r.has(l) == (l == length),
    {
        let r = if length == 128 {
            GlueMap { bitmap: 0, hostbit: true }
        } else {
            GlueMap { bitmap: 1u128 << length as u128, hostbit: false }
        };
        proof {
            assert forall|l: nat| #[trigger] r.has(l) == (l == length) by {
                if l < 128 {
                    if length == 128 {
                        lemma_zero_bit(l as u128);
                    } else {
                        lemma_one_bit(length as u128, l as u128);
                    }
                }
            }
        }
        r
    }

    /// The lengths in both maps.
    pub fn and(&self, other: &GlueMap) -> (r: GlueMap)
        ensures
            forall|l: nat| #[trigger] r.has(l) == (self.has(l) && other.has(l)),
    {
        let r = GlueMap {
            bitmap: self.bitmap & other.bitmap,
            hostbit: self.hostbit && other.hostbit,
        };
        proof {
            assert forall|l: nat| #[trigger] r.has(l) == (self.has(l) && other.has(l)) by {
                if l < 128 {
                    lemma_and_bit(self.bitmap, other.bitmap, l as u128);
                }
            }
        }
        r
    }

    /// The lengths in either map.
    pub fn or(&self, other: &GlueMap) -> (r: GlueMap)
        ensures
            forall|l: nat| #[trigger] r.has(l) == (self.has(l) || other.has(l)),
            !other.is_empty_map() ==> !r.is_empty_map(),
    {
        let r = GlueMap {
            bitmap: self.bitmap | other.bitmap,
            hostbit: self.hostbit || other.hostbit,
        };
        proof {
            assert forall|l: nat| #[trigger] r.has(l) == (self.has(l) || other.has(l)) by {
                if l < 128 {
                    lemma_or_bit(self.bitmap, other.bitmap, l as u128);
                }
            }
            let (a, b) = (self.bitmap, other.bitmap);
            assert(b != 0 ==> (a | b) != 0) by (bit_vector);
        }
        r
    }

    /// The lengths in `0..=128` that are not in the map.
    pub fn not(&self) -> (r: GlueMap)
        ensures
            forall|l: nat| l <= 128 ==> #[trigger] r.has(l) == !self.has(l),
    {
        let r = GlueMap { bitmap: !self.bitmap, hostbit: !self.hostbit };
        proof {
            assert forall|l: nat| l <= 128 implies #[trigger] r.has(l) == !self.has(l) by {
                if l < 128 {
                    lemma_not_bit(self.bitmap, l as u128);
                }
            }
        }
        r
    }

    /// The lengths in `self` but not in `other`.
    pub fn and_not(&self, other: &GlueMap) -> (r: GlueMap)
        ensures
            forall|l: nat| #[trigger] r.has(l) == (self.has(l) && !other.has(l)),
    {
        let n = other.not();
        let r = self.and(&n);
        assert forall|l: nat| #[trigger] r.has(l) == (self.has(l) && !other.has(l)) by {
            if l > 128 {
                assert(!self.has(l));
            }
        }
        r
    }

    /// The map holding exactly the lengths in `lower..=upper`.
    pub fn from_range(lower: u8, upper: u8) -> (r: GlueMap)
        requires
            lower <= upper <= 128,
        ensures
            forall|l: nat| #[trigger] r.has(l) == (lower <= l <= upper),
    {
        let mut r = GlueMap::singleton(lower);
        let mut k: u8 = lower;
        while k < upper
            invariant
                lower <= k <= upper <= 128,
                forall|l: nat| #[trigger] r.has(l) == (lower <= l <= k),
            decreases upper - k,
        {
            k = k + 1;
            let s = GlueMap::singleton(k);
            r = r.or(&s);
        }
        r
    }

    /// Whether every length of the map lies in `lo..=hi`.
    pub fn is_within(&self, lo: u8, hi: u8) -> (r: bool)
        ensures
            r == self.within(lo as nat, hi as nat),
    {
        let mut l: u8 = 0;
        while l <= 128
            invariant
                l <= 129,
                forall|k: nat| k < l ==> (#[trigger] self.has(k) ==> lo <= k <= hi),
            decreases 129 - l,
        {
            if self.contains(l) && (l < lo || l > hi) {
                return false;
            }
            l = l + 1;
        }
        proof {
            assert forall|k: nat| #[trigger] self.has(k) implies lo <= k <= hi by {
                if k > 128 {
                    assert(!self.has(k));
                }
            }
        }
        true
    }

    /// Whether the map holds no length, by its lengths.
    pub fn holds_none(&self) -> (r: bool)
        ensures
            r == forall|l: nat| !#[trigger] self.has(l),
    {
        let r = self.is_zero();
        proof {
            if !r && forall|l: nat| !#[trigger] self.has(l) {
                let z = GlueMap { bitmap: 0, hostbit: false };
                z.lemma_empty();
                self.lemma_ext(z);
            }
        }
        r
    }

    /// The number of lengths in the map.
    pub fn count_ones(&self) -> (r: u32)
        ensures
            r == self.count_below(129),
    {
        let mut n: u32 = 0;
        let mut l: u32 = 0;
        while l < 129
            invariant
                l <= 129,
                n == self.count_below(l as nat),
                n <= l,
            decreases 129 - l,
        {
            if self.contains(l as u8) {
                n = n + 1;
            }
            l = l + 1;
        }
        n
    }

    /// Whether length `l` is in the map.
    pub fn contains(&self, l: u8) -> (r: bool)
        requires
            l <= 128,
        ensures
            r == self.has(l as nat),
    {
        if l == 128 {
            self.hostbit
        } else {
            (self.bitmap >> l as u128) & 1 == 1
        }
    }

    /// The first maximal run of lengths in the map that starts at or after
    /// `from`, as an inclusive pair of bounds.
    pub fn next_range(&self, from: u8) -> (r: Option<(u8, u8)>)
        requires
            from <= 129,
        ensures
            match r {
                None => forall|l: nat| from <= l ==> !#[trigger] self.has(l),
                Some((lo, hi)) => {
                    &&& from <= lo <= hi <= 128
                    &&& forall|l: nat| from <= l < lo ==> !#[trigger] self.has(l)
                    &&& forall|l: nat| lo <= l <= hi ==> #[trigger] self.has(l)
                    &&& !self.has((hi + 1) as nat)
                },
            },
    {
        let mut lo: u8 = from;
        while lo <= 128 && !self.contains(lo)
            invariant
                from <= lo <= 129,
                forall|l: nat| from <= l < lo ==> !#[trigger] self.has(l),
            decreases 129 - lo,
        {
            lo = lo + 1;
        }
        if lo > 128 {
            return None;
        }
        let mut hi: u8 = lo;
        while hi < 128 && self.contains(hi + 1)
            invariant
                lo <= hi <= 128,
                forall|l: nat| lo <= l <= hi ==> #[trigger] self.has(l),
            decreases 128 - hi,
        {
            hi = hi + 1;
        }
        Some((lo, hi))
    }
}

/// The first length at or after `from` that `g` holds.
pub open spec fn first_set(g: GlueMap, from: nat) -> Option<nat>
    decreases 129 - from,
{
    if from > 128 {
        None
    } else if g.has(from) {
        Some(from)
    } else {
        first_set(g, from + 1)
    }
}

/// The last length of the run of lengths of `g` that goes up from `lo`.
pub open spec fn run_end(g: GlueMap, lo: nat) -> nat
    decreases 128 - lo,
{
    if lo < 128 && g.has(lo + 1) {
        run_end(g, lo + 1)
    } else {
        lo
    }
}

/// The maximal runs of lengths of `g` at or after `from`, as inclusive
/// bounds, by increasing lower bound.
pub open spec fn runs_from(g: GlueMap, from: nat) -> Seq<(nat, nat)>
    decreases 130 - from,
{
    if from > 128 {
        Seq::empty()
    } else {
        match first_set(g, from) {
            None => Seq::empty(),
            Some(lo) => {
                let hi = run_end(g, lo);
                if from <= lo <= hi <= 128 {
                    seq![(lo, hi)] + runs_from(g, hi + 1)
                } else {
                    Seq::empty()
                }
            },
        }
    }
}

/// A length held with none held between `from` and it is the first one.
pub proof fn lemma_first_set(g: GlueMap, from: nat, lo: nat)
    requires
        from <= lo <= 128,
        g.has(lo),
        forall|l: nat| from <= l < lo ==> !#[trigger] g.has(l),
    ensures
        first_set(g, from) == Some(lo),
    decreases lo - from,
{
    if from < lo {
        lemma_first_set(g, from + 1, lo);
    }
}

/// With no length held at or after `from`, there is no first one.
pub proof fn lemma_first_set_none(g: GlueMap, from: nat)
    requires
        forall|l: nat| from <= l ==> !#[trigger] g.has(l),
    ensures
        first_set(g, from) is None,
    decreases 129 - from,
{
    if from <= 128 {
        lemma_first_set_none(g, from + 1);
    }
}

/// A run held from `lo` to `hi` and not beyond ends at `hi`.
pub proof fn lemma_run_end(g: GlueMap, lo: nat, hi: nat)
    requires
        lo <= hi <= 128,
        forall|l: nat| lo <= l <= hi ==> #[trigger] g.has(l),
        hi == 128 || !g.has(hi + 1),
    ensures
        run_end(g, lo) == hi,
    decreases hi - lo,
{
    if lo < hi {
        assert(g.has(lo + 1));
        lemma_run_end(g, lo + 1, hi);
    }
}

proof fn lemma_first_set_props(g: GlueMap, from: nat)
    ensures
        first_set(g, from) matches Some(lo) ==> from <= lo <= 128 && g.has(lo) && forall|l: nat|
            from <= l < lo ==> !#[trigger] g.has(l),
        first_set(g, from) is None ==> forall|l: nat| from <= l ==> !#[trigger] g.has(l),
    decreases 129 - from,
{
    if from <= 128 && !g.has(from) {
        lemma_first_set_props(g, from + 1);
        assert forall|l: nat| from <= l && (first_set(g, from) is None || l < first_set(g, from).unwrap())
            implies !#[trigger] g.has(l) by {
            if l > from {
            }
        }
    }
    if from > 128 {
        assert forall|l: nat| from <= l implies !#[trigger] g.has(l) by {}
    }
}

proof fn lemma_run_end_props(g: GlueMap, lo: nat)
    requires
        lo <= 128,
        g.has(lo),
    ensures
        lo <= run_end(g, lo) <= 128,
        forall|l: nat| lo <= l <= run_end(g, lo) ==> #[trigger] g.has(l),
        run_end(g, lo) == 128 || !g.has(run_end(g, lo) + 1),
    decreases 128 - lo,
{
    if lo < 128 && g.has(lo + 1) {
        lemma_run_end_props(g, lo + 1);
    }
}

/// The runs of a map at or after `from` are its maximal runs there, apart
/// and by increasing lower bound, and together they hold exactly its
/// lengths at or after `from`.
pub proof fn lemma_runs_from(g: GlueMap, from: nat)
    ensures
        forall|k: int|
            0 <= k < runs_from(g, from).len() ==> {
                let (lo, hi) = #[trigger] runs_from(g, from)[k];
                &&& from <= lo <= hi <= 128
                &&& forall|l: nat| lo <= l <= hi ==> #[trigger] g.has(l)
                &&& hi == 128 || !g.has(hi + 1)
                &&& lo == from || !g.has((lo - 1) as nat)
            },
        forall|k: int, k2: int|
            0 <= k < k2 < runs_from(g, from).len() ==> (#[trigger] runs_from(g, from)[k]).1 + 1 < (
            #[trigger] runs_from(g, from)[k2]).0,
        forall|l: nat|
            from <= l ==> (#[trigger] g.has(l) <==> exists|k: int|
                0 <= k < runs_from(g, from).len() && (#[trigger] runs_from(g, from)[k]).0 <= l
                    <= runs_from(g, from)[k].1),
    decreases 130 - from,
{
    let rs = runs_from(g, from);
    lemma_first_set_props(g, from);
    if from > 128 {
        assert forall|l: nat| from <= l implies !#[trigger] g.has(l) by {}
        return;
    }
    match first_set(g, from) {
        None => {},
        Some(lo) => {
            lemma_run_end_props(g, lo);
            let hi = run_end(g, lo);
            let rest = runs_from(g, hi + 1);
            lemma_runs_from(g, hi + 1);
            assert(rs == seq![(lo, hi)] + rest);
            assert forall|k: int| 0 <= k < rs.len() implies {
                let (a, b) = #[trigger] rs[k];
                &&& from <= a <= b <= 128
                &&& forall|l: nat| a <= l <= b ==> #[trigger] g.has(l)
                &&& b == 128 || !g.has(b + 1)
                &&& a == from || !g.has((a - 1) as nat)
            } by {
                if k > 0 {
                    assert(rs[k] == rest[k - 1]);
                    let (a, b) = rest[k - 1];
                    if a != hi + 1 {
                        assert(!g.has((a - 1) as nat));
                    } else {
                        assert(!g.has(hi + 1));
                        assert(g.has(a));
                    }
                } else {
                    if lo != from {
                        assert(!g.has((lo - 1) as nat));
                    }
                }
            }
            assert forall|k: int, k2: int| 0 <= k < k2 < rs.len() implies (#[trigger] rs[k]).1 + 1 < (
                #[trigger] rs[k2]).0 by {
                assert(rs[k2] == rest[k2 - 1]);
                if k > 0 {
                    assert(rs[k] == rest[k - 1]);
                } else {
                    let a = rest[k2 - 1].0;
                    if a == hi + 1 {
                        assert(g.has(a));
                    }
                }
            }
            assert forall|l: nat| from <= l implies (#[trigger] g.has(l) <==> exists|k: int|
                0 <= k < rs.len() && (#[trigger] rs[k]).0 <= l <= rs[k].1) by {
                if g.has(l) {
                    if l <= hi {
                        assert(rs[0] == (lo, hi));
                    } else {
                        let k = choose|k: int| 0 <= k < rest.len() && (#[trigger] rest[k]).0 <= l <= rest[k].1;
                        assert(rs[k + 1] == rest[k]);
                    }
                }
                if exists|k: int| 0 <= k < rs.len() && (#[trigger] rs[k]).0 <= l <= rs[k].1 {
                    let k = choose|k: int| 0 <= k < rs.len() && (#[trigger] rs[k]).0 <= l <= rs[k].1;
                    if k > 0 {
                        assert(rs[k] == rest[k - 1]);
                    }
                }
            }
        },
    }
}

} // verus!
