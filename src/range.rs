//! Ranges of prefixes: every sub-prefix of a base whose length lies in given
//! bounds.
use vstd::prelude::*;

use crate::bits::{addr_before, agree, bit, lemma_canonical_eq};
use crate::error::Error;
use crate::family::IpPrefix;
use crate::prefix::{covers, lemma_covers_trans, prefix_order, Prefix};

verus! {

/// `q` lies in the range with base `base` and length bounds `lower..=upper`.
pub open spec fn in_range(base: Prefix, lower: nat, upper: nat, q: Prefix) -> bool {
    covers(base, q) && lower <= q.length <= upper
}

/// A contiguous range of prefixes covered by a common super-prefix.
#[derive(Copy, Debug, PartialEq, Eq, Hash)]
pub struct IpPrefixRange<P: IpPrefix> {
    base: P,
    lower: u8,
    upper: u8,
}

impl<P: IpPrefix> Clone for IpPrefixRange<P> {
    fn clone(&self) -> (r: Self)
        ensures
            r == *self,
    {
        *self
    }
}

impl<P: IpPrefix> IpPrefixRange<P> {
    #[verifier::type_invariant]
    spec fn inv(self) -> bool {
        self.base.spec_prefix().length <= self.lower <= self.upper <= P::width()
    }

    pub closed spec fn spec_base(self) -> Prefix {
        self.base.spec_prefix()
    }

    pub closed spec fn spec_lower(self) -> nat {
        self.lower as nat
    }

    pub closed spec fn spec_upper(self) -> nat {
        self.upper as nat
    }

    /// The prefix `q` lies in the range.
    pub open spec fn has(self, q: Prefix) -> bool {
        in_range(self.spec_base(), self.spec_lower(), self.spec_upper(), q)
    }

    /// Construct a range from a base prefix and inclusive length bounds.
    pub fn new(base: P, lower: u8, upper: u8) -> (r: Result<Self, Error>)
        ensures
            match r {
                Ok(range) => base.spec_prefix().length <= lower <= upper <= P::width()
                    && range.spec_base() == base.spec_prefix() && range.spec_lower() == lower
                    && range.spec_upper() == upper,
                Err(e) => !(base.spec_prefix().length <= lower <= upper <= P::width()) && e
                    == Error::PrefixLen,
            },
    {
        if base.length() > lower || lower > upper || upper > P::max_length() {
            return Err(Error::PrefixLen);
        }
        Ok(IpPrefixRange { base, lower, upper })
    }

    /// The range holding `prefix` alone.
    pub fn from_prefix(prefix: P) -> (r: Self)
        ensures
            r.spec_base() == prefix.spec_prefix(),
            r.spec_lower() == prefix.spec_prefix().length,
            r.spec_upper() == prefix.spec_prefix().length,
    {
        let l = prefix.length();
        let _ = prefix.to_prefix();
        IpPrefixRange { base: prefix, lower: l, upper: l }
    }

    /// Get the covering super-prefix of `self`.
    pub fn base(&self) -> (r: P)
        ensures
            r.spec_prefix() == self.spec_base(),
    {
        self.base
    }

    /// Get the lower bound of the prefix lengths in `self`.
    pub fn lower(&self) -> (r: u8)
        ensures
            r == self.spec_lower(),
    {
        self.lower
    }

    /// Get the upper bound of the prefix lengths in `self`.
    pub fn upper(&self) -> (r: u8)
        ensures
            r == self.spec_upper(),
    {
        self.upper
    }

    /// Get the inclusive bounds of the prefix lengths in `self`.
    pub fn range(&self) -> (r: (u8, u8))
        ensures
            r.0 == self.spec_lower(),
            r.1 == self.spec_upper(),
            self.spec_base().length <= r.0 <= r.1 <= P::width(),
    {
        proof {
            use_type_invariant(self);
        }
        (self.lower, self.upper)
    }

    /// All prefixes in the range, by increasing length and, within a length,
    /// by increasing address (see [`addr_before`]).
    pub fn iter(&self) -> (r: Vec<P>)
        ensures
            forall|i: int| 0 <= i < r.len() ==> #[trigger] self.has(r[i].spec_prefix()),
            forall|i: int| 0 <= i < r.len() ==> #[trigger] r[i].spec_prefix().wf(P::width()),
            forall|q: Prefix| #[trigger] self.has(q) && q.wf(P::width()) ==> exists|i: int|
                0 <= i < r.len() && r[i].spec_prefix() == q,
            forall|i: int, j: int|
                0 <= i < j < r.len() ==> (#[trigger] r[i]).spec_prefix() != (#[trigger] r[j]).spec_prefix(),
            forall|i: int, j: int|
                0 <= i < j < r.len() ==> (#[trigger] r[i]).spec_prefix().length < (
                #[trigger] r[j]).spec_prefix().length || (r[i].spec_prefix().length
                == r[j].spec_prefix().length && addr_before(
                    r[i].spec_prefix().bits,
                    r[j].spec_prefix().bits,
                )),
    {
        proof {
            use_type_invariant(self);
        }
        let mut out: Vec<P> = Vec::new();
        let base = self.base.to_prefix();
        let mut l: u8 = self.lower;
        loop
            invariant
                self.lower <= l <= self.upper,
                self.upper <= P::width(),
                base == self.spec_base(),
                base.wf(P::width()),
                base.length <= self.lower,
                forall|i: int| 0 <= i < out.len() ==> #[trigger] self.has(out[i].spec_prefix()),
                forall|i: int| 0 <= i < out.len() ==> #[trigger] out[i].spec_prefix().wf(P::width()),
                forall|q: Prefix| #[trigger] self.has(q) && q.wf(P::width()) && q.length < l
                    ==> exists|i: int| 0 <= i < out.len() && out[i].spec_prefix() == q,
                forall|i: int| 0 <= i < out.len() ==> (#[trigger] out[i]).spec_prefix().length < l,
                forall|i: int, j: int|
                    0 <= i < j < out.len() ==> (#[trigger] out[i]).spec_prefix() != (
                    #[trigger] out[j]).spec_prefix(),
                forall|i: int, j: int|
                    0 <= i < j < out.len() ==> (#[trigger] out[i]).spec_prefix().length < (
                    #[trigger] out[j]).spec_prefix().length || (out[i].spec_prefix().length
                    == out[j].spec_prefix().length && addr_before(
                        out[i].spec_prefix().bits,
                        out[j].spec_prefix().bits,
                    )),
            decreases self.upper - l,
        {
            let ghost before = out@;
            push_subprefixes::<P>(&base, l, &mut out);
            proof {
                assert forall|i: int| 0 <= i < out.len() implies #[trigger] self.has(
                    out[i].spec_prefix(),
                ) by {
                    if i >= before.len() {
                        let x = out[i].spec_prefix();
                        assert(covers(base, x) && x.length == l);
                    } else {
                        assert(out[i] == before[i]);
                    }
                }
                assert forall|i: int| 0 <= i < out.len() implies #[trigger] out[i].spec_prefix().wf(
                    P::width(),
                ) by {
                    if i < before.len() {
                        assert(out[i] == before[i]);
                    }
                }
                assert forall|i: int, j: int|
                    0 <= i < j < out.len() implies (#[trigger] out[i]).spec_prefix() != (
                    #[trigger] out[j]).spec_prefix() by {
                    if j < before.len() {
                        assert(out[i] == before[i]);
                        assert(out[j] == before[j]);
                    } else if i < before.len() {
                        assert(out[i] == before[i]);
                    }
                }
                assert forall|i: int, j: int|
                    0 <= i < j < out.len() implies (#[trigger] out[i]).spec_prefix().length < (
                    #[trigger] out[j]).spec_prefix().length || (out[i].spec_prefix().length
                    == out[j].spec_prefix().length && addr_before(
                        out[i].spec_prefix().bits,
                        out[j].spec_prefix().bits,
                    )) by {
                    if j < before.len() {
                        assert(out[i] == before[i]);
                        assert(out[j] == before[j]);
                    } else if i < before.len() {
                        assert(out[i] == before[i]);
                    }
                }
                assert forall|i: int| 0 <= i < out.len() implies (#[trigger] out[i]).spec_prefix().length
                    <= l by {
                    if i < before.len() {
                        assert(out[i] == before[i]);
                    }
                }
                assert forall|q: Prefix| #[trigger] self.has(q) && q.wf(P::width()) && q.length
                    <= l implies exists|i: int| 0 <= i < out.len() && out[i].spec_prefix() == q by {
                    if q.length < l {
                        let i = choose|i: int| 0 <= i < before.len() && before[i].spec_prefix() == q;
                        assert(out[i] == before[i]);
                    }
                }
            }
            if l == self.upper {
                return out;
            }
            l = l + 1;
        }
    }

    /// What the text `s` reads as in the form `BASE,LOWER,UPPER`.
    pub open spec fn spec_parse(s: Seq<char>) -> Result<(Prefix, nat, nat), Error> {
        match first_comma(s, 0) {
            None => Err(Error::RangeParse),
            Some(i) => match P::spec_parse(s.subrange(0, i)) {
                Err(e) => Err(e),
                Ok(b) => {
                    let rest = s.subrange(i + 1, s.len() as int);
                    match first_comma(rest, 0) {
                        None => Err(Error::RangeParse),
                        Some(j) => match (
                            decimal(rest.subrange(0, j)),
                            decimal(rest.subrange(j + 1, rest.len() as int)),
                        ) {
                            (Some(lo), Some(hi)) => if b.length <= lo <= hi <= P::width() {
                                Ok((b, lo, hi))
                            } else {
                                Err(Error::PrefixLen)
                            },
                            _ => Err(Error::RangeParse),
                        },
                    }
                },
            },
        }
    }

    /// Read a range in the form `BASE,LOWER,UPPER`, where `BASE` is read by
    /// `P`'s parser and the bounds are decimal.
    pub fn parse(s: &str) -> (r: Result<Self, Error>)
        ensures
            match r {
                Ok(range) => Self::spec_parse(s@) == Ok::<(Prefix, nat, nat), Error>(
                    (range.spec_base(), range.spec_lower(), range.spec_upper()),
                ),
                Err(e) => Self::spec_parse(s@) == Err::<(Prefix, nat, nat), Error>(e),
            },
    {
        let i = match find_comma(s) {
            None => return Err(Error::RangeParse),
            Some(i) => i,
        };
        let base = match P::parse_text(s.substring_char(0, i)) {
            Err(e) => return Err(e),
            Ok(b) => b,
        };
        let n = s.unicode_len();
        let rest = s.substring_char(i + 1, n);
        proof {
            assert(rest@ =~= s@.subrange(i + 1, s@.len() as int));
        }
        let j = match find_comma(rest) {
            None => return Err(Error::RangeParse),
            Some(j) => j,
        };
        let m = rest.unicode_len();
        let lower = parse_u8(rest.substring_char(0, j));
        let upper = parse_u8(rest.substring_char(j + 1, m));
        match (lower, upper) {
            (Some(lo), Some(hi)) => Self::new(base, lo, hi),
            _ => Err(Error::RangeParse),
        }
    }
}

impl<P: IpPrefix> core::str::FromStr for IpPrefixRange<P> {
    type Err = Error;

    fn from_str(s: &str) -> Result<IpPrefixRange<P>, Error> {
        IpPrefixRange::parse(s)
    }
}

/// The index of the first `,` in `s` at or after `i`.
pub open spec fn first_comma(s: Seq<char>, i: int) -> Option<int>
    decreases s.len() - i,
{
    if i < 0 || i >= s.len() {
        None
    } else if s[i] == ',' {
        Some(i)
    } else {
        first_comma(s, i + 1)
    }
}

proof fn lemma_first_comma_bounds(s: Seq<char>, i: int)
    requires
        0 <= i,
    ensures
        first_comma(s, i) matches Some(k) ==> i <= k < s.len() && s[k] == ',',
    decreases s.len() - i,
{
    if i < s.len() && s[i] != ',' {
        lemma_first_comma_bounds(s, i + 1);
    }
}

fn find_comma(s: &str) -> (r: Option<usize>)
    ensures
        r matches Some(i) ==> Some(i as int) == first_comma(s@, 0) && i < s@.len(),
        r is None ==> first_comma(s@, 0) is None,
{
    let n = s.unicode_len();
    let mut i: usize = 0;
    while i < n
        invariant
            i <= n,
            n == s@.len(),
            first_comma(s@, 0) == first_comma(s@, i as int),
        decreases n - i,
    {
        if s.get_char(i) == ',' {
            return Some(i);
        }
        i = i + 1;
    }
    None
}

/// The value of the decimal digits `s`.
pub open spec fn digits_value(s: Seq<char>) -> nat
    decreases s.len(),
{
    if s.len() == 0 {
        0
    } else {
        digits_value(s.drop_last()) * 10 + ((s.last() as u32) - ('0' as u32)) as nat
    }
}

/// `s` is a non-empty run of decimal digits.
pub open spec fn all_digits(s: Seq<char>) -> bool {
    s.len() > 0 && forall|i: int| 0 <= i < s.len() ==> '0' <= #[trigger] s[i] <= '9'
}

/// The `u8` that the decimal text `s` stands for, with an optional leading
/// `+`.
pub open spec fn decimal(s: Seq<char>) -> Option<nat> {
    let d = if s.len() > 0 && s[0] == '+' {
        s.drop_first()
    } else {
        s
    };
    if all_digits(d) && digits_value(d) <= 255 {
        Some(digits_value(d))
    } else {
        None
    }
}

/// Read a decimal `u8`.
pub fn parse_u8(s: &str) -> (r: Option<u8>)
    ensures
        match decimal(s@) {
            Some(v) => r == Some(v as u8),
            None => r is None,
        },
{
    let n = s.unicode_len();
    let mut start: usize = 0;
    if n > 0 && s.get_char(0) == '+' {
        start = 1;
    }
    let ghost d = if s@.len() > 0 && s@[0] == '+' {
        s@.drop_first()
    } else {
        s@
    };
    proof {
        assert(d =~= s@.subrange(start as int, n as int));
    }
    if start >= n {
        return None;
    }
    let mut v: u32 = 0;
    let mut i: usize = start;
    while i < n
        invariant
            start <= i <= n,
            n == s@.len(),
            start < n,
            d =~= s@.subrange(start as int, n as int),
            d == (if s@.len() > 0 && s@[0] == '+' {
                s@.drop_first()
            } else {
                s@
            }),
            forall|k: int| start <= k < i ==> '0' <= #[trigger] s@[k] <= '9',
            v as nat == if digits_value(s@.subrange(start as int, i as int)) < 256 {
                digits_value(s@.subrange(start as int, i as int))
            } else {
                256
            },
        decreases n - i,
    {
        let c = s.get_char(i);
        if c < '0' || c > '9' {
            proof {
                assert(d[i - start] == c);
                assert(!all_digits(d));
                assert(decimal(s@) is None);
            }
            return None;
        }
        let ghost pre = s@.subrange(start as int, i as int);
        let ghost post = s@.subrange(start as int, i + 1);
        proof {
            assert(post.drop_last() =~= pre);
            assert(post.last() == c);
        }
        let digit = (c as u32) - ('0' as u32);
        v = v * 10 + digit;
        if v > 256 {
            v = 256;
        }
        i = i + 1;
    }
    proof {
        assert(s@.subrange(start as int, n as int) == d);
        assert forall|k: int| 0 <= k < d.len() implies '0' <= #[trigger] d[k] <= '9' by {
            assert(d[k] == s@[k + start]);
        }
    }
    if v > 255 {
        None
    } else {
        Some(v as u8)
    }
}

/// The sub-prefixes of `p` of length `length`, by increasing address.
pub fn subprefixes<P: IpPrefix>(p: &P, length: u8) -> (r: Vec<P>)
    ensures
        forall|i: int|
            0 <= i < r.len() ==> covers(p.spec_prefix(), #[trigger] r[i].spec_prefix())
                && r[i].spec_prefix().length == length,
        forall|q: Prefix| #[trigger] covers(p.spec_prefix(), q) && q.length == length && q.wf(
            P::width(),
        ) ==> exists|i: int| 0 <= i < r.len() && r[i].spec_prefix() == q,
        forall|i: int, j: int|
            0 <= i < j < r.len() ==> (#[trigger] r[i]).spec_prefix() != (#[trigger] r[j]).spec_prefix(),
        !(p.spec_prefix().length <= length <= P::width()) ==> r.len() == 0,
{
    let mut out: Vec<P> = Vec::new();
    let base = p.to_prefix();
    if base.length <= length && length <= P::max_length() {
        push_subprefixes::<P>(&base, length, &mut out);
    }
    out
}

/// The order of ranges of prefixes: a range is less than another that
/// holds all of its prefixes, by a base that covers its own and length
/// bounds around its own.
pub open spec fn range_order(a: (Prefix, nat, nat), b: (Prefix, nat, nat)) -> Option<core::cmp::Ordering> {
    let o = prefix_order(a.0, b.0);
    if o == Some(core::cmp::Ordering::Equal) && a.1 == b.1 && a.2 == b.2 {
        Some(core::cmp::Ordering::Equal)
    } else if (o == Some(core::cmp::Ordering::Less) || o == Some(core::cmp::Ordering::Equal))
        && b.1 <= a.1 && a.2 <= b.2 {
        Some(core::cmp::Ordering::Less)
    } else if (o == Some(core::cmp::Ordering::Greater) || o == Some(core::cmp::Ordering::Equal))
        && a.1 <= b.1 && b.2 <= a.2 {
        Some(core::cmp::Ordering::Greater)
    } else {
        None
    }
}

impl<P: IpPrefix + PartialEq> PartialOrd for IpPrefixRange<P> {
    fn partial_cmp(&self, other: &Self) -> (r: Option<core::cmp::Ordering>) {
        let a = self.base.to_prefix();
        let b = other.base.to_prefix();
        let o = a.order(&b);
        let (al, au) = (self.lower, self.upper);
        let (bl, bu) = (other.lower, other.upper);
        let (eq, less, greater) = match o {
            Some(core::cmp::Ordering::Equal) => (true, false, false),
            Some(core::cmp::Ordering::Less) => (false, true, false),
            Some(core::cmp::Ordering::Greater) => (false, false, true),
            None => (false, false, false),
        };
        if eq && al == bl && au == bu {
            Some(core::cmp::Ordering::Equal)
        } else if (less || eq) && bl <= al && au <= bu {
            Some(core::cmp::Ordering::Less)
        } else if (greater || eq) && al <= bl && bu <= au {
            Some(core::cmp::Ordering::Greater)
        } else {
            None
        }
    }
}

impl<P: IpPrefix + PartialEq> vstd::std_specs::cmp::PartialOrdSpecImpl for IpPrefixRange<P> {
    open spec fn obeys_partial_cmp_spec() -> bool {
        true
    }

    open spec fn partial_cmp_spec(&self, other: &Self) -> Option<core::cmp::Ordering> {
        range_order(
            (self.spec_base(), self.spec_lower(), self.spec_upper()),
            (other.spec_base(), other.spec_lower(), other.spec_upper()),
        )
    }
}

/// Append to `out` every prefix of length `length` that `base` covers, by
/// increasing address.
fn push_subprefixes<P: IpPrefix>(base: &Prefix, length: u8, out: &mut Vec<P>)
    requires
        base.wf(P::width()),
        base.length <= length <= P::width(),
    ensures
        final(out)@.len() >= old(out)@.len(),
        forall|i: int| 0 <= i < old(out)@.len() ==> #[trigger] final(out)@[i] == old(out)@[i],
        forall|i: int|
            old(out)@.len() <= i < final(out)@.len() ==> covers(*base, #[trigger] final(out)@[i].spec_prefix())
                && final(out)@[i].spec_prefix().length == length && final(out)@[i].spec_prefix().wf(
                P::width(),
            ),
        forall|q: Prefix| #[trigger] covers(*base, q) && q.length == length && q.wf(P::width())
            ==> exists|i: int| 0 <= i < final(out)@.len() && final(out)@[i].spec_prefix() == q,
        forall|i: int, j: int|
            old(out)@.len() <= i < j < final(out)@.len() ==> (#[trigger] final(out)@[i]).spec_prefix()
                != (#[trigger] final(out)@[j]).spec_prefix(),
        forall|i: int, j: int|
            old(out)@.len() <= i < j < final(out)@.len() ==> addr_before(
                (#[trigger] final(out)@[i]).spec_prefix().bits,
                (#[trigger] final(out)@[j]).spec_prefix().bits,
            ),
    decreases length - base.length,
{
    if base.length == length {
        let ghost before = out@;
        out.push(P::from_prefix(*base));
        proof {
            assert forall|q: Prefix| #[trigger] covers(*base, q) && q.length == length && q.wf(
                P::width(),
            ) implies exists|i: int| 0 <= i < out@.len() && out@[i].spec_prefix() == q by {
                lemma_canonical_eq(base.bits, q.bits, length as nat);
                assert(out@[before.len() as int].spec_prefix() == q);
            }
            assert(covers(*base, *base));
        }
    } else {
        let ghost o0 = out@;
        let l = base.child(false);
        let r = base.child(true);
        push_subprefixes::<P>(&l, length, out);
        let ghost o1 = out@;
        push_subprefixes::<P>(&r, length, out);
        proof {
            assert forall|i: int| o0.len() <= i < out@.len() implies covers(
                *base,
                #[trigger] out@[i].spec_prefix(),
            ) && out@[i].spec_prefix().length == length && out@[i].spec_prefix().wf(P::width()) by {
                if i < o1.len() {
                    assert(out@[i] == o1[i]);
                    lemma_covers_trans(*base, l, o1[i].spec_prefix());
                } else {
                    lemma_covers_trans(*base, r, out@[i].spec_prefix());
                }
            }
            assert forall|q: Prefix| #[trigger] covers(*base, q) && q.length == length && q.wf(
                P::width(),
            ) implies exists|i: int| 0 <= i < out@.len() && out@[i].spec_prefix() == q by {
                if crate::bits::bit(q.bits, base.length as nat) {
                    crate::node::lemma_cover_child(*base, r, q);
                } else {
                    crate::node::lemma_cover_child(*base, l, q);
                    let i = choose|i: int| 0 <= i < o1.len() && o1[i].spec_prefix() == q;
                    assert(out@[i] == o1[i]);
                }
            }
            assert forall|i: int, j: int|
                o0.len() <= i < j < out@.len() implies (#[trigger] out@[i]).spec_prefix()
                    != (#[trigger] out@[j]).spec_prefix() by {
                if i < o1.len() && j >= o1.len() {
                    assert(out@[i] == o1[i]);
                    let x = out@[i].spec_prefix();
                    let y = out@[j].spec_prefix();
                    assert(crate::bits::bit(l.bits, base.length as nat) == crate::bits::bit(x.bits, base.length as nat));
                    assert(crate::bits::bit(r.bits, base.length as nat) == crate::bits::bit(y.bits, base.length as nat));
                } else if j < o1.len() {
                    assert(out@[i] == o1[i]);
                    assert(out@[j] == o1[j]);
                }
            }
            assert forall|i: int, j: int|
                o0.len() <= i < j < out@.len() implies addr_before(
                    (#[trigger] out@[i]).spec_prefix().bits,
                    (#[trigger] out@[j]).spec_prefix().bits,
                ) by {
                if i < o1.len() && j >= o1.len() {
                    assert(out@[i] == o1[i]);
                    let x = out@[i].spec_prefix();
                    let y = out@[j].spec_prefix();
                    let k = base.length as nat;
                    assert(bit(l.bits, k) == bit(x.bits, k));
                    assert(bit(r.bits, k) == bit(y.bits, k));
                    assert forall|t: nat| t < k implies #[trigger] bit(x.bits, t) == bit(y.bits, t) by {
                        assert(bit(base.bits, t) == bit(x.bits, t));
                        assert(bit(base.bits, t) == bit(y.bits, t));
                    }
                    assert(k < 128 && agree(x.bits, y.bits, k) && !bit(x.bits, k) && bit(y.bits, k));
                } else if j < o1.len() {
                    assert(out@[i] == o1[i]);
                    assert(out@[j] == o1[j]);
                }
            }
        }
    }
}

} // verus!
