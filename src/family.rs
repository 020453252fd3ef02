//! The IPv4 and IPv6 prefix types, and their text form.
use vstd::prelude::*;

use crate::bits::{lemma_mask_idem, mask, mask_of};
use crate::error::Error;
use crate::prefix::{prefix_order, Prefix};

verus! {

/// What a [`PrefixSet`](crate::set::PrefixSet) needs of an address family's
/// prefix type: its width, and a lossless passage to and from the
/// left-aligned [`Prefix`] that the tree holds.
pub trait IpPrefix: Sized + Copy {
    /// The width in bits of an address of the family.
    spec fn width() -> nat;

    /// The left-aligned prefix that `self` stands for.
    spec fn spec_prefix(&self) -> Prefix;

    /// The maximum length in bits of a prefix of the family.
    fn max_length() -> (r: u8)
        ensures
            r as nat == Self::width(),
            r == 32 || r == 128,
    ;

    /// The left-aligned prefix that `self` stands for.
    fn to_prefix(&self) -> (r: Prefix)
        ensures
            r == self.spec_prefix(),
            r.wf(Self::width()),
    ;

    /// The value of the family that stands for `p`.
    fn from_prefix(p: Prefix) -> (r: Self)
        requires
            p.wf(Self::width()),
        ensures
            r.spec_prefix() == p,
    ;

    /// Get the length of the prefix in bits.
    fn length(&self) -> (r: u8)
        ensures
            r == self.spec_prefix().length,
    ;

    /// What the text `s` reads as: a prefix of the family, or the error.
    spec fn spec_parse(s: Seq<char>) -> Result<Prefix, Error>;

    /// Read a prefix of the family from its text form.
    fn parse_text(s: &str) -> (r: Result<Self, Error>)
        ensures
            match r {
                Ok(p) => Self::spec_parse(s@) == Ok::<Prefix, Error>(p.spec_prefix()),
                Err(e) => Self::spec_parse(s@) == Err::<Prefix, Error>(e),
            },
    ;
}

/// A prefix of the IPv4 address family.
#[derive(Clone, Copy, Debug, PartialEq, Eq, Hash, Structural)]
pub struct Ipv4Prefix {
    bits: u32,
    length: u8,
}

/// A prefix of the IPv6 address family.
#[derive(Clone, Copy, Debug, PartialEq, Eq, Hash, Structural)]
pub struct Ipv6Prefix {
    bits: u128,
    length: u8,
}

/// What the text `s` reads as, in ipnet's syntax for an IPv4 network: the
/// network address and the prefix length.
pub uninterp spec fn ipv4_net_of(s: Seq<char>) -> Option<(u32, u8)>;

/// What the text `s` reads as, in ipnet's syntax for an IPv6 network: the
/// network address and the prefix length.
pub uninterp spec fn ipv6_net_of(s: Seq<char>) -> Option<(u128, u8)>;

/// The text that ipnet writes for the IPv4 network with this address and
/// prefix length.
pub uninterp spec fn ipv4_net_text(bits: u32, length: u8) -> Seq<char>;

/// The text that ipnet writes for the IPv6 network with this address and
/// prefix length.
pub uninterp spec fn ipv6_net_text(bits: u128, length: u8) -> Seq<char>;

/// Relies on `FromStr for ipnet::Ipv4Net` to read `a.b.c.d/n`, and on
/// `Ipv4Net::network` and `Ipv4Net::prefix_len` to hand back what was read;
/// the parser refuses prefix lengths above 32.
#[verifier::external_body]
fn parse_ipv4_net(s: &str) -> (r: Option<(u32, u8)>)
    ensures
        r == ipv4_net_of(s@),
        r matches Some((_, l)) ==> l <= 32,
{
    match s.parse::<ipnet::Ipv4Net>() {
        Ok(net) => Some((u32::from(net.network()), net.prefix_len())),
        Err(_) => None,
    }
}

/// Relies on `FromStr for ipnet::Ipv6Net` to read an IPv6 network, and on
/// `Ipv6Net::network` and `Ipv6Net::prefix_len` to hand back what was read;
/// the parser refuses prefix lengths above 128.
#[verifier::external_body]
fn parse_ipv6_net(s: &str) -> (r: Option<(u128, u8)>)
    ensures
        r == ipv6_net_of(s@),
        r matches Some((_, l)) ==> l <= 128,
{
    match s.parse::<ipnet::Ipv6Net>() {
        Ok(net) => Some((u128::from(net.network()), net.prefix_len())),
        Err(_) => None,
    }
}

/// Relies on `ipnet::Ipv4Net::new`, which accepts lengths up to 32, and on
/// its `Display`, which writes `a.b.c.d/n`.
#[verifier::external_body]
fn ipv4_text(bits: u32, length: u8) -> (r: String)
    requires
        length <= 32,
    ensures
        r@ == ipv4_net_text(bits, length),
{
    match ipnet::Ipv4Net::new(bits.into(), length) {
        Ok(net) => net.to_string(),
        Err(_) => String::new(),
    }
}

/// Relies on `ipnet::Ipv6Net::new`, which accepts lengths up to 128, and on
/// its `Display`, which writes the address in its shortest form and `/n`.
#[verifier::external_body]
fn ipv6_text(bits: u128, length: u8) -> (r: String)
    requires
        length <= 128,
    ensures
        r@ == ipv6_net_text(bits, length),
{
    match ipnet::Ipv6Net::new(bits.into(), length) {
        Ok(net) => net.to_string(),
        Err(_) => String::new(),
    }
}

/// The left-aligned form of a 32-bit address.
pub open spec fn widen(bits: u32) -> u128 {
    (bits as u128) << 96u128
}

/// A left-aligned address that is canonical for a length of at most 32 is
/// the widened form of its upper 32 bits.
proof fn lemma_narrow(b: u128, length: nat)
    requires
        length <= 32,
        b & mask(length) == b,
    ensures
        widen((b >> 96u128) as u32) == b,
{
    if length == 0 {
        assert(b & 0u128 == 0u128) by (bit_vector);
        assert(b == 0);
        assert((((0u128 >> 96u128) as u32) as u128) << 96u128 == 0u128) by (bit_vector);
    } else {
        let k = (128 - length) as u128;
        assert(mask(length) == !0u128 << k);
        assert(96u128 <= k && k < 128u128 && b & (!0u128 << k) == b ==> (((b >> 96u128) as u32)
            as u128) << 96u128 == b) by (bit_vector);
    }
}

impl Ipv4Prefix {
    #[verifier::type_invariant]
    spec fn inv(self) -> bool {
        self.length <= 32 && widen(self.bits) & mask(self.length as nat) == widen(self.bits)
    }

    pub closed spec fn spec_bits(self) -> u32 {
        self.bits
    }

    /// Construct the prefix of length `length` that covers `addr`; host bits
    /// of `addr` below the length are cleared.
    pub fn new(addr: u32, length: u8) -> (r: Result<Ipv4Prefix, Error>)
        ensures
            length > 32 ==> r == Err::<Ipv4Prefix, Error>(Error::PrefixLen),
            length <= 32 ==> (r matches Ok(p) && p.spec_prefix() == (Prefix {
                bits: widen(addr) & mask(length as nat),
                length,
            })),
    {
        if length > 32 {
            return Err(Error::PrefixLen);
        }
        let b = ((addr as u128) << 96u128) & mask_of(length);
        proof {
            lemma_mask_idem(widen(addr), length as nat);
        }
        Ok(Self::from_prefix(Prefix { bits: b, length }))
    }

    /// Read a prefix in the form `a.b.c.d/n`; host bits are cleared.
    pub fn parse(s: &str) -> (r: Result<Ipv4Prefix, Error>)
        ensures
            match ipv4_net_of(s@) {
                None => r == Err::<Ipv4Prefix, Error>(Error::AddrParse),
                Some((a, l)) => r matches Ok(p) && p.spec_prefix() == (Prefix {
                    bits: widen(a) & mask(l as nat),
                    length: l,
                }),
            },
    {
        match parse_ipv4_net(s) {
            Some((a, l)) => Self::new(a, l),
            None => Err(Error::AddrParse),
        }
    }

    /// Get the address of the prefix.
    pub fn bits(&self) -> (r: u32)
        ensures
            widen(r) == self.spec_prefix().bits,
    {
        self.bits
    }

    /// The text form `a.b.c.d/n`.
    pub fn to_text(&self) -> (r: String)
        ensures
            r@ == ipv4_net_text(self.spec_bits(), self.spec_prefix().length),
    {
        proof {
            use_type_invariant(self);
        }
        ipv4_text(self.bits, self.length)
    }
}

impl IpPrefix for Ipv4Prefix {
    open spec fn width() -> nat {
        32
    }

    closed spec fn spec_prefix(&self) -> Prefix {
        Prefix { bits: widen(self.bits), length: self.length }
    }

    fn max_length() -> (r: u8) {
        32
    }

    fn to_prefix(&self) -> (r: Prefix) {
        proof {
            use_type_invariant(self);
        }
        Prefix { bits: (self.bits as u128) << 96u128, length: self.length }
    }

    fn from_prefix(p: Prefix) -> (r: Self) {
        proof {
            lemma_narrow(p.bits, p.length as nat);
        }
        Ipv4Prefix { bits: (p.bits >> 96u128) as u32, length: p.length }
    }

    fn length(&self) -> (r: u8) {
        self.length
    }

    open spec fn spec_parse(s: Seq<char>) -> Result<Prefix, Error> {
        match ipv4_net_of(s) {
            None => Err(Error::AddrParse),
            Some((a, l)) => Ok(Prefix { bits: widen(a) & mask(l as nat), length: l }),
        }
    }

    fn parse_text(s: &str) -> (r: Result<Self, Error>) {
        Self::parse(s)
    }
}

impl Ipv6Prefix {
    #[verifier::type_invariant]
    spec fn inv(self) -> bool {
        self.length <= 128 && self.bits & mask(self.length as nat) == self.bits
    }

    /// Construct the prefix of length `length` that covers `addr`; host bits
    /// of `addr` below the length are cleared.
    pub fn new(addr: u128, length: u8) -> (r: Result<Ipv6Prefix, Error>)
        ensures
            length > 128 ==> r == Err::<Ipv6Prefix, Error>(Error::PrefixLen),
            length <= 128 ==> (r matches Ok(p) && p.spec_prefix() == (Prefix {
                bits: addr & mask(length as nat),
                length,
            })),
    {
        if length > 128 {
            return Err(Error::PrefixLen);
        }
        let b = addr & mask_of(length);
        proof {
            lemma_mask_idem(addr, length as nat);
        }
        Ok(Self::from_prefix(Prefix { bits: b, length }))
    }

    /// Read a prefix in ipnet's IPv6 network syntax; host bits are cleared.
    pub fn parse(s: &str) -> (r: Result<Ipv6Prefix, Error>)
        ensures
            match ipv6_net_of(s@) {
                None => r == Err::<Ipv6Prefix, Error>(Error::AddrParse),
                Some((a, l)) => r matches Ok(p) && p.spec_prefix() == (Prefix {
                    bits: a & mask(l as nat),
                    length: l,
                }),
            },
    {
        match parse_ipv6_net(s) {
            Some((a, l)) => Self::new(a, l),
            None => Err(Error::AddrParse),
        }
    }

    /// Get the address of the prefix.
    pub fn bits(&self) -> (r: u128)
        ensures
            r == self.spec_prefix().bits,
    {
        self.bits
    }

    /// The text form of the prefix.
    pub fn to_text(&self) -> (r: String)
        ensures
            r@ == ipv6_net_text(self.spec_prefix().bits, self.spec_prefix().length),
    {
        proof {
            use_type_invariant(self);
        }
        ipv6_text(self.bits, self.length)
    }
}

impl IpPrefix for Ipv6Prefix {
    open spec fn width() -> nat {
        128
    }

    closed spec fn spec_prefix(&self) -> Prefix {
        Prefix { bits: self.bits, length: self.length }
    }

    fn max_length() -> (r: u8) {
        128
    }

    fn to_prefix(&self) -> (r: Prefix) {
        proof {
            use_type_invariant(self);
        }
        Prefix { bits: self.bits, length: self.length }
    }

    fn from_prefix(p: Prefix) -> (r: Self) {
        Ipv6Prefix { bits: p.bits, length: p.length }
    }

    fn length(&self) -> (r: u8) {
        self.length
    }

    open spec fn spec_parse(s: Seq<char>) -> Result<Prefix, Error> {
        match ipv6_net_of(s) {
            None => Err(Error::AddrParse),
            Some((a, l)) => Ok(Prefix { bits: a & mask(l as nat), length: l }),
        }
    }

    fn parse_text(s: &str) -> (r: Result<Self, Error>) {
        Self::parse(s)
    }
}

impl core::str::FromStr for Ipv4Prefix {
    type Err = Error;

    fn from_str(s: &str) -> Result<Ipv4Prefix, Error> {
        Ipv4Prefix::parse(s)
    }
}

impl core::str::FromStr for Ipv6Prefix {
    type Err = Error;

    fn from_str(s: &str) -> Result<Ipv6Prefix, Error> {
        Ipv6Prefix::parse(s)
    }
}

impl PartialOrd for Ipv4Prefix {
    /// Prefixes are ordered by covering: a prefix is greater than its strict
    /// sub-prefixes.
    fn partial_cmp(&self, other: &Ipv4Prefix) -> (r: Option<core::cmp::Ordering>) {
        let p = self.to_prefix();
        let q = other.to_prefix();
        p.order(&q)
    }
}

impl vstd::std_specs::cmp::PartialOrdSpecImpl for Ipv4Prefix {
    open spec fn obeys_partial_cmp_spec() -> bool {
        true
    }

    open spec fn partial_cmp_spec(&self, other: &Ipv4Prefix) -> Option<core::cmp::Ordering> {
        prefix_order(self.spec_prefix(), other.spec_prefix())
    }
}

impl PartialOrd for Ipv6Prefix {
    /// Prefixes are ordered by covering: a prefix is greater than its strict
    /// sub-prefixes.
    fn partial_cmp(&self, other: &Ipv6Prefix) -> (r: Option<core::cmp::Ordering>) {
        let p = self.to_prefix();
        let q = other.to_prefix();
        p.order(&q)
    }
}

impl vstd::std_specs::cmp::PartialOrdSpecImpl for Ipv6Prefix {
    open spec fn obeys_partial_cmp_spec() -> bool {
        true
    }

    open spec fn partial_cmp_spec(&self, other: &Ipv6Prefix) -> Option<core::cmp::Ordering> {
        prefix_order(self.spec_prefix(), other.spec_prefix())
    }
}

/// The prefix of length `length` whose upper bits are those of `p`.
pub fn new_from<P: IpPrefix>(p: &P, length: u8) -> (r: Result<P, Error>)
    ensures
        length > P::width() ==> r == Err::<P, Error>(Error::PrefixLen),
        length <= P::width() ==> (r matches Ok(q) && q.spec_prefix() == (Prefix {
            bits: p.spec_prefix().bits & mask(length as nat),
            length,
        })),
{
    if length > P::max_length() {
        return Err(Error::PrefixLen);
    }
    let b = p.to_prefix().bits & mask_of(length);
    proof {
        lemma_mask_idem(p.spec_prefix().bits, length as nat);
    }
    Ok(P::from_prefix(Prefix { bits: b, length }))
}

} // verus!
