//! Laws that hold of every prefix set.
use vstd::prelude::*;

use crate::bits::lemma_canonical_eq;
use crate::canonical::{lemma_unique, same_members};
use crate::family::{IpPrefix, Ipv4Prefix, Ipv6Prefix};
use crate::node::{lens, opt_has, siblings_disjoint, Node};
use crate::prefix::Prefix;
use crate::range::{in_range, IpPrefixRange};
use crate::set::{members_of, universe, PrefixSet, SetItem};

verus! {

/// Some node of the optional sub-tree `n` holds length `l` in its map.
pub open spec fn holds_length(n: Option<Box<Node>>, l: nat) -> bool
    decreases n,
{
    match n {
        Some(c) => c.gluemap.has(l) || holds_length(c.left, l) || holds_length(c.right, l),
        None => false,
    }
}

/// No length held by a node is held again by one of its descendants.
pub open spec fn lengths_unique_on_paths(n: Node) -> bool
    decreases n,
{
    &&& forall|l: nat| #[trigger] n.gluemap.has(l) ==> !holds_length(n.left, l) && !holds_length(
        n.right,
        l,
    )
    &&& match n.left {
        Some(c) => lengths_unique_on_paths(*c),
        None => true,
    }
    &&& match n.right {
        Some(c) => lengths_unique_on_paths(*c),
        None => true,
    }
}

/// No node has two children one bit below it that share a length.
pub open spec fn no_sibling_overlap(n: Node) -> bool
    decreases n,
{
    &&& siblings_disjoint(n)
    &&& match n.left {
        Some(c) => no_sibling_overlap(*c),
        None => true,
    }
    &&& match n.right {
        Some(c) => no_sibling_overlap(*c),
        None => true,
    }
}

proof fn lemma_aggregated_paths(n: Node, m: Set<nat>)
    requires
        n.aggregated(m),
    ensures
        forall|l: nat| m.contains(l) ==> !#[trigger] holds_length(Some(Box::new(n)), l),
        lengths_unique_on_paths(n),
        no_sibling_overlap(n),
    decreases n,
{
    let m2 = m + lens(n.gluemap);
    if let Some(c) = n.left {
        lemma_aggregated_paths(*c, m2);
        assert(Some(Box::new(*c)) == n.left);
    }
    if let Some(c) = n.right {
        lemma_aggregated_paths(*c, m2);
        assert(Some(Box::new(*c)) == n.right);
    }
    assert forall|l: nat| #[trigger] n.gluemap.has(l) implies !holds_length(n.left, l)
        && !holds_length(n.right, l) by {
        assert(m2.contains(l));
    }
    assert forall|l: nat| m.contains(l) implies !#[trigger] holds_length(Some(Box::new(n)), l) by {
        assert(m2.contains(l));
        assert(!n.gluemap.has(l));
        if let Some(c) = n.left {
            assert(!holds_length(Some(Box::new(*c)), l));
            assert(n.left == Some(Box::new(*c)));
        }
        if let Some(c) = n.right {
            assert(!holds_length(Some(Box::new(*c)), l));
            assert(n.right == Some(Box::new(*c)));
        }
        assert(!holds_length(n.left, l));
        assert(!holds_length(n.right, l));
        assert(holds_length(Some(Box::new(n)), l) == (n.gluemap.has(l) || holds_length(n.left, l)
            || holds_length(n.right, l)));
    }
}

/// In a prefix set no length is held twice on a path from the root of its
/// tree to a leaf.
pub proof fn law_lengths_unique_on_paths<P: IpPrefix>(s: PrefixSet<P>)
    requires
        s.wf(),
    ensures
        s.tree() matches Some(n) ==> lengths_unique_on_paths(*n),
{
    if let Some(n) = s.tree() {
        lemma_aggregated_paths(*n, Set::empty());
    }
}

/// In a prefix set no node has two children one bit below it whose maps
/// share a length: such lengths have been pulled up into the parent.
pub proof fn law_no_sibling_overlap<P: IpPrefix>(s: PrefixSet<P>)
    requires
        s.wf(),
    ensures
        s.tree() matches Some(n) ==> no_sibling_overlap(*n),
{
    if let Some(n) = s.tree() {
        lemma_aggregated_paths(*n, Set::empty());
    }
}

/// Sets holding the same prefixes are equal: their aggregated trees are
/// the same tree, so `==` on sets is equality of their members.
pub proof fn law_same_members_same_tree<P: IpPrefix>(s: PrefixSet<P>, t: PrefixSet<P>)
    requires
        s.wf(),
        t.wf(),
        s.members() == t.members(),
    ensures
        s.tree() == t.tree(),
{
    let w = P::width();
    match (s.tree(), t.tree()) {
        (Some(a), Some(b)) => {
            assert forall|q: Prefix| #[trigger] q.wf(w) implies a.has(q) == b.has(q) by {
                assert(opt_has(s.tree(), q) == a.has(q));
                assert(opt_has(t.tree(), q) == b.has(q));
                assert(s.members().contains(q) == (opt_has(s.tree(), q) && q.wf(w)));
                assert(t.members().contains(q) == (opt_has(t.tree(), q) && q.wf(w)));
                assert(s.members().contains(q) == t.members().contains(q));
            }
            assert(same_members(*a, *b, w));
            lemma_unique(*a, *b, Set::empty(), w);
        },
        (Some(a), None) => {
            let q = a.lemma_some_member(w, Set::empty());
            assert(s.members().contains(q));
        },
        (None, Some(b)) => {
            let q = b.lemma_some_member(w, Set::empty());
            assert(t.members().contains(q));
        },
        (None, None) => {},
    }
}

/// The complement of the complement of a set is the set itself, tree for
/// tree.
pub proof fn law_double_complement<P: IpPrefix>(a: PrefixSet<P>, not_a: PrefixSet<P>, not_not_a: PrefixSet<P>)
    requires
        a.wf(),
        not_a.wf(),
        not_not_a.wf(),
        not_a.members() == universe::<P>() - a.members(),
        not_not_a.members() == universe::<P>() - not_a.members(),
    ensures
        not_not_a.tree() == a.tree(),
{
    assert(not_not_a.members() =~= a.members());
    law_same_members_same_tree(not_not_a, a);
}

/// A prefix range holding one length holds, among canonical prefixes, its
/// base alone.
pub proof fn law_single_length_range(p: Prefix, q: Prefix, w: nat)
    requires
        p.wf(w),
        q.wf(w),
    ensures
        in_range(p, p.length as nat, p.length as nat, q) <==> q == p,
{
    if in_range(p, p.length as nat, p.length as nat, q) {
        lemma_canonical_eq(p.bits, q.bits, p.length as nat);
    }
    if q == p {
        assert(crate::prefix::covers(p, q));
    }
}

/// A set built from a list of IPv4 prefixes holds exactly the prefixes of
/// the list, each once whatever its multiplicity.
pub proof fn law_membership_fidelity_v4(items: Seq<Ipv4Prefix>)
    requires
        forall|j: int| 0 <= j < items.len() ==> (#[trigger] items[j]).spec_prefix().wf(32),
    ensures
        members_of::<Ipv4Prefix, Ipv4Prefix>(items) == items.map_values(
            |p: Ipv4Prefix| p.spec_prefix(),
        ).to_set(),
{
    let s = items.map_values(|p: Ipv4Prefix| p.spec_prefix());
    assert forall|q: Prefix| #[trigger] members_of::<Ipv4Prefix, Ipv4Prefix>(items).contains(q)
        == s.to_set().contains(q) by {
        if members_of::<Ipv4Prefix, Ipv4Prefix>(items).contains(q) {
            let j = choose|j: int|
                0 <= j < items.len() && in_range(
                    #[trigger] items[j].spec_range().0,
                    items[j].spec_range().1,
                    items[j].spec_range().2,
                    q,
                );
            law_single_length_range(items[j].spec_prefix(), q, 32);
            assert(s[j] == q);
        }
        if s.to_set().contains(q) {
            let j = choose|j: int| 0 <= j < s.len() && s[j] == q;
            law_single_length_range(items[j].spec_prefix(), q, 32);
            assert(in_range(
                items[j].spec_range().0,
                items[j].spec_range().1,
                items[j].spec_range().2,
                q,
            ));
        }
    }
    assert(members_of::<Ipv4Prefix, Ipv4Prefix>(items) =~= s.to_set());
}

/// A set built from a list of IPv6 prefixes holds exactly the prefixes of
/// the list, each once whatever its multiplicity.
pub proof fn law_membership_fidelity_v6(items: Seq<Ipv6Prefix>)
    requires
        forall|j: int| 0 <= j < items.len() ==> (#[trigger] items[j]).spec_prefix().wf(128),
    ensures
        members_of::<Ipv6Prefix, Ipv6Prefix>(items) == items.map_values(
            |p: Ipv6Prefix| p.spec_prefix(),
        ).to_set(),
{
    let s = items.map_values(|p: Ipv6Prefix| p.spec_prefix());
    assert forall|q: Prefix| #[trigger] members_of::<Ipv6Prefix, Ipv6Prefix>(items).contains(q)
        == s.to_set().contains(q) by {
        if members_of::<Ipv6Prefix, Ipv6Prefix>(items).contains(q) {
            let j = choose|j: int|
                0 <= j < items.len() && in_range(
                    #[trigger] items[j].spec_range().0,
                    items[j].spec_range().1,
                    items[j].spec_range().2,
                    q,
                );
            law_single_length_range(items[j].spec_prefix(), q, 128);
            assert(s[j] == q);
        }
        if s.to_set().contains(q) {
            let j = choose|j: int| 0 <= j < s.len() && s[j] == q;
            law_single_length_range(items[j].spec_prefix(), q, 128);
            assert(in_range(
                items[j].spec_range().0,
                items[j].spec_range().1,
                items[j].spec_range().2,
                q,
            ));
        }
    }
    assert(members_of::<Ipv6Prefix, Ipv6Prefix>(items) =~= s.to_set());
}

/// Building a set from a list of IPv4 prefixes, or from the list of the
/// single-length ranges of those prefixes, gives equal sets: the same
/// members, and so the same tree.
pub proof fn law_range_prefix_equivalence_v4(
    prefixes: Seq<Ipv4Prefix>,
    ranges: Seq<IpPrefixRange<Ipv4Prefix>>,
    from_prefixes: PrefixSet<Ipv4Prefix>,
    from_ranges: PrefixSet<Ipv4Prefix>,
)
    requires
        ranges.len() == prefixes.len(),
        from_prefixes.wf(),
        from_ranges.wf(),
        from_prefixes.members() == members_of::<Ipv4Prefix, Ipv4Prefix>(prefixes),
        from_ranges.members() == members_of::<Ipv4Prefix, IpPrefixRange<Ipv4Prefix>>(ranges),
        forall|i: int|
            0 <= i < ranges.len() ==> (#[trigger] ranges[i]).spec_base() == prefixes[i].spec_prefix()
                && ranges[i].spec_lower() == prefixes[i].spec_prefix().length
                && ranges[i].spec_upper() == prefixes[i].spec_prefix().length,
    ensures
        members_of::<Ipv4Prefix, Ipv4Prefix>(prefixes) == members_of::<
            Ipv4Prefix,
            IpPrefixRange<Ipv4Prefix>,
        >(ranges),
        from_prefixes.tree() == from_ranges.tree(),
{
    assert forall|i: int| 0 <= i < ranges.len() implies #[trigger] ranges[i].spec_range()
        == prefixes[i].spec_range() by {}
    assert forall|q: Prefix| #[trigger] members_of::<Ipv4Prefix, Ipv4Prefix>(prefixes).contains(q)
        == members_of::<Ipv4Prefix, IpPrefixRange<Ipv4Prefix>>(ranges).contains(q) by {
        if members_of::<Ipv4Prefix, Ipv4Prefix>(prefixes).contains(q) {
            let j = choose|j: int|
                0 <= j < prefixes.len() && in_range(
                    #[trigger] prefixes[j].spec_range().0,
                    prefixes[j].spec_range().1,
                    prefixes[j].spec_range().2,
                    q,
                );
            assert(ranges[j].spec_range() == prefixes[j].spec_range());
        }
        if members_of::<Ipv4Prefix, IpPrefixRange<Ipv4Prefix>>(ranges).contains(q) {
            let j = choose|j: int|
                0 <= j < ranges.len() && in_range(
                    #[trigger] ranges[j].spec_range().0,
                    ranges[j].spec_range().1,
                    ranges[j].spec_range().2,
                    q,
                );
            assert(ranges[j].spec_range() == prefixes[j].spec_range());
        }
    }
    assert(members_of::<Ipv4Prefix, Ipv4Prefix>(prefixes) =~= members_of::<
        Ipv4Prefix,
        IpPrefixRange<Ipv4Prefix>,
    >(ranges));
    law_same_members_same_tree(from_prefixes, from_ranges);
}

/// Building a set from a list of IPv6 prefixes, or from the list of the
/// single-length ranges of those prefixes, gives equal sets: the same
/// members, and so the same tree.
pub proof fn law_range_prefix_equivalence_v6(
    prefixes: Seq<Ipv6Prefix>,
    ranges: Seq<IpPrefixRange<Ipv6Prefix>>,
    from_prefixes: PrefixSet<Ipv6Prefix>,
    from_ranges: PrefixSet<Ipv6Prefix>,
)
    requires
        ranges.len() == prefixes.len(),
        from_prefixes.wf(),
        from_ranges.wf(),
        from_prefixes.members() == members_of::<Ipv6Prefix, Ipv6Prefix>(prefixes),
        from_ranges.members() == members_of::<Ipv6Prefix, IpPrefixRange<Ipv6Prefix>>(ranges),
        forall|i: int|
            0 <= i < ranges.len() ==> (#[trigger] ranges[i]).spec_base() == prefixes[i].spec_prefix()
                && ranges[i].spec_lower() == prefixes[i].spec_prefix().length
                && ranges[i].spec_upper() == prefixes[i].spec_prefix().length,
    ensures
        members_of::<Ipv6Prefix, Ipv6Prefix>(prefixes) == members_of::<
            Ipv6Prefix,
            IpPrefixRange<Ipv6Prefix>,
        >(ranges),
        from_prefixes.tree() == from_ranges.tree(),
{
    assert forall|i: int| 0 <= i < ranges.len() implies #[trigger] ranges[i].spec_range()
        == prefixes[i].spec_range() by {}
    assert forall|q: Prefix| #[trigger] members_of::<Ipv6Prefix, Ipv6Prefix>(prefixes).contains(q)
        == members_of::<Ipv6Prefix, IpPrefixRange<Ipv6Prefix>>(ranges).contains(q) by {
        if members_of::<Ipv6Prefix, Ipv6Prefix>(prefixes).contains(q) {
            let j = choose|j: int|
                0 <= j < prefixes.len() && in_range(
                    #[trigger] prefixes[j].spec_range().0,
                    prefixes[j].spec_range().1,
                    prefixes[j].spec_range().2,
                    q,
                );
            assert(ranges[j].spec_range() == prefixes[j].spec_range());
        }
        if members_of::<Ipv6Prefix, IpPrefixRange<Ipv6Prefix>>(ranges).contains(q) {
            let j = choose|j: int|
                0 <= j < ranges.len() && in_range(
                    #[trigger] ranges[j].spec_range().0,
                    ranges[j].spec_range().1,
                    ranges[j].spec_range().2,
                    q,
                );
            assert(ranges[j].spec_range() == prefixes[j].spec_range());
        }
    }
    assert(members_of::<Ipv6Prefix, Ipv6Prefix>(prefixes) =~= members_of::<
        Ipv6Prefix,
        IpPrefixRange<Ipv6Prefix>,
    >(ranges));
    law_same_members_same_tree(from_prefixes, from_ranges);
}

/// The algebra of the set operations, over the members that their
/// contracts give: `A & B <= A`, `A & B <= B`, `A <= A | B`, `B <= A | B`,
/// `A ^ B == (A | B) - (A & B)`, `A ^ A == {}`, `{} | {} == {}`,
/// `{} & U == {}`, `U & U == U`, `!{} == U`, `!U == {}`, and `!!A == A`.
pub proof fn law_algebra<P: IpPrefix>(a: PrefixSet<P>, b: PrefixSet<P>)
    requires
        a.wf(),
        b.wf(),
    ensures
        a.members().intersect(b.members()).subset_of(a.members()),
        a.members().intersect(b.members()).subset_of(b.members()),
        a.members().subset_of(a.members() + b.members()),
        b.members().subset_of(a.members() + b.members()),
        (a.members() + a.members()) - a.members().intersect(a.members()) == Set::<Prefix>::empty(),
        Set::<Prefix>::empty() + Set::<Prefix>::empty() == Set::<Prefix>::empty(),
        Set::<Prefix>::empty().intersect(universe::<P>()) == Set::<Prefix>::empty(),
        universe::<P>().intersect(universe::<P>()) == universe::<P>(),
        universe::<P>() - Set::<Prefix>::empty() == universe::<P>(),
        universe::<P>() - universe::<P>() == Set::<Prefix>::empty(),
        universe::<P>() - (universe::<P>() - a.members()) == a.members(),
{
    assert((a.members() + a.members()) - a.members().intersect(a.members()) =~= Set::<
        Prefix,
    >::empty());
    assert(Set::<Prefix>::empty() + Set::<Prefix>::empty() =~= Set::<Prefix>::empty());
    assert(Set::<Prefix>::empty().intersect(universe::<P>()) =~= Set::<Prefix>::empty());
    assert(universe::<P>().intersect(universe::<P>()) =~= universe::<P>());
    assert(universe::<P>() - Set::<Prefix>::empty() =~= universe::<P>());
    assert(universe::<P>() - universe::<P>() =~= Set::<Prefix>::empty());
    assert(universe::<P>() - (universe::<P>() - a.members()) =~= a.members());
}

} // verus!
