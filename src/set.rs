//! [`PrefixSet<P>`]: a set of IP prefixes held in an aggregated radix tree.
use vstd::prelude::*;

use crate::family::{IpPrefix, Ipv4Prefix, Ipv6Prefix};
use crate::gluemap::{lemma_first_set, lemma_first_set_none, lemma_run_end, runs_from, GlueMap};
use crate::node::{lens, opt_has, Node};
use crate::prefix::{covers, Prefix};
use crate::bits::addr_before;
use crate::range::{in_range, IpPrefixRange};

verus! {

/// What can be inserted into or removed from a [`PrefixSet<P>`]: a prefix,
/// or a range of prefixes.
pub trait SetItem<P: IpPrefix> {
    /// The base and the inclusive length bounds of the prefixes the item
    /// stands for.
    spec fn spec_range(&self) -> (Prefix, nat, nat);

    /// A tree node holding exactly the prefixes of the item.
    fn to_node(&self) -> (r: Node)
        ensures
            r.wf(P::width()),
            forall|q: Prefix| #[trigger] r.has(q) == in_range(
                self.spec_range().0,
                self.spec_range().1,
                self.spec_range().2,
                q,
            ),
    ;
}

/// The prefixes of family `P` that the item stands for.
pub open spec fn members<P: IpPrefix, T: SetItem<P>>(item: T) -> Set<Prefix> {
    Set::new(
        |q: Prefix|
            in_range(item.spec_range().0, item.spec_range().1, item.spec_range().2, q) && q.wf(
                P::width(),
            ),
    )
}

/// The prefixes of family `P` that some item of `items` stands for.
pub open spec fn members_of<P: IpPrefix, T: SetItem<P>>(items: Seq<T>) -> Set<Prefix> {
    Set::new(
        |q: Prefix|
            q.wf(P::width()) && exists|j: int|
                0 <= j < items.len() && in_range(
                    #[trigger] items[j].spec_range().0,
                    items[j].spec_range().1,
                    items[j].spec_range().2,
                    q,
                ),
    )
}

/// Every prefix of the family `P`.
pub open spec fn universe<P: IpPrefix>() -> Set<Prefix> {
    Set::new(|q: Prefix| q.wf(P::width()))
}

impl SetItem<Ipv4Prefix> for Ipv4Prefix {
    open spec fn spec_range(&self) -> (Prefix, nat, nat) {
        (self.spec_prefix(), self.spec_prefix().length as nat, self.spec_prefix().length as nat)
    }

    fn to_node(&self) -> (r: Node) {
        IpPrefixRange::from_prefix(*self).to_node()
    }
}

impl SetItem<Ipv6Prefix> for Ipv6Prefix {
    open spec fn spec_range(&self) -> (Prefix, nat, nat) {
        (self.spec_prefix(), self.spec_prefix().length as nat, self.spec_prefix().length as nat)
    }

    fn to_node(&self) -> (r: Node) {
        IpPrefixRange::from_prefix(*self).to_node()
    }
}

impl<P: IpPrefix> SetItem<P> for IpPrefixRange<P> {
    open spec fn spec_range(&self) -> (Prefix, nat, nat) {
        (self.spec_base(), self.spec_lower(), self.spec_upper())
    }

    fn to_node(&self) -> (r: Node) {
        let (lower, upper) = self.range();
        let base = self.base().to_prefix();
        Node::new(base, GlueMap::from_range(lower, upper))
    }
}

/// A collection of IP prefixes, providing fast insertion and iteration, and
/// set-theoretic arithmetic.
#[derive(Debug)]
pub struct PrefixSet<P: IpPrefix> {
    root: Option<Box<Node>>,
    family: core::marker::PhantomData<P>,
}

impl<P: IpPrefix> PrefixSet<P> {
    /// The tree that holds the set.
    pub closed spec fn tree(self) -> Option<Box<Node>> {
        self.root
    }

    /// The tree of the set is well formed for the family and in aggregated
    /// form.
    pub open spec fn wf(self) -> bool {
        self.tree() matches Some(n) ==> n.wf(P::width()) && n.aggregated(Set::empty())
    }

    /// The prefixes in the set.
    pub open spec fn members(self) -> Set<Prefix> {
        Set::new(|q: Prefix| opt_has(self.tree(), q) && q.wf(P::width()))
    }

    fn from_tree(root: Option<Box<Node>>) -> (r: Self)
        ensures
            r.tree() == root,
    {
        PrefixSet { root, family: core::marker::PhantomData }
    }

    /// Aggregate a well-formed tree into a set.
    fn aggregate(root: Option<Box<Node>>) -> (r: Self)
        requires
            root matches Some(n) ==> n.wf(P::width()),
        ensures
            forall|q: Prefix| #[trigger] opt_has(r.tree(), q) == opt_has(root, q),
            root matches Some(n) ==> (n.aggregated(Set::empty()) ==> r.tree() == root),
            r.wf(),
    {
        match root {
            None => Self::from_tree(None),
            Some(n) => {
                let ghost n0 = *n;
                let z = GlueMap::zero();
                let r = Node::aggregate_under(*n, &z, Ghost(P::width()));
                proof {
                    assert(lens(z) =~= Set::<nat>::empty());
                    assert forall|q: Prefix| #[trigger] opt_has(r, q) == opt_has(root, q) by {
                        assert(opt_has(root, q) == n0.has(q));
                    }
                }
                Self::from_tree(r)
            },
        }
    }

    /// Construct a new, empty set.
    pub fn new() -> (r: Self)
        ensures
            r.wf(),
            r.members() == Set::<Prefix>::empty(),
    {
        let r = Self::from_tree(None);
        assert(r.members() =~= Set::<Prefix>::empty());
        r
    }

    /// Merge a tree into the tree of `self`, without aggregating.
    fn merged(root: Option<Box<Node>>, node: Node) -> (r: Option<Box<Node>>)
        requires
            root matches Some(n) ==> n.wf(P::width()),
            node.wf(P::width()),
        ensures
            r matches Some(n) ==> n.wf(P::width()),
            forall|q: Prefix| #[trigger] opt_has(r, q) == (opt_has(root, q) || node.has(q)),
    {
        let ghost nv = node;
        let r = Node::union_opt(root, Some(Box::new(node)), Ghost(P::width()));
        proof {
            assert forall|q: Prefix| #[trigger] opt_has(r, q) == (opt_has(root, q) || nv.has(q)) by {
                assert(opt_has(Some(Box::new(nv)), q) == nv.has(q));
            }
        }
        r
    }

    /// Insert `item`, a prefix or a range of prefixes, into `self`.
    pub fn insert<T: SetItem<P>>(&mut self, item: T)
        requires
            old(self).wf(),
        ensures
            final(self).wf(),
            final(self).members() == old(self).members() + members::<P, T>(item),
    {
        let node = item.to_node();
        let root = self.take_root();
        let ghost old_root = root;
        let merged = Self::merged(root, node);
        *self = Self::aggregate(merged);
        proof {
            assert(final(self).members() =~= old(self).members() + members::<P, T>(item));
        }
    }

    /// Insert every item of `items` into `self`, aggregating once at the
    /// end.
    pub fn insert_from<T: SetItem<P>>(&mut self, items: Vec<T>)
        requires
            old(self).wf(),
        ensures
            final(self).wf(),
            final(self).members() == old(self).members() + members_of::<P, T>(items@),
    {
        let mut root = self.take_root();
        let ghost r0 = root;
        let mut i: usize = 0;
        while i < items.len()
            invariant
                i <= items.len(),
                root matches Some(n) ==> n.wf(P::width()),
                forall|q: Prefix| #[trigger] opt_has(root, q) == (opt_has(r0, q) || exists|j: int|
                    0 <= j < i && in_range(
                        #[trigger] items@[j].spec_range().0,
                        items@[j].spec_range().1,
                        items@[j].spec_range().2,
                        q,
                    )),
            decreases items.len() - i,
        {
            let node = items[i].to_node();
            let ghost prev = root;
            root = Self::merged(root, node);
            proof {
                assert forall|q: Prefix| #[trigger] opt_has(root, q) == (opt_has(r0, q) || exists|j: int|
                    0 <= j < i + 1 && in_range(
                        #[trigger] items@[j].spec_range().0,
                        items@[j].spec_range().1,
                        items@[j].spec_range().2,
                        q,
                    )) by {
                    if in_range(
                        items@[i as int].spec_range().0,
                        items@[i as int].spec_range().1,
                        items@[i as int].spec_range().2,
                        q,
                    ) {
                        assert(opt_has(root, q));
                    }
                }
            }
            i = i + 1;
        }
        *self = Self::aggregate(root);
        proof {
            assert(final(self).members() =~= old(self).members() + members_of::<P, T>(items@));
        }
    }

    /// Remove `item`, a prefix or a range of prefixes, from `self`.
    pub fn remove<T: SetItem<P>>(&mut self, item: T)
        requires
            old(self).wf(),
        ensures
            final(self).wf(),
            final(self).members() == old(self).members() - members::<P, T>(item),
    {
        let node = item.to_node();
        let root = self.take_root();
        let rest = Self::removed(root, &node);
        *self = Self::aggregate(rest);
        proof {
            assert(final(self).members() =~= old(self).members() - members::<P, T>(item));
        }
    }

    /// Remove every item of `items` from `self`, aggregating once at the end.
    pub fn remove_from<T: SetItem<P>>(&mut self, items: Vec<T>)
        requires
            old(self).wf(),
        ensures
            final(self).wf(),
            final(self).members() == old(self).members() - members_of::<P, T>(items@),
    {
        let mut root = self.take_root();
        let ghost r0 = root;
        let mut i: usize = 0;
        while i < items.len()
            invariant
                i <= items.len(),
                root matches Some(n) ==> n.wf(P::width()),
                forall|q: Prefix| #[trigger] opt_has(root, q) == (opt_has(r0, q) && !exists|j: int|
                    0 <= j < i && in_range(
                        #[trigger] items@[j].spec_range().0,
                        items@[j].spec_range().1,
                        items@[j].spec_range().2,
                        q,
                    )),
            decreases items.len() - i,
        {
            let node = items[i].to_node();
            root = Self::removed(root, &node);
            proof {
                assert forall|q: Prefix| #[trigger] opt_has(root, q) == (opt_has(r0, q) && !exists|j: int|
                    0 <= j < i + 1 && in_range(
                        #[trigger] items@[j].spec_range().0,
                        items@[j].spec_range().1,
                        items@[j].spec_range().2,
                        q,
                    )) by {
                    if exists|j: int|
                        0 <= j < i + 1 && in_range(
                            #[trigger] items@[j].spec_range().0,
                            items@[j].spec_range().1,
                            items@[j].spec_range().2,
                            q,
                        ) {
                        let j = choose|j: int|
                            0 <= j < i + 1 && in_range(
                                #[trigger] items@[j].spec_range().0,
                                items@[j].spec_range().1,
                                items@[j].spec_range().2,
                                q,
                            );
                        if j == i {
                            assert(!opt_has(root, q));
                        }
                    }
                }
            }
            i = i + 1;
        }
        *self = Self::aggregate(root);
        proof {
            assert(final(self).members() =~= old(self).members() - members_of::<P, T>(items@));
        }
    }

    /// The tree `root` without the members of `node`.
    fn removed(root: Option<Box<Node>>, node: &Node) -> (r: Option<Box<Node>>)
        requires
            root matches Some(n) ==> n.wf(P::width()),
            node.wf(P::width()),
        ensures
            r matches Some(n) ==> n.wf(P::width()),
            forall|q: Prefix| #[trigger] opt_has(r, q) == (opt_has(root, q) && !node.has(q)),
    {
        match root {
            None => None,
            Some(n) => {
                let ghost n0 = *n;
                let m = Node::remove_tree(*n, node, Ghost(P::width()));
                let r = Some(Box::new(m));
                proof {
                    assert forall|q: Prefix| #[trigger] opt_has(r, q) == (opt_has(root, q)
                        && !node.has(q)) by {
                        assert(opt_has(r, q) == m.has(q));
                        assert(opt_has(root, q) == n0.has(q));
                    }
                }
                r
            },
        }
    }

    /// Test whether `prefix` is contained in `self`.
    pub fn contains(&self, prefix: &P) -> (r: bool)
        requires
            self.wf(),
        ensures
            r == self.members().contains(prefix.spec_prefix()),
    {
        let q = prefix.to_prefix();
        match &self.root {
            Some(n) => {
                proof {
                    n.lemma_wf_wider(P::width(), 128);
                }
                n.search(&q)
            },
            None => false,
        }
    }

    /// Test whether `self` is empty.
    pub fn is_empty(&self) -> (r: bool)
        requires
            self.wf(),
        ensures
            r == (self.members() == Set::<Prefix>::empty()),
    {
        proof {
            if let Some(n) = self.tree() {
                let q = n.lemma_some_member(P::width(), Set::empty());
                assert(self.members().contains(q));
            } else {
                assert(self.members() =~= Set::<Prefix>::empty());
            }
        }
        self.root.is_none()
    }

    /// Clear the contents of `self`.
    pub fn clear(&mut self)
        ensures
            final(self).wf(),
            final(self).members() == Set::<Prefix>::empty(),
    {
        self.root = None;
        assert(final(self).members() =~= Set::<Prefix>::empty());
    }

    /// The set holding every prefix of the family: the range `0/0,0,W`.
    pub fn universe() -> (r: Self)
        ensures
            r.wf(),
            r.members() == universe::<P>(),
    {
        let w = P::max_length();
        let n = Node::new(Prefix { bits: 0, length: 0 }, GlueMap::from_range(0, w));
        proof {
            assert(0u128 & crate::bits::mask(0) == 0u128) by (bit_vector);
            assert(n.wf(P::width()));
        }
        let r = Self::aggregate(Some(Box::new(n)));
        proof {
            assert forall|q: Prefix| #[trigger] r.members().contains(q) == universe::<P>().contains(q) by {
                assert(opt_has(Some(Box::new(n)), q) == n.has(q));
                if q.wf(P::width()) {
                    assert(covers(n.prefix, q));
                }
            }
            assert(r.members() =~= universe::<P>());
        }
        r
    }

    /// The union of `self` and `other`.
    pub fn union(self, other: Self) -> (r: Self)
        requires
            self.wf(),
            other.wf(),
        ensures
            r.wf(),
            r.members() == self.members() + other.members(),
    {
        let ghost a = self.members();
        let ghost b = other.members();
        let root = Node::union_opt(self.root, other.root, Ghost(P::width()));
        let r = Self::aggregate(root);
        assert(r.members() =~= a + b);
        r
    }

    /// The intersection of `self` and `other`.
    pub fn intersection(self, other: Self) -> (r: Self)
        requires
            self.wf(),
            other.wf(),
        ensures
            r.wf(),
            r.members() == self.members().intersect(other.members()),
    {
        Self::intersection_of(&self, &other)
    }

    fn intersection_of(a: &Self, b: &Self) -> (r: Self)
        requires
            a.wf(),
            b.wf(),
        ensures
            r.wf(),
            r.members() == a.members().intersect(b.members()),
    {
        let root = match (&a.root, &b.root) {
            (Some(x), Some(y)) => Node::intersect_tree(x, y, Ghost(P::width())),
            _ => None,
        };
        let r = Self::aggregate(root);
        proof {
            assert forall|q: Prefix| #[trigger] r.members().contains(q) == a.members().intersect(
                b.members(),
            ).contains(q) by {
                if let (Some(x), Some(y)) = (a.tree(), b.tree()) {
                    assert(opt_has(a.tree(), q) == x.has(q));
                    assert(opt_has(b.tree(), q) == y.has(q));
                }
            }
            assert(r.members() =~= a.members().intersect(b.members()));
        }
        r
    }

    /// The members of `self` that are not in `other`.
    pub fn difference(self, other: Self) -> (r: Self)
        requires
            self.wf(),
            other.wf(),
        ensures
            r.wf(),
            r.members() == self.members() - other.members(),
    {
        let ghost a = self.members();
        let ghost b = other.members();
        match other.root {
            None => {
                assert(self.members() =~= a - b);
                self
            },
            Some(o) => {
                let rest = Self::removed(self.root, &o);
                let r = Self::aggregate(rest);
                proof {
                    assert forall|q: Prefix| #[trigger] r.members().contains(q) == (a - b).contains(q) by {
                        assert(opt_has(other.tree(), q) == o.has(q));
                    }
                    assert(r.members() =~= a - b);
                }
                r
            },
        }
    }

    /// The members of exactly one of `self` and `other`: `(self | other) -
    /// (self & other)`.
    pub fn symmetric_difference(self, other: Self) -> (r: Self)
        requires
            self.wf(),
            other.wf(),
        ensures
            r.wf(),
            r.members() == (self.members() + other.members()) - self.members().intersect(
                other.members(),
            ),
    {
        let both = Self::intersection_of(&self, &other);
        let either = self.union(other);
        either.difference(both)
    }

    /// Every prefix of the family that is not in `self`.
    pub fn complement(self) -> (r: Self)
        requires
            self.wf(),
        ensures
            r.wf(),
            r.members() == universe::<P>() - self.members(),
    {
        Self::universe().difference(self)
    }

    /// The ranges of prefixes in `self`: for each node of the tree, in
    /// pre-order, each maximal run of lengths in its map.
    pub fn ranges(&self) -> (r: Vec<IpPrefixRange<P>>)
        requires
            self.wf(),
        ensures
            forall|q: Prefix| #[trigger] self.members().contains(q) == (q.wf(P::width())
                && exists|i: int| 0 <= i < r.len() && r[i].has(q)),
            forall|i: int, j: int, q: Prefix|
                0 <= i < j < r.len() ==> !(#[trigger] r[i].has(q) && #[trigger] r[j].has(q)),
            range_triples(r@) == opt_tree_runs(self.tree()),
    {
        let mut out: Vec<IpPrefixRange<P>> = Vec::new();
        if let Some(n) = &self.root {
            push_ranges(n, &mut out, Ghost(Set::empty()));
        }
        proof {
            assert(out@.subrange(0, out@.len() as int) =~= out@);
            if self.tree() is None {
                assert(out@ =~= Seq::<IpPrefixRange<P>>::empty());
                assert(range_triples(out@) =~= Seq::<(Prefix, nat, nat)>::empty());
            }
        }
        proof {
            assert forall|q: Prefix| #[trigger] self.members().contains(q) == (q.wf(P::width())
                && exists|i: int| 0 <= i < out.len() && out[i].has(q)) by {
                if let Some(n) = self.tree() {
                    assert(opt_has(self.tree(), q) == n.has(q));
                }
            }
        }
        out
    }

    /// The prefixes in `self`, each once: range by range in the order of
    /// [`PrefixSet::ranges`], and within a range by increasing length and
    /// then increasing address.
    pub fn prefixes(&self) -> (r: Vec<P>)
        requires
            self.wf(),
        ensures
            forall|i: int| 0 <= i < r.len() ==> #[trigger] self.members().contains(
                r[i].spec_prefix(),
            ),
            forall|q: Prefix| #[trigger] self.members().contains(q) ==> exists|i: int|
                0 <= i < r.len() && r[i].spec_prefix() == q,
            forall|i: int, j: int|
                0 <= i < j < r.len() ==> (#[trigger] r[i]).spec_prefix() != (#[trigger] r[j]).spec_prefix(),
            exists|o: Seq<int>| in_layout(r@, opt_tree_runs(self.tree()), o),
    {
        let ranges = self.ranges();
        let mut out: Vec<P> = Vec::new();
        let mut k: usize = 0;
        let ghost mut origin: Seq<int> = Seq::empty();
        while k < ranges.len()
            invariant
                k <= ranges.len(),
                forall|q: Prefix| #[trigger] self.members().contains(q) == (q.wf(P::width())
                    && exists|i: int| 0 <= i < ranges.len() && ranges[i].has(q)),
                forall|i: int| 0 <= i < out.len() ==> #[trigger] self.members().contains(
                    out[i].spec_prefix(),
                ),
                forall|q: Prefix| #[trigger] self.members().contains(q) && (exists|i: int|
                    0 <= i < k && ranges[i].has(q)) ==> exists|i: int|
                    0 <= i < out.len() && out[i].spec_prefix() == q,
                forall|i: int, j: int, q: Prefix|
                    0 <= i < j < ranges.len() ==> !(#[trigger] ranges[i].has(q) && #[trigger] ranges[j].has(q)),
                origin.len() == out.len(),
                forall|i: int| 0 <= i < out.len() ==> 0 <= #[trigger] origin[i] < k && ranges[origin[i]].has(
                    out[i].spec_prefix(),
                ),
                forall|i: int, j: int|
                    0 <= i < j < out.len() ==> (#[trigger] out[i]).spec_prefix() != (
                    #[trigger] out[j]).spec_prefix(),
                forall|i: int, j: int| 0 <= i < j < out.len() ==> #[trigger] origin[i] <= #[trigger] origin[j],
                forall|i: int, j: int|
                    0 <= i < j < out.len() && origin[i] == origin[j] ==> (#[trigger] out[i]).spec_prefix().length < (
                    #[trigger] out[j]).spec_prefix().length || (out[i].spec_prefix().length
                    == out[j].spec_prefix().length && addr_before(
                        out[i].spec_prefix().bits,
                        out[j].spec_prefix().bits,
                    )),
            decreases ranges.len() - k,
        {
            let mut part = ranges[k].iter();
            let ghost before = out@;
            let ghost added = part@;
            proof {
                assert forall|i: int| 0 <= i < added.len() implies #[trigger] self.members().contains(
                    added[i].spec_prefix(),
                ) by {
                    let q = added[i].spec_prefix();
                    assert(ranges[k as int].has(q));
                    assert(q.wf(P::width()));
                }
            }
            out.append(&mut part);
            proof {
                let o2 = origin + Seq::new(added.len(), |x: int| k as int);
                assert forall|i: int| 0 <= i < out.len() implies 0 <= #[trigger] o2[i] < k + 1
                    && ranges[o2[i]].has(out[i].spec_prefix()) by {
                    if i >= before.len() {
                        assert(out[i] == added[i - before.len()]);
                        assert(ranges[k as int].has(out[i].spec_prefix()));
                    } else {
                        assert(out[i] == before[i]);
                        assert(o2[i] == origin[i]);
                    }
                }
                assert forall|i: int, j: int| 0 <= i < j < out.len() implies #[trigger] o2[i] <= #[trigger] o2[j] by {
                    if j < before.len() {
                        assert(o2[i] == origin[i]);
                        assert(o2[j] == origin[j]);
                    } else if i < before.len() {
                        assert(o2[i] == origin[i]);
                    }
                }
                assert forall|i: int, j: int|
                    0 <= i < j < out.len() && o2[i] == o2[j] implies (#[trigger] out[i]).spec_prefix().length < (
                    #[trigger] out[j]).spec_prefix().length || (out[i].spec_prefix().length
                    == out[j].spec_prefix().length && addr_before(
                        out[i].spec_prefix().bits,
                        out[j].spec_prefix().bits,
                    )) by {
                    if j < before.len() {
                        assert(o2[i] == origin[i]);
                        assert(o2[j] == origin[j]);
                        assert(out[i] == before[i]);
                        assert(out[j] == before[j]);
                    } else if i < before.len() {
                        assert(o2[i] == origin[i]);
                    } else {
                        assert(out[i] == added[i - before.len()]);
                        assert(out[j] == added[j - before.len()]);
                    }
                }
                origin = o2;
                assert forall|i: int, j: int|
                    0 <= i < j < out.len() implies (#[trigger] out[i]).spec_prefix() != (
                    #[trigger] out[j]).spec_prefix() by {
                    if j < before.len() {
                        assert(out[i] == before[i]);
                        assert(out[j] == before[j]);
                    } else if i >= before.len() {
                        assert(out[i] == added[i - before.len()]);
                        assert(out[j] == added[j - before.len()]);
                    } else {
                        assert(out[i] == before[i]);
                        assert(out[j] == added[j - before.len()]);
                        let q = out[j].spec_prefix();
                        assert(ranges[k as int].has(q));
                        let j0 = origin[i];
                        assert(j0 < k);
                        if out[i].spec_prefix() == q {
                            assert(ranges[j0].has(q));
                        }
                    }
                }
                assert forall|i: int| 0 <= i < out.len() implies #[trigger] self.members().contains(
                    out[i].spec_prefix(),
                ) by {
                    if i >= before.len() {
                        assert(out[i] == added[i - before.len()]);
                    }
                }
                assert forall|q: Prefix| #[trigger] self.members().contains(q) && (exists|i: int|
                    0 <= i < k + 1 && ranges[i].has(q)) implies exists|i: int|
                    0 <= i < out.len() && out[i].spec_prefix() == q by {
                    if ranges[k as int].has(q) {
                        let j = choose|j: int| 0 <= j < added.len() && added[j].spec_prefix() == q;
                        assert(out[before.len() + j] == added[j]);
                    } else {
                        let i0 = choose|i: int| 0 <= i < k + 1 && ranges[i].has(q);
                        assert(i0 < k);
                        let j = choose|j: int| 0 <= j < before.len() && before[j].spec_prefix() == q;
                        assert(out[j] == before[j]);
                    }
                }
            }
            k = k + 1;
        }
        proof {
            let runs = opt_tree_runs(self.tree());
            assert(range_triples(ranges@) == runs);
            assert forall|i: int|
                0 <= i < out.len() implies 0 <= #[trigger] origin[i] < runs.len() && in_range(
                runs[origin[i]].0,
                runs[origin[i]].1,
                runs[origin[i]].2,
                out@[i].spec_prefix(),
            ) by {
                assert(range_triples(ranges@)[origin[i]] == (
                    ranges@[origin[i]].spec_base(),
                    ranges@[origin[i]].spec_lower(),
                    ranges@[origin[i]].spec_upper(),
                ));
            }
            assert(in_layout(out@, runs, origin));
        }
        out
    }

    /// Get the number of prefixes in `self`.
    pub fn len(&self) -> (r: usize)
        requires
            self.wf(),
        ensures
            r as nat == self.members().len(),
            self.members().finite(),
    {
        let ps = self.prefixes();
        proof {
            let s = ps@.map_values(|p: P| p.spec_prefix());
            assert forall|i: int, j: int| 0 <= i < s.len() && 0 <= j < s.len() && i != j implies s[i]
                != s[j] by {
                if i < j {
                    assert(ps[i].spec_prefix() != ps[j].spec_prefix());
                } else {
                    assert(ps[j].spec_prefix() != ps[i].spec_prefix());
                }
            }
            assert(s.no_duplicates());
            assert forall|q: Prefix| #[trigger] s.to_set().contains(q) == self.members().contains(q) by {
                if self.members().contains(q) {
                    let i = choose|i: int| 0 <= i < ps.len() && ps[i].spec_prefix() == q;
                    assert(s[i] == q);
                }
                if s.to_set().contains(q) {
                    let i = choose|i: int| 0 <= i < s.len() && s[i] == q;
                    assert(self.members().contains(ps[i].spec_prefix()));
                }
            }
            assert(s.to_set() =~= self.members());
            s.unique_seq_to_set();
        }
        ps.len()
    }

    /// Whether every prefix of `self` is in `other`.
    pub fn is_subset(&self, other: &Self) -> (r: bool)
        requires
            self.wf(),
            other.wf(),
        ensures
            r == self.members().subset_of(other.members()),
    {
        let ps = self.prefixes();
        let mut i: usize = 0;
        while i < ps.len()
            invariant
                i <= ps.len(),
                self.wf(),
                other.wf(),
                forall|j: int| 0 <= j < ps.len() ==> #[trigger] self.members().contains(
                    ps[j].spec_prefix(),
                ),
                forall|q: Prefix| #[trigger] self.members().contains(q) ==> exists|j: int|
                    0 <= j < ps.len() && ps[j].spec_prefix() == q,
                forall|j: int| 0 <= j < i ==> #[trigger] other.members().contains(
                    ps[j].spec_prefix(),
                ),
            decreases ps.len() - i,
        {
            if !other.contains(&ps[i]) {
                return false;
            }
            i = i + 1;
        }
        proof {
            assert forall|q: Prefix| #[trigger] self.members().contains(q) implies other.members().contains(q) by {
                let j = choose|j: int| 0 <= j < ps.len() && ps[j].spec_prefix() == q;
                assert(other.members().contains(ps[j].spec_prefix()));
            }
        }
        true
    }

    /// A copy of `self`.
    pub fn duplicate(&self) -> (r: Self)
        ensures
            r.tree() == self.tree(),
    {
        let root = match &self.root {
            Some(n) => Some(Box::new(n.copy_tree())),
            None => None,
        };
        Self::from_tree(root)
    }

    /// The tree of `self`, leaving `self` empty.
    fn take_root(&mut self) -> (r: Option<Box<Node>>)
        ensures
            r == old(self).tree(),
            final(self).tree().is_none(),
    {
        let r = self.root.take();
        r
    }
}

impl Node {
    /// The maximal runs of lengths in the map of this node, as ranges over
    /// its base, by increasing length.
    pub fn ranges<P: IpPrefix>(&self) -> (r: Vec<IpPrefixRange<P>>)
        requires
            self.wf(P::width()),
        ensures
            forall|q: Prefix| #[trigger] self.own(q) == exists|i: int| 0 <= i < r.len() && r[i].has(q),
            forall|i: int, j: int, q: Prefix|
                0 <= i < j < r.len() ==> !(#[trigger] r[i].has(q) && #[trigger] r[j].has(q)),
            range_triples(r@) == own_runs(*self),
            forall|i: int|
                0 <= i < r.len() ==> {
                    let x = #[trigger] r[i];
                    &&& x.spec_base() == self.prefix
                    &&& forall|l: nat| x.spec_lower() <= l <= x.spec_upper() ==> #[trigger] self.gluemap.has(l)
                    &&& x.spec_upper() == 128 || !self.gluemap.has(x.spec_upper() + 1)
                    &&& x.spec_lower() == 0 || !self.gluemap.has((x.spec_lower() - 1) as nat)
                },
            forall|i: int, j: int|
                0 <= i < j < r.len() ==> (#[trigger] r[i]).spec_upper() + 1 < (#[trigger] r[j]).spec_lower(),
    {
        let mut out: Vec<IpPrefixRange<P>> = Vec::new();
        push_own_ranges(self, &mut out);
        proof {
            assert(out@.subrange(0, out@.len() as int) =~= out@);
        }
        out
    }
}

impl<P: IpPrefix> PrefixSet<P> {
    /// The set of the family that holds exactly the prefixes `m`, if one
    /// does: by the uniqueness of the aggregated form there is at most one.
    pub open spec fn holding(m: Set<Prefix>) -> Self {
        choose|r: Self| r.wf() && r.members() == m
    }

    /// A set in aggregated form is the set of the family that holds its
    /// members.
    pub proof fn lemma_holding(r: Self, m: Set<Prefix>)
        requires
            r.wf(),
            r.members() == m,
        ensures
            r == Self::holding(m),
    {
        let c = Self::holding(m);
        crate::laws::law_same_members_same_tree(r, c);
        assert(r.root == c.root);
        assert(r.family == c.family);
    }
}

impl<P: IpPrefix> core::ops::BitOr for PrefixSet<P> {
    type Output = Self;

    /// The union of two sets.
    fn bitor(self, rhs: Self) -> (r: Self)
        ensures
            r.wf(),
            r.members() == self.members() + rhs.members(),
    {
        let r = self.union(rhs);
        proof {
            Self::lemma_holding(r, self.members() + rhs.members());
        }
        r
    }
}

impl<P: IpPrefix> vstd::std_specs::ops::BitOrSpecImpl for PrefixSet<P> {
    open spec fn obeys_bitor_spec() -> bool {
        true
    }

    open spec fn bitor_req(self, rhs: Self) -> bool {
        self.wf() && rhs.wf()
    }

    open spec fn bitor_spec(self, rhs: Self) -> Self {
        Self::holding(self.members() + rhs.members())
    }
}

impl<P: IpPrefix> core::ops::BitAnd for PrefixSet<P> {
    type Output = Self;

    /// The intersection of two sets.
    fn bitand(self, rhs: Self) -> (r: Self)
        ensures
            r.wf(),
            r.members() == self.members().intersect(rhs.members()),
    {
        let r = self.intersection(rhs);
        proof {
            Self::lemma_holding(r, self.members().intersect(rhs.members()));
        }
        r
    }
}

impl<P: IpPrefix> vstd::std_specs::ops::BitAndSpecImpl for PrefixSet<P> {
    open spec fn obeys_bitand_spec() -> bool {
        true
    }

    open spec fn bitand_req(self, rhs: Self) -> bool {
        self.wf() && rhs.wf()
    }

    open spec fn bitand_spec(self, rhs: Self) -> Self {
        Self::holding(self.members().intersect(rhs.members()))
    }
}

impl<P: IpPrefix> core::ops::Sub for PrefixSet<P> {
    type Output = Self;

    /// The members of `self` that are not in `rhs`.
    fn sub(self, rhs: Self) -> (r: Self)
        ensures
            r.wf(),
            r.members() == self.members() - rhs.members(),
    {
        let r = self.difference(rhs);
        proof {
            Self::lemma_holding(r, self.members() - rhs.members());
        }
        r
    }
}

impl<P: IpPrefix> vstd::std_specs::ops::SubSpecImpl for PrefixSet<P> {
    open spec fn obeys_sub_spec() -> bool {
        true
    }

    open spec fn sub_req(self, rhs: Self) -> bool {
        self.wf() && rhs.wf()
    }

    open spec fn sub_spec(self, rhs: Self) -> Self {
        Self::holding(self.members() - rhs.members())
    }
}

impl<P: IpPrefix> core::ops::BitXor for PrefixSet<P> {
    type Output = Self;

    /// The members of exactly one of the two sets.
    fn bitxor(self, rhs: Self) -> (r: Self)
        ensures
            r.wf(),
            r.members() == (self.members() + rhs.members()) - self.members().intersect(rhs.members()),
    {
        let r = self.symmetric_difference(rhs);
        proof {
            Self::lemma_holding(r, (self.members() + rhs.members()) - self.members().intersect(rhs.members()));
        }
        r
    }
}

impl<P: IpPrefix> vstd::std_specs::ops::BitXorSpecImpl for PrefixSet<P> {
    open spec fn obeys_bitxor_spec() -> bool {
        true
    }

    open spec fn bitxor_req(self, rhs: Self) -> bool {
        self.wf() && rhs.wf()
    }

    open spec fn bitxor_spec(self, rhs: Self) -> Self {
        Self::holding((self.members() + rhs.members()) - self.members().intersect(rhs.members()))
    }
}

impl<P: IpPrefix> core::ops::Add for PrefixSet<P> {
    type Output = Self;

    /// The union of two sets, as `|`.
    fn add(self, rhs: Self) -> (r: Self)
        ensures
            r.wf(),
            r.members() == self.members() + rhs.members(),
    {
        let r = self.union(rhs);
        proof {
            Self::lemma_holding(r, self.members() + rhs.members());
        }
        r
    }
}

impl<P: IpPrefix> vstd::std_specs::ops::AddSpecImpl for PrefixSet<P> {
    open spec fn obeys_add_spec() -> bool {
        true
    }

    open spec fn add_req(self, rhs: Self) -> bool {
        self.wf() && rhs.wf()
    }

    open spec fn add_spec(self, rhs: Self) -> Self {
        Self::holding(self.members() + rhs.members())
    }
}

impl<P: IpPrefix> core::ops::Mul for PrefixSet<P> {
    type Output = Self;

    /// The intersection of two sets, as `&`.
    fn mul(self, rhs: Self) -> (r: Self)
        ensures
            r.wf(),
            r.members() == self.members().intersect(rhs.members()),
    {
        let r = self.intersection(rhs);
        proof {
            Self::lemma_holding(r, self.members().intersect(rhs.members()));
        }
        r
    }
}

impl<P: IpPrefix> vstd::std_specs::ops::MulSpecImpl for PrefixSet<P> {
    open spec fn obeys_mul_spec() -> bool {
        true
    }

    open spec fn mul_req(self, rhs: Self) -> bool {
        self.wf() && rhs.wf()
    }

    open spec fn mul_spec(self, rhs: Self) -> Self {
        Self::holding(self.members().intersect(rhs.members()))
    }
}

impl<P: IpPrefix> core::ops::Not for PrefixSet<P> {
    type Output = Self;

    /// The complement of a set: every prefix of the family not in it.
    fn not(self) -> (r: Self)
        ensures
            r.wf(),
            r.members() == universe::<P>() - self.members(),
    {
        let r = self.complement();
        proof {
            Self::lemma_holding(r, universe::<P>() - self.members());
        }
        r
    }
}

impl<P: IpPrefix> vstd::std_specs::ops::NotSpecImpl for PrefixSet<P> {
    open spec fn obeys_not_spec() -> bool {
        true
    }

    open spec fn not_req(self) -> bool {
        self.wf()
    }

    open spec fn not_spec(self) -> Self {
        Self::holding(universe::<P>() - self.members())
    }
}

impl<P: IpPrefix> PrefixSet<P> {
    /// Whether the tree of `self` is well formed and in aggregated form.
    pub fn is_valid(&self) -> (r: bool)
        ensures
            r == self.wf(),
    {
        match &self.root {
            None => true,
            Some(n) => {
                let z = GlueMap::zero();
                proof {
                    assert(lens(z) =~= Set::<nat>::empty());
                }
                n.check(&z, P::max_length())
            },
        }
    }
}

/// The order of sets by inclusion of their members.
pub open spec fn subset_order(a: Set<Prefix>, b: Set<Prefix>) -> Option<core::cmp::Ordering> {
    if a == b {
        Some(core::cmp::Ordering::Equal)
    } else if a.subset_of(b) {
        Some(core::cmp::Ordering::Less)
    } else if b.subset_of(a) {
        Some(core::cmp::Ordering::Greater)
    } else {
        None
    }
}

impl<P: IpPrefix> PartialOrd for PrefixSet<P> {
    /// Sets are ordered by inclusion; a set whose tree is not in aggregated
    /// form is not ordered.
    fn partial_cmp(&self, other: &Self) -> (r: Option<core::cmp::Ordering>) {
        if !self.is_valid() || !other.is_valid() {
            return None;
        }
        let le = self.is_subset(other);
        let ge = other.is_subset(self);
        proof {
            if le && ge {
                assert(self.members() =~= other.members());
            }
        }
        if le && ge {
            Some(core::cmp::Ordering::Equal)
        } else if le {
            Some(core::cmp::Ordering::Less)
        } else if ge {
            Some(core::cmp::Ordering::Greater)
        } else {
            None
        }
    }
}

impl<P: IpPrefix> vstd::std_specs::cmp::PartialOrdSpecImpl for PrefixSet<P> {
    open spec fn obeys_partial_cmp_spec() -> bool {
        true
    }

    open spec fn partial_cmp_spec(&self, other: &Self) -> Option<core::cmp::Ordering> {
        if self.wf() && other.wf() {
            subset_order(self.members(), other.members())
        } else {
            None
        }
    }
}

impl<P: IpPrefix> PartialEq for PrefixSet<P> {
    /// Sets are equal when their aggregated trees are equal node by node.
    fn eq(&self, other: &Self) -> (r: bool) {
        match (&self.root, &other.root) {
            (Some(a), Some(b)) => a.same_tree(b),
            (None, None) => true,
            _ => false,
        }
    }
}

impl<P: IpPrefix> vstd::std_specs::cmp::PartialEqSpecImpl for PrefixSet<P> {
    open spec fn obeys_eq_spec() -> bool {
        true
    }

    open spec fn eq_spec(&self, other: &Self) -> bool {
        self.tree() == other.tree()
    }
}

impl<P: IpPrefix> Clone for PrefixSet<P> {
    fn clone(&self) -> (r: Self)
        ensures
            r.tree() == self.tree(),
    {
        self.duplicate()
    }
}

impl<P: IpPrefix> Default for PrefixSet<P> {
    fn default() -> (r: Self)
        ensures
            r.wf(),
            r.members() == Set::<Prefix>::empty(),
    {
        Self::new()
    }
}

/// The prefixes `r` come range by range in the order of `runs`, each range's
/// prefixes by increasing length and then increasing address; `o` gives
/// the range of each prefix.
pub open spec fn in_layout<P: IpPrefix>(r: Seq<P>, runs: Seq<(Prefix, nat, nat)>, o: Seq<int>) -> bool {
    &&& o.len() == r.len()
    &&& forall|i: int|
        0 <= i < r.len() ==> 0 <= #[trigger] o[i] < runs.len() && in_range(
            runs[o[i]].0,
            runs[o[i]].1,
            runs[o[i]].2,
            r[i].spec_prefix(),
        )
    &&& forall|i: int, j: int| 0 <= i < j < r.len() ==> #[trigger] o[i] <= #[trigger] o[j]
    &&& forall|i: int, j: int|
        0 <= i < j < r.len() && o[i] == o[j] ==> (#[trigger] r[i]).spec_prefix().length < (
        #[trigger] r[j]).spec_prefix().length || (r[i].spec_prefix().length
        == r[j].spec_prefix().length && addr_before(r[i].spec_prefix().bits, r[j].spec_prefix().bits))
}

/// The base and length bounds of each range of `s`.
pub open spec fn range_triples<P: IpPrefix>(s: Seq<IpPrefixRange<P>>) -> Seq<(Prefix, nat, nat)> {
    s.map_values(|x: IpPrefixRange<P>| (x.spec_base(), x.spec_lower(), x.spec_upper()))
}

/// The ranges of the map of `n` alone: one per maximal run of its lengths,
/// over its base, by increasing lower bound.
pub open spec fn own_runs(n: Node) -> Seq<(Prefix, nat, nat)> {
    runs_from(n.gluemap, 0).map_values(|x: (nat, nat)| (n.prefix, x.0, x.1))
}

/// The ranges of the sub-tree rooted at `n`: those of each node, nodes in
/// pre-order.
pub open spec fn tree_runs(n: Node) -> Seq<(Prefix, nat, nat)>
    decreases n,
{
    own_runs(n) + opt_tree_runs(n.left) + opt_tree_runs(n.right)
}

/// The ranges of the optional sub-tree `n`, nodes in pre-order.
pub open spec fn opt_tree_runs(n: Option<Box<Node>>) -> Seq<(Prefix, nat, nat)>
    decreases n,
{
    match n {
        Some(c) => tree_runs(*c),
        None => Seq::empty(),
    }
}

/// Append to `out` the maximal runs of lengths in the map of `n`, as ranges
/// over its base.
fn push_own_ranges<P: IpPrefix>(n: &Node, out: &mut Vec<IpPrefixRange<P>>)
    requires
        n.wf(P::width()),
    ensures
        final(out)@.len() >= old(out)@.len(),
        forall|i: int| 0 <= i < old(out)@.len() ==> #[trigger] final(out)@[i] == old(out)@[i],
        forall|q: Prefix| #[trigger] n.own(q) == exists|i: int|
            old(out)@.len() <= i < final(out)@.len() && final(out)@[i].has(q),
        forall|i: int, j: int, q: Prefix|
            old(out)@.len() <= i < j < final(out)@.len() ==> !(#[trigger] final(out)@[i].has(q)
                && #[trigger] final(out)@[j].has(q)),
        range_triples(final(out)@.subrange(old(out)@.len() as int, final(out)@.len() as int))
            == own_runs(*n),
        forall|i: int|
            old(out)@.len() <= i < final(out)@.len() ==> {
                let x = #[trigger] final(out)@[i];
                &&& x.spec_base() == n.prefix
                &&& forall|l: nat| x.spec_lower() <= l <= x.spec_upper() ==> #[trigger] n.gluemap.has(l)
                &&& x.spec_upper() == 128 || !n.gluemap.has(x.spec_upper() + 1)
                &&& x.spec_lower() == 0 || !n.gluemap.has((x.spec_lower() - 1) as nat)
            },
        forall|i: int, j: int|
            old(out)@.len() <= i < j < final(out)@.len() ==> (#[trigger] final(out)@[i]).spec_upper()
                + 1 < (#[trigger] final(out)@[j]).spec_lower(),
{
    let ghost start = out@.len();
    let ghost g = n.gluemap;
    let ghost mut runs: Seq<(nat, nat)> = Seq::empty();
    let base = P::from_prefix(n.prefix);
    let mut from: u8 = 0;
    let mut done = false;
    while !done
        invariant
            from <= 129,
            n.wf(P::width()),
            base.spec_prefix() == n.prefix,
            out@.len() >= start,
            forall|i: int| 0 <= i < start ==> #[trigger] out@[i] == old(out)@[i],
            !done ==> forall|q: Prefix| (#[trigger] n.own(q) && q.length < from) == exists|i: int|
                start <= i < out@.len() && out@[i].has(q),
            done ==> forall|q: Prefix| #[trigger] n.own(q) == exists|i: int|
                start <= i < out@.len() && out@[i].has(q),
            !done ==> forall|i: int| start <= i < out@.len() ==> (#[trigger] out@[i]).spec_upper() < from,
            forall|i: int, j: int, q: Prefix|
                start <= i < j < out@.len() ==> !(#[trigger] out@[i].has(q) && #[trigger] out@[j].has(q)),
            g == n.gluemap,
            range_triples(out@.subrange(start as int, out@.len() as int)) == runs.map_values(
                |x: (nat, nat)| (n.prefix, x.0, x.1),
            ),
            !done ==> runs + runs_from(g, from as nat) == runs_from(g, 0),
            done ==> runs == runs_from(g, 0),
            from > 0 ==> !g.has(from as nat),
            forall|i: int|
                start <= i < out@.len() ==> {
                    let x = #[trigger] out@[i];
                    &&& x.spec_base() == n.prefix
                    &&& forall|l: nat| x.spec_lower() <= l <= x.spec_upper() ==> #[trigger] g.has(l)
                    &&& x.spec_upper() == 128 || !g.has(x.spec_upper() + 1)
                    &&& x.spec_lower() == 0 || !g.has((x.spec_lower() - 1) as nat)
                },
            forall|i: int, j: int|
                start <= i < j < out@.len() ==> (#[trigger] out@[i]).spec_upper() + 1 < (
                #[trigger] out@[j]).spec_lower(),
        decreases (if done { 0int } else { 1int }) + 130 - from,
    {
        match n.gluemap.next_range(from) {
            None => {
                proof {
                    assert forall|q: Prefix| #[trigger] n.own(q) == exists|i: int|
                        start <= i < out@.len() && out@[i].has(q) by {
                        if n.own(q) && q.length >= from {
                            assert(!n.gluemap.has(q.length as nat));
                        }
                    }
                    if from <= 128 {
                        lemma_first_set_none(g, from as nat);
                    }
                    assert(runs_from(g, from as nat) =~= Seq::<(nat, nat)>::empty());
                    assert(runs + runs_from(g, from as nat) =~= runs);
                }
                done = true;
            },
            Some((lo, hi)) => {
                proof {
                    assert(n.gluemap.has(lo as nat));
                    assert(n.gluemap.has(hi as nat));
                }
                let range = match IpPrefixRange::new(base, lo, hi) {
                    Ok(range) => range,
                    Err(_) => {
                        proof {
                            assert(false);
                        }
                        return;
                    },
                };
                let ghost before = out@;
                let ghost runs0 = runs;
                out.push(range);
                proof {
                    lemma_first_set(g, from as nat, lo as nat);
                    lemma_run_end(g, lo as nat, hi as nat);
                    assert(runs_from(g, from as nat) == seq![(lo as nat, hi as nat)] + runs_from(
                        g,
                        (hi + 1) as nat,
                    ));
                    runs = runs0.push((lo as nat, hi as nat));
                    assert(runs + runs_from(g, (hi + 1) as nat) =~= runs0 + runs_from(g, from as nat));
                    assert(out@.subrange(start as int, out@.len() as int) =~= before.subrange(
                        start as int,
                        before.len() as int,
                    ).push(range));
                    let old_part = before.subrange(start as int, before.len() as int);
                    let new_part = out@.subrange(start as int, out@.len() as int);
                    assert(range_triples(old_part) == runs0.map_values(
                        |x: (nat, nat)| (n.prefix, x.0, x.1),
                    ));
                    assert(range_triples(old_part).len() == old_part.len());
                    assert(runs0.len() == old_part.len());
                    assert(runs.len() == runs0.len() + 1);
                    assert(new_part.len() == old_part.len() + 1);
                    assert forall|k: int| 0 <= k < new_part.len() implies #[trigger] range_triples(
                        new_part,
                    )[k] == runs.map_values(|x: (nat, nat)| (n.prefix, x.0, x.1))[k] by {
                        if k < old_part.len() {
                            assert(new_part[k] == old_part[k]);
                            assert(range_triples(old_part)[k] == runs0.map_values(
                                |x: (nat, nat)| (n.prefix, x.0, x.1),
                            )[k]);
                            assert(runs[k] == runs0[k]);
                        } else {
                            assert(new_part[k] == range);
                            assert(runs[k] == (lo as nat, hi as nat));
                        }
                    }
                    assert(range_triples(new_part) =~= runs.map_values(
                        |x: (nat, nat)| (n.prefix, x.0, x.1),
                    ));
                    if lo > 0 && lo == from {
                        assert(false);
                    }
                    assert forall|i: int|
                        start <= i < out@.len() implies {
                            let x = #[trigger] out@[i];
                            &&& x.spec_base() == n.prefix
                            &&& forall|l: nat| x.spec_lower() <= l <= x.spec_upper() ==> #[trigger] g.has(l)
                            &&& x.spec_upper() == 128 || !g.has(x.spec_upper() + 1)
                            &&& x.spec_lower() == 0 || !g.has((x.spec_lower() - 1) as nat)
                        } by {
                        if i < before.len() {
                            assert(out@[i] == before[i]);
                        }
                    }
                    assert forall|i: int, j: int|
                        start <= i < j < out@.len() implies (#[trigger] out@[i]).spec_upper() + 1 < (
                        #[trigger] out@[j]).spec_lower() by {
                        assert(out@[i] == before[i]);
                        if j < before.len() {
                            assert(out@[j] == before[j]);
                        } else {
                            assert(before[i].spec_upper() < from);
                        }
                    }
                    assert forall|i: int, j: int, q: Prefix|
                        start <= i < j < out@.len() implies !(#[trigger] out@[i].has(q)
                        && #[trigger] out@[j].has(q)) by {
                        if j == before.len() {
                            assert(out@[i] == before[i]);
                            assert(before[i].spec_upper() < from);
                        } else {
                            assert(out@[i] == before[i]);
                            assert(out@[j] == before[j]);
                        }
                    }
                    assert forall|i: int| start <= i < out@.len() implies (#[trigger] out@[i]).spec_upper()
                        < hi + 1 by {
                        if i < before.len() {
                            assert(out@[i] == before[i]);
                        }
                    }
                    assert forall|q: Prefix| (#[trigger] n.own(q) && q.length < hi + 1) == exists|i: int|
                        start <= i < out@.len() && out@[i].has(q) by {
                        if n.own(q) && q.length < hi + 1 {
                            if q.length >= from {
                                assert(out@[before.len() as int].has(q));
                            } else {
                                let i = choose|i: int| start <= i < before.len() && before[i].has(q);
                                assert(out@[i] == before[i]);
                            }
                        }
                        if exists|i: int| start <= i < out@.len() && out@[i].has(q) {
                            let i = choose|i: int| start <= i < out@.len() && out@[i].has(q);
                            if i < before.len() {
                                assert(out@[i] == before[i]);
                            } else {
                                assert(lo <= q.length <= hi);
                            }
                        }
                    }
                }
                if hi == 128 {
                    proof {
                        assert forall|q: Prefix| #[trigger] n.own(q) == exists|i: int|
                            start <= i < out@.len() && out@[i].has(q) by {
                            if n.own(q) {
                                assert(q.length < hi + 1);
                            }
                        }
                        assert(runs_from(g, 129) =~= Seq::<(nat, nat)>::empty());
                        assert(runs + runs_from(g, 129) =~= runs);
                    }
                    done = true;
                } else {
                    let ghost covered = out@;
                    from = hi + 1;
                    proof {
                        assert(out@ == covered);
                        assert(forall|i: int| start <= i < out@.len() ==> (#[trigger] out@[i]).spec_upper() < from);
                        assert forall|q: Prefix| (#[trigger] n.own(q) && q.length < from) == exists|i: int|
                            start <= i < out@.len() && out@[i].has(q) by {
                            assert((n.own(q) && q.length < hi + 1) == exists|i: int|
                                start <= i < out@.len() && out@[i].has(q));
                        }
                    }
                }
            },
        }
    }
    proof {
        assert(range_triples(out@.subrange(start as int, out@.len() as int)) =~= own_runs(*n));
    }
}

/// Append to `out` the ranges of the tree rooted at `n`, in pre-order.
fn push_ranges<P: IpPrefix>(n: &Node, out: &mut Vec<IpPrefixRange<P>>, Ghost(m): Ghost<Set<nat>>)
    requires
        n.wf(P::width()),
        n.aggregated(m),
    ensures
        final(out)@.len() >= old(out)@.len(),
        forall|i: int| 0 <= i < old(out)@.len() ==> #[trigger] final(out)@[i] == old(out)@[i],
        forall|q: Prefix| #[trigger] n.has(q) == exists|i: int|
            old(out)@.len() <= i < final(out)@.len() && final(out)@[i].has(q),
        forall|i: int, j: int, q: Prefix|
            old(out)@.len() <= i < j < final(out)@.len() ==> !(#[trigger] final(out)@[i].has(q)
                && #[trigger] final(out)@[j].has(q)),
        range_triples(final(out)@.subrange(old(out)@.len() as int, final(out)@.len() as int))
            == tree_runs(*n),
    decreases n,
{
    let ghost start = out@.len();
    push_own_ranges(n, out);
    let ghost own_end = out@.len();
    let ghost own_mid = out@;
    if let Some(c) = &n.left {
        push_ranges(c, out, Ghost(m + lens(n.gluemap)));
    }
    let ghost left_end = out@.len();
    let ghost left_mid = out@;
    proof {
        assert forall|q: Prefix| #[trigger] opt_has(n.left, q) == exists|i: int|
            own_end <= i < left_end && left_mid[i].has(q) by {
            if let Some(c) = n.left {
                assert(opt_has(n.left, q) == c.has(q));
            }
        }
    }
    if let Some(c) = &n.right {
        push_ranges(c, out, Ghost(m + lens(n.gluemap)));
    }
    proof {
        assert forall|q: Prefix| #[trigger] opt_has(n.right, q) == exists|i: int|
            left_end <= i < out@.len() && out@[i].has(q) by {
            if let Some(c) = n.right {
                assert(opt_has(n.right, q) == c.has(q));
            }
        }
        let a = out@.subrange(start as int, own_end as int);
        let b = out@.subrange(own_end as int, left_end as int);
        let c = out@.subrange(left_end as int, out@.len() as int);
        assert(a =~= own_mid.subrange(start as int, own_end as int));
        assert(b =~= left_mid.subrange(own_end as int, left_end as int));
        assert(range_triples(b) == opt_tree_runs(n.left)) by {
            if n.left is None {
                assert(b =~= Seq::<IpPrefixRange<P>>::empty());
            }
        }
        assert(range_triples(c) == opt_tree_runs(n.right)) by {
            if n.right is None {
                assert(c =~= Seq::<IpPrefixRange<P>>::empty());
            }
        }
        assert(out@.subrange(start as int, out@.len() as int) =~= a + b + c);
        assert(range_triples(a + b + c) =~= range_triples(a) + range_triples(b) + range_triples(c));
    }
    proof {
        let o = old(out)@.len();
        assert forall|q: Prefix| #[trigger] n.has(q) == exists|i: int|
            o <= i < out@.len() && out@[i].has(q) by {
            assert(n.has(q) == (n.own(q) || opt_has(n.left, q) || opt_has(n.right, q)));
            if n.own(q) {
                let i = choose|i: int| start <= i < own_end && own_mid[i].has(q);
                assert(out@[i] == own_mid[i]);
            }
            if opt_has(n.left, q) {
                let i = choose|i: int| own_end <= i < left_end && left_mid[i].has(q);
                assert(out@[i] == left_mid[i]);
            }
            if opt_has(n.right, q) {
                let i = choose|i: int| left_end <= i < out@.len() && out@[i].has(q);
            }
            if exists|i: int| o <= i < out@.len() && out@[i].has(q) {
                let i = choose|i: int| o <= i < out@.len() && out@[i].has(q);
                if i < own_end {
                    assert(out@[i] == own_mid[i]);
                } else if i < left_end {
                    assert(out@[i] == left_mid[i]);
                }
            }
        }
        assert forall|i: int| start <= i < own_end implies #[trigger] out@[i] == own_mid[i] by {
            assert(left_mid[i] == own_mid[i]);
        }
        assert forall|i: int| own_end <= i < left_end implies #[trigger] out@[i] == left_mid[i] by {}
        assert forall|i: int, j: int, q: Prefix|
            o <= i < j < out@.len() implies !(#[trigger] out@[i].has(q) && #[trigger] out@[j].has(
                q,
            )) by {
            if out@[i].has(q) && out@[j].has(q) {
                if j < own_end {
                    assert(out@[i] == own_mid[i]);
                    assert(out@[j] == own_mid[j]);
                } else if j < left_end {
                    assert(out@[j] == left_mid[j]);
                    assert(opt_has(n.left, q));
                    let c = n.left.unwrap();
                    assert(opt_has(n.left, q) == c.has(q));
                    if i < own_end {
                        assert(out@[i] == own_mid[i]);
                        assert(n.own(q));
                        c.lemma_has_unmasked(m + lens(n.gluemap), q);
                    } else {
                        assert(out@[i] == left_mid[i]);
                    }
                } else {
                    assert(opt_has(n.right, q));
                    let c = n.right.unwrap();
                    assert(opt_has(n.right, q) == c.has(q));
                    if i < own_end {
                        assert(out@[i] == own_mid[i]);
                        assert(n.own(q));
                        c.lemma_has_unmasked(m + lens(n.gluemap), q);
                    } else if i < left_end {
                        assert(out@[i] == left_mid[i]);
                        assert(opt_has(n.left, q));
                        crate::node::lemma_side(n.left, P::width(), n.prefix, false, q);
                        crate::node::lemma_side(n.right, P::width(), n.prefix, true, q);
                    }
                }
            }
        }
    }
}

} // verus!
