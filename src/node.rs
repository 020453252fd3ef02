//! The prefix radix tree.
//!
//! Each node holds a base prefix and a [`GlueMap`] of lengths: length `l` in
//! the map stands for every sub-prefix of the base of length `l`. A node with
//! an empty map is a glue node and only routes to its children.
use vstd::prelude::*;

use crate::bits::{agree, bit, get_bit, mask, mask_of};
use crate::gluemap::GlueMap;
use crate::prefix::{covers, lemma_covers_trans, lemma_split_apart, Comparison, Prefix};

verus! {

/// A node of the prefix radix tree.
#[derive(Debug)]
pub struct Node {
    pub prefix: Prefix,
    pub gluemap: GlueMap,
    pub left: Option<Box<Node>>,
    pub right: Option<Box<Node>>,
}

/// `c` may stand below a node with base `p`, on the side given by `right`.
pub open spec fn child_ok(p: Prefix, c: Prefix, right: bool) -> bool {
    &&& p.length < c.length
    &&& covers(p, c)
    &&& bit(c.bits, p.length as nat) == right
}

/// `p` and `q` first differ at bit `c`, which both of them fix.
pub open spec fn diverge_at(p: Prefix, q: Prefix, c: nat) -> bool {
    &&& c < p.length
    &&& c < q.length
    &&& agree(p.bits, q.bits, c)
    &&& bit(p.bits, c) != bit(q.bits, c)
}

/// The shape of the tree that merging `a` and `b` gives: on equal bases, one
/// node with both maps; below a strictly covering base, that node with its
/// own map; on diverging bases, a new glue node at their common prefix with
/// each tree on the side of its next bit.
pub open spec fn merge_shape(a: Node, b: Node, r: Node) -> bool {
    &&& (a.prefix.length == b.prefix.length && agree(a.prefix.bits, b.prefix.bits, a.prefix.length as nat))
        ==> {
        &&& r.prefix == a.prefix
        &&& forall|l: nat| #[trigger] r.gluemap.has(l) == (a.gluemap.has(l) || b.gluemap.has(l))
        &&& r.left.is_none() == (a.left.is_none() && b.left.is_none())
        &&& r.right.is_none() == (a.right.is_none() && b.right.is_none())
    }
    &&& (covers(a.prefix, b.prefix) && a.prefix.length < b.prefix.length) ==> r.prefix == a.prefix
        && r.gluemap == a.gluemap
    &&& (covers(b.prefix, a.prefix) && b.prefix.length < a.prefix.length) ==> r.prefix == b.prefix
        && r.gluemap == b.gluemap
    &&& forall|c: nat| #[trigger] diverge_at(a.prefix, b.prefix, c) ==> {
        &&& r.prefix == (Prefix { bits: a.prefix.bits & mask(c), length: c as u8 })
        &&& r.gluemap.is_empty_map()
        &&& if bit(a.prefix.bits, c) {
            r.left == Some(Box::new(b)) && r.right == Some(Box::new(a))
        } else {
            r.left == Some(Box::new(a)) && r.right == Some(Box::new(b))
        }
    }
}

/// `q` is a member of the optional sub-tree `n`.
pub open spec fn opt_has(n: Option<Box<Node>>, q: Prefix) -> bool
    decreases n,
{
    match n {
        Some(c) => c.has(q),
        None => false,
    }
}

/// The optional sub-tree `n` is well formed for width `w` and may stand
/// below a node with base `p` on side `right`.
pub open spec fn opt_wf(n: Option<Box<Node>>, w: nat, p: Prefix, right: bool) -> bool
    decreases n,
{
    match n {
        Some(c) => child_ok(p, c.prefix, right) && c.wf(w),
        None => true,
    }
}

pub open spec fn opt_size(n: Option<Box<Node>>) -> nat
    decreases n,
{
    match n {
        Some(c) => c.size(),
        None => 0,
    }
}

impl Node {
    /// `q` is a member of the sub-tree rooted here.
    pub open spec fn has(self, q: Prefix) -> bool
        decreases self,
    {
        ||| (self.gluemap.has(q.length as nat) && covers(self.prefix, q))
        ||| opt_has(self.left, q)
        ||| opt_has(self.right, q)
    }

    /// `q` is a member by the map of this node alone.
    pub open spec fn own(self, q: Prefix) -> bool {
        self.gluemap.has(q.length as nat) && covers(self.prefix, q)
    }

    /// The structural invariants for an address family of width `w`.
    pub open spec fn wf(self, w: nat) -> bool
        decreases self,
    {
        &&& self.prefix.wf(w)
        &&& self.gluemap.within(self.prefix.length as nat, w)
        &&& opt_wf(self.left, w, self.prefix, false)
        &&& opt_wf(self.right, w, self.prefix, true)
    }

    pub open spec fn size(self) -> nat
        decreases self,
    {
        1 + opt_size(self.left) + opt_size(self.right)
    }

    /// Every member of a well-formed sub-tree is covered by its base.
    pub proof fn lemma_has_covered(self, w: nat, q: Prefix)
        requires
            self.wf(w),
            self.has(q),
        ensures
            covers(self.prefix, q),
            q.length <= w,
        decreases self,
    {
        if self.own(q) {
        } else if opt_has(self.left, q) {
            let c = self.left.unwrap();
            c.lemma_has_covered(w, q);
            lemma_covers_trans(self.prefix, c.prefix, q);
        } else {
            let c = self.right.unwrap();
            c.lemma_has_covered(w, q);
            lemma_covers_trans(self.prefix, c.prefix, q);
        }
    }

    /// A well-formed tree stays well formed for any wider family.
    pub proof fn lemma_wf_wider(self, w: nat, v: nat)
        requires
            self.wf(w),
            w <= v <= 128,
        ensures
            self.wf(v),
        decreases self,
    {
        if let Some(c) = self.left {
            c.lemma_wf_wider(w, v);
        }
        if let Some(c) = self.right {
            c.lemma_wf_wider(w, v);
        }
    }
}

/// A member of a sub-tree standing on side `right` below `p` has that bit.
pub proof fn lemma_side(n: Option<Box<Node>>, w: nat, p: Prefix, right: bool, q: Prefix)
    requires
        opt_wf(n, w, p, right),
        opt_has(n, q),
    ensures
        covers(p, q),
        p.length < q.length,
        bit(q.bits, p.length as nat) == right,
{
    let c = n.unwrap();
    c.lemma_has_covered(w, q);
    lemma_covers_trans(p, c.prefix, q);
    assert(bit(c.prefix.bits, p.length as nat) == bit(q.bits, p.length as nat));
}

/// The base of a merged tree may stand wherever both merged bases could.
proof fn lemma_join_ok(p: Prefix, right: bool, a: Prefix, b: Prefix, r: Prefix)
    requires
        child_ok(p, a, right),
        child_ok(p, b, right),
        r == a || r == b || (covers(r, a) && covers(r, b) && r.length < a.length && r.length
            < b.length && bit(a.bits, r.length as nat) != bit(b.bits, r.length as nat)),
    ensures
        child_ok(p, r, right),
{
    if r != a && r != b {
        let k = r.length as nat;
        if k <= p.length {
            if k < p.length {
                assert(bit(p.bits, k) == bit(a.bits, k));
                assert(bit(p.bits, k) == bit(b.bits, k));
            }
        }
        assert(p.length < r.length);
        assert forall|i: nat| i < p.length implies #[trigger] bit(p.bits, i) == bit(r.bits, i) by {
            assert(bit(p.bits, i) == bit(a.bits, i));
            assert(bit(r.bits, i) == bit(a.bits, i));
        }
        assert(bit(r.bits, p.length as nat) == bit(a.bits, p.length as nat));
    }
}

impl Node {
    /// A node with no children.
    pub fn new(prefix: Prefix, gluemap: GlueMap) -> (r: Node)
        ensures
            r.prefix == prefix,
            r.gluemap == gluemap,
            r.left.is_none(),
            r.right.is_none(),
    {
        Node { prefix, gluemap, left: None, right: None }
    }

    /// Merge the trees `a` and `b` into one tree holding the members of both.
    pub fn merge(a: Node, b: Node, Ghost(w): Ghost<nat>) -> (r: Node)
        requires
            a.wf(w),
            b.wf(w),
        ensures
            r.wf(w),
            forall|q: Prefix| #[trigger] r.has(q) == (a.has(q) || b.has(q)),
            r.prefix == a.prefix || r.prefix == b.prefix || (covers(r.prefix, a.prefix) && covers(
                r.prefix,
                b.prefix,
            ) && r.prefix.length < a.prefix.length && r.prefix.length < b.prefix.length && bit(
                a.prefix.bits,
                r.prefix.length as nat,
            ) != bit(b.prefix.bits, r.prefix.length as nat)),
            merge_shape(a, b, r),
        decreases 2 * (a.size() + b.size()),
    {
        let mut a = a;
        let mut b = b;
        match a.prefix.compare(&b.prefix) {
            Comparison::Equal => {
                let ghost a0 = a;
                let ghost b0 = b;
                a.gluemap = a.gluemap.or(&b.gluemap);
                let bl = Self::clear_top(b.left, &a.gluemap, Ghost(w), Ghost(b0.prefix), Ghost(false));
                let br = Self::clear_top(b.right, &a.gluemap, Ghost(w), Ghost(b0.prefix), Ghost(true));
                proof {
                    assert forall|q: Prefix| covers(b0.prefix, q) == covers(a0.prefix, q) by {
                        if covers(b0.prefix, q) {
                            assert forall|i: nat| i < a0.prefix.length implies #[trigger] bit(
                                a0.prefix.bits,
                                i,
                            ) == bit(q.bits, i) by {
                                assert(bit(a0.prefix.bits, i) == bit(b0.prefix.bits, i));
                            }
                        }
                        if covers(a0.prefix, q) {
                            assert forall|i: nat| i < b0.prefix.length implies #[trigger] bit(
                                b0.prefix.bits,
                                i,
                            ) == bit(q.bits, i) by {
                                assert(bit(a0.prefix.bits, i) == bit(b0.prefix.bits, i));
                            }
                        }
                    }
                    assert forall|p: Prefix, right: bool| child_ok(b0.prefix, p, right) implies
                        #[trigger] child_ok(a0.prefix, p, right) by {
                        assert forall|i: nat| i < a0.prefix.length implies #[trigger] bit(
                            a0.prefix.bits,
                            i,
                        ) == bit(p.bits, i) by {
                            assert(bit(a0.prefix.bits, i) == bit(b0.prefix.bits, i));
                        }
                    }
                    assert(opt_wf(bl, w, a0.prefix, false));
                    assert(opt_wf(br, w, a0.prefix, true));
                }
                let l = Self::join(a.left, bl, Ghost(w), Ghost(a0.prefix), Ghost(false));
                let r = Self::join(a.right, br, Ghost(w), Ghost(a0.prefix), Ghost(true));
                a.left = l;
                a.right = r;
                proof {
                    assert forall|q: Prefix| #[trigger] a.has(q) == (a0.has(q) || b0.has(q)) by {
                        assert(covers(b0.prefix, q) == covers(a0.prefix, q));
                        assert(a.own(q) == (a0.own(q) || b0.own(q)));
                        assert(opt_has(l, q) == (opt_has(a0.left, q) || opt_has(bl, q)));
                        assert(opt_has(r, q) == (opt_has(a0.right, q) || opt_has(br, q)));
                        assert((opt_has(bl, q) || a.own(q)) == (opt_has(b0.left, q) || a.own(q)));
                        assert((opt_has(br, q) || a.own(q)) == (opt_has(b0.right, q) || a.own(q)));
                        assert(a.has(q) == (a.own(q) || opt_has(l, q) || opt_has(r, q)));
                        assert(a0.has(q) == (a0.own(q) || opt_has(a0.left, q) || opt_has(a0.right, q)));
                        assert(b0.has(q) == (b0.own(q) || opt_has(b0.left, q) || opt_has(b0.right, q)));
                    }
                }
                a
            },
            Comparison::Subprefix(c) => {
                let ghost a0 = a;
                let ghost b0 = b;
                b.gluemap = b.gluemap.and_not(&a.gluemap);
                proof {
                    assert forall|q: Prefix| (#[trigger] b.has(q) || a0.own(q)) == (b0.has(q)
                        || a0.own(q)) by {
                        if b0.own(q) && !b.own(q) {
                            lemma_covers_trans(a0.prefix, b0.prefix, q);
                        }
                    }
                }
                let ghost b1 = b;
                if !get_bit(b.prefix.bits, c) {
                    let l = Self::join(a.left, Some(Box::new(b)), Ghost(w), Ghost(a0.prefix), Ghost(false));
                    a.left = l;
                    proof {
                        assert forall|q: Prefix| #[trigger] a.has(q) == (a0.has(q) || b0.has(q)) by {
                            assert(opt_has(Some(Box::new(b1)), q) == b1.has(q));
                            assert(a.own(q) == a0.own(q));
                            assert(a.has(q) == (a.own(q) || opt_has(a.left, q) || opt_has(a.right, q)));
                            assert(a0.has(q) == (a0.own(q) || opt_has(a0.left, q) || opt_has(a0.right, q)));
                            assert((b1.has(q) || a0.own(q)) == (b0.has(q) || a0.own(q)));
                        }
                    }
                } else {
                    let r = Self::join(a.right, Some(Box::new(b)), Ghost(w), Ghost(a0.prefix), Ghost(true));
                    a.right = r;
                    proof {
                        assert forall|q: Prefix| #[trigger] a.has(q) == (a0.has(q) || b0.has(q)) by {
                            assert(opt_has(Some(Box::new(b1)), q) == b1.has(q));
                            assert(a.own(q) == a0.own(q));
                            assert(a.has(q) == (a.own(q) || opt_has(a.left, q) || opt_has(a.right, q)));
                            assert(a0.has(q) == (a0.own(q) || opt_has(a0.left, q) || opt_has(a0.right, q)));
                            assert((b1.has(q) || a0.own(q)) == (b0.has(q) || a0.own(q)));
                        }
                    }
                }
                a
            },
            Comparison::Superprefix(c) => {
                let ghost a0 = a;
                let ghost b0 = b;
                a.gluemap = a.gluemap.and_not(&b.gluemap);
                proof {
                    assert forall|q: Prefix| (#[trigger] a.has(q) || b0.own(q)) == (a0.has(q)
                        || b0.own(q)) by {
                        if a0.own(q) && !a.own(q) {
                            lemma_covers_trans(b0.prefix, a0.prefix, q);
                        }
                    }
                }
                let ghost a1 = a;
                if !get_bit(a.prefix.bits, c) {
                    let l = Self::join(b.left, Some(Box::new(a)), Ghost(w), Ghost(b0.prefix), Ghost(false));
                    b.left = l;
                    proof {
                        assert forall|q: Prefix| #[trigger] b.has(q) == (a0.has(q) || b0.has(q)) by {
                            assert(opt_has(Some(Box::new(a1)), q) == a1.has(q));
                            assert(b.own(q) == b0.own(q));
                            assert(b.has(q) == (b.own(q) || opt_has(b.left, q) || opt_has(b.right, q)));
                            assert(b0.has(q) == (b0.own(q) || opt_has(b0.left, q) || opt_has(b0.right, q)));
                            assert((a1.has(q) || b0.own(q)) == (a0.has(q) || b0.own(q)));
                        }
                    }
                } else {
                    let r = Self::join(b.right, Some(Box::new(a)), Ghost(w), Ghost(b0.prefix), Ghost(true));
                    b.right = r;
                    proof {
                        assert forall|q: Prefix| #[trigger] b.has(q) == (a0.has(q) || b0.has(q)) by {
                            assert(opt_has(Some(Box::new(a1)), q) == a1.has(q));
                            assert(b.own(q) == b0.own(q));
                            assert(b.has(q) == (b.own(q) || opt_has(b.left, q) || opt_has(b.right, q)));
                            assert(b0.has(q) == (b0.own(q) || opt_has(b0.left, q) || opt_has(b0.right, q)));
                            assert((a1.has(q) || b0.own(q)) == (a0.has(q) || b0.own(q)));
                        }
                    }
                }
                b
            },
            Comparison::Divergent(c) => {
                let prefix = a.prefix.truncate(c);
                let ghost ap = a.prefix;
                let ghost bp = b.prefix;
                proof {
                    assert forall|i: nat| i < c implies #[trigger] bit(prefix.bits, i) == bit(
                        bp.bits,
                        i,
                    ) by {
                        assert(bit(prefix.bits, i) == bit(ap.bits, i));
                    }
                }
                let right = get_bit(a.prefix.bits, c);
                let ghost a0 = a;
                let ghost b0 = b;
                let glue = if right {
                    Node {
                        prefix,
                        gluemap: GlueMap::zero(),
                        left: Some(Box::new(b)),
                        right: Some(Box::new(a)),
                    }
                } else {
                    Node {
                        prefix,
                        gluemap: GlueMap::zero(),
                        left: Some(Box::new(a)),
                        right: Some(Box::new(b)),
                    }
                };
                proof {
                    assert(glue.gluemap.within(prefix.length as nat, w));
                    assert(prefix.wf(w));
                    assert forall|q: Prefix| #[trigger] glue.has(q) == (a0.has(q) || b0.has(q)) by {
                        assert(!glue.own(q));
                        assert(opt_has(Some(Box::new(a0)), q) == a0.has(q));
                        assert(opt_has(Some(Box::new(b0)), q) == b0.has(q));
                    }
                }
                glue
            },
        }
    }

    /// Merge two optional sub-trees that stand on the same side of `p`.
    fn join(
        x: Option<Box<Node>>,
        y: Option<Box<Node>>,
        Ghost(w): Ghost<nat>,
        Ghost(p): Ghost<Prefix>,
        Ghost(right): Ghost<bool>,
    ) -> (r: Option<Box<Node>>)
        requires
            opt_wf(x, w, p, right),
            opt_wf(y, w, p, right),
        ensures
            opt_wf(r, w, p, right),
            forall|q: Prefix| #[trigger] opt_has(r, q) == (opt_has(x, q) || opt_has(y, q)),
            r.is_none() == (x.is_none() && y.is_none()),
        decreases 2 * (opt_size(x) + opt_size(y)) + 1,
    {
        match x {
            None => {
                assert forall|q: Prefix| #[trigger] opt_has(y, q) == (opt_has(x, q) || opt_has(y, q)) by {
                    assert(!opt_has(x, q));
                }
                y
            },
            Some(xn) => match y {
                None => {
                    assert(forall|q: Prefix| !#[trigger] opt_has(y, q));
                    let r = Some(xn);
                    assert(forall|q: Prefix| #[trigger] opt_has(r, q) == (opt_has(x, q) || opt_has(y, q)));
                    r
                },
                Some(yn) => {
                    let ghost xp = xn.prefix;
                    let ghost yp = yn.prefix;
                    let ghost xv = *xn;
                    let ghost yv = *yn;
                    let m = Self::merge(*xn, *yn, Ghost(w));
                    proof {
                        lemma_join_ok(p, right, xp, yp, m.prefix);
                        assert(forall|q: Prefix| opt_has(x, q) == #[trigger] xv.has(q));
                        assert(forall|q: Prefix| opt_has(y, q) == #[trigger] yv.has(q));
                    }
                    let r = Some(Box::new(m));
                    assert forall|q: Prefix| #[trigger] opt_has(r, q) == (opt_has(x, q) || opt_has(y, q)) by {
                        assert(opt_has(r, q) == m.has(q));
                        assert(m.has(q) == (xv.has(q) || yv.has(q)));
                    }
                    r
                },
            },
        }
    }

    /// Drop from the map of the root of `n` the lengths in `mask`, which an
    /// ancestor already holds.
    fn clear_top(
        n: Option<Box<Node>>,
        mask: &GlueMap,
        Ghost(w): Ghost<nat>,
        Ghost(p): Ghost<Prefix>,
        Ghost(right): Ghost<bool>,
    ) -> (r: Option<Box<Node>>)
        requires
            opt_wf(n, w, p, right),
        ensures
            opt_wf(r, w, p, right),
            forall|q: Prefix| (#[trigger] opt_has(r, q) || (mask.has(q.length as nat) && covers(p, q)))
                == (opt_has(n, q) || (mask.has(q.length as nat) && covers(p, q))),
            r.is_some() == n.is_some(),
            r.is_some() ==> r.unwrap().prefix == n.unwrap().prefix,
            opt_size(r) == opt_size(n),
    {
        match n {
            None => None,
            Some(c) => {
                let mut c = *c;
                let ghost c0 = c;
                c.gluemap = c.gluemap.and_not(mask);
                proof {
                    assert forall|q: Prefix| (#[trigger] c.has(q) || (mask.has(q.length as nat)
                        && covers(p, q))) == (c0.has(q) || (mask.has(q.length as nat) && covers(
                        p,
                        q,
                    ))) by {
                        if c0.own(q) && !c.own(q) {
                            lemma_covers_trans(p, c0.prefix, q);
                        }
                    }
                }
                Some(Box::new(c))
            },
        }
    }
}

/// A sub-prefix of `p` longer than `p` is covered by the child of `p` on its
/// side.
pub proof fn lemma_cover_child(p: Prefix, c: Prefix, q: Prefix)
    requires
        covers(p, q),
        p.length < q.length,
        c.length == p.length + 1,
        covers(p, c),
        bit(c.bits, p.length as nat) == bit(q.bits, p.length as nat),
    ensures
        covers(c, q),
{
    assert forall|i: nat| i < c.length implies #[trigger] bit(c.bits, i) == bit(q.bits, i) by {
        if i < p.length {
            assert(bit(p.bits, i) == bit(c.bits, i));
            assert(bit(p.bits, i) == bit(q.bits, i));
        }
    }
}

/// Some node of the optional sub-tree `n` covers `q`'s base and holds every
/// length of `q`'s map.
pub open spec fn opt_holds_all(n: Option<Box<Node>>, q: Node) -> bool
    decreases n,
{
    match n {
        Some(c) => c.holds_all(q),
        None => false,
    }
}

impl Node {
    /// Some node of the sub-tree rooted here covers `q`'s base and holds every
    /// length of `q`'s map.
    pub open spec fn holds_all(self, q: Node) -> bool
        decreases self,
    {
        ||| (covers(self.prefix, q.prefix) && forall|l: nat| #[trigger] q.gluemap.has(l)
            ==> self.gluemap.has(l))
        ||| opt_holds_all(self.left, q)
        ||| opt_holds_all(self.right, q)
    }

    /// A node of a well-formed sub-tree that covers a prefix has a base
    /// covered by the sub-tree's base.
    proof fn lemma_holds_all_covered(self, w: nat, q: Node)
        requires
            self.wf(w),
            self.holds_all(q),
        ensures
            covers(self.prefix, q.prefix),
        decreases self,
    {
        if opt_holds_all(self.left, q) && !covers(self.prefix, q.prefix) {
            let c = self.left.unwrap();
            c.lemma_holds_all_covered(w, q);
            lemma_covers_trans(self.prefix, c.prefix, q.prefix);
        } else if opt_holds_all(self.right, q) && !covers(self.prefix, q.prefix) {
            let c = self.right.unwrap();
            c.lemma_holds_all_covered(w, q);
            lemma_covers_trans(self.prefix, c.prefix, q.prefix);
        }
    }

    /// Whether one node on the path to the base of `qnode` holds every length
    /// of its map, each over a base covering `qnode`'s.
    pub fn search_node(&self, qnode: &Node) -> (r: bool)
        requires
            self.wf(128),
            qnode.prefix.length <= 128,
        ensures
            r == self.holds_all(*qnode),
            r ==> forall|x: Prefix| #[trigger] qnode.own(x) ==> self.has(x),
        decreases self,
    {
        let q = &qnode.prefix;
        let both = qnode.gluemap.and(&self.gluemap);
        let contained = both == qnode.gluemap;
        proof {
            if contained {
                assert forall|l: nat| #[trigger] qnode.gluemap.has(l) implies self.gluemap.has(l) by {
                    assert(both.has(l));
                }
            } else {
                assert(!(forall|l: nat| #[trigger] qnode.gluemap.has(l) ==> self.gluemap.has(l))) by {
                    if forall|l: nat| #[trigger] qnode.gluemap.has(l) ==> self.gluemap.has(l) {
                        assert forall|l: nat| #[trigger] both.has(l) == qnode.gluemap.has(l) by {}
                        both.lemma_ext(qnode.gluemap);
                    }
                }
            }
        }
        let r = match self.prefix.compare(q) {
            Comparison::Equal => {
                proof {
                    assert forall|i: nat| i < self.prefix.length implies #[trigger] bit(
                        self.prefix.bits,
                        i,
                    ) == bit(q.bits, i) by {}
                    if opt_holds_all(self.left, *qnode) {
                        self.left.unwrap().lemma_holds_all_covered(128, *qnode);
                    }
                    if opt_holds_all(self.right, *qnode) {
                        self.right.unwrap().lemma_holds_all_covered(128, *qnode);
                    }
                }
                contained
            },
            Comparison::Subprefix(c) => {
                if contained {
                    true
                } else if !get_bit(q.bits, c) {
                    proof {
                        if opt_holds_all(self.right, *qnode) {
                            let n = self.right.unwrap();
                            n.lemma_holds_all_covered(128, *qnode);
                            assert(bit(n.prefix.bits, c as nat) == bit(q.bits, c as nat));
                        }
                    }
                    match &self.left {
                        Some(child) => child.search_node(qnode),
                        None => false,
                    }
                } else {
                    proof {
                        if opt_holds_all(self.left, *qnode) {
                            let n = self.left.unwrap();
                            n.lemma_holds_all_covered(128, *qnode);
                            assert(bit(n.prefix.bits, c as nat) == bit(q.bits, c as nat));
                        }
                    }
                    match &self.right {
                        Some(child) => child.search_node(qnode),
                        None => false,
                    }
                }
            },
            Comparison::Superprefix(_) => {
                proof {
                    if self.holds_all(*qnode) {
                        self.lemma_holds_all_covered(128, *qnode);
                    }
                }
                false
            },
            Comparison::Divergent(c) => {
                proof {
                    if self.holds_all(*qnode) {
                        self.lemma_holds_all_covered(128, *qnode);
                        assert(bit(self.prefix.bits, c as nat) == bit(q.bits, c as nat));
                    }
                }
                false
            },
        };
        proof {
            if r {
                self.lemma_holds_all_has(*qnode);
            }
        }
        r
    }

    /// A node covering `q`'s base and holding all of `q`'s lengths holds the
    /// members of `q`'s own map.
    proof fn lemma_holds_all_has(self, q: Node)
        requires
            self.holds_all(q),
        ensures
            forall|x: Prefix| #[trigger] q.own(x) ==> self.has(x),
        decreases self,
    {
        assert forall|x: Prefix| #[trigger] q.own(x) implies self.has(x) by {
            if covers(self.prefix, q.prefix) && forall|l: nat| #[trigger] q.gluemap.has(l)
                ==> self.gluemap.has(l) {
                lemma_covers_trans(self.prefix, q.prefix, x);
                assert(self.own(x));
            } else if opt_holds_all(self.left, q) {
                let c = self.left.unwrap();
                c.lemma_holds_all_has(q);
                assert(opt_has(self.left, x) == c.has(x));
            } else {
                let c = self.right.unwrap();
                c.lemma_holds_all_has(q);
                assert(opt_has(self.right, x) == c.has(x));
            }
        }
    }
}

impl Node {
    /// Whether `q` is a member of the sub-tree rooted here.
    pub fn search(&self, q: &Prefix) -> (r: bool)
        requires
            self.wf(128),
            q.length <= 128,
        ensures
            r == self.has(*q),
        decreases self,
    {
        match self.prefix.compare(q) {
            Comparison::Equal => {
                if self.gluemap.contains(q.length) {
                    true
                } else {
                    proof {
                        if opt_has(self.left, *q) {
                            lemma_side(self.left, 128, self.prefix, false, *q);
                        }
                        if opt_has(self.right, *q) {
                            lemma_side(self.right, 128, self.prefix, true, *q);
                        }
                    }
                    false
                }
            },
            Comparison::Subprefix(c) => {
                if self.gluemap.contains(q.length) {
                    return true;
                }
                if !get_bit(q.bits, c) {
                    proof {
                        if opt_has(self.right, *q) {
                            lemma_side(self.right, 128, self.prefix, true, *q);
                        }
                    }
                    match &self.left {
                        Some(child) => child.search(q),
                        None => false,
                    }
                } else {
                    proof {
                        if opt_has(self.left, *q) {
                            lemma_side(self.left, 128, self.prefix, false, *q);
                        }
                    }
                    match &self.right {
                        Some(child) => child.search(q),
                        None => false,
                    }
                }
            },
            Comparison::Superprefix(_) => {
                proof {
                    if self.has(*q) {
                        self.lemma_has_covered(128, *q);
                    }
                }
                false
            },
            Comparison::Divergent(c) => {
                proof {
                    if self.has(*q) {
                        self.lemma_has_covered(128, *q);
                        lemma_split_apart(self.prefix, *q, c as nat, *q);
                        assert(covers(*q, *q));
                    }
                }
                false
            },
        }
    }

    /// Remove from the tree `n` every sub-prefix of `base` whose length is in
    /// `lengths`.
    pub fn remove_one(n: Node, base: &Prefix, lengths: &GlueMap, Ghost(w): Ghost<nat>) -> (r: Node)
        requires
            n.wf(w),
            base.length <= w,
            lengths.within(base.length as nat, w),
        ensures
            r.wf(w),
            r.prefix == n.prefix,
            forall|q: Prefix| #[trigger] r.has(q) == (n.has(q) && !(lengths.has(q.length as nat)
                && covers(*base, q))),
        decreases 2 * (129 - n.prefix.length),
    {
        let ghost n0 = n;
        let mut n = n;
        match n.prefix.compare(base) {
            Comparison::Subprefix(c) => {
                let deaggr = n.gluemap.and(lengths);
                if !deaggr.is_zero() {
                    n.gluemap = n.gluemap.and_not(&deaggr);
                    let lp = n.prefix.child(false);
                    let rp = n.prefix.child(true);
                    let ghost p = n.prefix;
                    let ghost na = n;
                    let ln = Node::new(lp, deaggr);
                    let rn = Node::new(rp, deaggr);
                    proof {
                        assert(p.length < w);
                        assert(lp.wf(w));
                        assert(rp.wf(w));
                        assert(deaggr.within(lp.length as nat, w));
                        assert(ln.wf(w));
                        assert(rn.wf(w));
                        assert(opt_wf(Some(Box::new(ln)), w, p, false));
                        assert(opt_wf(Some(Box::new(rn)), w, p, true));
                    }
                    let l = Self::join(n.left, Some(Box::new(ln)), Ghost(w), Ghost(p), Ghost(false));
                    let r = Self::join(n.right, Some(Box::new(rn)), Ghost(w), Ghost(p), Ghost(true));
                    n.left = l;
                    n.right = r;
                    proof {
                        assert forall|q: Prefix| #[trigger] n.has(q) == n0.has(q) by {
                            assert(opt_has(Some(Box::new(ln)), q) == ln.has(q));
                            assert(opt_has(Some(Box::new(rn)), q) == rn.has(q));
                            assert(ln.has(q) == ln.own(q));
                            assert(rn.has(q) == rn.own(q));
                            if n0.own(q) && deaggr.has(q.length as nat) {
                                assert(p.length < q.length);
                                if bit(q.bits, p.length as nat) {
                                    lemma_cover_child(p, rp, q);
                                } else {
                                    lemma_cover_child(p, lp, q);
                                }
                            }
                            if ln.own(q) {
                                lemma_covers_trans(p, lp, q);
                            }
                            if rn.own(q) {
                                lemma_covers_trans(p, rp, q);
                            }
                            assert(n.has(q) == (n.own(q) || opt_has(n.left, q) || opt_has(n.right, q)));
                            assert(n0.has(q) == (n0.own(q) || opt_has(n0.left, q) || opt_has(n0.right, q)));
                        }
                    }
                }
                let ghost n1 = n;
                proof {
                    assert forall|l: nat| !(#[trigger] n1.gluemap.has(l) && lengths.has(l)) by {
                        assert(deaggr.has(l) == (n0.gluemap.has(l) && lengths.has(l)));
                    }
                    assert forall|q: Prefix| lengths.has(q.length as nat) && covers(*base, q) implies !#[trigger] n1.own(q) by {
                        assert(!(n1.gluemap.has(q.length as nat) && lengths.has(q.length as nat)));
                    }
                    assert(opt_wf(n1.left, w, n1.prefix, false));
                    assert(opt_wf(n1.right, w, n1.prefix, true));
                }
                if !get_bit(base.bits, c) {
                    match n.left {
                        Some(child) => {
                            let ghost c0 = *child;
                            let nc = Self::remove_one(*child, base, lengths, Ghost(w));
                            n.left = Some(Box::new(nc));
                            proof {
                                assert forall|q: Prefix| #[trigger] n.has(q) == (n0.has(q) && !(
                                    lengths.has(q.length as nat) && covers(*base, q))) by {
                                    assert(opt_has(Some(Box::new(nc)), q) == nc.has(q));
                                    assert(opt_has(n1.left, q) == c0.has(q));
                                    if lengths.has(q.length as nat) && covers(*base, q) && opt_has(n1.right, q) {
                                        lemma_side(n1.right, w, n1.prefix, true, q);
                                        assert(bit(base.bits, c as nat) == bit(q.bits, c as nat));
                                    }
                                    assert(n.has(q) == (n.own(q) || opt_has(n.left, q) || opt_has(n.right, q)));
                                    assert(n1.has(q) == (n1.own(q) || opt_has(n1.left, q) || opt_has(n1.right, q)));
                                }
                            }
                        },
                        None => {
                            proof {
                                assert forall|q: Prefix| #[trigger] n.has(q) == (n0.has(q) && !(
                                    lengths.has(q.length as nat) && covers(*base, q))) by {
                                    if lengths.has(q.length as nat) && covers(*base, q) && opt_has(n1.right, q) {
                                        lemma_side(n1.right, w, n1.prefix, true, q);
                                        assert(bit(base.bits, c as nat) == bit(q.bits, c as nat));
                                    }
                                    assert(n1.has(q) == (n1.own(q) || opt_has(n1.left, q) || opt_has(n1.right, q)));
                                }
                            }
                        },
                    }
                } else {
                    match n.right {
                        Some(child) => {
                            let ghost c0 = *child;
                            let nc = Self::remove_one(*child, base, lengths, Ghost(w));
                            n.right = Some(Box::new(nc));
                            proof {
                                assert forall|q: Prefix| #[trigger] n.has(q) == (n0.has(q) && !(
                                    lengths.has(q.length as nat) && covers(*base, q))) by {
                                    assert(opt_has(Some(Box::new(nc)), q) == nc.has(q));
                                    assert(opt_has(n1.right, q) == c0.has(q));
                                    if lengths.has(q.length as nat) && covers(*base, q) && opt_has(n1.left, q) {
                                        lemma_side(n1.left, w, n1.prefix, false, q);
                                        assert(bit(base.bits, c as nat) == bit(q.bits, c as nat));
                                    }
                                    assert(n.has(q) == (n.own(q) || opt_has(n.left, q) || opt_has(n.right, q)));
                                    assert(n1.has(q) == (n1.own(q) || opt_has(n1.left, q) || opt_has(n1.right, q)));
                                }
                            }
                        },
                        None => {
                            proof {
                                assert forall|q: Prefix| #[trigger] n.has(q) == (n0.has(q) && !(
                                    lengths.has(q.length as nat) && covers(*base, q))) by {
                                    if lengths.has(q.length as nat) && covers(*base, q) && opt_has(n1.left, q) {
                                        lemma_side(n1.left, w, n1.prefix, false, q);
                                        assert(bit(base.bits, c as nat) == bit(q.bits, c as nat));
                                    }
                                    assert(n1.has(q) == (n1.own(q) || opt_has(n1.left, q) || opt_has(n1.right, q)));
                                }
                            }
                        },
                    }
                }
                n
            },
            Comparison::Divergent(c) => {
                proof {
                    assert forall|q: Prefix| #[trigger] n.has(q) == (n0.has(q) && !(lengths.has(
                        q.length as nat) && covers(*base, q))) by {
                        if n0.has(q) && covers(*base, q) {
                            n0.lemma_has_covered(w, q);
                            lemma_split_apart(n0.prefix, *base, c as nat, q);
                        }
                    }
                }
                n
            },
            _ => {
                // `base` covers the base of `n`
                proof {
                    if n.prefix.length == base.length {
                        assert forall|i: nat| i < base.length implies #[trigger] bit(base.bits, i)
                            == bit(n.prefix.bits, i) by {}
                    }
                    assert(covers(*base, n.prefix));
                }
                n.gluemap = n.gluemap.and_not(lengths);
                proof {
                    assert(opt_wf(n.left, w, n.prefix, false));
                    assert(opt_wf(n.right, w, n.prefix, true));
                }
                let l = Self::remove_opt(n.left, base, lengths, Ghost(w), Ghost(n0.prefix), Ghost(false));
                let r = Self::remove_opt(n.right, base, lengths, Ghost(w), Ghost(n0.prefix), Ghost(true));
                n.left = l;
                n.right = r;
                proof {
                    assert forall|q: Prefix| #[trigger] n.has(q) == (n0.has(q) && !(lengths.has(
                        q.length as nat) && covers(*base, q))) by {
                        if n0.own(q) {
                            lemma_covers_trans(*base, n0.prefix, q);
                        }
                        assert(n.has(q) == (n.own(q) || opt_has(n.left, q) || opt_has(n.right, q)));
                        assert(n0.has(q) == (n0.own(q) || opt_has(n0.left, q) || opt_has(n0.right, q)));
                    }
                }
                n
            },
        }
    }

    /// [`Node::remove_one`] on an optional sub-tree standing on side `right`
    /// of `p`.
    fn remove_opt(
        n: Option<Box<Node>>,
        base: &Prefix,
        lengths: &GlueMap,
        Ghost(w): Ghost<nat>,
        Ghost(p): Ghost<Prefix>,
        Ghost(right): Ghost<bool>,
    ) -> (r: Option<Box<Node>>)
        requires
            opt_wf(n, w, p, right),
            p.length <= 128,
            base.length <= w,
            lengths.within(base.length as nat, w),
        ensures
            opt_wf(r, w, p, right),
            forall|q: Prefix| #[trigger] opt_has(r, q) == (opt_has(n, q) && !(lengths.has(
                q.length as nat) && covers(*base, q))),
        decreases 2 * (129 - p.length) - 1,
    {
        match n {
            Some(child) => {
                let ghost c0 = *child;
                let nc = Self::remove_one(*child, base, lengths, Ghost(w));
                let r = Some(Box::new(nc));
                proof {
                    assert forall|q: Prefix| #[trigger] opt_has(r, q) == (opt_has(n, q) && !(
                        lengths.has(q.length as nat) && covers(*base, q))) by {
                        assert(opt_has(r, q) == nc.has(q));
                        assert(opt_has(n, q) == c0.has(q));
                    }
                }
                r
            },
            None => None,
        }
    }

    /// Remove from the tree `n` every member of the tree `other`.
    pub fn remove_tree(n: Node, other: &Node, Ghost(w): Ghost<nat>) -> (r: Node)
        requires
            n.wf(w),
            other.wf(w),
        ensures
            r.wf(w),
            r.prefix == n.prefix,
            forall|q: Prefix| #[trigger] r.has(q) == (n.has(q) && !other.has(q)),
        decreases other,
    {
        let ghost n0 = n;
        let mut n = Self::remove_one(n, &other.prefix, &other.gluemap, Ghost(w));
        let ghost n1 = n;
        if let Some(c) = &other.left {
            n = Self::remove_tree(n, c, Ghost(w));
        }
        let ghost n2 = n;
        if let Some(c) = &other.right {
            n = Self::remove_tree(n, c, Ghost(w));
        }
        proof {
            assert forall|q: Prefix| #[trigger] n.has(q) == (n0.has(q) && !other.has(q)) by {
                assert(n2.has(q) == (n1.has(q) && !opt_has(other.left, q)));
                assert(n.has(q) == (n2.has(q) && !opt_has(other.right, q)));
                assert(other.has(q) == (other.own(q) || opt_has(other.left, q) || opt_has(other.right, q)));
            }
        }
        n
    }
}

/// The lengths held by a map, as a set.
pub open spec fn lens(g: GlueMap) -> Set<nat> {
    Set::new(|l: nat| g.has(l))
}

/// Siblings one bit below their parent share no length.
pub open spec fn siblings_disjoint(n: Node) -> bool {
    match (n.left, n.right) {
        (Some(l), Some(r)) => (l.prefix.length == n.prefix.length + 1 && r.prefix.length
            == n.prefix.length + 1) ==> forall|k: nat| !(#[trigger] l.gluemap.has(k) && r.gluemap.has(k)),
        _ => true,
    }
}

pub open spec fn opt_aggregated(n: Option<Box<Node>>, m: Set<nat>) -> bool
    decreases n,
{
    match n {
        Some(c) => c.aggregated(m),
        None => true,
    }
}

impl Node {
    /// The canonical form that aggregation produces, below ancestors that
    /// hold the lengths in `m`: no length is held twice on a path, no glue
    /// node has fewer than two children, and no length is held by both
    /// children one bit below their parent.
    pub open spec fn aggregated(self, m: Set<nat>) -> bool
        decreases self,
    {
        &&& forall|l: nat| #[trigger] self.gluemap.has(l) ==> !m.contains(l)
        &&& (!self.gluemap.is_empty_map() || (self.left.is_some() && self.right.is_some()))
        &&& siblings_disjoint(self)
        &&& opt_aggregated(self.left, m + lens(self.gluemap))
        &&& opt_aggregated(self.right, m + lens(self.gluemap))
    }

    /// Being aggregated below more lengths implies being aggregated below
    /// fewer.
    pub proof fn lemma_aggregated_mono(self, m1: Set<nat>, m2: Set<nat>)
        requires
            self.aggregated(m1),
            m2.subset_of(m1),
        ensures
            self.aggregated(m2),
        decreases self,
    {
        let g = lens(self.gluemap);
        if let Some(c) = self.left {
            c.lemma_aggregated_mono(m1 + g, m2 + g);
        }
        if let Some(c) = self.right {
            c.lemma_aggregated_mono(m1 + g, m2 + g);
        }
    }
}

/// A descendant's base may stand wherever the base of its ancestor could.
pub proof fn lemma_child_ok_deeper(p: Prefix, a: Prefix, x: Prefix, right: bool)
    requires
        child_ok(p, a, right),
        covers(a, x),
    ensures
        child_ok(p, x, right),
{
    lemma_covers_trans(p, a, x);
    assert(bit(a.bits, p.length as nat) == bit(x.bits, p.length as nat));
}

impl Node {
    /// Drop a glue node that has fewer than two children.
    pub fn clean(n: Node, Ghost(w): Ghost<nat>) -> (r: Option<Box<Node>>)
        requires
            n.wf(w),
        ensures
            forall|q: Prefix| #[trigger] opt_has(r, q) == n.has(q),
            r.is_some() ==> r.unwrap().wf(w) && covers(n.prefix, r.unwrap().prefix),
            r.is_some() && r.unwrap().prefix == n.prefix ==> r.unwrap() == n,
            r.is_some() && r.unwrap().prefix != n.prefix ==> n.gluemap.is_empty_map() && (n.left
                == r || n.right == r),
            r.is_some() && r.unwrap().prefix == n.prefix ==> (!n.gluemap.is_empty_map() || (
                n.left.is_some() && n.right.is_some())),
            r.is_none() ==> n.gluemap.is_empty_map() && n.left.is_none() && n.right.is_none(),
            (!n.gluemap.is_empty_map() || (n.left.is_some() && n.right.is_some())) ==> r == Some(
                Box::new(n)),
    {
        let ghost n0 = n;
        proof {
            assert(covers(n.prefix, n.prefix));
        }
        if n.gluemap.is_zero() {
            proof {
                assert forall|q: Prefix| #[trigger] n0.has(q) == (opt_has(n0.left, q) || opt_has(
                    n0.right,
                    q,
                )) by {}
            }
            match (n.left, n.right) {
                (None, None) => None,
                (Some(c), None) => {
                    proof {
                        assert forall|q: Prefix| #[trigger] opt_has(Some(c), q) == n0.has(q) by {}
                    }
                    Some(c)
                },
                (None, Some(c)) => {
                    proof {
                        assert forall|q: Prefix| #[trigger] opt_has(Some(c), q) == n0.has(q) by {}
                    }
                    Some(c)
                },
                (Some(l), Some(r)) => {
                    let r = Some(Box::new(Node { prefix: n.prefix, gluemap: n.gluemap, left: Some(l), right: Some(r) }));
                    proof {
                        assert forall|q: Prefix| #[trigger] opt_has(r, q) == n0.has(q) by {}
                    }
                    r
                },
            }
        } else {
            let r = Some(Box::new(n));
            proof {
                assert forall|q: Prefix| #[trigger] opt_has(r, q) == n0.has(q) by {}
            }
            r
        }
    }
}

/// After lengths `a` are pulled up from a child, the child is still in
/// canonical form below its new ancestors.
proof fn lemma_pulled(c: Node, c2: Node, m_old: Set<nat>, m_new: Set<nat>, a: GlueMap)
    requires
        c.aggregated(m_old),
        c2.prefix == c.prefix,
        c2.left == c.left,
        c2.right == c.right,
        forall|k: nat| #[trigger] c2.gluemap.has(k) == (c.gluemap.has(k) && !a.has(k)),
        forall|k: nat| #[trigger] a.has(k) ==> c.gluemap.has(k),
        m_new.subset_of(m_old + lens(a)),
    ensures
        forall|l: nat| #[trigger] c2.gluemap.has(l) ==> !m_new.contains(l),
        siblings_disjoint(c2),
        opt_aggregated(c2.left, m_new + lens(c2.gluemap)),
        opt_aggregated(c2.right, m_new + lens(c2.gluemap)),
{
    let big = m_old + lens(c.gluemap);
    let small = m_new + lens(c2.gluemap);
    assert(small.subset_of(big));
    if let Some(x) = c.left {
        x.lemma_aggregated_mono(big, small);
    }
    if let Some(x) = c.right {
        x.lemma_aggregated_mono(big, small);
    }
}

impl Node {
    /// Bring the tree `n` into canonical form below ancestors that hold the
    /// lengths in `mask`; members at those lengths are dropped.
    pub fn aggregate_under(n: Node, mask: &GlueMap, Ghost(w): Ghost<nat>) -> (r: Option<Box<Node>>)
        requires
            n.wf(w),
        ensures
            forall|q: Prefix| #[trigger] opt_has(r, q) == (n.has(q) && !mask.has(q.length as nat)),
            r.is_some() ==> r.unwrap().wf(w) && covers(n.prefix, r.unwrap().prefix),
            opt_aggregated(r, lens(*mask)),
            n.aggregated(lens(*mask)) ==> r == Some(Box::new(n)),
        decreases n,
    {
        let ghost n0 = n;
        let ghost mm = lens(*mask);
        let Node { prefix, gluemap, left, right } = n;
        let g1 = gluemap.and_not(mask);
        let m2 = mask.or(&g1);
        let ghost m2s = lens(m2);
        proof {
            assert(m2s =~= mm + lens(g1));
            assert(covers(prefix, prefix));
            if n0.aggregated(mm) {
                assert forall|l: nat| #[trigger] g1.has(l) == gluemap.has(l) by {
                    if gluemap.has(l) {
                        assert(!mm.contains(l));
                    }
                }
                g1.lemma_ext(gluemap);
                assert(m2s == mm + lens(gluemap));
            }
        }
        let l = match left {
            Some(c) => Self::aggregate_under(*c, &m2, Ghost(w)),
            None => None,
        };
        let r = match right {
            Some(c) => Self::aggregate_under(*c, &m2, Ghost(w)),
            None => None,
        };
        let ghost lg = l;
        let ghost rg = r;
        proof {
            if let Some(x) = lg {
                lemma_child_ok_deeper(prefix, n0.left.unwrap().prefix, x.prefix, false);
            }
            if let Some(x) = rg {
                lemma_child_ok_deeper(prefix, n0.right.unwrap().prefix, x.prefix, true);
            }
            assert(opt_wf(l, w, prefix, false));
            assert(opt_wf(r, w, prefix, true));
        }
        let ghost n1 = Node { prefix, gluemap: g1, left: l, right: r };
        proof {
            assert(n1.wf(w));
            assert forall|q: Prefix| #[trigger] n1.has(q) == (n0.has(q) && !mask.has(
                q.length as nat)) by {
                if opt_has(l, q) || opt_has(r, q) {
                    if g1.has(q.length as nat) {
                        if opt_has(n0.left, q) {
                            lemma_side(n0.left, w, prefix, false, q);
                        }
                        if opt_has(n0.right, q) {
                            lemma_side(n0.right, w, prefix, true, q);
                        }
                    }
                }
                if opt_has(n0.left, q) && !mask.has(q.length as nat) && g1.has(q.length as nat) {
                    lemma_side(n0.left, w, prefix, false, q);
                }
                if opt_has(n0.right, q) && !mask.has(q.length as nat) && g1.has(q.length as nat) {
                    lemma_side(n0.right, w, prefix, true, q);
                }
                assert(n1.has(q) == (n1.own(q) || opt_has(l, q) || opt_has(r, q)));
                assert(n0.has(q) == (n0.own(q) || opt_has(n0.left, q) || opt_has(n0.right, q)));
            }
            assert forall|k: nat| #[trigger] g1.has(k) implies !mm.contains(k) by {}
        }
        match (l, r) {
            (Some(lb), Some(rb)) => {
                if lb.prefix.length == prefix.length + 1 && rb.prefix.length == prefix.length + 1 {
                    let aggr = lb.gluemap.and(&rb.gluemap);
                    proof {
                        if n0.aggregated(mm) {
                            let z = GlueMap { bitmap: 0, hostbit: false };
                            z.lemma_empty();
                            assert(siblings_disjoint(n0));
                            assert forall|k: nat| #[trigger] aggr.has(k) == z.has(k) by {
                                assert(aggr.has(k) == (lb.gluemap.has(k) && rb.gluemap.has(k)));
                            }
                            aggr.lemma_ext(z);
                        }
                    }
                    if !aggr.is_zero() {
                        let mut ln = *lb;
                        let mut rn = *rb;
                        let ghost l0 = ln;
                        let ghost r0 = rn;
                        ln.gluemap = ln.gluemap.and_not(&aggr);
                        rn.gluemap = rn.gluemap.and_not(&aggr);
                        let g2 = g1.or(&aggr);
                        let ghost l1 = ln;
                        let ghost r1 = rn;
                        proof {
                            assert(l1.wf(w));
                            assert(r1.wf(w));
                        }
                        let lc = Self::clean(ln, Ghost(w));
                        let rc = Self::clean(rn, Ghost(w));
                        let ghost lcg = lc;
                        let ghost rcg = rc;
                        let res = Node { prefix, gluemap: g2, left: lc, right: rc };
                        proof {
                            // placement and shape
                            if let Some(x) = lcg {
                                lemma_child_ok_deeper(prefix, l1.prefix, x.prefix, false);
                            }
                            if let Some(x) = rcg {
                                lemma_child_ok_deeper(prefix, r1.prefix, x.prefix, true);
                            }
                            assert(g2.within(prefix.length as nat, w));
                            assert(res.wf(w));
                            // members
                            assert forall|q: Prefix| #[trigger] res.has(q) == n1.has(q) by {
                                assert(opt_has(lcg, q) == l1.has(q));
                                assert(opt_has(rcg, q) == r1.has(q));
                                assert(opt_has(l, q) == l0.has(q));
                                assert(opt_has(r, q) == r0.has(q));
                                assert(l1.has(q) == (l1.own(q) || opt_has(l0.left, q) || opt_has(l0.right, q)));
                                assert(r1.has(q) == (r1.own(q) || opt_has(r0.left, q) || opt_has(r0.right, q)));
                                assert(l0.has(q) == (l0.own(q) || opt_has(l0.left, q) || opt_has(l0.right, q)));
                                assert(r0.has(q) == (r0.own(q) || opt_has(r0.left, q) || opt_has(r0.right, q)));
                                if aggr.has(q.length as nat) && (l0.own(q) || r0.own(q)) {
                                    if l0.own(q) {
                                        lemma_covers_trans(prefix, l0.prefix, q);
                                    } else {
                                        lemma_covers_trans(prefix, r0.prefix, q);
                                    }
                                }
                                if aggr.has(q.length as nat) && covers(prefix, q) {
                                    if bit(q.bits, prefix.length as nat) {
                                        lemma_cover_child(prefix, r0.prefix, q);
                                    } else {
                                        lemma_cover_child(prefix, l0.prefix, q);
                                    }
                                }
                                assert(res.has(q) == (res.own(q) || opt_has(lcg, q) || opt_has(rcg, q)));
                                assert(n1.has(q) == (n1.own(q) || opt_has(l, q) || opt_has(r, q)));
                            }
                            // canonical form
                            let g2s = lens(g2);
                            let ms = mm + g2s;
                            assert(ms.subset_of(m2s + lens(aggr)));
                            assert(l0.aggregated(m2s));
                            assert(r0.aggregated(m2s));
                            lemma_pulled(l0, l1, m2s, ms, aggr);
                            lemma_pulled(r0, r1, m2s, ms, aggr);
                            if let Some(x) = lcg {
                                if x.prefix == l1.prefix {
                                    assert(x.aggregated(ms));
                                } else {
                                    let big = m2s + lens(l0.gluemap);
                                    assert(ms.subset_of(big));
                                    x.lemma_aggregated_mono(big, ms);
                                }
                            }
                            if let Some(x) = rcg {
                                if x.prefix == r1.prefix {
                                    assert(x.aggregated(ms));
                                } else {
                                    let big = m2s + lens(r0.gluemap);
                                    assert(ms.subset_of(big));
                                    x.lemma_aggregated_mono(big, ms);
                                }
                            }
                            assert forall|k: nat| #[trigger] g2.has(k) implies !mm.contains(k) by {
                                if aggr.has(k) {
                                    assert(l0.gluemap.has(k));
                                }
                            }
                            assert(!g2.is_empty_map());
                            if let (Some(x), Some(y)) = (lcg, rcg) {
                                if x.prefix.length == prefix.length + 1 && y.prefix.length
                                    == prefix.length + 1 {
                                    assert(x.prefix == l1.prefix);
                                    assert(y.prefix == r1.prefix);
                                }
                            }
                            assert(siblings_disjoint(res));
                            assert(res.aggregated(mm));
                            assert forall|q: Prefix| #[trigger] opt_has(Some(Box::new(res)), q) == (
                                n0.has(q) && !mask.has(q.length as nat)) by {
                                assert(opt_has(Some(Box::new(res)), q) == res.has(q));
                                assert(res.has(q) == n1.has(q));
                            }
                        }
                        return Some(Box::new(res));
                    }
                    proof {
                        assert forall|k: nat| !(#[trigger] lb.gluemap.has(k) && rb.gluemap.has(k)) by {
                            assert(aggr.has(k) == (lb.gluemap.has(k) && rb.gluemap.has(k)));
                        }
                    }
                    let node = Node { prefix, gluemap: g1, left: Some(lb), right: Some(rb) };
                    proof {
                        assert(node == n1);
                        assert(siblings_disjoint(node));
                    }
                    let res = Self::clean(node, Ghost(w));
                    proof {
                        Self::lemma_clean_aggregated(n1, res, mm, m2s);
                    }
                    return res;
                }
                let node = Node { prefix, gluemap: g1, left: Some(lb), right: Some(rb) };
                proof {
                    assert(node == n1);
                    assert(siblings_disjoint(node));
                }
                let res = Self::clean(node, Ghost(w));
                proof {
                    Self::lemma_clean_aggregated(n1, res, mm, m2s);
                }
                res
            },
            (l, r) => {
                let node = Node { prefix, gluemap: g1, left: l, right: r };
                proof {
                    assert(node == n1);
                    assert(siblings_disjoint(node));
                }
                let res = Self::clean(node, Ghost(w));
                proof {
                    Self::lemma_clean_aggregated(n1, res, mm, m2s);
                }
                res
            },
        }
    }

    /// Cleaning a node whose children are in canonical form yields a tree in
    /// canonical form.
    proof fn lemma_clean_aggregated(n: Node, r: Option<Box<Node>>, m: Set<nat>, m2: Set<nat>)
        requires
            forall|k: nat| #[trigger] n.gluemap.has(k) ==> !m.contains(k),
            m2 == m + lens(n.gluemap),
            siblings_disjoint(n),
            opt_aggregated(n.left, m2),
            opt_aggregated(n.right, m2),
            r.is_some() && r.unwrap().prefix == n.prefix ==> r.unwrap() == n,
            r.is_some() && r.unwrap().prefix != n.prefix ==> n.gluemap.is_empty_map() && (n.left
                == r || n.right == r),
            r.is_some() && r.unwrap().prefix == n.prefix ==> (!n.gluemap.is_empty_map() || (
                n.left.is_some() && n.right.is_some())),
        ensures
            opt_aggregated(r, m),
    {
        if let Some(x) = r {
            if x.prefix != n.prefix {
                n.gluemap.lemma_empty();
                assert(m2 =~= m);
            }
        }
    }
}

/// What an intersection below a child of `s` returns is covered by `s`'s
/// base, when `q` covers that base.
proof fn lemma_cover_deeper(s: Prefix, c: Prefix, q: Prefix, n: Prefix)
    requires
        covers(s, c),
        covers(q, s) || (s.length == q.length && agree(s.bits, q.bits, s.length as nat)),
        n == (if covers(c, q) && c.length < q.length {
            q
        } else {
            c
        }),
    ensures
        covers(s, n),
{
    if covers(c, q) && c.length < q.length {
        lemma_covers_trans(s, c, q);
    }
}

/// A prefix covering two prefixes covers the glue node that joins them.
proof fn lemma_cover_join(t: Prefix, a: Prefix, b: Prefix, g: Prefix)
    requires
        covers(t, a),
        covers(t, b),
        g == a || g == b || (covers(g, a) && covers(g, b) && g.length < a.length && g.length
            < b.length && bit(a.bits, g.length as nat) != bit(b.bits, g.length as nat)),
    ensures
        covers(t, g),
{
    if g != a && g != b {
        let k = g.length as nat;
        if k < t.length {
            assert(bit(t.bits, k) == bit(a.bits, k));
            assert(bit(t.bits, k) == bit(b.bits, k));
        }
        assert forall|i: nat| i < t.length implies #[trigger] bit(t.bits, i) == bit(g.bits, i) by {
            assert(bit(t.bits, i) == bit(a.bits, i));
            assert(bit(g.bits, i) == bit(a.bits, i));
        }
    }
}

impl Node {
    /// The union of two optional trees.
    pub fn union_opt(x: Option<Box<Node>>, y: Option<Box<Node>>, Ghost(w): Ghost<nat>) -> (r:
        Option<Box<Node>>)
        requires
            x.is_some() ==> x.unwrap().wf(w),
            y.is_some() ==> y.unwrap().wf(w),
        ensures
            r.is_some() ==> r.unwrap().wf(w),
            forall|q: Prefix| #[trigger] opt_has(r, q) == (opt_has(x, q) || opt_has(y, q)),
            x is None ==> r == y,
            y is None ==> r == x,
            x matches Some(a) ==> (y matches Some(b) ==> (r matches Some(n) && merge_shape(*a, *b, *n)
                && (n.prefix == a.prefix || n.prefix == b.prefix || (covers(n.prefix, a.prefix)
                && covers(n.prefix, b.prefix) && n.prefix.length < a.prefix.length
                && n.prefix.length < b.prefix.length && bit(a.prefix.bits, n.prefix.length as nat)
                != bit(b.prefix.bits, n.prefix.length as nat))))),
    {
        match x {
            None => {
                assert forall|q: Prefix| #[trigger] opt_has(y, q) == (opt_has(x, q) || opt_has(
                    y,
                    q,
                )) by {}
                y
            },
            Some(a) => match y {
                None => {
                    let r = Some(a);
                    assert forall|q: Prefix| #[trigger] opt_has(r, q) == (opt_has(x, q) || opt_has(
                        y,
                        q,
                    )) by {}
                    r
                },
                Some(b) => {
                    let ghost av = *a;
                    let ghost bv = *b;
                    let m = Self::merge(*a, *b, Ghost(w));
                    let r = Some(Box::new(m));
                    assert forall|q: Prefix| #[trigger] opt_has(r, q) == (opt_has(x, q) || opt_has(
                        y,
                        q,
                    )) by {
                        assert(opt_has(r, q) == m.has(q));
                        assert(opt_has(x, q) == av.has(q));
                        assert(opt_has(y, q) == bv.has(q));
                    }
                    r
                },
            },
        }
    }

    /// The members of the tree rooted here that `q` holds by its own map.
    pub fn intersect_nodes(&self, q: &Node, Ghost(w): Ghost<nat>) -> (r: Option<Box<Node>>)
        requires
            self.wf(w),
            q.wf(w),
        ensures
            r.is_some() ==> r.unwrap().wf(w),
            forall|x: Prefix| #[trigger] opt_has(r, x) == (self.has(x) && q.own(x)),
            r.is_some() == (covers(self.prefix, q.prefix) || covers(q.prefix, self.prefix)),
            r matches Some(n) ==> n.prefix == (if covers(self.prefix, q.prefix)
                && self.prefix.length < q.prefix.length {
                q.prefix
            } else {
                self.prefix
            }),
        decreases self,
    {
        match self.prefix.compare(&q.prefix) {
            Comparison::Divergent(c) => {
                proof {
                    assert forall|x: Prefix| #[trigger] opt_has(None, x) == (self.has(x) && q.own(x)) by {
                        if self.has(x) && q.own(x) {
                            self.lemma_has_covered(w, x);
                            lemma_split_apart(self.prefix, q.prefix, c as nat, x);
                        }
                    }
                    if covers(self.prefix, q.prefix) || covers(q.prefix, self.prefix) {
                        assert(bit(self.prefix.bits, c as nat) == bit(q.prefix.bits, c as nat));
                    }
                }
                None
            },
            cmp => {
                let sub = match cmp {
                    Comparison::Subprefix(_) => true,
                    _ => false,
                };
                let prefix = if sub {
                    q.prefix
                } else {
                    self.prefix
                };
                let gluemap = self.gluemap.and(&q.gluemap);
                let top = Node::new(prefix, gluemap);
                proof {
                    assert(top.wf(w));
                    assert forall|x: Prefix| #[trigger] top.has(x) == (self.own(x) && q.own(x)) by {
                        if sub {
                            if covers(q.prefix, x) {
                                lemma_covers_trans(self.prefix, q.prefix, x);
                            }
                        } else {
                            if covers(self.prefix, x) && !(self.prefix.length == q.prefix.length) {
                                lemma_covers_trans(q.prefix, self.prefix, x);
                            }
                            if self.prefix.length == q.prefix.length {
                                if covers(self.prefix, x) {
                                    assert forall|i: nat| i < q.prefix.length implies #[trigger] bit(
                                        q.prefix.bits,
                                        i,
                                    ) == bit(x.bits, i) by {
                                        assert(bit(self.prefix.bits, i) == bit(q.prefix.bits, i));
                                    }
                                }
                                if covers(q.prefix, x) {
                                    assert forall|i: nat| i < self.prefix.length implies #[trigger] bit(
                                        self.prefix.bits,
                                        i,
                                    ) == bit(x.bits, i) by {
                                        assert(bit(self.prefix.bits, i) == bit(q.prefix.bits, i));
                                    }
                                }
                            }
                        }
                    }
                }
                let l = match &self.left {
                    Some(c) => c.intersect_nodes(q, Ghost(w)),
                    None => None,
                };
                let r = match &self.right {
                    Some(c) => c.intersect_nodes(q, Ghost(w)),
                    None => None,
                };
                let ghost lg = l;
                let ghost rg = r;
                let lr = Self::union_opt(l, r, Ghost(w));
                let ghost lrg = lr;
                proof {
                    let t = prefix;
                    if self.prefix.length == q.prefix.length {
                        assert forall|i: nat| i < q.prefix.length implies #[trigger] bit(
                            q.prefix.bits,
                            i,
                        ) == bit(self.prefix.bits, i) by {}
                    }
                    assert(covers(self.prefix, t) && covers(q.prefix, t));
                    if let Some(n) = lg {
                        let c = self.left.unwrap();
                        if sub {
                            assert(covers(q.prefix, n.prefix)) by {
                                if !(covers(c.prefix, q.prefix) && c.prefix.length < q.prefix.length) {
                                    if c.prefix.length == q.prefix.length {
                                        assert forall|i: nat| i < q.prefix.length implies #[trigger] bit(
                                            q.prefix.bits,
                                            i,
                                        ) == bit(c.prefix.bits, i) by {}
                                    }
                                }
                            }
                        } else {
                            lemma_cover_deeper(self.prefix, c.prefix, q.prefix, n.prefix);
                        }
                    }
                    if let Some(n) = rg {
                        let c = self.right.unwrap();
                        if sub {
                            assert(covers(q.prefix, n.prefix)) by {
                                if !(covers(c.prefix, q.prefix) && c.prefix.length < q.prefix.length) {
                                    if c.prefix.length == q.prefix.length {
                                        assert forall|i: nat| i < q.prefix.length implies #[trigger] bit(
                                            q.prefix.bits,
                                            i,
                                        ) == bit(c.prefix.bits, i) by {}
                                    }
                                }
                            }
                        } else {
                            lemma_cover_deeper(self.prefix, c.prefix, q.prefix, n.prefix);
                        }
                    }
                    if let Some(n) = lrg {
                        if let (Some(a), Some(b)) = (lg, rg) {
                            lemma_cover_join(t, a.prefix, b.prefix, n.prefix);
                        }
                        assert(covers(t, n.prefix));
                        if n.prefix.length == t.length {
                            assert(agree(t.bits, n.prefix.bits, t.length as nat));
                        }
                    }
                }
                let res = Self::union_opt(Some(Box::new(top)), lr, Ghost(w));
                proof {
                    assert forall|x: Prefix| #[trigger] opt_has(res, x) == (self.has(x) && q.own(x)) by {
                        assert(opt_has(Some(Box::new(top)), x) == top.has(x));
                        assert(opt_has(l, x) == (opt_has(self.left, x) && q.own(x)));
                        assert(opt_has(r, x) == (opt_has(self.right, x) && q.own(x)));
                        assert(self.has(x) == (self.own(x) || opt_has(self.left, x) || opt_has(self.right, x)));
                    }
                }
                res
            },
        }
    }

    /// The members held by both trees.
    pub fn intersect_tree(a: &Node, b: &Node, Ghost(w): Ghost<nat>) -> (r: Option<Box<Node>>)
        requires
            a.wf(w),
            b.wf(w),
        ensures
            r.is_some() ==> r.unwrap().wf(w),
            forall|x: Prefix| #[trigger] opt_has(r, x) == (a.has(x) && b.has(x)),
        decreases a,
    {
        let top = b.intersect_nodes(a, Ghost(w));
        let l = match &a.left {
            Some(c) => Self::intersect_tree(c, b, Ghost(w)),
            None => None,
        };
        let r = match &a.right {
            Some(c) => Self::intersect_tree(c, b, Ghost(w)),
            None => None,
        };
        let lr = Self::union_opt(l, r, Ghost(w));
        let res = Self::union_opt(top, lr, Ghost(w));
        proof {
            assert forall|x: Prefix| #[trigger] opt_has(res, x) == (a.has(x) && b.has(x)) by {
                assert(opt_has(l, x) == (opt_has(a.left, x) && b.has(x)));
                assert(opt_has(r, x) == (opt_has(a.right, x) && b.has(x)));
                assert(a.has(x) == (a.own(x) || opt_has(a.left, x) || opt_has(a.right, x)));
            }
        }
        res
    }
}

impl Node {
    /// A tree in aggregated form has a member of the family.
    pub proof fn lemma_some_member(self, w: nat, m: Set<nat>) -> (q: Prefix)
        requires
            self.wf(w),
            self.aggregated(m),
        ensures
            self.has(q),
            q.wf(w),
        decreases self,
    {
        if self.gluemap.is_empty_map() {
            let c = self.left.unwrap();
            let q = c.lemma_some_member(w, m + lens(self.gluemap));
            q
        } else {
            let z = GlueMap { bitmap: 0, hostbit: false };
            z.lemma_empty();
            if forall|l: nat| !#[trigger] self.gluemap.has(l) {
                self.gluemap.lemma_ext(z);
            }
            let l = choose|l: nat| #[trigger] self.gluemap.has(l);
            let q = Prefix { bits: self.prefix.bits, length: l as u8 };
            crate::prefix::lemma_canonical_longer(self.prefix.bits, self.prefix.length as nat, l);
            assert(covers(self.prefix, q));
            q
        }
    }
}

/// The nodes of the optional sub-tree `n` in pre-order, as base and map.
pub open spec fn opt_preorder(n: Option<Box<Node>>) -> Seq<(Prefix, GlueMap)>
    decreases n,
{
    match n {
        Some(c) => c.preorder(),
        None => Seq::empty(),
    }
}

impl Node {
    /// The nodes of the sub-tree rooted here in pre-order, as base and map.
    pub open spec fn preorder(self) -> Seq<(Prefix, GlueMap)>
        decreases self,
    {
        seq![(self.prefix, self.gluemap)] + opt_preorder(self.left) + opt_preorder(self.right)
    }

    /// A node holding the prefix `p` alone.
    pub fn new_singleton(p: Prefix) -> (r: Node)
        requires
            p.wf(128),
        ensures
            r.wf(128),
            r.prefix == p,
            forall|l: nat| #[trigger] r.gluemap.has(l) == (l == p.length),
            r.left.is_none(),
            r.right.is_none(),
            forall|q: Prefix| #[trigger] r.has(q) == (q.length == p.length && covers(p, q)),
    {
        Node::new(p, GlueMap::singleton(p.length))
    }

    /// Move the node into a box.
    pub fn boxed(self) -> (r: Box<Node>)
        ensures
            *r == self,
    {
        Box::new(self)
    }

    /// Get the base prefix of the node.
    pub fn prefix(&self) -> (r: &Prefix)
        ensures
            *r == self.prefix,
    {
        &self.prefix
    }

    /// Whether the node holds no lengths of its own.
    pub fn is_glue(&self) -> (r: bool)
        ensures
            r == self.gluemap.is_empty_map(),
    {
        self.gluemap.is_zero()
    }

    /// Merge the tree `other` into the tree rooted at `self`.
    pub fn add(self: Box<Self>, other: Box<Self>) -> (r: Box<Self>)
        requires
            self.wf(128),
            other.wf(128),
        ensures
            r.wf(128),
            forall|q: Prefix| #[trigger] r.has(q) == (self.has(q) || other.has(q)),
            merge_shape(*self, *other, *r),
    {
        Box::new(Self::merge(*self, *other, Ghost(128)))
    }

    /// Remove the members of the tree `other` from the tree rooted at `self`.
    pub fn remove(self: Box<Self>, other: &Self) -> (r: Box<Self>)
        requires
            self.wf(128),
            other.wf(128),
        ensures
            r.wf(128),
            r.prefix == self.prefix,
            forall|q: Prefix| #[trigger] r.has(q) == (self.has(q) && !other.has(q)),
    {
        Box::new(Self::remove_tree(*self, other, Ghost(128)))
    }

    /// Bring the tree rooted at `self` into aggregated form, below ancestors
    /// holding the lengths in `mask`, if any.
    pub fn aggregate(self: Box<Self>, mask: Option<GlueMap>) -> (r: Option<Box<Self>>)
        requires
            self.wf(128),
        ensures
            r matches Some(n) ==> n.wf(128),
            forall|q: Prefix| #[trigger] opt_has(r, q) == (self.has(q) && !(mask matches Some(m)
                && m.has(q.length as nat))),
            mask matches Some(m) ==> opt_aggregated(r, lens(m)),
            mask is None ==> opt_aggregated(r, Set::empty()),
            mask is None && self.aggregated(Set::empty()) ==> r == Some(self),
    {
        let m = match mask {
            Some(m) => m,
            None => GlueMap::zero(),
        };
        proof {
            if mask is None {
                assert(lens(m) =~= Set::<nat>::empty());
            }
        }
        Self::aggregate_under(*self, &m, Ghost(128))
    }

    /// The bases and maps of the nodes of the tree rooted here, in pre-order.
    pub fn walk(&self) -> (r: Vec<(Prefix, GlueMap)>)
        ensures
            r@ == self.preorder(),
        decreases self,
    {
        let mut out: Vec<(Prefix, GlueMap)> = Vec::new();
        out.push((self.prefix, self.gluemap));
        if let Some(c) = &self.left {
            let mut l = c.walk();
            out.append(&mut l);
        }
        if let Some(c) = &self.right {
            let mut r = c.walk();
            out.append(&mut r);
        }
        proof {
            assert(out@ =~= self.preorder());
        }
        out
    }

    /// The number of nodes, glue included, of the tree rooted here.
    pub fn children(&self) -> (r: usize)
        requires
            self.size() <= usize::MAX,
        ensures
            r == self.size(),
        decreases self,
    {
        let mut n: usize = 1;
        if let Some(c) = &self.left {
            n = n + c.children();
        }
        if let Some(c) = &self.right {
            n = n + c.children();
        }
        n
    }

    /// Whether two trees are equal node by node.
    pub fn same_tree(&self, other: &Node) -> (r: bool)
        ensures
            r == (*self == *other),
        decreases self,
    {
        if self.prefix != other.prefix || self.gluemap != other.gluemap {
            return false;
        }
        let l = match (&self.left, &other.left) {
            (None, None) => true,
            (Some(a), Some(b)) => a.same_tree(b),
            _ => false,
        };
        if !l {
            return false;
        }
        match (&self.right, &other.right) {
            (None, None) => true,
            (Some(a), Some(b)) => a.same_tree(b),
            _ => false,
        }
    }

    /// A copy of the tree rooted here.
    pub fn copy_tree(&self) -> (r: Node)
        ensures
            r == *self,
        decreases self,
    {
        let left = match &self.left {
            Some(c) => Some(Box::new(c.copy_tree())),
            None => None,
        };
        let right = match &self.right {
            Some(c) => Some(Box::new(c.copy_tree())),
            None => None,
        };
        Node { prefix: self.prefix, gluemap: self.gluemap, left, right }
    }
}

impl PartialEq for Node {
    /// Nodes are equal when their bases and maps are.
    fn eq(&self, other: &Node) -> (r: bool) {
        self.prefix == other.prefix && self.gluemap == other.gluemap
    }
}

impl vstd::std_specs::cmp::PartialEqSpecImpl for Node {
    open spec fn obeys_eq_spec() -> bool {
        true
    }

    open spec fn eq_spec(&self, other: &Node) -> bool {
        self.prefix == other.prefix && self.gluemap == other.gluemap
    }
}

impl Clone for Node {
    fn clone(&self) -> (r: Node)
        ensures
            r == *self,
    {
        self.copy_tree()
    }
}

impl Node {
    /// In aggregated form, the members of a tree have lengths that its
    /// ancestors do not hold.
    pub proof fn lemma_has_unmasked(self, m: Set<nat>, q: Prefix)
        requires
            self.aggregated(m),
            self.has(q),
        ensures
            !m.contains(q.length as nat),
        decreases self,
    {
        let m2 = m + lens(self.gluemap);
        if self.own(q) {
        } else if opt_has(self.left, q) {
            self.left.unwrap().lemma_has_unmasked(m2, q);
        } else {
            self.right.unwrap().lemma_has_unmasked(m2, q);
        }
    }
}

impl Node {
    /// Whether the tree rooted here is well formed for width `width` and in
    /// aggregated form below ancestors holding the lengths in `m`.
    pub fn check(&self, m: &GlueMap, width: u8) -> (r: bool)
        requires
            width <= 128,
        ensures
            r == (self.wf(width as nat) && self.aggregated(lens(*m))),
        decreases self,
    {
        let p = self.prefix;
        if p.length > width || p.bits & mask_of(p.length) != p.bits {
            return false;
        }
        if !self.gluemap.is_within(p.length, width) {
            return false;
        }
        let shared = self.gluemap.and(m);
        if !shared.holds_none() {
            proof {
                let l = choose|l: nat| #[trigger] shared.has(l);
                assert(self.gluemap.has(l) && lens(*m).contains(l));
            }
            return false;
        }
        let glue = self.gluemap.is_zero();
        if glue && (self.left.is_none() || self.right.is_none()) {
            return false;
        }
        let m2 = m.or(&self.gluemap);
        proof {
            assert(lens(m2) =~= lens(*m) + lens(self.gluemap));
        }
        match &self.left {
            Some(c) => {
                if !c.check(&m2, width) || !Self::child_fits(&p, &c.prefix, false) {
                    return false;
                }
            },
            None => {},
        }
        match &self.right {
            Some(c) => {
                if !c.check(&m2, width) || !Self::child_fits(&p, &c.prefix, true) {
                    return false;
                }
            },
            None => {},
        }
        match (&self.left, &self.right) {
            (Some(l), Some(r)) => {
                if l.prefix.length == p.length + 1 && r.prefix.length == p.length + 1 {
                    let both = l.gluemap.and(&r.gluemap);
                    if !both.holds_none() {
                        proof {
                            let k = choose|k: nat| #[trigger] both.has(k);
                            assert(l.gluemap.has(k) && r.gluemap.has(k));
                        }
                        return false;
                    }
                    proof {
                        assert forall|k: nat| !(#[trigger] l.gluemap.has(k) && r.gluemap.has(k)) by {
                            assert(both.has(k) == (l.gluemap.has(k) && r.gluemap.has(k)));
                        }
                    }
                }
            },
            _ => {},
        }
        proof {
            assert(p.wf(width as nat));
            assert(opt_wf(self.left, width as nat, p, false));
            assert(opt_wf(self.right, width as nat, p, true));
            assert(self.wf(width as nat));
            assert forall|l: nat| #[trigger] self.gluemap.has(l) implies !lens(*m).contains(l) by {
                assert(!shared.has(l));
            }
            assert(siblings_disjoint(*self));
            assert(opt_aggregated(self.left, lens(*m) + lens(self.gluemap)));
            assert(opt_aggregated(self.right, lens(*m) + lens(self.gluemap)));
        }
        true
    }

    /// Whether `c` may stand below a node with base `p` on side `right`.
    fn child_fits(p: &Prefix, c: &Prefix, right: bool) -> (r: bool)
        requires
            p.length <= 128,
            c.length <= 128,
        ensures
            r == child_ok(*p, *c, right),
    {
        match p.compare(c) {
            Comparison::Subprefix(k) => get_bit(c.bits, k) == right,
            Comparison::Divergent(k) => {
                proof {
                    assert(bit(p.bits, k as nat) != bit(c.bits, k as nat));
                }
                false
            },
            _ => false,
        }
    }
}

} // verus!
