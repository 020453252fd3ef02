//! The aggregated form of a tree is unique: two well-formed trees in
//! aggregated form that hold the same prefixes are the same tree.
use vstd::prelude::*;

use crate::bits::{bit, lemma_canonical_eq, lemma_mask_bit, lemma_set_bit, lemma_set_bit_canonical, single};
use crate::node::{lemma_side, lens, opt_has, siblings_disjoint, Node};
use crate::prefix::{covers, lemma_canonical_extend, lemma_canonical_longer, lemma_covers_trans, Prefix};

verus! {

/// The prefix with the address of `p` and length `l`.
pub open spec fn with_length(p: Prefix, l: nat) -> Prefix {
    Prefix { bits: p.bits, length: l as u8 }
}

/// The sub-prefix of `p` one bit longer whose new bit is `right`.
pub open spec fn child_of(p: Prefix, right: bool) -> Prefix {
    if right {
        Prefix { bits: p.bits | single(p.length as nat), length: (p.length + 1) as u8 }
    } else {
        Prefix { bits: p.bits, length: (p.length + 1) as u8 }
    }
}

/// The canonical members of a tree for the width `w`.
pub open spec fn same_members(a: Node, b: Node, w: nat) -> bool {
    forall|q: Prefix| #[trigger] q.wf(w) ==> a.has(q) == b.has(q)
}

proof fn lemma_with_length(p: Prefix, l: nat, w: nat)
    requires
        p.wf(w),
        p.length <= l <= w,
    ensures
        with_length(p, l).wf(w),
        covers(p, with_length(p, l)),
        with_length(p, l).length == l,
        forall|i: nat| #[trigger] bit(with_length(p, l).bits, i) == bit(p.bits, i),
{
    lemma_canonical_longer(p.bits, p.length as nat, l);
}

proof fn lemma_child_of(p: Prefix, right: bool, w: nat)
    requires
        p.wf(w),
        p.length < w,
    ensures
        child_of(p, right).wf(w),
        covers(p, child_of(p, right)),
        child_of(p, right).length == p.length + 1,
        bit(child_of(p, right).bits, p.length as nat) == right,
{
    let k = p.length as nat;
    lemma_canonical_extend(p.bits, k);
    lemma_mask_bit(p.bits, k, k);
    if right {
        lemma_set_bit_canonical(p.bits, k);
        lemma_set_bit(p.bits, k, k);
        assert forall|i: nat| i < k implies #[trigger] bit(p.bits, i) == bit(
            child_of(p, right).bits,
            i,
        ) by {
            lemma_set_bit(p.bits, k, i);
        }
    }
}

/// A tree has a member of length `l` below each side of `p` one of whose
/// sides it misses.
proof fn lemma_member_off(p: Prefix, right: bool, l: nat, w: nat) -> (q: Prefix)
    requires
        p.wf(w),
        p.length < l <= w,
    ensures
        q.wf(w),
        covers(p, q),
        q.length == l,
        bit(q.bits, p.length as nat) == right,
{
    lemma_child_of(p, right, w);
    let c = child_of(p, right);
    lemma_with_length(c, l, w);
    let q = with_length(c, l);
    lemma_covers_trans(p, c, q);
    q
}

/// Two canonical prefixes of one length that agree on that many bits are
/// equal.
proof fn lemma_prefix_eq(p: Prefix, q: Prefix, w: nat)
    requires
        p.wf(w),
        q.wf(w),
        p.length == q.length,
        covers(p, q),
    ensures
        p == q,
{
    lemma_canonical_eq(p.bits, q.bits, p.length as nat);
}

/// In aggregated form, a node whose sub-tree holds every sub-prefix of its
/// base at length `l` holds `l` in its own map.
proof fn lemma_full_length(n: Node, m: Set<nat>, w: nat, l: nat)
    requires
        n.wf(w),
        n.aggregated(m),
        n.prefix.length <= l <= w,
        forall|q: Prefix| #[trigger] covers(n.prefix, q) && q.length == l && q.wf(w) ==> n.has(q),
    ensures
        n.gluemap.has(l),
    decreases n, 1nat,
{
    if !n.gluemap.has(l) {
        let p = n.prefix;
        if l == p.length {
            lemma_with_length(p, l, w);
            assert(with_length(p, l) == p);
            assert(covers(p, p));
            assert(n.has(p));
            if opt_has(n.left, p) {
                lemma_side(n.left, w, p, false, p);
            }
            if opt_has(n.right, p) {
                lemma_side(n.right, w, p, true, p);
            }
        } else {
            let q0 = lemma_member_off(p, false, l, w);
            let r0 = lemma_member_off(p, true, l, w);
            assert(n.has(q0));
            assert(n.has(r0));
            if opt_has(n.right, q0) {
                lemma_side(n.right, w, p, true, q0);
            }
            if opt_has(n.left, r0) {
                lemma_side(n.left, w, p, false, r0);
            }
            let lc = *n.left.unwrap();
            let rc = *n.right.unwrap();
            assert(opt_has(n.left, q0) == lc.has(q0));
            assert(opt_has(n.right, r0) == rc.has(r0));
            lemma_full_child(n, lc, false, m, w, l);
            lemma_full_child(n, rc, true, m, w, l);
            assert(siblings_disjoint(n));
            assert(!(lc.gluemap.has(l) && rc.gluemap.has(l)));
        }
    }
}

/// The step of [`lemma_full_length`] on one side: the child on that side is
/// one bit below its parent and holds `l`.
proof fn lemma_full_child(n: Node, c: Node, right: bool, m: Set<nat>, w: nat, l: nat)
    requires
        n.wf(w),
        n.aggregated(m),
        n.prefix.length < l <= w,
        !n.gluemap.has(l),
        if right {
            n.right == Some(Box::new(c))
        } else {
            n.left == Some(Box::new(c))
        },
        forall|q: Prefix| #[trigger] covers(n.prefix, q) && q.length == l && q.wf(w) ==> n.has(q),
    ensures
        c.prefix.length == n.prefix.length + 1,
        c.gluemap.has(l),
    decreases n, 0nat,
{
    let p = n.prefix;
    let other = if right {
        n.left
    } else {
        n.right
    };
    let this = if right {
        n.right
    } else {
        n.left
    };
    assert(this == Some(Box::new(c)));
    assert(c.wf(w));
    // every sub-prefix of `p` at length `l` on this side lies in `c`
    assert forall|q: Prefix| covers(p, q) && q.length == l && q.wf(w) && bit(q.bits, p.length as nat)
        == right implies #[trigger] c.has(q) by {
        assert(n.has(q));
        if opt_has(other, q) {
            lemma_side(other, w, p, !right, q);
        }
        assert(opt_has(this, q) == c.has(q));
    }
    let q0 = lemma_member_off(p, right, l, w);
    assert(c.has(q0));
    c.lemma_has_covered(w, q0);
    if c.prefix.length > p.length + 1 {
        let k = (p.length + 1) as nat;
        lemma_child_of(p, right, w);
        let d = child_of(p, right);
        let q1 = lemma_member_off(d, !bit(c.prefix.bits, k), l, w);
        lemma_covers_trans(p, d, q1);
        assert(bit(q1.bits, p.length as nat) == bit(d.bits, p.length as nat));
        assert(c.has(q1));
        c.lemma_has_covered(w, q1);
        assert(bit(c.prefix.bits, k) == bit(q1.bits, k));
    }
    assert(c.prefix.length == p.length + 1);
    // `c` is one bit below `p`: it covers exactly the prefixes on its side
    assert forall|q: Prefix| #[trigger] covers(c.prefix, q) && q.length == l && q.wf(w) implies c.has(
        q,
    ) by {
        lemma_covers_trans(p, c.prefix, q);
        assert(bit(c.prefix.bits, p.length as nat) == bit(q.bits, p.length as nat));
    }
    lemma_full_length(c, m + lens(n.gluemap), w, l);
}

/// In aggregated form, a tree holds a member of some length in its own map,
/// or two children.
proof fn lemma_some_length(n: Node) -> (l: nat)
    requires
        !n.gluemap.is_empty_map(),
    ensures
        n.gluemap.has(l),
{
    let z = crate::gluemap::GlueMap { bitmap: 0, hostbit: false };
    z.lemma_empty();
    if forall|l: nat| !#[trigger] n.gluemap.has(l) {
        n.gluemap.lemma_ext(z);
    }
    choose|l: nat| #[trigger] n.gluemap.has(l)
}

/// Two trees holding the same prefixes, the first in aggregated form and
/// with a base no longer than the second's, have the same base.
proof fn lemma_root_prefix(a: Node, b: Node, m: Set<nat>, w: nat)
    requires
        a.wf(w),
        b.wf(w),
        a.aggregated(m),
        same_members(a, b, w),
        a.prefix.length <= b.prefix.length,
    ensures
        a.prefix == b.prefix,
{
    let p = a.prefix;
    let bp = b.prefix;
    if !a.gluemap.is_empty_map() {
        let l = lemma_some_length(a);
        lemma_with_length(p, l, w);
        let q = with_length(p, l);
        assert(a.own(q));
        assert(b.has(q));
        b.lemma_has_covered(w, q);
        assert forall|i: nat| i < p.length implies #[trigger] bit(p.bits, i) == bit(bp.bits, i) by {
            assert(bit(q.bits, i) == bit(p.bits, i));
        }
        if p.length == bp.length {
            lemma_prefix_eq(p, bp, w);
        } else {
            let q1 = lemma_member_off(p, !bit(bp.bits, p.length as nat), l, w);
            assert(a.own(q1));
            assert(b.has(q1));
            b.lemma_has_covered(w, q1);
        }
    } else {
        let lc = *a.left.unwrap();
        let rc = *a.right.unwrap();
        let ql = lc.lemma_some_member(w, m + lens(a.gluemap));
        let qr = rc.lemma_some_member(w, m + lens(a.gluemap));
        assert(opt_has(a.left, ql) == lc.has(ql));
        assert(opt_has(a.right, qr) == rc.has(qr));
        lemma_side(a.left, w, p, false, ql);
        lemma_side(a.right, w, p, true, qr);
        assert(b.has(ql));
        assert(b.has(qr));
        b.lemma_has_covered(w, ql);
        b.lemma_has_covered(w, qr);
        if p.length < bp.length {
            assert(bit(bp.bits, p.length as nat) == bit(ql.bits, p.length as nat));
            assert(bit(bp.bits, p.length as nat) == bit(qr.bits, p.length as nat));
        }
        assert forall|i: nat| i < p.length implies #[trigger] bit(p.bits, i) == bit(bp.bits, i) by {
            assert(bit(ql.bits, i) == bit(p.bits, i));
            assert(bit(ql.bits, i) == bit(bp.bits, i));
        }
        lemma_prefix_eq(p, bp, w);
    }
}

/// The members of a child of a tree in aggregated form are the members of
/// the tree on that side of its base that its own map does not hold.
proof fn lemma_child_members(a: Node, b: Node, m: Set<nat>, w: nat, q: Prefix)
    requires
        a.wf(w),
        b.wf(w),
        a.aggregated(m),
        b.aggregated(m),
        a.prefix == b.prefix,
        a.gluemap == b.gluemap,
        same_members(a, b, w),
        q.wf(w),
    ensures
        opt_has(a.left, q) ==> opt_has(b.left, q),
        opt_has(a.right, q) ==> opt_has(b.right, q),
{
    let m2 = m + lens(a.gluemap);
    if opt_has(a.left, q) {
        a.left.unwrap().lemma_has_unmasked(m2, q);
        assert(!a.own(q));
        assert(b.has(q));
        lemma_side(a.left, w, a.prefix, false, q);
        if opt_has(b.right, q) {
            lemma_side(b.right, w, b.prefix, true, q);
        }
    }
    if opt_has(a.right, q) {
        a.right.unwrap().lemma_has_unmasked(m2, q);
        assert(!a.own(q));
        assert(b.has(q));
        lemma_side(a.right, w, a.prefix, true, q);
        if opt_has(b.left, q) {
            lemma_side(b.left, w, b.prefix, false, q);
        }
    }
}

/// Two well-formed trees in aggregated form below the same lengths that
/// hold the same prefixes are the same tree.
pub proof fn lemma_unique(a: Node, b: Node, m: Set<nat>, w: nat)
    requires
        a.wf(w),
        b.wf(w),
        a.aggregated(m),
        b.aggregated(m),
        same_members(a, b, w),
    ensures
        a == b,
    decreases a,
{
    if a.prefix.length <= b.prefix.length {
        lemma_root_prefix(a, b, m, w);
    } else {
        lemma_root_prefix(b, a, m, w);
    }
    let p = a.prefix;
    assert forall|l: nat| #[trigger] a.gluemap.has(l) == b.gluemap.has(l) by {
        if a.gluemap.has(l) {
            assert forall|q: Prefix| #[trigger] covers(b.prefix, q) && q.length == l && q.wf(w)
                implies b.has(q) by {
                assert(a.own(q));
            }
            lemma_full_length(b, m, w, l);
        }
        if b.gluemap.has(l) {
            assert forall|q: Prefix| #[trigger] covers(a.prefix, q) && q.length == l && q.wf(w)
                implies a.has(q) by {
                assert(b.own(q));
            }
            lemma_full_length(a, m, w, l);
        }
    }
    a.gluemap.lemma_ext(b.gluemap);
    let m2 = m + lens(a.gluemap);
    assert forall|q: Prefix| q.wf(w) implies (opt_has(a.left, q) == opt_has(b.left, q) && opt_has(
        a.right,
        q,
    ) == opt_has(b.right, q)) by {
        lemma_child_members(a, b, m, w, q);
        lemma_child_members(b, a, m, w, q);
    }
    match (a.left, b.left) {
        (Some(x), Some(y)) => {
            assert forall|q: Prefix| #[trigger] q.wf(w) implies x.has(q) == y.has(q) by {
                assert(opt_has(a.left, q) == x.has(q));
                assert(opt_has(b.left, q) == y.has(q));
            }
            lemma_unique(*x, *y, m2, w);
        },
        (Some(x), None) => {
            let q = x.lemma_some_member(w, m2);
            assert(opt_has(a.left, q));
        },
        (None, Some(y)) => {
            let q = y.lemma_some_member(w, m2);
            assert(opt_has(b.left, q));
        },
        (None, None) => {},
    }
    match (a.right, b.right) {
        (Some(x), Some(y)) => {
            assert forall|q: Prefix| #[trigger] q.wf(w) implies x.has(q) == y.has(q) by {
                assert(opt_has(a.right, q) == x.has(q));
                assert(opt_has(b.right, q) == y.has(q));
            }
            lemma_unique(*x, *y, m2, w);
        },
        (Some(x), None) => {
            let q = x.lemma_some_member(w, m2);
            assert(opt_has(a.right, q));
        },
        (None, Some(y)) => {
            let q = y.lemma_some_member(w, m2);
            assert(opt_has(b.right, q));
        },
        (None, None) => {},
    }
}

} // verus!
