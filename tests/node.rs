use prefixset::gluemap::GlueMap;
use prefixset::node::Node;
use prefixset::{IpPrefix, IpPrefixRange, Ipv4Prefix, Ipv6Prefix, SetItem};

fn v4(s: &str) -> Box<Node> {
    let p: Ipv4Prefix = s.parse().unwrap();
    Box::new(Node::new_singleton(p.to_prefix()))
}

fn v6(s: &str) -> Box<Node> {
    let p: Ipv6Prefix = s.parse().unwrap();
    Box::new(Node::new_singleton(p.to_prefix()))
}

fn p4(s: &str) -> Ipv4Prefix {
    s.parse().unwrap()
}

fn subtree_size(root: Box<Node>) -> usize {
    root.children()
}

fn setup() -> Box<Node> {
    v4("192.0.2.0/24")
}

#[test]
fn tests_has_none_children() {
    let n = setup();
    assert!(n.left.is_none());
    assert!(n.right.is_none());
}

#[test]
fn tests_has_singleton_gluemap() {
    let n = setup();
    assert_eq!(n.gluemap.count_ones(), 1);
}

#[test]
fn tests_becomes_glue_after_removal() {
    let n = setup();
    assert!(n.remove(&v4("192.0.2.0/24")).is_glue());
}

#[test]
fn tests_is_unchanged() {
    let n = setup();
    let m = setup().add(setup());
    assert_eq!(n, m);
}

#[test]
fn tests_has_subtree_size_one() {
    let n = setup().add(setup());
    assert_eq!(subtree_size(n), 1);
}

fn with_host_subprefix() -> Box<Node> {
    setup().add(v4("192.0.2.192/32"))
}

#[test]
fn tests_returns_same_root() {
    let n = setup();
    let m = with_host_subprefix();
    assert_eq!(n, m);
}

#[test]
fn tests_has_some_right_child() {
    let n = with_host_subprefix();
    assert!(n.right.is_some());
}

#[test]
fn tests_has_none_left_child() {
    let n = with_host_subprefix();
    assert!(n.left.is_none());
}

#[test]
fn tests_has_subtree_size_two() {
    let n = with_host_subprefix();
    assert_eq!(subtree_size(n), 2);
}

#[test]
fn tests_host_subprefix_becomes_glue_after_removal() {
    let n = with_host_subprefix();
    assert!(n.remove(&v4("192.0.2.0/24")).is_glue());
}

#[test]
fn tests_subprefix_keeps_root() {
    let n = setup();
    let m = setup().add(v4("192.0.2.192/26"));
    assert_eq!(n, m);
    assert!(m.right.is_some());
    assert!(m.left.is_none());
    assert_eq!(subtree_size(m), 2);
}

fn with_superprefix() -> Box<Node> {
    setup().add(v4("192.0.0.0/16"))
}

#[test]
fn tests_returns_new_root() {
    let n = setup();
    let m = with_superprefix();
    assert_ne!(n, m);
}

#[test]
fn tests_has_some_left_child() {
    let n = with_superprefix();
    assert!(n.left.is_some());
}

#[test]
fn tests_has_none_right_child() {
    let n = with_superprefix();
    assert!(n.right.is_none());
}

#[test]
fn tests_superprefix_has_subtree_size_two() {
    let n = with_superprefix();
    assert_eq!(subtree_size(n), 2);
}

#[test]
fn is_unchanged_after_subprefix_removal() {
    let n = with_superprefix();
    let m = n.clone().remove(&v4("192.0.2.0/24"));
    assert_eq!(m, n);
}

fn with_sibling() -> Box<Node> {
    setup().add(v4("192.0.3.0/24"))
}

#[test]
fn tests_sibling_returns_new_root() {
    let n = setup();
    let m = with_sibling();
    assert_ne!(n, m);
    assert!(m.left.is_some());
    assert!(m.right.is_some());
    assert!(m.is_glue());
}

#[test]
fn tests_has_subtree_size_three() {
    let n = with_sibling();
    assert_eq!(subtree_size(n), 3);
}

#[test]
fn is_aggregate() {
    let n = with_sibling().aggregate(None).unwrap();
    assert_eq!(n.gluemap, GlueMap::singleton(24));
    assert!(n.left.is_none());
    assert!(n.right.is_none());
}

#[test]
fn tests_divergent_stays_glue_after_aggregation() {
    let n = setup().add(v4("192.168.0.0/16"));
    assert_ne!(setup(), n);
    assert!(n.left.is_some());
    assert!(n.right.is_some());
    assert!(n.is_glue());
    assert_eq!(subtree_size(n.clone()), 3);
    let m = n.aggregate(None).unwrap();
    assert!(m.is_glue());
}

fn three_prefixes() -> Box<Node> {
    v4("10.1.0.0/16").add(v4("10.2.0.0/16")).add(v4("10.3.0.0/16"))
}

#[test]
fn contains_singletons_and_glue() {
    let n = three_prefixes();
    assert!(n.is_glue());
    let l = n.left.clone().unwrap();
    let r = n.right.clone().unwrap();
    assert_eq!(l.gluemap, GlueMap::singleton(16));
    assert!(l.left.is_none());
    assert!(l.right.is_none());
    assert!(r.is_glue());
    assert_eq!(r.left.clone().unwrap().gluemap, GlueMap::singleton(16));
    assert_eq!(r.right.clone().unwrap().gluemap, GlueMap::singleton(16));
}

#[test]
fn leaf_glue_nodes_are_removed() {
    let n = three_prefixes().aggregate(None).unwrap();
    assert!(n.is_glue());
    let l = n.left.clone().unwrap();
    let r = n.right.clone().unwrap();
    assert_eq!(l.gluemap, GlueMap::singleton(16));
    assert!(l.left.is_none());
    assert!(l.right.is_none());
    assert_eq!(r.gluemap, GlueMap::singleton(16));
    assert!(r.left.is_none());
    assert!(r.right.is_none());
}

#[test]
fn tests_is_glue() {
    let n = with_sibling();
    assert!(n.is_glue());
}

#[test]
fn is_glue() {
    let n = setup().add(v4("192.168.0.0/16"));
    assert!(n.is_glue());
    assert!(n.aggregate(None).unwrap().is_glue());
}

#[test]
fn tests_can_iter() {
    let n = with_sibling();
    assert_eq!(n.walk().len(), n.children());
}

#[test]
fn can_iter() {
    let n = setup6().add(v6("2001:db8:baa::/48"));
    assert_eq!(n.walk().len(), subtree_size(n));
}

#[test]
fn node_has_none_children() {
    let n = Node::new_singleton(p4("192.0.2.0/24").to_prefix());
    assert!(n.left.is_none());
    assert!(n.right.is_none());
}

#[test]
fn node_has_singleton_gluemap() {
    let n = Node::new_singleton(p4("192.0.2.0/24").to_prefix());
    assert_eq!(n.gluemap.count_ones(), 1);
}

#[test]
fn node_is_unchanged() {
    assert_eq!(setup().add(setup()), setup());
}

#[test]
fn node_has_subtree_size_one() {
    assert_eq!(setup().add(setup()).children(), 1);
}

#[test]
fn node_returns_same_root() {
    assert_eq!(setup().add(v4("192.0.2.192/26")), setup());
}

#[test]
fn node_has_some_right_child() {
    assert!(setup().add(v4("192.0.2.192/26")).right.is_some());
}

#[test]
fn node_has_none_left_child() {
    assert!(setup().add(v4("192.0.2.192/26")).left.is_none());
}

#[test]
fn node_has_subtree_size_two() {
    assert_eq!(setup().add(v4("192.0.2.192/26")).children(), 2);
}

#[test]
fn node_returns_new_root() {
    assert_ne!(with_superprefix(), setup());
}

#[test]
fn node_has_some_left_child() {
    assert!(with_superprefix().left.is_some());
}

#[test]
fn node_has_none_right_child() {
    assert!(with_superprefix().right.is_none());
}

#[test]
fn node_is_glue() {
    assert!(with_sibling().is_glue());
}

#[test]
fn tests_ipv6_singleton_gluemap() {
    let n = v6("2001:db8:f00::/48");
    assert!(n.left.is_none());
    assert!(n.right.is_none());
    assert_eq!(n.gluemap.count_ones(), 1);
    let m = v6("2001:db8:f00::/48").add(v6("2001:db8:f00::/48"));
    assert_eq!(n, m);
    assert_eq!(subtree_size(m), 1);
}

#[test]
fn tests_ipv6_host_subprefix() {
    let n = v6("2001:db8:f00::/48").add(v6("2001:db8:f00::1/128"));
    assert_eq!(n, v6("2001:db8:f00::/48"));
    assert!(n.left.is_some());
    assert!(n.right.is_none());
    assert_eq!(subtree_size(n), 2);
}

#[test]
fn tests_ipv6_sibling() {
    let n = v6("2001:db8:f00::/48").add(v6("2001:db8:f01::/48"));
    assert_ne!(n, v6("2001:db8:f00::/48"));
    assert!(n.left.is_some());
    assert!(n.right.is_some());
    assert!(n.is_glue());
    assert_eq!(subtree_size(n.clone()), 3);
    let m = n.aggregate(None).unwrap();
    assert_eq!(m.gluemap, GlueMap::singleton(48));
}

#[test]
fn tests_walk_visits_every_node() {
    let n = with_sibling();
    let w = n.walk();
    assert_eq!(w.len(), 3);
    assert_eq!(w[0].0, n.prefix);
}

#[test]
fn tests_search_finds_members() {
    let n = with_superprefix();
    let p: Ipv4Prefix = "192.0.2.0/24".parse().unwrap();
    let q: Ipv4Prefix = "192.0.3.0/24".parse().unwrap();
    assert!(n.search(&p.to_prefix()));
    assert!(!n.search(&q.to_prefix()));
}

fn setup6() -> Box<Node> {
    v6("2001:db8:f00::/48")
}

#[test]
fn has_none_children() {
    let n = setup6();
    assert!(n.left.is_none());
    assert!(n.right.is_none());
}

#[test]
fn is_unchanged() {
    let n = setup6();
    let m = setup6().add(setup6());
    assert_eq!(n, m);
}

#[test]
fn has_subtree_size_one() {
    let n = setup6().add(setup6());
    assert_eq!(subtree_size(n), 1);
}

fn with_host_subprefix6() -> Box<Node> {
    setup6().add(v6("2001:db8:f00:baa::/128"))
}

#[test]
fn returns_same_root() {
    let n = setup6();
    let m = with_host_subprefix6();
    assert_eq!(n, m);
}

#[test]
fn has_some_left_child() {
    let n = with_host_subprefix6();
    assert!(n.left.is_some());
}

#[test]
fn has_none_right_child() {
    let n = with_host_subprefix6();
    assert!(n.right.is_none());
}

#[test]
fn has_subtree_size_two() {
    let n = with_host_subprefix6();
    assert_eq!(subtree_size(n), 2);
}

fn with_superprefix6() -> Box<Node> {
    setup6().add(v6("2001:db8::/36"))
}

#[test]
fn returns_new_root() {
    let n = setup6();
    let m = with_superprefix6();
    assert_ne!(n, m);
}

#[test]
fn has_none_left_child() {
    let n = with_superprefix6();
    assert!(n.left.is_none());
}

#[test]
fn has_some_right_child() {
    let n = with_superprefix6();
    assert!(n.right.is_some());
}

#[test]
fn has_subtree_size_three() {
    let n = setup6().add(v6("2001:db8:baa::/48"));
    assert!(n.left.is_some());
    assert!(n.right.is_some());
    assert!(n.is_glue());
    assert_eq!(subtree_size(n), 3);
}

#[test]
fn tests_ipv6_subprefix_keeps_root() {
    let n = setup6().add(v6("2001:db8:f00:baa::/64"));
    assert_eq!(n, setup6());
    assert!(n.left.is_some());
    assert!(n.right.is_none());
    assert_eq!(subtree_size(n), 2);
}

#[test]
fn tests_node_ranges() {
    let n = with_sibling().aggregate(None).unwrap();
    let r = n.ranges::<Ipv4Prefix>();
    assert_eq!(r.len(), 1);
    assert_eq!(r[0].base(), p4("192.0.2.0/23"));
    assert_eq!(r[0].range(), (24, 24));
    let b = Node::new_singleton(p4("10.0.0.0/8").to_prefix()).boxed();
    assert_eq!(b.ranges::<Ipv4Prefix>()[0].range(), (8, 8));
}

#[test]
fn tests_search_node_range_query() {
    let mut r = IpPrefixRange::new(p4("192.0.2.0/24"), 25, 26).unwrap();
    let n = Box::new(r.to_node());
    r = IpPrefixRange::new(p4("192.0.2.128/25"), 26, 26).unwrap();
    let q = r.to_node();
    assert!(n.search_node(&q));
    let r2 = IpPrefixRange::new(p4("192.0.2.128/25"), 26, 27).unwrap();
    assert!(!n.search_node(&r2.to_node()));
    let single = Node::new_singleton(p4("192.0.2.0/24").to_prefix());
    assert!(single.left.is_none() && single.right.is_none());
    assert_eq!(single.gluemap, GlueMap::singleton(24));
}
