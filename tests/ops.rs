use std::collections::HashSet;

use prefixset::{IpPrefixRange, Ipv4Prefix, Ipv6Prefix, PrefixSet};

fn set4(items: &[&str]) -> PrefixSet<Ipv4Prefix> {
    let mut s = PrefixSet::new();
    let ranges: Vec<IpPrefixRange<Ipv4Prefix>> = items
        .iter()
        .map(|i| {
            if i.contains(',') {
                IpPrefixRange::parse(i).unwrap()
            } else {
                IpPrefixRange::from_prefix(i.parse::<Ipv4Prefix>().unwrap())
            }
        })
        .collect();
    s.insert_from(ranges);
    s
}

fn set6(items: &[&str]) -> PrefixSet<Ipv6Prefix> {
    let mut s = PrefixSet::new();
    let ranges: Vec<IpPrefixRange<Ipv6Prefix>> = items
        .iter()
        .map(|i| {
            if i.contains(',') {
                IpPrefixRange::parse(i).unwrap()
            } else {
                IpPrefixRange::from_prefix(i.parse::<Ipv6Prefix>().unwrap())
            }
        })
        .collect();
    s.insert_from(ranges);
    s
}

fn members(s: &PrefixSet<Ipv4Prefix>) -> HashSet<Ipv4Prefix> {
    s.prefixes().into_iter().collect()
}

#[test]
fn ipv4_and_disjoint() {
    let r = set4(&["1.0.0.0/8"]).intersection(set4(&["2.0.0.0/8"]));
    assert_eq!(r, PrefixSet::new());
}

#[test]
fn ipv4_and_overlapping_ranges() {
    let r = set4(&["1.0.0.0/8,8,16"]).intersection(set4(&["1.0.0.0/8,12,24"]));
    assert_eq!(r, set4(&["1.0.0.0/8,12,16"]));
}

#[test]
fn ipv4_or_disjoint() {
    let r = set4(&["1.0.0.0/8"]).union(set4(&["2.0.0.0/8"]));
    assert_eq!(r, set4(&["1.0.0.0/8", "2.0.0.0/8"]));
}

#[test]
fn ipv4_or_siblings_aggregate() {
    let r = set4(&["2.0.0.0/8"]).union(set4(&["3.0.0.0/8"]));
    assert_eq!(r, set4(&["2.0.0.0/7,8,8"]));
}

#[test]
fn ipv4_sub_covered_child() {
    let r = set4(&["1.0.0.0/8,16,16"]).difference(set4(&["1.0.0.0/16"]));
    let expected = set4(&[
        "1.1.0.0/16",
        "1.2.0.0/15,16,16",
        "1.4.0.0/14,16,16",
        "1.8.0.0/13,16,16",
        "1.16.0.0/12,16,16",
        "1.32.0.0/11,16,16",
        "1.64.0.0/10,16,16",
        "1.128.0.0/9,16,16",
    ]);
    assert_eq!(r, expected);
}

#[test]
fn ipv4_sub_covering_parent() {
    let r = set4(&["1.0.0.0/16"]).difference(set4(&["1.0.0.0/8,16,16"]));
    assert_eq!(r, PrefixSet::new());
}

#[test]
fn ipv4_sub_complex_deaggregation() {
    let r = set4(&["2.0.0.0/8,8,10", "3.0.0.0/8,8,9"]).difference(set4(&["2.0.0.0/10", "3.0.0.0/8,8,10"]));
    let expected = set4(&["2.0.0.0/8,8,9", "2.64.0.0/10", "2.128.0.0/10", "2.192.0.0/10"]);
    assert_eq!(r, expected);
}

#[test]
fn ipv4_xor_overlapping_nodes() {
    let r = set4(&["1.0.0.0/8,12,16"]).symmetric_difference(set4(&["1.0.0.0/12,12,16"]));
    let expected = set4(&["1.16.0.0/12,12,16", "1.32.0.0/11,12,16", "1.64.0.0/10,12,16", "1.128.0.0/9,12,16"]);
    assert_eq!(members(&r), members(&expected));
    assert_eq!(r, expected);
}

#[test]
fn ipv4_xor_disjoint_nodes() {
    let r = set4(&["2.0.0.0/8,8,16"]).symmetric_difference(set4(&["3.0.0.0/8,8,16"]));
    assert_eq!(r, set4(&["2.0.0.0/7,8,16"]));
}

#[test]
fn ipv4_xor_overlapping_ranges() {
    let r = set4(&["1.0.0.0/8,8,12"]).symmetric_difference(set4(&["1.0.0.0/8,12,16"]));
    assert_eq!(r, set4(&["1.0.0.0/8,8,11", "1.0.0.0/8,13,16"]));
}

#[test]
fn ipv4_xor_with_self_is_empty() {
    let a = set4(&["1.0.0.0/8,12,16", "10.0.0.0/8"]);
    let r = a.clone().symmetric_difference(a);
    assert!(r.is_empty());
}

#[test]
fn ipv4_not_singleton() {
    let r = set4(&["1.0.0.0/8"]).complement();
    let expected = set4(&[
        "0.0.0.0/0,0,7",
        "0.0.0.0/0,9,32",
        "0.0.0.0/8",
        "2.0.0.0/7,8,8",
        "4.0.0.0/6,8,8",
        "8.0.0.0/5,8,8",
        "16.0.0.0/4,8,8",
        "32.0.0.0/3,8,8",
        "64.0.0.0/2,8,8",
        "128.0.0.0/1,8,8",
    ]);
    assert_eq!(r, expected);
    assert_eq!(r.complement(), set4(&["1.0.0.0/8"]));
}

#[test]
fn ipv4_not_range() {
    let r = set4(&["1.0.0.0/8,8,16"]).complement();
    let expected = set4(&[
        "0.0.0.0/0,0,7",
        "0.0.0.0/0,17,32",
        "0.0.0.0/8,8,16",
        "2.0.0.0/7,8,16",
        "4.0.0.0/6,8,16",
        "8.0.0.0/5,8,16",
        "16.0.0.0/4,8,16",
        "32.0.0.0/3,8,16",
        "64.0.0.0/2,8,16",
        "128.0.0.0/1,8,16",
    ]);
    assert_eq!(r, expected);
    assert_eq!(r.complement(), set4(&["1.0.0.0/8,8,16"]));
}

#[test]
fn ipv4_universe_laws() {
    let empty = PrefixSet::<Ipv4Prefix>::new();
    let all = PrefixSet::<Ipv4Prefix>::universe();
    assert_eq!(empty.clone().union(empty.clone()), empty);
    assert_eq!(empty.clone().intersection(all.clone()), empty);
    assert_eq!(all.clone().intersection(all.clone()), all);
    assert_eq!(empty.clone().complement(), all);
    assert_eq!(all.clone().complement(), empty);
    assert_eq!(all.ranges(), vec![IpPrefixRange::parse("0.0.0.0/0,0,32").unwrap()]);
}

#[test]
fn ipv6_universe_laws() {
    let empty = PrefixSet::<Ipv6Prefix>::new();
    let all = PrefixSet::<Ipv6Prefix>::universe();
    assert_eq!(empty.clone().complement(), all);
    assert_eq!(all.clone().complement(), empty);
    assert_eq!(all.clone().intersection(all.clone()), all);
}

#[test]
fn ipv6_not_singleton_round_trip() {
    let a = set6(&["2001:db8::/32"]);
    let n = a.clone().complement();
    assert!(!n.contains(&"2001:db8::/32".parse().unwrap()));
    assert!(n.contains(&"2001:db8::/33".parse().unwrap()));
    assert!(n.contains(&"::/0".parse().unwrap()));
    assert_eq!(n.complement(), a);
}

#[test]
fn ipv6_xor_and_sub() {
    let a = set6(&["2001:db8::/32,32,34"]);
    let b = set6(&["2001:db8::/33,33,34"]);
    let x = a.clone().symmetric_difference(b.clone());
    let d = a.clone().difference(b.clone());
    let u = a.clone().union(b.clone());
    let i = a.intersection(b);
    assert_eq!(x, u.difference(i));
    assert_eq!(d, set6(&["2001:db8::/32", "2001:db8:8000::/33,33,34"]));
}

#[test]
fn ipv4_algebra_laws() {
    let a = set4(&["10.0.0.0/8,16,24", "192.0.2.0/24"]);
    let b = set4(&["10.1.0.0/16,16,20", "198.51.100.0/24,24,25"]);
    let i = a.clone().intersection(b.clone());
    let u = a.clone().union(b.clone());
    assert!(i.is_subset(&a));
    assert!(i.is_subset(&b));
    assert!(a.is_subset(&u));
    assert!(b.is_subset(&u));
    let x = a.clone().symmetric_difference(b.clone());
    assert_eq!(x, u.difference(i));
}

#[test]
fn ipv4_cross_check_with_hash_sets() {
    let a_items = ["10.0.0.0/8,8,10", "10.64.0.0/10,12,12", "172.16.0.0/12,13,14", "192.0.2.0/24"];
    let b_items = ["10.0.0.0/9,9,11", "172.16.0.0/12,12,13", "192.0.2.0/23,24,24"];
    let a = set4(&a_items);
    let b = set4(&b_items);
    let ha = members(&a);
    let hb = members(&b);
    let and: HashSet<_> = ha.intersection(&hb).cloned().collect();
    let or: HashSet<_> = ha.union(&hb).cloned().collect();
    let sub: HashSet<_> = ha.difference(&hb).cloned().collect();
    let xor: HashSet<_> = ha.symmetric_difference(&hb).cloned().collect();
    assert_eq!(members(&a.clone().intersection(b.clone())), and);
    assert_eq!(members(&a.clone().union(b.clone())), or);
    assert_eq!(members(&a.clone().difference(b.clone())), sub);
    assert_eq!(members(&a.clone().symmetric_difference(b.clone())), xor);
    assert_eq!(a.clone().intersection(b.clone()).len(), and.len());
    assert_eq!(a.symmetric_difference(b).len(), xor.len());
}

#[test]
fn ipv4_operators() {
    let a = set4(&["1.0.0.0/8,12,16"]);
    let b = set4(&["1.0.0.0/12,12,16"]);
    assert_eq!(a.clone() ^ b.clone(), (a.clone() | b.clone()) - (a.clone() & b.clone()));
    assert_eq!(a.clone() + b.clone(), a.clone() | b.clone());
    assert_eq!(a.clone() * b.clone(), b.clone());
    assert_eq!(!!a.clone(), a);
    assert_eq!(!set4(&["1.0.0.0/8"]), set4(&["1.0.0.0/8"]).complement());
}

#[test]
fn ipv6_operators() {
    let a = set6(&["2001:db8::/32,32,40"]);
    let b = set6(&["2001:db8::/36,36,48"]);
    assert_eq!(a.clone() ^ a.clone(), PrefixSet::new());
    assert_eq!(!!b.clone(), b);
    assert_eq!((a.clone() & b.clone()), set6(&["2001:db8::/36,36,40"]));
}
