use std::cmp::Ordering;
use std::collections::HashSet;

use prefixset::{Error, IpPrefix, IpPrefixRange, Ipv4Prefix, Ipv6Prefix, PrefixSet};

fn assert_send<T: Send>(_: T) {}

fn assert_sync<T: Sync>(_: T) {}

fn p4(s: &str) -> Ipv4Prefix {
    s.parse().unwrap()
}

fn r4(s: &str) -> IpPrefixRange<Ipv4Prefix> {
    IpPrefixRange::parse(s).unwrap()
}

/// A set built from prefixes (`a/n`) and ranges (`a/n,l,u`).
fn set4(items: &[&str]) -> PrefixSet<Ipv4Prefix> {
    let mut s = PrefixSet::new();
    let ranges: Vec<IpPrefixRange<Ipv4Prefix>> = items
        .iter()
        .map(|i| if i.contains(',') { r4(i) } else { IpPrefixRange::from_prefix(p4(i)) })
        .collect();
    s.insert_from(ranges);
    s
}

fn set6(items: &[&str]) -> PrefixSet<Ipv6Prefix> {
    let mut s = PrefixSet::new();
    let ranges: Vec<IpPrefixRange<Ipv6Prefix>> = items
        .iter()
        .map(|i| {
            if i.contains(',') {
                IpPrefixRange::parse(i).unwrap()
            } else {
                IpPrefixRange::from_prefix(i.parse::<Ipv6Prefix>().unwrap())
            }
        })
        .collect();
    s.insert_from(ranges);
    s
}

fn texts(s: &PrefixSet<Ipv4Prefix>) -> Vec<String> {
    s.prefixes().iter().map(|p| p.to_text()).collect()
}

#[test]
fn is_send() {
    assert_send(PrefixSet::<Ipv4Prefix>::new());
}

#[test]
fn is_sync() {
    assert_sync(PrefixSet::<Ipv4Prefix>::new());
}

#[test]
fn tests_is_emtpy() {
    let s = PrefixSet::<Ipv4Prefix>::new();
    assert!(s.is_empty());
}

#[test]
fn tests_contains_no_prefixes() {
    let s = PrefixSet::<Ipv4Prefix>::new();
    assert_eq!(s.prefixes().len(), 0);
    assert!(!s.contains(&p4("192.0.2.0/24")));
    assert!(!s.contains(&p4("192.0.0.0/22")));
    assert!(!s.contains(&p4("192.0.2.128/25")));
    assert!(!s.contains(&p4("192.0.4.0/24")));
}

fn with_a_prefix() -> PrefixSet<Ipv4Prefix> {
    let mut s = PrefixSet::new();
    s.insert(p4("192.0.2.0/24"));
    s
}

#[test]
fn tests_contains_one_prefix() {
    let s = with_a_prefix();
    println!("{:#?}", s);
    assert_eq!(s.prefixes().len(), 1);
    assert!(s.contains(&p4("192.0.2.0/24")));
    assert!(!s.contains(&p4("192.0.0.0/22")));
    assert!(!s.contains(&p4("192.0.2.128/25")));
    assert!(!s.contains(&p4("192.0.4.0/24")));
    assert_eq!(s.prefixes(), vec![p4("192.0.2.0/24")]);
}

#[test]
fn tests_removed_is_empty() {
    let mut s = with_a_prefix();
    s.remove(p4("192.0.2.0/24"));
    assert!(s.is_empty());
}

fn with_two_prefixes() -> PrefixSet<Ipv4Prefix> {
    let mut s = with_a_prefix();
    s.insert(p4("192.0.0.0/22"));
    s
}

#[test]
fn tests_contains_two_prefixes() {
    let s = with_two_prefixes();
    assert_eq!(s.prefixes().len(), 2);
    assert!(s.contains(&p4("192.0.2.0/24")));
    assert!(s.contains(&p4("192.0.0.0/22")));
    assert_eq!(s.prefixes(), vec![p4("192.0.0.0/22"), p4("192.0.2.0/24")]);
}

#[test]
fn tests_superprefix_removal_leaves_subprefix() {
    let mut s = with_two_prefixes();
    s.remove(r4("192.0.0.0/16,24,24"));
    assert_eq!(s.prefixes().len(), 1);
    assert_eq!(s.len(), 1);
    assert!(s.contains(&p4("192.0.0.0/22")));
    assert!(!s.contains(&p4("192.0.2.0/24")));
}

fn with_three_prefixes() -> PrefixSet<Ipv4Prefix> {
    let mut s = with_two_prefixes();
    s.insert(p4("192.0.3.0/24"));
    s
}

#[test]
fn tests_contains_three_prefixes() {
    let s = with_three_prefixes();
    assert_eq!(s.prefixes().len(), 3);
    assert!(s.contains(&p4("192.0.2.0/24")));
    assert!(s.contains(&p4("192.0.3.0/24")));
    assert!(s.contains(&p4("192.0.0.0/22")));
    assert_eq!(
        s.prefixes(),
        vec![p4("192.0.0.0/22"), p4("192.0.2.0/24"), p4("192.0.3.0/24")]
    );
}

#[test]
fn tests_contains_two_prefix_ranges() {
    let s = with_three_prefixes();
    assert_eq!(s.ranges().len(), 2);
}

#[test]
fn tests_range_removal_leaves_one_prefix() {
    let mut s = with_three_prefixes();
    s.remove(r4("192.0.2.0/23,24,24"));
    assert_eq!(s.prefixes().len(), 1);
    assert!(s.contains(&p4("192.0.0.0/22")));
}

#[test]
fn tests_two_contiguous_halves_aggregate() {
    let mut s = PrefixSet::new();
    s.insert(p4("192.0.2.0/25"));
    s.insert(p4("192.0.2.128/25"));
    assert_eq!(s.ranges(), vec![r4("192.0.2.0/24,25,25")]);
    assert_eq!(s.len(), 2);
    assert!(s.contains(&p4("192.0.2.0/25")));
    assert!(!s.contains(&p4("192.0.2.0/24")));
    assert_eq!(texts(&s), vec!["192.0.2.0/25".to_string(), "192.0.2.128/25".to_string()]);
}

#[test]
fn tests_range_insertion() {
    let mut s = PrefixSet::new();
    s.insert(r4("192.0.2.0/24,26,26"));
    assert_eq!(s.len(), 4);
    assert!(s.contains(&p4("192.0.2.128/26")));
    assert!(!s.contains(&p4("192.0.2.0/24")));
}

#[test]
fn tests_deaggregation_on_remove() {
    let mut s = PrefixSet::new();
    s.insert(r4("192.0.2.0/23,24,24"));
    s.remove(p4("192.0.2.0/24"));
    assert_eq!(s.prefixes(), vec![p4("192.0.3.0/24")]);
    assert_eq!(s, set4(&["192.0.3.0/24"]));
}

#[test]
fn tests_remove_from_range() {
    let mut s = PrefixSet::new();
    s.insert(r4("192.0.2.0/24,26,26"));
    s.remove_from(vec![p4("192.0.2.0/26"), p4("192.0.2.64/26")]);
    assert_eq!(s.len(), 2);
}

#[test]
fn tests_insert_from_prefixes() {
    let mut s = PrefixSet::new();
    s.insert_from(vec![p4("192.0.2.0/26"), p4("192.0.2.64/26")]);
    assert_eq!(s.len(), 2);
    assert_eq!(s.ranges(), vec![r4("192.0.2.0/25,26,26")]);
}

#[test]
fn tests_clear() {
    let mut s = with_three_prefixes();
    s.clear();
    assert!(s.is_empty());
    assert_eq!(s.len(), 0);
}

#[test]
fn tests_ipv6_range_len() {
    let mut s = PrefixSet::new();
    s.insert(IpPrefixRange::new("2001:db8:f00::/48".parse::<Ipv6Prefix>().unwrap(), 64, 64).unwrap());
    assert_eq!(s.len(), 1 << 16);
}

#[test]
fn tests_ipv6_two_prefixes_aggregate() {
    let s = set6(&["2001:db8::/37", "2001:db8:800::/37"]);
    let range = IpPrefixRange::new("2001:db8::/36".parse::<Ipv6Prefix>().unwrap(), 37, 37).unwrap();
    assert_eq!(s.ranges(), vec![range]);
}

#[test]
fn tests_ipv6_remove() {
    let mut s = set6(&["2001:db8:f00::/48", "2001:db8:baa::/48"]);
    s.remove("2001:db8:f00::/48".parse::<Ipv6Prefix>().unwrap());
    assert_eq!(s.len(), 1);
}

#[test]
fn tests_prefixes_and_ranges_build_equal_sets() {
    let from_prefixes = set4(&["192.0.2.0/26", "192.0.2.64/26", "192.0.2.128/26", "192.0.2.192/26"]);
    let from_range = set4(&["192.0.2.0/24,26,26"]);
    assert_eq!(from_prefixes, from_range);
}

#[test]
fn tests_membership_fidelity_with_repeats() {
    let items = ["10.0.0.0/8", "10.0.0.0/8", "10.1.0.0/16", "172.16.0.0/12", "10.1.0.0/16"];
    let s = set4(&items);
    let expected: HashSet<Ipv4Prefix> = items.iter().map(|i| p4(i)).collect();
    let got: HashSet<Ipv4Prefix> = s.prefixes().into_iter().collect();
    assert_eq!(got, expected);
    assert_eq!(s.len(), 3);
    for i in items.iter() {
        assert!(s.contains(&p4(i)));
    }
    assert!(!s.contains(&p4("10.2.0.0/16")));
}

#[test]
fn tests_aggregated_tree_is_canonical() {
    let s = set4(&["10.0.0.0/24", "10.0.1.0/24", "10.0.2.0/24", "10.0.3.0/24", "10.0.0.0/22"]);
    assert_eq!(s.ranges(), vec![r4("10.0.0.0/22,22,22"), r4("10.0.0.0/22,24,24")]);
    assert_eq!(s.len(), 5);
    assert_eq!(s.ranges().len(), 2);
}

#[test]
fn tests_is_subset() {
    let a = set4(&["192.0.2.0/24,25,25"]);
    let b = set4(&["192.0.2.0/24,24,26"]);
    assert!(a.is_subset(&b));
    assert!(!b.is_subset(&a));
}

#[test]
fn tests_parse_errors() {
    assert_eq!("192.0.2.0/33".parse::<Ipv4Prefix>(), Err(Error::AddrParse));
    assert_eq!("not a prefix".parse::<Ipv4Prefix>(), Err(Error::AddrParse));
    assert_eq!(Ipv4Prefix::new(0, 33), Err(Error::PrefixLen));
    assert_eq!(Ipv6Prefix::new(0, 129), Err(Error::PrefixLen));
    assert!(matches!(IpPrefixRange::<Ipv4Prefix>::parse("192.0.2.0/24"), Err(Error::RangeParse)));
    assert!(matches!(IpPrefixRange::<Ipv4Prefix>::parse("192.0.2.0/24,25"), Err(Error::RangeParse)));
    assert!(matches!(IpPrefixRange::<Ipv4Prefix>::parse("192.0.2.0/24,x,25"), Err(Error::RangeParse)));
    assert!(matches!(IpPrefixRange::<Ipv4Prefix>::parse("192.0.2.0/24,25,256"), Err(Error::RangeParse)));
    assert!(matches!(IpPrefixRange::<Ipv4Prefix>::parse("192.0.2.0/24,23,24"), Err(Error::PrefixLen)));
    assert!(matches!(IpPrefixRange::<Ipv4Prefix>::parse("192.0.2.0/24,25,33"), Err(Error::PrefixLen)));
    assert!(matches!(IpPrefixRange::<Ipv4Prefix>::parse("192.0.2/24,25,26"), Err(Error::AddrParse)));
    assert_eq!(Error::RangeParse.message(), "invalid IP prefix range");
}

#[test]
fn tests_parse_clears_host_bits() {
    let p = p4("192.0.2.77/24");
    assert_eq!(p.to_text(), "192.0.2.0/24");
    assert_eq!(p.bits(), 0xc000_0200);
    assert_eq!(p.length(), 24);
    let q: Ipv6Prefix = "2001:db8::1/32".parse().unwrap();
    assert_eq!(q.to_text(), "2001:db8::/32");
    assert_eq!(Ipv4Prefix::new(0xc000_02ff, 24).unwrap(), p4("192.0.2.0/24"));
}

#[test]
fn tests_range_text_round_trip() {
    let r = r4("192.0.2.0/24,+25,26");
    assert_eq!(r, r4("192.0.2.0/24,25,26"));
    assert_eq!(r.range(), (25, 26));
    assert_eq!(r.base(), p4("192.0.2.0/24"));
}

#[test]
fn tests_data_set_description() {
    let d = prefixset::dataset::data_set::<Ipv4Prefix>("as-example", 12, 5);
    assert_eq!(d.name(), "as-example");
    assert_eq!(d.prefixes(), 12);
    assert_eq!(d.ranges(), 5);
}

#[test]
fn is_emtpy() {
    let mut s = with_a_prefix();
    s.remove(p4("192.0.2.0/24"));
    assert!(s.is_empty());
}

#[test]
fn contains_one_prefix() {
    let mut s = with_two_prefixes();
    s.remove(IpPrefixRange::new(p4("192.0.0.0/16"), 24, 24).unwrap());
    println!("{:#?}", s);
    assert_eq!(s.prefixes().len(), 1);
    assert!(s.contains(&p4("192.0.0.0/22")));
}

#[test]
fn contains_two_prefixes() {
    let mut s = PrefixSet::new();
    s.insert(p4("192.0.2.0/24"));
    s.insert(p4("192.0.0.0/22"));
    assert_eq!(s.len(), 2);
}

#[test]
fn contains_three_prefixes() {
    let mut s = PrefixSet::new();
    s.insert_from(vec![p4("192.0.2.0/24"), p4("192.0.0.0/22"), p4("192.0.3.0/24")]);
    assert_eq!(s.len(), 3);
}

#[test]
fn contains_two_prefix_ranges() {
    let mut s = PrefixSet::new();
    s.insert_from(vec![p4("192.0.2.0/24"), p4("192.0.0.0/22"), p4("192.0.3.0/24")]);
    assert_eq!(s.ranges(), vec![r4("192.0.0.0/22,22,22"), r4("192.0.2.0/23,24,24")]);
}

#[test]
fn tests_route_set_example() {
    let s = set4(&[
        "192.0.2.0/27",
        "192.0.2.32/27",
        "192.0.2.64/27",
        "192.0.2.96/27",
        "192.0.2.128/26",
        "192.0.2.128/27",
        "192.0.2.160/27",
        "192.0.2.192/27",
        "192.0.2.224/27",
    ]);
    let mut got = s.ranges();
    got.sort_by_key(|r| (r.base().bits(), r.base().length(), r.lower()));
    let expected = vec![r4("192.0.2.0/24,27,27"), r4("192.0.2.128/26,26,26")];
    assert_eq!(got, expected);
    assert_eq!(s.len(), 9);
}

#[test]
fn tests_iter_over_prefixes_is_empty() {
    let s = PrefixSet::<Ipv4Prefix>::new();
    assert_eq!(Vec::<Ipv4Prefix>::new(), s.prefixes());
}

#[test]
fn tests_contains_that_prefix() {
    assert!(with_a_prefix().contains(&p4("192.0.2.0/24")));
}

#[test]
fn tests_does_not_contain_others() {
    let s = with_a_prefix();
    assert!(!s.contains(&p4("192.0.0.0/22")));
    assert!(!s.contains(&p4("192.0.2.128/25")));
    assert!(!s.contains(&p4("192.0.4.0/24")));
}

#[test]
fn tests_iter_over_prefixes_is_singleton() {
    assert_eq!(vec![p4("192.0.2.0/24")], with_a_prefix().prefixes());
}

#[test]
fn tests_contains_both_prefixes() {
    let s = with_two_prefixes();
    assert!(s.contains(&p4("192.0.2.0/24")));
    assert!(s.contains(&p4("192.0.0.0/22")));
}

#[test]
fn tests_iter_over_prefixes_is_len_two() {
    assert_eq!(vec![p4("192.0.0.0/22"), p4("192.0.2.0/24")], with_two_prefixes().prefixes());
}

#[test]
fn tests_contains_the_remaining_prefix() {
    let mut s = with_two_prefixes();
    s.remove(r4("192.0.0.0/16,24,24"));
    assert!(s.contains(&p4("192.0.0.0/22")));
}

#[test]
fn contains_the_remaining_prefix() {
    let mut s = with_three_prefixes();
    s.remove(r4("192.0.2.0/23,24,24"));
    assert!(s.contains(&p4("192.0.0.0/22")));
}

#[test]
fn tests_contains_all_prefixes() {
    let s = with_three_prefixes();
    assert!(s.contains(&p4("192.0.2.0/24")));
    assert!(s.contains(&p4("192.0.3.0/24")));
    assert!(s.contains(&p4("192.0.0.0/22")));
}

#[test]
fn tests_iter_over_prefixes_is_len_three() {
    assert_eq!(
        vec![p4("192.0.0.0/22"), p4("192.0.2.0/24"), p4("192.0.3.0/24")],
        with_three_prefixes().prefixes()
    );
}

#[test]
fn set_is_emtpy() {
    assert!(PrefixSet::<Ipv4Prefix>::new().is_empty());
}

#[test]
fn set_contains_no_prefixes() {
    let s = PrefixSet::<Ipv4Prefix>::new();
    assert!(!s.contains(&p4("192.0.2.0/24")));
}

#[test]
fn set_contains_that_prefix() {
    assert!(with_a_prefix().contains(&p4("192.0.2.0/24")));
}

#[test]
fn set_does_not_contain_others() {
    assert!(!with_a_prefix().contains(&p4("192.0.4.0/24")));
}

#[test]
fn set_contains_both_prefixes() {
    let s = with_two_prefixes();
    assert!(s.contains(&p4("192.0.2.0/24")) && s.contains(&p4("192.0.0.0/22")));
}

#[test]
fn ipv4_zero_set_is_empty() {
    assert!(PrefixSet::<Ipv4Prefix>::default().is_empty());
}

#[test]
fn ipv6_zero_set_is_empty() {
    assert!(PrefixSet::<Ipv6Prefix>::default().is_empty());
}

#[test]
fn tests_partial_cmp_orders_by_inclusion() {
    let a = set4(&["192.0.2.0/24,25,25"]);
    let b = set4(&["192.0.2.0/24,24,26"]);
    let c = set4(&["198.51.100.0/24"]);
    assert_eq!(a.partial_cmp(&b), Some(Ordering::Less));
    assert_eq!(b.partial_cmp(&a), Some(Ordering::Greater));
    assert_eq!(a.partial_cmp(&a.clone()), Some(Ordering::Equal));
    assert_eq!(a.partial_cmp(&c), None);
    assert!(a < b);
    assert!(a.is_valid());
}

#[test]
fn tests_ranges_are_repeatable_maximal_runs() {
    let s = set4(&["10.0.0.0/8,8,10", "10.0.0.0/8,12,12", "192.0.2.0/24"]);
    let first = s.ranges();
    assert_eq!(first, s.ranges());
    assert!(first.contains(&r4("10.0.0.0/8,8,10")));
    assert!(first.contains(&r4("10.0.0.0/8,12,12")));
    assert_eq!(first.len(), 3);
}

#[test]
fn tests_range_from_str() {
    let r: IpPrefixRange<Ipv4Prefix> = "192.0.2.0/24,25,26".parse().unwrap();
    assert_eq!(r, r4("192.0.2.0/24,25,26"));
    assert!("192.0.2.0/24;25;26".parse::<IpPrefixRange<Ipv4Prefix>>().is_err());
}
