use prefixset::family::new_from;
use prefixset::range::subprefixes;
use prefixset::{Error, IpPrefix, IpPrefixRange, Ipv4Prefix, Ipv6Prefix};

fn v4() -> Ipv4Prefix {
    "10.0.0.0/8".parse().unwrap()
}

fn v6() -> Ipv6Prefix {
    "2001:db8::/32".parse().unwrap()
}

#[test]
fn tests_has_correct_bits() {
    assert_eq!(v4().bits(), 0x0a000000);
}

#[test]
fn has_correct_bits() {
    assert_eq!(v6().bits(), 0x20010db8000000000000000000000000);
}

#[test]
fn tests_has_correct_length() {
    assert_eq!(v4().length(), 8);
    assert_eq!(new_from(&v4(), 12).unwrap().length(), 12);
}

#[test]
fn has_correct_length() {
    assert_eq!(v6().length(), 32);
    assert_eq!(new_from(&v6(), 36).unwrap().length(), 36);
}

#[test]
fn tests_has_expected_subprefixes() {
    assert_eq!(subprefixes(&v4(), 16).len(), 256);
}

#[test]
fn has_expected_subprefixes() {
    assert_eq!(subprefixes(&v6(), 48).len(), 1 << 16);
}

#[test]
fn tests_has_common_prefix() {
    let p = v4();
    let q = new_from(&p, 12).unwrap();
    assert!((p.bits() ^ q.bits()).leading_zeros() >= 12);
}

#[test]
fn has_common_prefix() {
    let p = v6();
    let q = new_from(&p, 36).unwrap();
    assert!((p.bits() ^ q.bits()).leading_zeros() >= 36);
}

#[test]
fn tests_new_from_rejects_long_lengths() {
    assert!(matches!(new_from(&v4(), 33), Err(Error::PrefixLen)));
    assert_eq!(new_from(&"10.1.2.0/24".parse::<Ipv4Prefix>().unwrap(), 8).unwrap(), v4());
}

#[test]
fn tests_prefix_order() {
    let p = v4();
    let q: Ipv4Prefix = "10.1.0.0/16".parse().unwrap();
    let r: Ipv4Prefix = "11.0.0.0/8".parse().unwrap();
    assert!(p > q);
    assert!(q < p);
    assert!(p.partial_cmp(&r).is_none());
    assert!(p <= p);
}

fn p24() -> Ipv4Prefix {
    "192.0.2.0/24".parse().unwrap()
}

#[test]
fn invalid_lower() {
    assert!(matches!(IpPrefixRange::new(p24(), 23, 24), Err(Error::PrefixLen)));
}

#[test]
fn invalid_upper() {
    assert!(matches!(IpPrefixRange::new(p24(), 24, 33), Err(Error::PrefixLen)));
}

#[test]
fn invalid_range() {
    assert!(matches!(IpPrefixRange::new(p24(), 25, 24), Err(Error::PrefixLen)));
}

#[test]
fn singleton_range() {
    let r = IpPrefixRange::new(p24(), 24, 24).unwrap();
    let v = r.iter();
    assert_eq!(v[0], p24());
    assert_eq!(v.len(), 1);
}

#[test]
fn host_length_range() {
    let r = IpPrefixRange::new(p24(), 32, 32).unwrap();
    let v = r.iter();
    assert_eq!(v[0], "192.0.2.0/32".parse().unwrap());
    assert_eq!(v[1], "192.0.2.1/32".parse().unwrap());
}

#[test]
fn single_length_range() {
    let r = IpPrefixRange::new(p24(), 25, 25).unwrap();
    let v = r.iter();
    assert_eq!(v, vec!["192.0.2.0/25".parse().unwrap(), "192.0.2.128/25".parse().unwrap()]);
}

#[test]
fn multi_length_range() {
    let (lower, upper) = (26u8, 28u8);
    let r = IpPrefixRange::new(p24(), lower, upper).unwrap();
    assert_eq!(r.iter().len(), (lower..=upper).map(|l| 1usize << (l - 24)).sum::<usize>());
}

#[test]
fn subprefix_order() {
    let r: IpPrefixRange<Ipv4Prefix> = IpPrefixRange::parse("192.0.2.0/24,25,25").unwrap();
    let s: IpPrefixRange<Ipv4Prefix> = IpPrefixRange::parse("192.0.2.128/25,25,25").unwrap();
    assert!(r > s);
}

#[test]
fn range_order() {
    let r: IpPrefixRange<Ipv4Prefix> = IpPrefixRange::parse("192.0.2.0/24,24,26").unwrap();
    let s: IpPrefixRange<Ipv4Prefix> = IpPrefixRange::parse("192.0.2.0/24,25,25").unwrap();
    assert!(r > s);
}
