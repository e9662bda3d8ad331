use ip2asn::util::Bytekey;
use ip2asn::{
    Announcement, AsnMap, AttributionTable, BgpTools, BuildError, IpAddress, IpNet, Ipv4AsnMap,
    Ipv4Net, Ipv6AsnMap, Ipv6Net, NetRange, Node,
};

fn v4(a: u8, b: u8, c: u8, d: u8) -> u32 {
    u32::from_be_bytes([a, b, c, d])
}

fn net4(a: u8, b: u8, c: u8, d: u8, len: u8) -> Ipv4Net {
    Ipv4Net::new(v4(a, b, c, d), len).unwrap()
}

fn scenario_map() -> Ipv4AsnMap {
    let mut m = Ipv4AsnMap::new();
    m.insert(net4(10, 0, 0, 0, 8), 1);
    m.insert(net4(10, 1, 0, 0, 16), 2);
    m.insert(net4(10, 1, 2, 0, 24), 3);
    m
}

fn asn_of(m: &Ipv4AsnMap, addr: u32) -> Option<u32> {
    m.lookup(&addr).1.map(|r| r.asn)
}

/// Height of a subtree, checking balance, order and the cached fields on the way.
fn check(node: &Node) -> (i32, u128) {
    let (lh, lmax) = match &node.left {
        Some(l) => {
            assert!(l.data.min < node.data.min || (l.data.min == node.data.min && l.data.max < node.data.max));
            check(l)
        }
        None => (-1, 0),
    };
    let (rh, rmax) = match &node.right {
        Some(r) => {
            assert!(r.data.min > node.data.min || (r.data.min == node.data.min && r.data.max > node.data.max));
            check(r)
        }
        None => (-1, 0),
    };
    assert!((lh - rh).abs() <= 1, "unbalanced node");
    let h = lh.max(rh) + 1;
    assert_eq!(node.height as i32, h);
    let true_max = node.data.max.max(lmax).max(rmax);
    assert_eq!(node.max_high, true_max);
    (h, true_max)
}

#[test]
fn scenario_nested_networks() {
    let m = scenario_map();
    assert_eq!(asn_of(&m, v4(10, 1, 2, 5)), Some(3));
    assert_eq!(asn_of(&m, v4(10, 1, 3, 5)), Some(2));
    assert_eq!(asn_of(&m, v4(10, 2, 0, 0)), Some(1));
    assert_eq!(asn_of(&m, v4(11, 0, 0, 0)), None);
}

#[test]
fn more_specific_wins_in_any_order() {
    let nets = [(net4(10, 0, 0, 0, 8), 1), (net4(10, 1, 0, 0, 16), 2), (net4(10, 1, 2, 0, 24), 3)];
    let orders = [[0, 1, 2], [0, 2, 1], [1, 0, 2], [1, 2, 0], [2, 0, 1], [2, 1, 0]];
    let probes = [v4(10, 1, 2, 5), v4(10, 1, 3, 5), v4(10, 2, 0, 0), v4(11, 0, 0, 0), v4(10, 1, 2, 255), v4(10, 0, 0, 0)];
    let expected = [Some(3), Some(2), Some(1), None, Some(3), Some(1)];
    for order in orders {
        let mut m = Ipv4AsnMap::new();
        for i in order {
            m.insert(nets[i].0, nets[i].1);
        }
        for (p, e) in probes.iter().zip(expected.iter()) {
            assert_eq!(asn_of(&m, *p), *e);
        }
    }
}

#[test]
fn empty_index_finds_nothing() {
    let m = Ipv4AsnMap::new();
    assert_eq!(m.lookup(&v4(1, 2, 3, 4)), (0, None));
    let m6 = Ipv6AsnMap::new();
    assert_eq!(m6.lookup(&1u128).1.map(|r| r.asn), None);
}

#[test]
fn uncovered_addresses_find_nothing() {
    let mut m = Ipv4AsnMap::new();
    for i in 0..200u32 {
        m.insert(Ipv4Net::new(i << 16, 16).unwrap(), i);
    }
    assert_eq!(asn_of(&m, 200 << 16), None);
    assert_eq!(asn_of(&m, u32::MAX), None);
    assert_eq!(asn_of(&m, (57 << 16) + 77), Some(57));
}

#[test]
fn tree_stays_balanced_and_augmented() {
    let mut m = Ipv4AsnMap::new();
    for i in 0..1000u32 {
        m.insert(Ipv4Net::new(i << 8, 24).unwrap(), i);
        if i % 10 == 0 {
            m.insert(Ipv4Net::new(i << 8, 23).unwrap(), i + 5000);
        }
    }
    let (h, _) = check(m.node.as_ref().unwrap());
    assert!(h <= 15);
}

#[test]
fn descending_inserts_stay_balanced() {
    let mut m = Ipv6AsnMap::new();
    for i in (0..512u128).rev() {
        m.insert(Ipv6Net::new(i << 64, 64).unwrap(), i as u32);
    }
    let (h, max) = check(m.node.as_ref().unwrap());
    assert!(h <= 10);
    assert_eq!(max, (511u128 << 64) | u64::MAX as u128);
    assert_eq!(m.lookup(&((300u128 << 64) + 9)).1.map(|r| r.asn), Some(300));
}

#[test]
fn lookup_reports_cost() {
    let m = scenario_map();
    let (cost, found) = m.lookup(&v4(10, 1, 2, 5));
    assert!(cost >= 1 && cost <= 3);
    let (miss_cost, _) = m.lookup(&v4(200, 0, 0, 1));
    assert!(miss_cost >= 1 && miss_cost <= 3);
    let empty = Ipv6AsnMap::new();
    assert_eq!(empty.lookup(&0x2001_0db8u128).0, 0);
    assert_eq!(found.map(|r| (r.min, r.max, r.len)), Some((v4(10, 1, 2, 0) as u128, v4(10, 1, 2, 255) as u128, 24)));
}

#[test]
fn network_rejects_host_bits_and_long_prefix() {
    assert!(Ipv4Net::new(v4(10, 0, 0, 1), 8).is_none());
    assert!(Ipv4Net::new(v4(10, 0, 0, 0), 33).is_none());
    assert!(Ipv6Net::new(1, 64).is_none());
    assert!(Ipv6Net::new(0, 129).is_none());
}

#[test]
fn network_last_address() {
    let n = net4(10, 1, 0, 0, 16);
    assert_eq!(n.last, v4(10, 1, 255, 255));
    assert_eq!(net4(0, 0, 0, 0, 0).last, u32::MAX);
    assert_eq!(net4(1, 2, 3, 4, 32).last, v4(1, 2, 3, 4));
    let n6 = Ipv6Net::new(0x2001_0db8u128 << 96, 32).unwrap();
    assert_eq!(n6.last, (0x2001_0db8u128 << 96) | ((1u128 << 96) - 1));
    assert_eq!(Ipv6Net::new(0, 0).unwrap().last, u128::MAX);
}

#[test]
fn contains_sees_inserted_networks() {
    let m = scenario_map();
    assert!(m.contains(&net4(10, 1, 0, 0, 16)));
    assert!(!m.contains(&net4(10, 2, 0, 0, 16)));
}

fn ann4(a: u8, b: u8, c: u8, d: u8, len: u8, asn: u32) -> Announcement {
    Announcement { net: IpNet::V4(net4(a, b, c, d, len)), asn }
}

#[test]
fn build_splits_families() {
    let list = vec![
        ann4(10, 0, 0, 0, 8, 1),
        Announcement { net: IpNet::V6(Ipv6Net::new(0x2001u128 << 112, 16).unwrap()), asn: 7 },
        ann4(10, 1, 0, 0, 16, 2),
    ];
    let t = BgpTools::build(&list).unwrap();
    assert_eq!(t.lookup(IpAddress::V4(v4(10, 1, 9, 9))).1.map(|r| r.asn), Some(2));
    assert_eq!(t.lookup(IpAddress::V6((0x2001u128 << 112) + 5)).1.map(|r| r.asn), Some(7));
    assert_eq!(t.lookup(IpAddress::V6(5)).1, None);
}

#[test]
fn build_rejects_repeated_network() {
    let list = vec![ann4(10, 0, 0, 0, 8, 1), ann4(10, 1, 0, 0, 16, 2), ann4(10, 0, 0, 0, 8, 3)];
    assert!(matches!(BgpTools::build(&list), Err(BuildError::Duplicate(2))));
}

#[test]
fn same_address_in_both_families_is_no_repeat() {
    let list = vec![
        ann4(0, 0, 0, 0, 0, 1),
        Announcement { net: IpNet::V6(Ipv6Net::new(0, 0).unwrap()), asn: 2 },
    ];
    assert!(BgpTools::build(&list).is_ok());
}

#[test]
fn failed_reload_keeps_table() {
    let mut t = BgpTools::build(&vec![ann4(10, 0, 0, 0, 8, 1)]).unwrap();
    let bad: Result<AttributionTable, BuildError> = BgpTools::build(&vec![ann4(11, 0, 0, 0, 8, 9), ann4(11, 0, 0, 0, 8, 9)]);
    let err = t.reload(bad);
    assert!(matches!(err, Some(BuildError::Duplicate(1))));
    assert_eq!(t.lookup(IpAddress::V4(v4(10, 9, 9, 9))).1.map(|r| r.asn), Some(1));
    assert_eq!(t.lookup(IpAddress::V4(v4(11, 0, 0, 1))).1, None);
}

#[test]
fn successful_reload_swaps_both_families() {
    let mut t = BgpTools::build(&vec![ann4(10, 0, 0, 0, 8, 1)]).unwrap();
    let fresh = BgpTools::build(&vec![
        ann4(11, 0, 0, 0, 8, 9),
        Announcement { net: IpNet::V6(Ipv6Net::new(0, 0).unwrap()), asn: 4 },
    ]);
    assert!(t.reload(fresh).is_none());
    assert_eq!(t.lookup(IpAddress::V4(v4(10, 9, 9, 9))).1, None);
    assert_eq!(t.lookup(IpAddress::V4(v4(11, 0, 0, 1))).1.map(|r| r.asn), Some(9));
    assert_eq!(t.lookup(IpAddress::V6(77)).1.map(|r| r.asn), Some(4));
}

#[test]
fn higher_hits_supersede() {
    assert!(BgpTools::supersedes(3, 5));
    assert!(BgpTools::supersedes(5, 5));
    assert!(!BgpTools::supersedes(6, 5));
}

#[test]
fn ranges_compare_by_prefix_length() {
    let a = NetRange { min: 0, max: 255, len: 24, asn: 1 };
    let b = NetRange { min: 512, max: 767, len: 24, asn: 2 };
    let c = NetRange { min: 0, max: 65535, len: 16, asn: 3 };
    assert!(a == b);
    assert!(a != c);
    assert!(c < a);
    assert_eq!(a.partial_cmp(&b), Some(std::cmp::Ordering::Equal));
}

#[test]
fn byte_keys() {
    assert_eq!(v4(10, 1, 2, 3).get_bytekey(), vec![10, 1, 2, 3]);
    assert_eq!(net4(10, 1, 0, 0, 16).get_bytekey(), vec![10, 1]);
    assert_eq!(net4(10, 1, 2, 0, 23).get_bytekey(), vec![10, 1, 2]);
    assert_eq!(net4(0, 0, 0, 0, 0).get_bytekey(), Vec::<u8>::new());
    let n6 = Ipv6Net::new(0x2001_0db8u128 << 96, 32).unwrap();
    assert_eq!(n6.get_bytekey(), vec![0x20, 0x01, 0x0d, 0xb8]);
    assert_eq!(1u128.get_bytekey().len(), 16);
}

#[test]
fn micros_with_three_decimals() {
    assert_eq!(ip2asn::text::micros_float(12345), "12.345");
    assert_eq!(ip2asn::text::micros_float(7), "0.007");
    assert_eq!(ip2asn::text::micros_float(1_000_000), "1000.000");
    assert_eq!(ip2asn::text::micros_float(1_050), "1.050");
}
