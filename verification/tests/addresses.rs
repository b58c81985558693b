use net_use::addr::{ip_to_discovered, should_skip, DiscoveredAddress, IpAddress, Ipv4Address, Ipv6Address};
use net_use::aggregator::Aggregator;

fn v6(s: [u16; 8]) -> Ipv6Address {
    Ipv6Address::new(s[0], s[1], s[2], s[3], s[4], s[5], s[6], s[7])
}

#[test]
fn test_ipv4_display_uses_24_mask() {
    let addr = DiscoveredAddress::from_ipv4(Ipv4Address::new(142, 250, 80, 37));
    assert_eq!(addr.to_string(), "142.250.80.0/24");
}

#[test]
fn test_ipv6_display_uses_64_mask() {
    let addr = DiscoveredAddress::from_ipv6(v6([0x2607, 0x6bc0, 0, 0, 0, 0, 0, 0x10]));
    assert_eq!(addr.to_string(), "2607:6bc0::/64");
}

#[test]
fn ipv4_text() {
    assert_eq!(Ipv4Address::new(1, 2, 3, 4).to_string(), "1.2.3.4");
    assert_eq!(Ipv4Address::new(0, 0, 0, 0).to_string(), "0.0.0.0");
    assert_eq!(Ipv4Address::new(255, 255, 255, 255).to_string(), "255.255.255.255");
}

#[test]
fn ipv6_text_follows_canonical_form() {
    assert_eq!(v6([0, 0, 0, 0, 0, 0, 0, 0]).to_string(), "::");
    assert_eq!(v6([0, 0, 0, 0, 0, 0, 0, 1]).to_string(), "::1");
    assert_eq!(v6([0x2001, 0xdb8, 0, 0, 0, 0, 0, 1]).to_string(), "2001:db8::1");
    assert_eq!(v6([0x2001, 0xdb8, 0, 1, 0, 0, 0, 1]).to_string(), "2001:db8:0:1::1");
    assert_eq!(v6([0x2001, 0xdb8, 0, 0, 1, 0, 0, 1]).to_string(), "2001:db8::1:0:0:1");
    assert_eq!(v6([1, 0, 2, 3, 4, 5, 6, 7]).to_string(), "1:0:2:3:4:5:6:7");
    assert_eq!(v6([0xfe80, 0, 0, 0, 0xabcd, 0, 0, 0]).to_string(), "fe80::abcd:0:0:0");
    assert_eq!(v6([0, 0, 0, 0, 0, 0xffff, 0xc000, 0x0280]).to_string(), "::ffff:192.0.2.128");
    assert_eq!(v6([1, 2, 3, 4, 5, 6, 7, 0]).to_string(), "1:2:3:4:5:6:7:0");
    assert_eq!(v6([0xffff; 8]).to_string(), "ffff:ffff:ffff:ffff:ffff:ffff:ffff:ffff");
}

#[test]
fn subnet_masks_drop_host_part() {
    assert_eq!(
        DiscoveredAddress::from_ipv4(Ipv4Address::new(10, 1, 2, 3)),
        DiscoveredAddress::from_ipv4(Ipv4Address::new(10, 1, 2, 250))
    );
    assert_ne!(
        DiscoveredAddress::from_ipv4(Ipv4Address::new(10, 1, 2, 3)),
        DiscoveredAddress::from_ipv4(Ipv4Address::new(10, 1, 3, 3))
    );
    assert_eq!(
        ip_to_discovered(IpAddress::V6(v6([0x2001, 0xdb8, 1, 2, 3, 4, 5, 6]))).to_string(),
        "2001:db8:1:2::/64"
    );
    assert_eq!(
        ip_to_discovered(IpAddress::V4(Ipv4Address::new(8, 8, 4, 4))).to_string(),
        "8.8.4.0/24"
    );
}

#[test]
fn skipped_addresses() {
    assert!(should_skip(&IpAddress::V4(Ipv4Address::new(127, 0, 0, 1))));
    assert!(should_skip(&IpAddress::V4(Ipv4Address::new(127, 9, 9, 9))));
    assert!(should_skip(&IpAddress::V4(Ipv4Address::new(0, 0, 0, 0))));
    assert!(should_skip(&IpAddress::V4(Ipv4Address::new(169, 254, 1, 1))));
    assert!(!should_skip(&IpAddress::V4(Ipv4Address::new(169, 253, 1, 1))));
    assert!(!should_skip(&IpAddress::V4(Ipv4Address::new(8, 8, 8, 8))));
    assert!(should_skip(&IpAddress::V6(v6([0, 0, 0, 0, 0, 0, 0, 1]))));
    assert!(should_skip(&IpAddress::V6(v6([0, 0, 0, 0, 0, 0, 0, 0]))));
    assert!(should_skip(&IpAddress::V6(v6([0xfe80, 0, 0, 0, 0, 0, 0, 1]))));
    assert!(should_skip(&IpAddress::V6(v6([0xfebf, 0, 0, 0, 0, 0, 0, 1]))));
    assert!(!should_skip(&IpAddress::V6(v6([0xfec0, 0, 0, 0, 0, 0, 0, 1]))));
    assert!(!should_skip(&IpAddress::V6(v6([0x2607, 0x6bc0, 0, 0, 0, 0, 0, 0x10]))));
}

#[test]
fn aggregator_reports_each_subnet_once() {
    let mut agg = Aggregator::new();
    let a = IpAddress::V4(Ipv4Address::new(142, 250, 80, 37));
    let b = IpAddress::V4(Ipv4Address::new(142, 250, 80, 99));
    let r = agg.add(a);
    assert_eq!(r.discovered, Some(DiscoveredAddress::from_ipv4(Ipv4Address::new(142, 250, 80, 0))));
    assert_eq!(r.raw_ipv4, Some(Ipv4Address::new(142, 250, 80, 37)));
    assert_eq!(r.raw_ipv6, None);
    let r = agg.add(b);
    assert_eq!(r.discovered, None);
    assert_eq!(r.raw_ipv4, Some(Ipv4Address::new(142, 250, 80, 99)));
    let r = agg.add(a);
    assert_eq!(r.discovered, None);
    assert_eq!(r.raw_ipv4, None);
    let r = agg.add(IpAddress::V4(Ipv4Address::new(127, 0, 0, 1)));
    assert_eq!(r.discovered, None);
    assert_eq!(r.raw_ipv4, None);
    let c = IpAddress::V6(v6([0x2607, 0x6bc0, 0, 0, 0, 0, 0, 0x10]));
    let r = agg.add(c);
    assert_eq!(r.discovered.map(|d| d.to_string()), Some("2607:6bc0::/64".to_string()));
    assert_eq!(r.raw_ipv6, Some(v6([0x2607, 0x6bc0, 0, 0, 0, 0, 0, 0x10])));
    assert_eq!(r.raw_ipv4, None);
}

#[test]
fn remote_address_from_socket_info() {
    let v6_bytes = [
        0x26, 0x07, 0x6b, 0xc0, 0, 0, 0, 0, 0, 0, 0, 0, 0, 0, 0, 0x10,
    ];
    assert_eq!(
        net_use::addr::extract_remote_addr(1, [142, 250, 80, 37], [0; 16]),
        Some(IpAddress::V4(Ipv4Address::new(142, 250, 80, 37)))
    );
    assert_eq!(net_use::addr::extract_remote_addr(1, [0, 0, 0, 0], v6_bytes), None);
    assert_eq!(
        net_use::addr::extract_remote_addr(2, [1, 2, 3, 4], v6_bytes),
        Some(IpAddress::V6(v6([0x2607, 0x6bc0, 0, 0, 0, 0, 0, 0x10])))
    );
    assert_eq!(net_use::addr::extract_remote_addr(2, [1, 2, 3, 4], [0; 16]), None);
    assert_eq!(net_use::addr::extract_remote_addr(0, [1, 2, 3, 4], v6_bytes), None);
    assert_eq!(
        net_use::addr::extract_remote_addr(3, [1, 2, 3, 4], v6_bytes),
        Some(IpAddress::V4(Ipv4Address::new(1, 2, 3, 4)))
    );
}

#[test]
fn ipv6_text_compresses_the_leftmost_longest_zero_run() {
    let samples: Vec<([u16; 8], &str)> = vec![
        ([0, 0, 1, 0, 0, 0, 1, 0], "0:0:1::1:0"),
        ([1, 0, 0, 2, 0, 0, 0, 3], "1:0:0:2::3"),
        ([0, 0, 0, 0, 0, 0xffff, 0x7f00, 1], "::ffff:127.0.0.1"),
        ([0, 0, 0, 0, 0, 0, 0x7f00, 1], "::7f00:1"),
        ([0, 1, 0, 1, 0, 1, 0, 1], "0:1:0:1:0:1:0:1"),
        ([0xfe80, 0, 0, 0, 0, 0, 0, 0], "fe80::"),
        ([0, 0, 0, 0xabc, 0, 0, 0, 0], "0:0:0:abc::"),
        ([1, 0, 0, 2, 3, 0, 0, 4], "1::2:3:0:0:4"),
        ([0x2001, 0xdb8, 0x85a3, 0, 0, 0x8a2e, 0x370, 0x7334], "2001:db8:85a3::8a2e:370:7334"),
    ];
    for (s, expected) in samples {
        assert_eq!(v6(s).to_string(), expected);
    }
}
