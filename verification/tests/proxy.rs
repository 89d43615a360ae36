use rustgate::addr::{
    canonical_ip, cidr_match, ip_text, normalize_ip, normalize_ip_str, parse_ip, parse_socket,
    socket_text, IpAddr, SocketAddr,
};
use rustgate::proxy::{
    client_by, client_ip, ignored_items, parse_trusted_item, TrustedItem, TrustedProxies,
};

fn mk_headers(pairs: &[(&str, &str)]) -> hyper::HeaderMap {
    let mut h = hyper::HeaderMap::new();
    for (k, v) in pairs {
        h.insert(
            hyper::header::HeaderName::from_bytes(k.as_bytes()).unwrap(),
            hyper::header::HeaderValue::from_str(v).unwrap(),
        );
    }
    h
}

fn ip(s: &str) -> IpAddr {
    parse_ip(s).unwrap()
}

#[test]
fn trusted_proxies_parse_exact_and_cidr() {
    let t = TrustedProxies::parse("192.168.1.5,10.0.0.0/8,::1,2001:db8::/32");
    assert!(t.contains(ip("192.168.1.5")));
    assert!(t.contains(ip("10.20.30.40")));
    assert!(!t.contains(ip("11.0.0.1")));
    assert!(t.contains(ip("::1")));
    assert!(t.contains(ip("2001:db8::1234")));
    assert!(!t.contains(ip("2001:db9::1")));
}

#[test]
fn trusted_proxies_ignore_invalid_entries() {
    let t = TrustedProxies::parse("not-an-ip,1.2.3.4/99,2.3.4.5");
    assert!(t.contains(ip("2.3.4.5")));
    assert!(!t.contains(ip("1.2.3.4")));
    assert!(!t.contains(ip("1.2.3.5")));
}

#[test]
fn canonical_ip_normalizes_v4_mapped_v6() {
    let v4 = ip("1.2.3.4");
    let v6 = ip("2001:db8::1");
    assert_eq!(canonical_ip(ip("::ffff:1.2.3.4")), v4);
    assert_eq!(canonical_ip(ip("2001:db8::1")), v6);
    assert_eq!(canonical_ip(v4), v4);
}

#[test]
fn cidr_match_v4_v6_and_zero_prefix() {
    assert!(cidr_match(ip("10.0.0.0"), 8, ip("10.5.6.7")));
    assert!(!cidr_match(ip("10.0.0.0"), 8, ip("11.5.6.7")));
    assert!(cidr_match(ip("2001:db8::"), 32, ip("2001:db8::ffff")));
    assert!(cidr_match(ip("0.0.0.0"), 0, ip("8.8.8.8")));
}

#[test]
fn client_ip_uses_peer_when_not_trusted() {
    let t = TrustedProxies::parse("192.168.1.5");
    let headers = mk_headers(&[("x-forwarded-for", "6.6.6.6")]);
    assert_eq!(client_ip(ip("1.2.3.4"), &headers, &t), "1.2.3.4");
}

#[test]
fn client_ip_walks_trusted_chain_right_to_left() {
    let t = TrustedProxies::parse("127.0.0.1,192.168.1.5");
    let headers = mk_headers(&[("x-forwarded-for", "203.0.113.7, 192.168.1.5")]);
    assert_eq!(client_ip(ip("127.0.0.1"), &headers, &t), "203.0.113.7");
}

#[test]
fn client_ip_all_trusted_uses_leftmost() {
    let t = TrustedProxies::parse("127.0.0.1,192.168.1.5,192.168.1.9");
    let headers = mk_headers(&[("x-forwarded-for", "192.168.1.9, 192.168.1.5")]);
    assert_eq!(client_ip(ip("127.0.0.1"), &headers, &t), "192.168.1.9");
}

#[test]
fn client_ip_empty_xff_falls_back_to_peer() {
    let t = TrustedProxies::parse("127.0.0.1");
    let headers = mk_headers(&[("x-forwarded-for", "not-an-ip")]);
    assert_eq!(client_ip(ip("127.0.0.1"), &headers, &t), "127.0.0.1");
}

#[test]
fn claims_left_of_an_untrusted_address_do_not_count() {
    let t = TrustedProxies::parse("127.0.0.1,192.168.0.0/16");
    let headers = mk_headers(&[("X-Forwarded-For", "6.6.6.6, 203.0.113.7, 192.168.1.5")]);
    assert_eq!(client_ip(ip("::ffff:127.0.0.1"), &headers, &t), "203.0.113.7");
    assert_eq!(client_by(ip("127.0.0.1"), None, &t), ip("127.0.0.1"));
    assert_eq!(
        client_by(ip("127.0.0.1"), Some("6.6.6.6,::ffff:9.9.9.9"), &t),
        ip("9.9.9.9")
    );
}

#[test]
fn only_the_first_forwarding_header_counts() {
    let t = TrustedProxies::parse("127.0.0.1");
    let mut headers = hyper::HeaderMap::new();
    headers.append("x-forwarded-for", "5.5.5.5".parse().unwrap());
    headers.append("x-forwarded-for", "6.6.6.6".parse().unwrap());
    assert_eq!(client_ip(ip("127.0.0.1"), &headers, &t), "5.5.5.5");
}

#[test]
fn a_network_of_mapped_addresses_is_one_of_dotted_ones() {
    let t = TrustedProxies::parse("1.1.1.1, ::ffff:10.0.0.0/104");
    assert!(t.contains(ip("1.1.1.1")));
    assert!(t.contains(ip("10.5.6.7")));
    assert!(t.contains(ip("::ffff:10.5.6.7")));
    assert!(!t.contains(ip("11.5.6.7")));
    assert!(!t.contains(ip("2001:db8::1")));
    assert_eq!(client_ip(ip("2.2.2.2"), &mk_headers(&[]), &t), "2.2.2.2");
    assert_eq!(client_ip(ip("::2"), &mk_headers(&[]), &t), "::2");
    assert_eq!(
        parse_trusted_item("::ffff:10.0.0.0/96"),
        Some(TrustedItem::Network(ip("10.0.0.0"), 0))
    );
    assert_eq!(
        parse_trusted_item("::ffff:10.0.0.1/128"),
        Some(TrustedItem::Network(ip("10.0.0.1"), 32))
    );
    // A prefix that a dotted address can have is its own.
    assert_eq!(
        parse_trusted_item("::ffff:10.0.0.0/8"),
        Some(TrustedItem::Network(ip("10.0.0.0"), 8))
    );
    let short = TrustedProxies::parse("::ffff:10.0.0.0/8");
    assert!(short.contains(ip("10.5.6.7")));
    assert!(!short.contains(ip("11.5.6.7")));
    assert!(!short.contains(ip("::1")));
    assert_eq!(
        parse_trusted_item("::ffff:10.0.0.1/32"),
        Some(TrustedItem::Network(ip("10.0.0.1"), 32))
    );
    // One between the two makes a network of long addresses.
    assert_eq!(
        parse_trusted_item("::ffff:10.0.0.0/33"),
        Some(TrustedItem::Network(ip("::ffff:10.0.0.0"), 33))
    );
    assert_eq!(
        parse_trusted_item("::ffff:10.0.0.0/95"),
        Some(TrustedItem::Network(ip("::ffff:10.0.0.0"), 95))
    );
    assert!(TrustedProxies::parse("::ffff:10.0.0.0/95").contains(ip("::fffe:1.2.3.4")));
    assert_eq!(parse_trusted_item("::ffff:10.0.0.0/129"), None);
}

#[test]
fn items_are_trimmed_and_may_carry_a_plus() {
    let raw = " 10.0.0.0/+8 ,, 2.2.2.2 , 3.3.3.0/ 24, 4.4.4.4/-1,5.5.5.5/";
    let t = TrustedProxies::parse(raw);
    assert!(t.contains(ip("10.1.2.3")));
    assert!(t.contains(ip("2.2.2.2")));
    assert!(!t.contains(ip("3.3.3.1")));
    assert!(!t.contains(ip("4.4.4.4")));
    assert!(!t.contains(ip("5.5.5.5")));
    assert!(!TrustedProxies::default().contains(ip("0.0.0.0")));
    assert!(t.clone().contains(ip("10.1.2.3")));
    assert_eq!(
        parse_trusted_item("10.0.0.0/+8"),
        Some(TrustedItem::Network(ip("10.0.0.0"), 8))
    );
    assert_eq!(
        parse_trusted_item("::ffff:2.2.2.2"),
        Some(TrustedItem::Address(ip("2.2.2.2")))
    );
}

#[test]
fn items_that_are_left_out_are_told() {
    assert_eq!(
        ignored_items(" 10.0.0.0/+8 ,, 2.2.2.2 , 3.3.3.0/ 24, 4.4.4.4/-1,5.5.5.5/,x"),
        vec!["3.3.3.0/ 24", "4.4.4.4/-1", "5.5.5.5/", "x"]
    );
    assert_eq!(ignored_items("not-an-ip,1.2.3.4/99,2.3.4.5"), vec!["not-an-ip", "1.2.3.4/99"]);
    assert!(ignored_items("").is_empty());
}

#[test]
fn addresses_that_are_read() {
    for (s, a) in [
        ("0.0.0.0", IpAddr::V4(0)),
        ("255.255.255.255", IpAddr::V4(u32::MAX)),
        ("1.2.3.4", IpAddr::V4(0x0102_0304)),
        ("::", IpAddr::V6(0)),
        ("::1", IpAddr::V6(1)),
        ("1::", IpAddr::V6(1 << 112)),
        ("1:2:3:4:5:6:7::", IpAddr::V6(0x0001_0002_0003_0004_0005_0006_0007_0000)),
        ("1:2:3:4:5:6:7:8", IpAddr::V6(0x0001_0002_0003_0004_0005_0006_0007_0008)),
        ("::ffff:1.2.3.4", IpAddr::V6(0xffff_0102_0304)),
        ("1:2:3:4:5:6:1.2.3.4", IpAddr::V6(0x0001_0002_0003_0004_0005_0006_0102_0304)),
        ("FE80::0aB", IpAddr::V6(0xfe80_0000_0000_0000_0000_0000_0000_00ab)),
    ] {
        assert_eq!(parse_ip(s), Some(a), "{s}");
    }
}

#[test]
fn texts_that_are_no_address() {
    for s in [
        "", "1.2.3", "1.2.3.4.5", "256.1.1.1", "01.2.3.4", "1.2.3.4 ", "1..2.3", "1.2.3.0004",
        ":", ":::", "1:2:3:4:5:6:7", "1:2:3:4:5:6:7:8:9", "1:2:3:4:5:6:7:8::", "1::2::3",
        "12345::", "g::", "1.2.3.4::", "::1.2.3.4:5", "1:2:3:4:5:6:7:1.2.3.4",
        "1:2:3:4:5:6::1.2.3.4", ":1::2", "::1:", "[::1]", "::1%1",
    ] {
        assert_eq!(parse_ip(s), None, "{s}");
    }
}

#[test]
fn addresses_are_read_back_from_their_text() {
    for s in [
        "0.0.0.0", "10.20.30.40", "::", "::1", "1::", "1:0:0:2::3", "2001:db8::1:0:0:1",
        "1:2:3:4:5:6:7:8", "1:0:3:4:5:6:7:8", "::ffff:9.8.7.6", "::fffe:909:909", "fe80::a:b",
    ] {
        let a = ip(s);
        assert_eq!(ip_text(a), s);
        assert_eq!(parse_ip(&ip_text(a)), Some(a));
    }
    // Of two runs of the same length the first is left out.
    assert_eq!(ip_text(ip("1:0:0:2:0:0:3:4")), "1::2:0:0:3:4");
}

#[test]
fn normalized_texts_stay() {
    assert_eq!(normalize_ip_str(" ::FFFF:1.2.3.4\t").unwrap(), "1.2.3.4");
    assert_eq!(normalize_ip(ip("::ffff:1.2.3.4")), "1.2.3.4");
    let once = normalize_ip_str("2001:DB8::0").unwrap();
    assert_eq!(once, "2001:db8::");
    assert_eq!(normalize_ip_str(&once).unwrap(), once);
}

#[test]
fn networks_at_their_edges() {
    assert!(cidr_match(ip("1.2.3.4"), 32, ip("1.2.3.4")));
    assert!(!cidr_match(ip("1.2.3.4"), 32, ip("1.2.3.5")));
    assert!(cidr_match(ip("1.2.3.4"), 31, ip("1.2.3.5")));
    assert!(cidr_match(ip("::1"), 128, ip("::1")));
    assert!(!cidr_match(ip("::1"), 128, ip("::2")));
    assert!(cidr_match(ip("::"), 0, ip("ffff::")));
    assert!(!cidr_match(ip("0.0.0.0"), 0, ip("::")));
}

#[test]
fn addresses_with_ports() {
    assert_eq!(
        parse_socket("127.0.0.1:9001"),
        Some(SocketAddr::V4 { ip: 0x7f00_0001, port: 9001 })
    );
    assert_eq!(
        parse_socket("[::]:19193"),
        Some(SocketAddr::V6 { addr: 0, scope: 0, port: 19193 })
    );
    assert_eq!(
        parse_socket("[fe80::1%2]:080"),
        Some(SocketAddr::V6 {
            addr: 0xfe80_0000_0000_0000_0000_0000_0000_0001,
            scope: 2,
            port: 80
        })
    );
    for s in [
        "", "127.0.0.1", "127.0.0.1:", "127.0.0.1:65536", "::1:80", "[::1]", "[::1]80", "[::1]:",
        "[::1%]:1", "[1.2.3.4]:80", "localhost:80", "[::1]:8]0", "127.0.0.1:+1",
    ] {
        assert_eq!(parse_socket(s), None, "{s}");
    }
    for s in ["127.0.0.1:0", "[::1]:80", "[fe80::1%2]:65535", "[::ffff:1.2.3.4]:1"] {
        let a = parse_socket(s).unwrap();
        assert_eq!(socket_text(a), s);
    }
}
