use http2socks::addr::{
    check_bracketed_ipv6, check_hex_group, check_ipv6, check_socket_addr_v6, parse_ipv4,
    parse_octet, parse_port, parse_socket_addr_v4, ProxyTarget,
};
use http2socks::text::{find_first, find_last, parse_decimal, same_bytes, split_at_each};

#[test]
fn find_first_and_last_place_of_a_byte() {
    assert_eq!(find_first(b"a:b:c", b':'), Some(1));
    assert_eq!(find_last(b"a:b:c", b':'), Some(3));
    assert_eq!(find_first(b"abc", b':'), None);
    assert_eq!(find_last(b"abc", b':'), None);
    assert_eq!(find_first(b"", b':'), None);
    assert_eq!(find_last(b":", b':'), Some(0));
}

#[test]
fn split_keeps_empty_pieces() {
    assert_eq!(split_at_each(b"1.2.3.4", b'.'), vec![b"1".to_vec(), b"2".to_vec(), b"3".to_vec(), b"4".to_vec()]);
    assert_eq!(split_at_each(b"", b'.'), vec![Vec::<u8>::new()]);
    assert_eq!(split_at_each(b".", b'.'), vec![Vec::<u8>::new(), Vec::<u8>::new()]);
    assert_eq!(split_at_each(b"a..b", b'.'), vec![b"a".to_vec(), Vec::<u8>::new(), b"b".to_vec()]);
    assert_eq!(split_at_each(b"ab", b'.'), vec![b"ab".to_vec()]);
}

#[test]
fn same_bytes_compares_whole_strings() {
    assert!(same_bytes(b"CONNECT", b"CONNECT"));
    assert!(!same_bytes(b"CONNECT", b"CONNECt"));
    assert!(!same_bytes(b"CONNECT", b"CONNEC"));
    assert!(same_bytes(b"", b""));
}

#[test]
fn decimal_numerals_up_to_a_bound() {
    assert_eq!(parse_decimal(b"0", 255), Some(0));
    assert_eq!(parse_decimal(b"255", 255), Some(255));
    assert_eq!(parse_decimal(b"256", 255), None);
    assert_eq!(parse_decimal(b"0000080", 65535), Some(80));
    assert_eq!(parse_decimal(b"65535", 65535), Some(65535));
    assert_eq!(parse_decimal(b"65536", 65535), None);
    assert_eq!(parse_decimal(b"", 65535), None);
    assert_eq!(parse_decimal(b"12a", 65535), None);
    assert_eq!(parse_decimal(b"4294967295", 0xffff_ffff), Some(4294967295));
    assert_eq!(parse_decimal(b"4294967296", 0xffff_ffff), None);
    assert_eq!(parse_decimal(b"99999999999999999999999999", 0xffff_ffff), None);
}

#[test]
fn port_beside_a_host_name() {
    assert_eq!(parse_port(b"443"), Some(443));
    assert_eq!(parse_port(b"+80"), Some(80));
    assert_eq!(parse_port(b"0"), Some(0));
    assert_eq!(parse_port(b"65535"), Some(65535));
    assert_eq!(parse_port(b"65536"), None);
    assert_eq!(parse_port(b""), None);
    assert_eq!(parse_port(b"+"), None);
    assert_eq!(parse_port(b"-1"), None);
    assert_eq!(parse_port(b"++1"), None);
    assert_eq!(parse_port(b"8o"), None);
}

#[test]
fn octets_have_no_leading_zero() {
    assert_eq!(parse_octet(b"0"), Some(0));
    assert_eq!(parse_octet(b"10"), Some(10));
    assert_eq!(parse_octet(b"255"), Some(255));
    assert_eq!(parse_octet(b"256"), None);
    assert_eq!(parse_octet(b"01"), None);
    assert_eq!(parse_octet(b""), None);
    assert_eq!(parse_octet(b"1234"), None);
}

#[test]
fn dotted_quads() {
    assert_eq!(parse_ipv4(b"127.0.0.1"), Some([127, 0, 0, 1]));
    assert_eq!(parse_ipv4(b"255.255.255.255"), Some([255, 255, 255, 255]));
    assert_eq!(parse_ipv4(b"0.0.0.0"), Some([0, 0, 0, 0]));
    assert_eq!(parse_ipv4(b"1.2.3"), None);
    assert_eq!(parse_ipv4(b"1.2.3.4.5"), None);
    assert_eq!(parse_ipv4(b"1.2.3.256"), None);
    assert_eq!(parse_ipv4(b"1.2..4"), None);
    assert_eq!(parse_ipv4(b"01.2.3.4"), None);
    assert_eq!(parse_ipv4(b"example.com"), None);
    assert_eq!(parse_ipv4(b""), None);
}

#[test]
fn hex_groups() {
    assert!(check_hex_group(b"0"));
    assert!(check_hex_group(b"ffff"));
    assert!(check_hex_group(b"AbCd"));
    assert!(!check_hex_group(b""));
    assert!(!check_hex_group(b"12345"));
    assert!(!check_hex_group(b"g"));
}

#[test]
fn ipv6_texts_that_are_addresses() {
    assert!(check_ipv6(b"::"));
    assert!(check_ipv6(b"::1"));
    assert!(check_ipv6(b"1::"));
    assert!(check_ipv6(b"1:2:3:4:5:6:7:8"));
    assert!(check_ipv6(b"1:2:3:4:5:6:1.2.3.4"));
    assert!(check_ipv6(b"::ffff:1.2.3.4"));
    assert!(check_ipv6(b"::1.2.3.4"));
    assert!(check_ipv6(b"1::2:3:4:5:6:7"));
    assert!(check_ipv6(b"1:2:3:4:5:6:7::"));
    assert!(check_ipv6(b"fe80::1"));
    assert!(check_ipv6(b"ABCD:ef01::"));
    assert!(check_ipv6(b"2001:db8::8a2e:370:7334"));
}

#[test]
fn ipv6_texts_that_are_no_addresses() {
    assert!(!check_ipv6(b""));
    assert!(!check_ipv6(b":"));
    assert!(!check_ipv6(b":::"));
    assert!(!check_ipv6(b"1"));
    assert!(!check_ipv6(b"1:2:3:4:5:6:7"));
    assert!(!check_ipv6(b"1:2:3:4:5:6:7:8:9"));
    assert!(!check_ipv6(b"1::2::3"));
    assert!(!check_ipv6(b"12345::"));
    assert!(!check_ipv6(b"g::1"));
    assert!(!check_ipv6(b"1:2:3:4:5:6:7:1.2.3.4"));
    assert!(!check_ipv6(b"1.2.3.4::"));
    assert!(!check_ipv6(b"1:2:3:4:5:6:7:8::"));
    assert!(!check_ipv6(b"::1:2:3:4:5:6:7:8"));
    assert!(!check_ipv6(b"1::1.2.3.4:5"));
    assert!(!check_ipv6(b":1:2:3:4:5:6:7:8"));
    assert!(!check_ipv6(b"1:2:3:4:5:6:7:"));
    assert!(!check_ipv6(b"1.2.3.4"));
}

#[test]
fn bracketed_ipv6_hosts() {
    assert!(check_bracketed_ipv6(b"[::1]"));
    assert!(check_bracketed_ipv6(b"[fe80::1%3]"));
    assert!(check_bracketed_ipv6(b"[fe80::1%4294967295]"));
    assert!(!check_bracketed_ipv6(b"[fe80::1%4294967296]"));
    assert!(!check_bracketed_ipv6(b"[fe80::1%]"));
    assert!(!check_bracketed_ipv6(b"[fe80::1%eth0]"));
    assert!(!check_bracketed_ipv6(b"::1"));
    assert!(!check_bracketed_ipv6(b"[::1"));
    assert!(!check_bracketed_ipv6(b"[]"));
    assert!(!check_bracketed_ipv6(b"["));
    assert!(!check_bracketed_ipv6(b""));
    assert!(!check_bracketed_ipv6(b"[1.2.3.4]"));
}

#[test]
fn ipv4_socket_addresses() {
    let a = parse_socket_addr_v4(b"127.0.0.1:8000").unwrap();
    assert_eq!(a.octets, [127, 0, 0, 1]);
    assert_eq!(a.port, 8000);
    let b = parse_socket_addr_v4(b"10.1.2.3:0080").unwrap();
    assert_eq!(b.octets, [10, 1, 2, 3]);
    assert_eq!(b.port, 80);
    assert!(parse_socket_addr_v4(b"127.0.0.1").is_none());
    assert!(parse_socket_addr_v4(b"127.0.0.1:").is_none());
    assert!(parse_socket_addr_v4(b"127.0.0.1:+80").is_none());
    assert!(parse_socket_addr_v4(b"127.0.0.1:65536").is_none());
    assert!(parse_socket_addr_v4(b"127.0.0.1:80:80").is_none());
    assert!(parse_socket_addr_v4(b"example.com:80").is_none());
    assert!(parse_socket_addr_v4(b"[::1]:80").is_none());
}

#[test]
fn ipv6_socket_addresses() {
    assert!(check_socket_addr_v6(b"[::1]:443"));
    assert!(check_socket_addr_v6(b"[2001:db8::1]:80"));
    assert!(check_socket_addr_v6(b"[fe80::1%7]:8080"));
    assert!(!check_socket_addr_v6(b"[::1]"));
    assert!(!check_socket_addr_v6(b"[::1]:"));
    assert!(!check_socket_addr_v6(b"[::1]:65536"));
    assert!(!check_socket_addr_v6(b"[::1]:+80"));
    assert!(!check_socket_addr_v6(b"::1:80"));
    assert!(!check_socket_addr_v6(b"127.0.0.1:80"));
    assert!(!check_socket_addr_v6(b"example.com:80"));
}

#[test]
fn target_is_split_at_the_last_colon() {
    let t = ProxyTarget::parse(b"example.com:443").unwrap();
    assert_eq!(t.host_or_ip, b"example.com".to_vec());
    assert_eq!(t.port, 443);
    let u = ProxyTarget::parse(b"a:80:8080").unwrap();
    assert_eq!(u.host_or_ip, b"a:80".to_vec());
    assert_eq!(u.port, 8080);
    let v = ProxyTarget::parse(b":1").unwrap();
    assert_eq!(v.host_or_ip, Vec::<u8>::new());
    assert_eq!(v.port, 1);
    assert!(ProxyTarget::parse(b"example.com").is_none());
    assert!(ProxyTarget::parse(b"example.com:").is_none());
    assert!(ProxyTarget::parse(b"example.com:http").is_none());
    assert!(ProxyTarget::parse(b"example.com:70000").is_none());
    assert!(ProxyTarget::parse(b"a:80:zz").is_none());
}
