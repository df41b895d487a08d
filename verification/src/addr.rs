//! The texts that name a destination: `host:port`, an IPv4 socket address
//! such as `10.0.0.1:80`, or an IPv6 one such as `[::1]:80`.
//!
//! Every text is split at its last colon into a host and a port. What the
//! host looks like then decides the kind of the destination.

use crate::text::{
    copy_range, decimal_value, find_first, find_last, is_decimal_up_to, is_digit,
    lemma_split_first_piece, parse_decimal, split, split_at_each, views, CLOSE_BRACKET, COLON, DOT,
    OPEN_BRACKET, PERCENT, PLUS,
};
use vstd::prelude::*;

verus! {

/// The largest port number.
pub const MAX_PORT: u32 = 65535;

/// A host, as it was written, and the port beside it.
#[derive(Debug)]
pub struct ProxyTarget {
    pub host_or_ip: Vec<u8>,
    pub port: u16,
}

/// An IPv4 address, most significant byte first, and a port.
#[derive(Clone, Copy, Debug)]
pub struct SocketAddrV4 {
    pub octets: [u8; 4],
    pub port: u16,
}

/// `s` writes one of the four numbers of a dotted quad: one to three digits,
/// no zero in front of another digit, and no more than 255.
pub open spec fn is_octet_text(s: Seq<u8>) -> bool {
    &&& 1 <= s.len() <= 3
    &&& s.len() > 1 ==> s[0] != 0x30
    &&& is_decimal_up_to(s, 255)
}

/// `s` is an IPv4 address in dotted-quad form.
pub open spec fn is_ipv4_text(s: Seq<u8>) -> bool {
    let parts = split(s, DOT);
    parts.len() == 4 && forall|k: int| 0 <= k < 4 ==> is_octet_text(#[trigger] parts[k])
}

/// The four bytes that the dotted quad `s` writes.
pub open spec fn ipv4_octets(s: Seq<u8>) -> Seq<u8> {
    Seq::new(4, |k: int| decimal_value(split(s, DOT)[k]) as u8)
}

/// `b` is a hexadecimal digit, in either case.
pub open spec fn is_hex_digit(b: u8) -> bool {
    is_digit(b) || 0x41 <= b <= 0x46 || 0x61 <= b <= 0x66
}

/// `s` writes one 16-bit group of an IPv6 address: one to four hex digits.
pub open spec fn is_hex_group(s: Seq<u8>) -> bool {
    1 <= s.len() <= 4 && forall|i: int| 0 <= i < s.len() ==> is_hex_digit(#[trigger] s[i])
}

/// How many 16-bit groups the colon-separated `pieces` write, if they are
/// well formed and no more than eight. Each piece is a hex group; where
/// `quad_allowed`, the last may be a dotted quad instead, which writes two.
pub open spec fn group_count(pieces: Seq<Seq<u8>>, quad_allowed: bool) -> Option<nat> {
    if pieces.len() == 0 || pieces.len() > 8 {
        None
    } else if !(forall|k: int| 0 <= k < pieces.len() - 1 ==> is_hex_group(#[trigger] pieces[k])) {
        None
    } else if is_hex_group(pieces.last()) {
        Some(pieces.len())
    } else if quad_allowed && is_ipv4_text(pieces.last()) {
        Some(pieces.len() + 1)
    } else {
        None
    }
}

/// How many groups the text on one side of a `::` writes. An empty side
/// writes none.
pub open spec fn groups_in(s: Seq<u8>, quad_allowed: bool) -> Option<nat> {
    if s.len() == 0 {
        Some(0)
    } else {
        group_count(split(s, COLON), quad_allowed)
    }
}

/// Two colons stand together at place `i` of `s`.
pub open spec fn is_gap_at(s: Seq<u8>, i: int) -> bool {
    0 <= i && i + 1 < s.len() && s[i] == COLON && s[i + 1] == COLON
}

/// `i` is the first place of `s` where two colons stand together.
pub open spec fn is_first_gap(s: Seq<u8>, i: int) -> bool {
    is_gap_at(s, i) && forall|j: int| 0 <= j < i ==> !is_gap_at(s, j)
}

/// `s` is an IPv6 address. Either it writes all eight groups, the last two
/// perhaps as a dotted quad; or it has a `::`, taken where two colons first
/// stand together, with at most seven groups around it, and a dotted quad
/// only at the very end.
pub open spec fn is_ipv6_text(s: Seq<u8>) -> bool {
    if exists|i: int| is_gap_at(s, i) {
        let i = choose|i: int| is_first_gap(s, i);
        match (groups_in(s.take(i), false), groups_in(s.skip(i + 2), true)) {
            (Some(head), Some(tail)) => head + tail <= 7,
            _ => false,
        }
    } else {
        group_count(split(s, COLON), true) == Some(8nat)
    }
}

/// `host` is an IPv6 address in square brackets, perhaps with `%` and a
/// decimal scope number of up to 32 bits before the closing bracket.
pub open spec fn is_bracketed_ipv6(host: Seq<u8>) -> bool {
    &&& host.len() >= 2
    &&& host[0] == OPEN_BRACKET
    &&& host.last() == CLOSE_BRACKET
    &&& {
        let inner = host.subrange(1, host.len() - 1);
        match inner.index_of_first(PERCENT) {
            Some(p) => is_ipv6_text(inner.take(p)) && is_decimal_up_to(
                inner.skip(p + 1),
                0xffff_ffff,
            ),
            None => is_ipv6_text(inner),
        }
    }
}

/// `text` is an IPv4 socket address: a dotted quad, a colon, and a port in
/// plain decimal digits.
pub open spec fn is_socket_addr_v4(text: Seq<u8>) -> bool {
    match text.index_of_last(COLON) {
        Some(i) => is_ipv4_text(text.take(i)) && is_decimal_up_to(text.skip(i + 1), MAX_PORT as nat),
        None => false,
    }
}

/// `text` is an IPv6 socket address: a bracketed address, a colon, and a port
/// in plain decimal digits.
pub open spec fn is_socket_addr_v6(text: Seq<u8>) -> bool {
    match text.index_of_last(COLON) {
        Some(i) => is_bracketed_ipv6(text.take(i)) && is_decimal_up_to(
            text.skip(i + 1),
            MAX_PORT as nat,
        ),
        None => false,
    }
}

/// The address bytes and the port of an IPv4 socket address.
pub open spec fn socket_addr_v4_of(text: Seq<u8>) -> (Seq<u8>, u16)
    recommends
        is_socket_addr_v4(text),
{
    let i = text.index_of_last(COLON).unwrap();
    (ipv4_octets(text.take(i)), decimal_value(text.skip(i + 1)) as u16)
}

/// The port that `s` names beside a host name: decimal digits, with or
/// without a `+` in front, of a number that fits in 16 bits.
pub open spec fn port_of(s: Seq<u8>) -> Option<u16> {
    let digits = if s.len() > 0 && s[0] == PLUS {
        s.skip(1)
    } else {
        s
    };
    if is_decimal_up_to(digits, MAX_PORT as nat) {
        Some(decimal_value(digits) as u16)
    } else {
        None
    }
}

/// The host and the port of `text`, split at its last colon. There is none
/// if `text` has no colon or if what follows the last one names no port.
pub open spec fn target_of(text: Seq<u8>) -> Option<(Seq<u8>, u16)> {
    match text.index_of_last(COLON) {
        Some(i) => match port_of(text.skip(i + 1)) {
            Some(port) => Some((text.take(i), port)),
            None => None,
        },
        None => None,
    }
}

/// A dotted quad begins with a digit.
pub proof fn lemma_ipv4_begins_with_digit(s: Seq<u8>)
    requires
        is_ipv4_text(s),
    ensures
        s.len() > 0,
        is_digit(s[0]),
{
    lemma_split_first_piece(s, DOT);
    let first = split(s, DOT)[0];
    assert(is_octet_text(first));
    assert(is_digit(first[0]));
}

/// No text is a socket address of both families.
pub proof fn lemma_address_families_differ(text: Seq<u8>)
    ensures
        !(is_socket_addr_v4(text) && is_socket_addr_v6(text)),
{
    if is_socket_addr_v4(text) {
        let i = text.index_of_last(COLON).unwrap();
        lemma_ipv4_begins_with_digit(text.take(i));
    }
}

impl ProxyTarget {
    /// Splits `text` at its last colon into host and port.
    pub fn parse(text: &[u8]) -> (r: Option<ProxyTarget>)
        ensures
            match r {
                Some(t) => target_of(text@) == Some((t.host_or_ip@, t.port)),
                None => target_of(text@) is None,
            },
    {
        match find_last(text, COLON) {
            None => None,
            Some(i) => {
                match parse_port(vstd::slice::slice_subrange(text, i + 1, text.len())) {
                    None => None,
                    Some(port) => Some(ProxyTarget { host_or_ip: copy_range(text, 0, i), port }),
                }
            },
        }
    }
}

/// The port that `s` names beside a host name.
pub fn parse_port(s: &[u8]) -> (r: Option<u16>)
    ensures
        r == port_of(s@),
{
    let digits = if s.len() > 0 && s[0] == PLUS {
        vstd::slice::slice_subrange(s, 1, s.len())
    } else {
        s
    };
    match parse_decimal(digits, MAX_PORT) {
        Some(v) => Some(v as u16),
        None => None,
    }
}

/// The number that `s` writes as one part of a dotted quad.
pub fn parse_octet(s: &[u8]) -> (r: Option<u8>)
    ensures
        r == if is_octet_text(s@) {
            Some(decimal_value(s@) as u8)
        } else {
            None
        },
{
    if s.len() == 0 || s.len() > 3 {
        return None;
    }
    if s.len() > 1 && s[0] == 0x30 {
        return None;
    }
    match parse_decimal(s, 255) {
        Some(v) => Some(v as u8),
        None => None,
    }
}

/// The four bytes of the IPv4 address that `s` writes in dotted-quad form.
pub fn parse_ipv4(s: &[u8]) -> (r: Option<[u8; 4]>)
    ensures
        match r {
            Some(octets) => is_ipv4_text(s@) && octets@ == ipv4_octets(s@),
            None => !is_ipv4_text(s@),
        },
{
    let parts = split_at_each(s, DOT);
    if parts.len() != 4 {
        return None;
    }
    assert(forall|k: int| 0 <= k < 4 ==> (#[trigger] parts@[k])@ == split(s@, DOT)[k]) by {
        assert forall|k: int| 0 <= k < 4 implies (#[trigger] parts@[k])@ == split(s@, DOT)[k] by {
            assert(views(parts@)[k] == parts@[k]@);
        }
    }
    let a = match parse_octet(parts[0].as_slice()) {
        Some(v) => v,
        None => {
            assert(!is_octet_text(split(s@, DOT)[0]));
            return None;
        },
    };
    let b = match parse_octet(parts[1].as_slice()) {
        Some(v) => v,
        None => {
            assert(!is_octet_text(split(s@, DOT)[1]));
            return None;
        },
    };
    let c = match parse_octet(parts[2].as_slice()) {
        Some(v) => v,
        None => {
            assert(!is_octet_text(split(s@, DOT)[2]));
            return None;
        },
    };
    let d = match parse_octet(parts[3].as_slice()) {
        Some(v) => v,
        None => {
            assert(!is_octet_text(split(s@, DOT)[3]));
            return None;
        },
    };
    let octets: [u8; 4] = [a, b, c, d];
    assert(octets@ =~= ipv4_octets(s@));
    Some(octets)
}

/// Whether `s` writes one 16-bit group of an IPv6 address.
pub fn check_hex_group(s: &[u8]) -> (r: bool)
    ensures
        r == is_hex_group(s@),
{
    if s.len() == 0 || s.len() > 4 {
        return false;
    }
    let mut i: usize = 0;
    while i < s.len()
        invariant
            i <= s.len(),
            1 <= s.len() <= 4,
            forall|j: int| 0 <= j < i ==> is_hex_digit(#[trigger] s@[j]),
        decreases s.len() - i,
    {
        let b: u8 = s[i];
        let hex = (0x30 <= b && b <= 0x39) || (0x41 <= b && b <= 0x46) || (0x61 <= b && b <= 0x66);
        if !hex {
            assert(!is_hex_digit(s@[i as int]));
            return false;
        }
        i = i + 1;
    }
    true
}

/// How many 16-bit groups the colon-separated `pieces` write.
pub fn count_groups(pieces: &Vec<Vec<u8>>, quad_allowed: bool) -> (r: Option<usize>)
    ensures
        match r {
            Some(n) => group_count(views(pieces@), quad_allowed) == Some(n as nat),
            None => group_count(views(pieces@), quad_allowed) is None,
        },
{
    let n: usize = pieces.len();
    if n == 0 || n > 8 {
        return None;
    }
    let ghost texts = views(pieces@);
    let mut k: usize = 0;
    while k < n - 1
        invariant
            k <= n - 1,
            n == pieces.len(),
            1 <= n <= 8,
            texts == views(pieces@),
            forall|j: int| 0 <= j < k ==> is_hex_group(#[trigger] texts[j]),
        decreases n - 1 - k,
    {
        assert(texts[k as int] == pieces@[k as int]@);
        if !check_hex_group(pieces[k].as_slice()) {
            return None;
        }
        k = k + 1;
    }
    assert(texts.last() == pieces@[n - 1]@);
    if check_hex_group(pieces[n - 1].as_slice()) {
        Some(n)
    } else if quad_allowed && parse_ipv4(pieces[n - 1].as_slice()).is_some() {
        Some(n + 1)
    } else {
        None
    }
}

/// How many groups the text on one side of a `::` writes.
pub fn count_side(s: &[u8], quad_allowed: bool) -> (r: Option<usize>)
    ensures
        match r {
            Some(n) => groups_in(s@, quad_allowed) == Some(n as nat),
            None => groups_in(s@, quad_allowed) is None,
        },
{
    if s.len() == 0 {
        Some(0)
    } else {
        let pieces = split_at_each(s, COLON);
        count_groups(&pieces, quad_allowed)
    }
}

/// The first place of `s` where two colons stand together.
pub fn find_gap(s: &[u8]) -> (r: Option<usize>)
    ensures
        match r {
            Some(i) => i + 1 < s.len() && is_first_gap(s@, i as int),
            None => forall|j: int| !is_gap_at(s@, j),
        },
{
    if s.len() < 2 {
        return None;
    }
    let mut i: usize = 0;
    while i < s.len() - 1
        invariant
            2 <= s.len(),
            i <= s.len() - 1,
            forall|j: int| 0 <= j < i ==> !is_gap_at(s@, j),
        decreases s.len() - 1 - i,
    {
        if s[i] == COLON && s[i + 1] == COLON {
            return Some(i);
        }
        i = i + 1;
    }
    None
}

/// Whether `s` is an IPv6 address.
pub fn check_ipv6(s: &[u8]) -> (r: bool)
    ensures
        r == is_ipv6_text(s@),
{
    match find_gap(s) {
        None => {
            let pieces = split_at_each(s, COLON);
            match count_groups(&pieces, true) {
                Some(n) => n == 8,
                None => false,
            }
        },
        Some(i) => {
            proof {
                let c = choose|c: int| is_first_gap(s@, c);
                assert(is_gap_at(s@, i as int));
                assert(c == i);
            }
            let head = vstd::slice::slice_subrange(s, 0, i);
            let tail = vstd::slice::slice_subrange(s, i + 2, s.len());
            match count_side(head, false) {
                None => false,
                Some(h) => match count_side(tail, true) {
                    None => false,
                    Some(t) => h + t <= 7,
                },
            }
        },
    }
}

/// Whether `host` is an IPv6 address in square brackets.
pub fn check_bracketed_ipv6(host: &[u8]) -> (r: bool)
    ensures
        r == is_bracketed_ipv6(host@),
{
    let n: usize = host.len();
    if n < 2 || host[0] != OPEN_BRACKET || host[n - 1] != CLOSE_BRACKET {
        return false;
    }
    let inner = vstd::slice::slice_subrange(host, 1, n - 1);
    match find_first(inner, PERCENT) {
        None => check_ipv6(inner),
        Some(p) => {
            let addr = vstd::slice::slice_subrange(inner, 0, p);
            let scope = vstd::slice::slice_subrange(inner, p + 1, inner.len());
            check_ipv6(addr) && parse_decimal(scope, 0xffff_ffff).is_some()
        },
    }
}

/// The address and port that `text` writes as an IPv4 socket address.
pub fn parse_socket_addr_v4(text: &[u8]) -> (r: Option<SocketAddrV4>)
    ensures
        match r {
            Some(a) => is_socket_addr_v4(text@) && (a.octets@, a.port) == socket_addr_v4_of(text@),
            None => !is_socket_addr_v4(text@),
        },
{
    match find_last(text, COLON) {
        None => None,
        Some(i) => {
            let host = vstd::slice::slice_subrange(text, 0, i);
            let port_text = vstd::slice::slice_subrange(text, i + 1, text.len());
            match parse_ipv4(host) {
                None => None,
                Some(octets) => match parse_decimal(port_text, MAX_PORT) {
                    None => None,
                    Some(port) => Some(SocketAddrV4 { octets, port: port as u16 }),
                },
            }
        },
    }
}

/// Whether `text` is an IPv6 socket address.
pub fn check_socket_addr_v6(text: &[u8]) -> (r: bool)
    ensures
        r == is_socket_addr_v6(text@),
{
    match find_last(text, COLON) {
        None => false,
        Some(i) => {
            let host = vstd::slice::slice_subrange(text, 0, i);
            let port_text = vstd::slice::slice_subrange(text, i + 1, text.len());
            check_bracketed_ipv6(host) && parse_decimal(port_text, MAX_PORT).is_some()
        },
    }
}

} // verus!
