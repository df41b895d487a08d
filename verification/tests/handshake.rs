use http2socks::error::ProxyError;
use http2socks::socks5::{encode_connect_request, greeting_bytes, Phase, Socks5Session};

#[test]
fn greeting_offers_no_authentication() {
    assert_eq!(greeting_bytes(), vec![0x05, 0x01, 0x00]);
}

#[test]
fn request_for_an_ipv4_destination() {
    assert_eq!(
        encode_connect_request(b"127.0.0.1:8000"),
        Ok(vec![5, 1, 0, 1, 127, 0, 0, 1, 0x1f, 0x40])
    );
    assert_eq!(
        encode_connect_request(b"10.20.30.40:65535"),
        Ok(vec![5, 1, 0, 1, 10, 20, 30, 40, 0xff, 0xff])
    );
    assert_eq!(encode_connect_request(b"1.2.3.4:0"), Ok(vec![5, 1, 0, 1, 1, 2, 3, 4, 0, 0]));
}

#[test]
fn request_for_a_host_name() {
    let mut expected = vec![5, 1, 0, 3, 11];
    expected.extend_from_slice(b"example.com");
    expected.extend_from_slice(&[0x01, 0xbb]);
    assert_eq!(encode_connect_request(b"example.com:443"), Ok(expected));
    assert_eq!(encode_connect_request(b"a:80"), Ok(vec![5, 1, 0, 3, 1, b'a', 0, 80]));
    assert_eq!(encode_connect_request(b":80"), Ok(vec![5, 1, 0, 3, 0, 0, 80]));
}

#[test]
fn dotted_quad_with_a_signed_port_is_a_host_name() {
    let mut expected = vec![5, 1, 0, 3, 7];
    expected.extend_from_slice(b"1.2.3.4");
    expected.extend_from_slice(&[0, 80]);
    assert_eq!(encode_connect_request(b"1.2.3.4:+80"), Ok(expected));
}

#[test]
fn ipv6_destination_is_refused() {
    assert_eq!(encode_connect_request(b"[::1]:443"), Err(ProxyError::UnsupportedAddressFamily));
    assert_eq!(
        encode_connect_request(b"[2001:db8::1]:80"),
        Err(ProxyError::UnsupportedAddressFamily)
    );
}

#[test]
fn destination_without_port_is_invalid() {
    assert_eq!(encode_connect_request(b"example.com"), Err(ProxyError::InvalidDestination));
    assert_eq!(encode_connect_request(b""), Err(ProxyError::InvalidDestination));
    assert_eq!(encode_connect_request(b"example.com:"), Err(ProxyError::InvalidDestination));
    assert_eq!(encode_connect_request(b"example.com:http"), Err(ProxyError::InvalidDestination));
    assert_eq!(encode_connect_request(b"example.com:65536"), Err(ProxyError::InvalidDestination));
    assert_eq!(encode_connect_request(b"127.0.0.1"), Err(ProxyError::InvalidDestination));
    assert_eq!(encode_connect_request(b"[::1]"), Err(ProxyError::InvalidDestination));
}

#[test]
fn host_name_must_fit_its_length_byte() {
    let mut longest = vec![b'a'; 255];
    longest.extend_from_slice(b":80");
    let request = encode_connect_request(&longest).unwrap();
    assert_eq!(request.len(), 5 + 255 + 2);
    assert_eq!(request[4], 255);
    assert_eq!(&request[5..260], &vec![b'a'; 255][..]);
    assert_eq!(&request[260..], &[0, 80]);
    let mut too_long = vec![b'a'; 256];
    too_long.extend_from_slice(b":80");
    assert_eq!(encode_connect_request(&too_long), Err(ProxyError::InvalidDestination));
}

#[test]
fn handshake_runs_through() {
    let (mut session, hello) = Socks5Session::start(b"example.com:443".to_vec());
    assert_eq!(hello, vec![5, 1, 0]);
    assert_eq!(session.phase(), Phase::Greeting);
    assert_eq!(session.destination(), b"example.com:443");
    let out = session.receive(&[5, 0]);
    assert_eq!(out, encode_connect_request(b"example.com:443").unwrap());
    assert_eq!(session.phase(), Phase::ConnectRequested);
    let out = session.receive(&[5, 0, 0, 1, 9, 9, 9, 9, 9, 9]);
    assert!(out.is_empty());
    assert_eq!(session.phase(), Phase::Established);
    assert!(session.unread().is_empty());
}

#[test]
fn handshake_takes_replies_byte_by_byte() {
    let (mut session, _) = Socks5Session::start(b"10.0.0.1:80".to_vec());
    assert!(session.receive(&[5]).is_empty());
    assert_eq!(session.phase(), Phase::Greeting);
    assert_eq!(session.receive(&[0]), vec![5, 1, 0, 1, 10, 0, 0, 1, 0, 80]);
    assert_eq!(session.phase(), Phase::ConnectRequested);
    for b in [5u8, 0, 0, 1, 0, 0, 0, 0, 0] {
        assert!(session.receive(&[b]).is_empty());
        assert_eq!(session.phase(), Phase::ConnectRequested);
    }
    assert!(session.receive(&[0]).is_empty());
    assert_eq!(session.phase(), Phase::Established);
}

#[test]
fn handshake_keeps_what_follows_the_last_reply() {
    let (mut session, _) = Socks5Session::start(b"a:1".to_vec());
    let out = session.receive(&[5, 0, 5, 0, 0, 1, 1, 2, 3, 4, 5, 6, b'h', b'i']);
    assert_eq!(out, vec![5, 1, 0, 3, 1, b'a', 0, 1]);
    assert_eq!(session.phase(), Phase::Established);
    assert_eq!(session.unread(), b"hi");
}

#[test]
fn refused_method_fails_without_a_request() {
    let (mut session, _) = Socks5Session::start(b"example.com:443".to_vec());
    let out = session.receive(&[5, 0xff]);
    assert!(out.is_empty());
    assert_eq!(session.phase(), Phase::Failed(ProxyError::RelayProtocolError));
    let (mut other, _) = Socks5Session::start(b"example.com:443".to_vec());
    assert!(other.receive(&[4, 0]).is_empty());
    assert_eq!(other.phase(), Phase::Failed(ProxyError::RelayProtocolError));
}

#[test]
fn ipv6_destination_fails_once_the_method_is_chosen() {
    let (mut session, hello) = Socks5Session::start(b"[::1]:443".to_vec());
    assert_eq!(hello, vec![5, 1, 0]);
    let out = session.receive(&[5, 0]);
    assert!(out.is_empty());
    assert_eq!(session.phase(), Phase::Failed(ProxyError::UnsupportedAddressFamily));
}

#[test]
fn destination_without_port_fails_once_the_method_is_chosen() {
    let (mut session, _) = Socks5Session::start(b"example.com".to_vec());
    let out = session.receive(&[5, 0]);
    assert!(out.is_empty());
    assert_eq!(session.phase(), Phase::Failed(ProxyError::InvalidDestination));
}

#[test]
fn rejected_connect_fails() {
    let (mut session, _) = Socks5Session::start(b"example.com:443".to_vec());
    session.receive(&[5, 0]);
    let out = session.receive(&[5, 5, 0, 1, 0, 0, 0, 0, 0, 0]);
    assert!(out.is_empty());
    assert_eq!(session.phase(), Phase::Failed(ProxyError::RelayConnectRejected));
    let (mut other, _) = Socks5Session::start(b"example.com:443".to_vec());
    other.receive(&[5, 0]);
    other.receive(&[5, 0, 0, 3, 0, 0, 0, 0, 0, 0]);
    assert_eq!(other.phase(), Phase::Failed(ProxyError::RelayConnectRejected));
}

#[test]
fn relay_closing_early_fails_the_step_that_waits() {
    let (mut session, _) = Socks5Session::start(b"example.com:443".to_vec());
    session.receive(&[5]);
    session.closed();
    assert_eq!(session.phase(), Phase::Failed(ProxyError::RelayProtocolError));
    let (mut other, _) = Socks5Session::start(b"example.com:443".to_vec());
    other.receive(&[5, 0, 5, 0]);
    other.closed();
    assert_eq!(other.phase(), Phase::Failed(ProxyError::RelayConnectRejected));
}

#[test]
fn finished_handshake_stays_finished() {
    let (mut session, _) = Socks5Session::start(b"example.com:443".to_vec());
    session.receive(&[5, 1]);
    assert_eq!(session.phase(), Phase::Failed(ProxyError::RelayProtocolError));
    assert!(session.receive(&[5, 0]).is_empty());
    session.closed();
    assert_eq!(session.phase(), Phase::Failed(ProxyError::RelayProtocolError));
    let (mut done, _) = Socks5Session::start(b"a:1".to_vec());
    done.receive(&[5, 0, 5, 0, 0, 1, 0, 0, 0, 0, 0, 0]);
    done.closed();
    assert_eq!(done.phase(), Phase::Established);
    assert!(done.receive(b"xyz").is_empty());
    assert_eq!(done.phase(), Phase::Established);
    assert_eq!(done.unread(), b"xyz");
}

#[test]
fn only_a_failed_configuration_is_fatal() {
    assert!(ProxyError::ConfigLoadFailure.is_fatal());
    assert!(!ProxyError::ConnectionClosed.is_fatal());
    assert!(!ProxyError::LineTooLong.is_fatal());
    assert!(!ProxyError::RelayUnreachable.is_fatal());
    assert!(!ProxyError::RelayProtocolError.is_fatal());
    assert!(!ProxyError::RelayConnectRejected.is_fatal());
    assert!(!ProxyError::UnsupportedAddressFamily.is_fatal());
    assert!(!ProxyError::InvalidDestination.is_fatal());
}
