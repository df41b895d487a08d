use http2socks::error::ProxyError;
use http2socks::line_reader::{read_until, MAX_LINE_LEN};
use http2socks::request::{
    is_connect, parse_request, skip_headers, RelayRequest, RequestKind, MAX_HEADER_LEN,
};

#[test]
fn line_ends_before_the_delimiter() {
    assert_eq!(read_until(b"GET http://a/", b' ', false), Ok(Some((b"GET".to_vec(), 4))));
    assert_eq!(read_until(b" x", b' ', false), Ok(Some((Vec::new(), 1))));
    assert_eq!(read_until(b"a b c", b' ', true), Ok(Some((b"a".to_vec(), 2))));
}

#[test]
fn line_without_delimiter_waits_or_fails() {
    assert_eq!(read_until(b"CONNEC", b' ', false), Ok(None));
    assert_eq!(read_until(b"", b' ', false), Ok(None));
    assert_eq!(read_until(b"CONNEC", b' ', true), Err(ProxyError::ConnectionClosed));
    assert_eq!(read_until(b"", b' ', true), Err(ProxyError::ConnectionClosed));
}

#[test]
fn line_may_hold_no_more_than_its_limit() {
    let mut longest = vec![b'a'; MAX_LINE_LEN];
    assert_eq!(read_until(&longest, b' ', false), Ok(None));
    assert_eq!(read_until(&longest, b' ', true), Err(ProxyError::ConnectionClosed));
    longest.push(b' ');
    assert_eq!(
        read_until(&longest, b' ', false),
        Ok(Some((vec![b'a'; MAX_LINE_LEN], MAX_LINE_LEN + 1)))
    );
    let mut too_long = vec![b'a'; MAX_LINE_LEN + 1];
    assert_eq!(read_until(&too_long, b' ', false), Err(ProxyError::LineTooLong));
    assert_eq!(read_until(&too_long, b' ', true), Err(ProxyError::LineTooLong));
    too_long.push(b' ');
    assert_eq!(read_until(&too_long, b' ', false), Err(ProxyError::LineTooLong));
}

#[test]
fn connect_is_told_from_other_methods() {
    assert!(is_connect(b"CONNECT"));
    assert!(!is_connect(b"connect"));
    assert!(!is_connect(b"GET"));
    assert!(!is_connect(b""));
    assert!(!is_connect(b"CONNECTS"));
}

#[test]
fn header_block_ends_with_the_first_blank_line() {
    assert_eq!(skip_headers(b"HTTP/1.1\r\n\r\n", false), Ok(Some(12)));
    assert_eq!(skip_headers(b"HTTP/1.1\r\nHost: a\r\n\r\nrest\r\n\r\n", false), Ok(Some(21)));
    assert_eq!(skip_headers(b"\r\n\r\n", false), Ok(Some(4)));
    assert_eq!(skip_headers(b"HTTP/1.1\r\nHost: a\r\n", false), Ok(None));
    assert_eq!(skip_headers(b"\r\n\r", false), Ok(None));
    assert_eq!(skip_headers(b"", false), Ok(None));
    assert_eq!(skip_headers(b"HTTP/1.1\r\n", true), Err(ProxyError::ConnectionClosed));
    assert_eq!(skip_headers(b"\n\n", true), Err(ProxyError::ConnectionClosed));
}

#[test]
fn header_block_may_take_no_more_than_its_limit() {
    let mut block = vec![b'h'; MAX_HEADER_LEN - 4];
    block.extend_from_slice(b"\r\n\r\n");
    assert_eq!(skip_headers(&block, false), Ok(Some(MAX_HEADER_LEN)));
    let mut late = vec![b'h'; MAX_HEADER_LEN - 3];
    late.extend_from_slice(b"\r\n\r\n");
    assert_eq!(skip_headers(&late, false), Err(ProxyError::LineTooLong));
    let partial = vec![b'h'; MAX_HEADER_LEN - 1];
    assert_eq!(skip_headers(&partial, false), Ok(None));
    let full = vec![b'h'; MAX_HEADER_LEN];
    assert_eq!(skip_headers(&full, false), Err(ProxyError::LineTooLong));
    assert_eq!(skip_headers(&full, true), Err(ProxyError::LineTooLong));
}

fn parsed(input: &[u8]) -> (RelayRequest, usize) {
    parse_request(input, false).unwrap().unwrap()
}

#[test]
fn tunnel_request_is_read_with_its_headers() {
    let input = b"CONNECT example.com:443 HTTP/1.1\r\nHost: example.com\r\n\r\n";
    let (request, used) = parsed(input);
    assert_eq!(request.kind, RequestKind::Tunnel);
    assert_eq!(request.method, b"CONNECT".to_vec());
    assert_eq!(request.target, b"example.com:443".to_vec());
    assert_eq!(used, input.len());
    assert_eq!(request.destination(), b"example.com:443".to_vec());
    assert_eq!(request.reply_to_client(), b"HTTP/1.1 200 OK\r\n\r\n".to_vec());
    assert!(request.opening_for_upstream().is_empty());
}

#[test]
fn tunnel_request_leaves_what_follows_the_blank_line() {
    let input = b"CONNECT www.baidu.com:443 HTTP/1.1\r\n\r\n\x16\x03\x01";
    let (request, used) = parsed(input);
    assert_eq!(request.target, b"www.baidu.com:443".to_vec());
    assert_eq!(used, input.len() - 3);
}

#[test]
fn tunnel_goes_to_port_443_where_none_is_named() {
    let (request, _) = parsed(b"CONNECT example.com HTTP/1.1\r\n\r\n");
    assert_eq!(request.target, b"example.com".to_vec());
    assert_eq!(request.destination(), b"example.com:443".to_vec());
}

#[test]
fn plain_request_is_read_up_to_the_slash_behind_the_host() {
    let input = b"GET http://127.0.0.1:8000/ HTTP/1.1\r\n\r\n";
    let (request, used) = parsed(input);
    assert_eq!(request.kind, RequestKind::Plain);
    assert_eq!(request.method, b"GET".to_vec());
    assert_eq!(request.target, b"127.0.0.1:8000".to_vec());
    assert_eq!(used, b"GET http://127.0.0.1:8000/".len());
    assert_eq!(request.destination(), b"127.0.0.1:8000".to_vec());
    assert!(request.reply_to_client().is_empty());
    assert_eq!(request.opening_for_upstream(), b"GET /".to_vec());
}

#[test]
fn plain_request_goes_to_port_80_where_none_is_named() {
    let (request, used) = parsed(b"POST http://example.com/a/b?c=d HTTP/1.1\r\n");
    assert_eq!(request.method, b"POST".to_vec());
    assert_eq!(request.target, b"example.com".to_vec());
    assert_eq!(request.destination(), b"example.com:80".to_vec());
    assert_eq!(request.opening_for_upstream(), b"POST /".to_vec());
    assert_eq!(used, b"POST http://example.com/".len());
}

#[test]
fn plain_request_does_not_depend_on_the_path() {
    let (root, used_root) = parsed(b"GET http://host/ HTTP/1.1\r\n\r\n");
    let (deep, used_deep) = parsed(b"GET http://host/some/deep/path.html?x=1 HTTP/1.1\r\n\r\n");
    assert_eq!(root.method, deep.method);
    assert_eq!(root.target, deep.target);
    assert_eq!(root.kind, deep.kind);
    assert_eq!(used_root, used_deep);
    assert_eq!(root.opening_for_upstream(), b"GET /".to_vec());
    assert_eq!(deep.opening_for_upstream(), b"GET /".to_vec());
}

#[test]
fn plain_request_drops_one_byte_behind_the_first_slash() {
    let (request, used) = parsed(b"GET http:/Xhost/ ");
    assert_eq!(request.target, b"host".to_vec());
    assert_eq!(used, b"GET http:/Xhost/".len());
}

#[test]
fn lower_case_connect_is_a_plain_request() {
    let (request, _) = parsed(b"connect http://a:1/ x");
    assert_eq!(request.kind, RequestKind::Plain);
    assert_eq!(request.opening_for_upstream(), b"connect /".to_vec());
}

#[test]
fn unfinished_request_asks_for_more() {
    for input in [
        &b""[..],
        b"CONN",
        b"CONNECT ",
        b"CONNECT example.com:443",
        b"CONNECT example.com:443 HTTP/1.1\r\n",
        b"CONNECT example.com:443 HTTP/1.1\r\nHost: example.com\r\n\r",
        b"GET",
        b"GET http:",
        b"GET http:/",
        b"GET http://",
        b"GET http://example.com",
    ] {
        assert!(matches!(parse_request(input, false), Ok(None)));
        assert!(matches!(parse_request(input, true), Err(ProxyError::ConnectionClosed)));
    }
}

#[test]
fn oversized_request_is_too_long() {
    let method = vec![b'M'; MAX_LINE_LEN + 1];
    assert!(matches!(parse_request(&method, false), Err(ProxyError::LineTooLong)));
    let mut target = b"CONNECT ".to_vec();
    target.extend_from_slice(&vec![b't'; MAX_LINE_LEN + 1]);
    assert!(matches!(parse_request(&target, false), Err(ProxyError::LineTooLong)));
    let mut headers = b"CONNECT a:1 ".to_vec();
    headers.extend_from_slice(&vec![b'h'; MAX_HEADER_LEN]);
    assert!(matches!(parse_request(&headers, false), Err(ProxyError::LineTooLong)));
    let mut host = b"GET http://".to_vec();
    host.extend_from_slice(&vec![b'h'; MAX_LINE_LEN + 1]);
    assert!(matches!(parse_request(&host, false), Err(ProxyError::LineTooLong)));
}
