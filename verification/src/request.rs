//! The first line of a proxy request: which kind it is and where it wants
//! to go.
//!
//! A tunnel request reads `CONNECT host[:port] ...` and ends with the blank
//! line behind its header block. Any other method makes a plain request,
//! which reads `METHOD scheme://host[:port]/...`; it is read up to the slash
//! behind the host, and what follows that slash is left for the relay phase.

use crate::error::ProxyError;
use crate::line_reader::{lemma_line_settled, lemma_line_within, line_before, read_until};
use crate::text::{append, copy_range, find_first, same_bytes, COLON, CR, LF, SLASH, SPACE};
use vstd::prelude::*;

verus! {

/// The most bytes that the header block of a tunnel request may take, the
/// blank line at its end among them.
pub const MAX_HEADER_LEN: usize = 8192;

/// The two kinds of proxy request.
#[derive(Clone, Copy, Debug, PartialEq, Eq, Structural)]
pub enum RequestKind {
    /// `CONNECT`: an opaque pipe to the destination.
    Tunnel,
    /// Any other method: the request is passed on.
    Plain,
}

/// What the first line of a request says.
#[derive(Debug)]
pub struct RelayRequest {
    pub kind: RequestKind,
    /// The method token, as it was read.
    pub method: Vec<u8>,
    /// The target, `host` or `host:port`, as it was read.
    pub target: Vec<u8>,
}

/// A request as the contracts see it.
pub struct RequestView {
    pub kind: RequestKind,
    pub method: Seq<u8>,
    pub target: Seq<u8>,
}

impl View for RelayRequest {
    type V = RequestView;

    open spec fn view(&self) -> RequestView {
        RequestView { kind: self.kind, method: self.method@, target: self.target@ }
    }
}

/// The text `CONNECT`.
pub open spec fn connect_token() -> Seq<u8> {
    seq![0x43u8, 0x4fu8, 0x4eu8, 0x4eu8, 0x45u8, 0x43u8, 0x54u8]
}

/// The text `HTTP/1.1 200 OK`, with the blank line that ends a response
/// without headers.
pub open spec fn ok_response() -> Seq<u8> {
    seq![
        0x48u8, 0x54u8, 0x54u8, 0x50u8, 0x2fu8, 0x31u8, 0x2eu8, 0x31u8, 0x20u8, 0x32u8, 0x30u8,
        0x30u8, 0x20u8, 0x4fu8, 0x4bu8, 0x0du8, 0x0au8, 0x0du8, 0x0au8,
    ]
}

/// The text `:443`.
pub open spec fn tunnel_port_suffix() -> Seq<u8> {
    seq![0x3au8, 0x34u8, 0x34u8, 0x33u8]
}

/// The text `:80`.
pub open spec fn plain_port_suffix() -> Seq<u8> {
    seq![0x3au8, 0x38u8, 0x30u8]
}

/// The kind of request that `method` makes.
pub open spec fn kind_of(method: Seq<u8>) -> RequestKind {
    if method == connect_token() {
        RequestKind::Tunnel
    } else {
        RequestKind::Plain
    }
}

impl RequestView {
    /// The kind is the one that the method makes.
    pub open spec fn wf(self) -> bool {
        self.kind == kind_of(self.method)
    }

    /// The destination to hand to the relay: the target, with the port of
    /// its kind behind it where the target has no colon. A tunnel goes to
    /// port 443, a plain request to port 80.
    pub open spec fn destination(self) -> Seq<u8> {
        if self.target.contains(COLON) {
            self.target
        } else {
            match self.kind {
                RequestKind::Tunnel => self.target + tunnel_port_suffix(),
                RequestKind::Plain => self.target + plain_port_suffix(),
            }
        }
    }

    /// What the client is told once its request is read: a tunnel request is
    /// answered with success at once; a plain one gets no answer from here.
    pub open spec fn reply_to_client(self) -> Seq<u8> {
        match self.kind {
            RequestKind::Tunnel => ok_response(),
            RequestKind::Plain => Seq::empty(),
        }
    }

    /// What is written to the destination before any byte is passed on: for
    /// a plain request the method, a space and a slash; for a tunnel nothing.
    pub open spec fn opening_for_upstream(self) -> Seq<u8> {
        match self.kind {
            RequestKind::Tunnel => Seq::empty(),
            RequestKind::Plain => self.method + seq![SPACE, SLASH],
        }
    }
}

/// A blank line ends a header block at place `i` of `s`: CR LF CR LF.
pub open spec fn is_blank_line_at(s: Seq<u8>, i: int) -> bool {
    &&& 0 <= i
    &&& i + 3 < s.len()
    &&& s[i] == CR
    &&& s[i + 1] == LF
    &&& s[i + 2] == CR
    &&& s[i + 3] == LF
}

/// `i` is the first place of `s` where a blank line ends a header block.
pub open spec fn is_first_blank_line(s: Seq<u8>, i: int) -> bool {
    is_blank_line_at(s, i) && forall|j: int| 0 <= j < i ==> !is_blank_line_at(s, j)
}

/// The part of `rest` in which the end of a header block is looked for: all
/// of it, or its first `MAX_HEADER_LEN` bytes.
pub open spec fn header_window(rest: Seq<u8>) -> Seq<u8> {
    if rest.len() > MAX_HEADER_LEN {
        rest.take(MAX_HEADER_LEN as int)
    } else {
        rest
    }
}

/// How many bytes of `rest` the header block takes, up to and with the first
/// blank line. Where no blank line ends within `MAX_HEADER_LEN` bytes, the
/// block is too long if that many bytes are there; else the stream was
/// closed too early if it has ended, and otherwise more bytes are needed.
pub open spec fn header_end(rest: Seq<u8>, at_end: bool) -> Result<Option<int>, ProxyError> {
    let window = header_window(rest);
    if exists|i: int| is_blank_line_at(window, i) {
        Ok(Some((choose|i: int| is_first_blank_line(window, i)) + 4))
    } else if rest.len() >= MAX_HEADER_LEN {
        Err(ProxyError::LineTooLong)
    } else if at_end {
        Err(ProxyError::ConnectionClosed)
    } else {
        Ok(None)
    }
}

/// The result `r` of reading behind the first `n` bytes, counted from the
/// start.
pub open spec fn counted_from_start(
    r: Result<Option<(RequestView, int)>, ProxyError>,
    n: int,
) -> Result<Option<(RequestView, int)>, ProxyError> {
    match r {
        Ok(Some((request, used))) => Ok(Some((request, n + used))),
        _ => r,
    }
}

/// What follows the method of a tunnel request: the target up to the next
/// space, and the header block.
pub open spec fn tunnel_request_in(method: Seq<u8>, rest: Seq<u8>, at_end: bool) -> Result<
    Option<(RequestView, int)>,
    ProxyError,
> {
    match line_before(rest, SPACE, at_end) {
        Ok(Some((target, used))) => match header_end(rest.skip(used), at_end) {
            Ok(Some(block)) => Ok(
                Some((RequestView { kind: RequestKind::Tunnel, method, target }, used + block)),
            ),
            Ok(None) => Ok(None),
            Err(e) => Err(e),
        },
        Ok(None) => Ok(None),
        Err(e) => Err(e),
    }
}

/// What follows the method of a plain request: anything up to the first
/// slash, one more byte, and the target up to the next slash.
pub open spec fn plain_request_in(method: Seq<u8>, rest: Seq<u8>, at_end: bool) -> Result<
    Option<(RequestView, int)>,
    ProxyError,
> {
    match line_before(rest, SLASH, at_end) {
        Ok(Some((_, used))) => if rest.len() == used {
            if at_end {
                Err(ProxyError::ConnectionClosed)
            } else {
                Ok(None)
            }
        } else {
            match line_before(rest.skip(used + 1), SLASH, at_end) {
                Ok(Some((target, more))) => Ok(
                    Some(
                        (
                            RequestView { kind: RequestKind::Plain, method, target },
                            used + 1 + more,
                        ),
                    ),
                ),
                Ok(None) => Ok(None),
                Err(e) => Err(e),
            }
        },
        Ok(None) => Ok(None),
        Err(e) => Err(e),
    }
}

/// The request that stands at the start of `input`, the bytes that the
/// client has sent so far, and how many of them it takes. `at_end` says that
/// the client has closed the stream behind them. `None` says that more bytes
/// are needed.
///
/// The method is the text up to the first space. `CONNECT` makes a tunnel
/// request, anything else a plain one.
pub open spec fn request_in(input: Seq<u8>, at_end: bool) -> Result<
    Option<(RequestView, int)>,
    ProxyError,
> {
    match line_before(input, SPACE, at_end) {
        Ok(Some((method, used))) => counted_from_start(
            match kind_of(method) {
                RequestKind::Tunnel => tunnel_request_in(method, input.skip(used), at_end),
                RequestKind::Plain => plain_request_in(method, input.skip(used), at_end),
            },
            used,
        ),
        Ok(None) => Ok(None),
        Err(e) => Err(e),
    }
}

/// What a result of `parse_request` says in the terms of `request_in`.
pub open spec fn parsed_view(r: Result<Option<(RelayRequest, usize)>, ProxyError>) -> Result<
    Option<(RequestView, int)>,
    ProxyError,
> {
    match r {
        Ok(Some((request, used))) => Ok(Some((request@, used as int))),
        Ok(None) => Ok(None),
        Err(e) => Err(e),
    }
}

/// What a result of `skip_headers` says in the terms of `header_end`.
pub open spec fn skipped_view(r: Result<Option<usize>, ProxyError>) -> Result<
    Option<int>,
    ProxyError,
> {
    match r {
        Ok(Some(n)) => Ok(Some(n as int)),
        Ok(None) => Ok(None),
        Err(e) => Err(e),
    }
}

/// A header block that is no longer than it may be, and whose first blank
/// line is its end, is taken whole, whatever comes behind.
pub proof fn lemma_header_block_found(block: Seq<u8>, rest: Seq<u8>, at_end: bool)
    requires
        block.len() <= MAX_HEADER_LEN,
        is_first_blank_line(block, block.len() - 4),
    ensures
        header_end(block + rest, at_end) == Ok::<Option<int>, ProxyError>(
            Some(block.len() as int),
        ),
        (block + rest).skip(block.len() as int) == rest,
{
    let window = header_window(block + rest);
    let n = block.len() - 4;
    assert(is_blank_line_at(window, n));
    assert forall|j: int| 0 <= j < n implies !is_blank_line_at(window, j) by {
        assert(!is_blank_line_at(block, j));
        assert(window[j] == block[j]);
        assert(window[j + 1] == block[j + 1]);
        assert(window[j + 2] == block[j + 2]);
        assert(window[j + 3] == block[j + 3]);
    }
    assert(is_first_blank_line(window, n));
    let c = choose|c: int| is_first_blank_line(window, c);
    assert(c == n);
    assert((block + rest).skip(block.len() as int) =~= rest);
}

/// Once the end of a header block is found, or the block is too long, bytes
/// that arrive later change nothing.
pub proof fn lemma_header_end_settled(rest: Seq<u8>, more: Seq<u8>, at_end: bool)
    requires
        header_end(rest, false) != Ok::<Option<int>, ProxyError>(None),
    ensures
        header_end(rest + more, at_end) == header_end(rest, false),
        header_end(rest, false) matches Ok(Some(n)) ==> 4 <= n <= rest.len(),
{
    let window = header_window(rest);
    let longer = header_window(rest + more);
    if exists|i: int| is_blank_line_at(window, i) {
        let i = choose|i: int| is_blank_line_at(window, i);
        lemma_first_blank_line_exists(window, i);
        let c = choose|c: int| is_first_blank_line(window, c);
        assert(is_blank_line_at(longer, c)) by {
            assert(longer[c] == window[c]);
            assert(longer[c + 1] == window[c + 1]);
            assert(longer[c + 2] == window[c + 2]);
            assert(longer[c + 3] == window[c + 3]);
        }
        assert forall|j: int| 0 <= j < c implies !is_blank_line_at(longer, j) by {
            assert(!is_blank_line_at(window, j));
            assert(longer[j] == window[j]);
            assert(longer[j + 1] == window[j + 1]);
            assert(longer[j + 2] == window[j + 2]);
            assert(longer[j + 3] == window[j + 3]);
        }
        assert(is_first_blank_line(longer, c));
        let d = choose|d: int| is_first_blank_line(longer, d);
        assert(d == c);
    } else {
        assert(longer =~= window);
    }
}

/// Where a blank line stands at all, one stands first.
pub proof fn lemma_first_blank_line_exists(s: Seq<u8>, i: int)
    requires
        is_blank_line_at(s, i),
    ensures
        exists|c: int| is_first_blank_line(s, c),
    decreases i,
{
    if exists|j: int| 0 <= j < i && is_blank_line_at(s, j) {
        let j = choose|j: int| 0 <= j < i && is_blank_line_at(s, j);
        lemma_first_blank_line_exists(s, j);
    } else {
        assert(is_first_blank_line(s, i));
    }
}

/// Once what follows the method of a tunnel request is read, or has failed,
/// bytes that arrive later change nothing.
pub proof fn lemma_tunnel_request_settled(
    method: Seq<u8>,
    rest: Seq<u8>,
    more: Seq<u8>,
    at_end: bool,
)
    requires
        tunnel_request_in(method, rest, false) != Ok::<Option<(RequestView, int)>, ProxyError>(
            None,
        ),
    ensures
        tunnel_request_in(method, rest + more, at_end) == tunnel_request_in(method, rest, false),
        tunnel_request_in(method, rest, false) matches Ok(Some((_, used))) ==> 0 <= used
            <= rest.len(),
{
    lemma_line_settled(rest, more, SPACE, at_end);
    lemma_line_within(rest, SPACE, false);
    if let Ok(Some((target, used))) = line_before(rest, SPACE, false) {
        assert((rest + more).skip(used) =~= rest.skip(used) + more);
        lemma_header_end_settled(rest.skip(used), more, at_end);
    }
}

/// Once what follows the method of a plain request is read, or has failed,
/// bytes that arrive later change nothing.
pub proof fn lemma_plain_request_settled(
    method: Seq<u8>,
    rest: Seq<u8>,
    more: Seq<u8>,
    at_end: bool,
)
    requires
        plain_request_in(method, rest, false) != Ok::<Option<(RequestView, int)>, ProxyError>(
            None,
        ),
    ensures
        plain_request_in(method, rest + more, at_end) == plain_request_in(method, rest, false),
        plain_request_in(method, rest, false) matches Ok(Some((_, used))) ==> 0 <= used
            <= rest.len(),
{
    lemma_line_settled(rest, more, SLASH, at_end);
    lemma_line_within(rest, SLASH, false);
    if let Ok(Some((_, used))) = line_before(rest, SLASH, false) {
        let behind = rest.skip(used + 1);
        assert((rest + more).skip(used + 1) =~= behind + more);
        lemma_line_settled(behind, more, SLASH, at_end);
        lemma_line_within(behind, SLASH, false);
    }
}

/// Once a request is read, or reading has failed, bytes that arrive later
/// change nothing: the same request takes the same bytes, or the same
/// failure stands.
pub proof fn lemma_request_settled(input: Seq<u8>, more: Seq<u8>, at_end: bool)
    requires
        request_in(input, false) != Ok::<Option<(RequestView, int)>, ProxyError>(None),
    ensures
        request_in(input + more, at_end) == request_in(input, false),
        request_in(input, false) matches Ok(Some((_, used))) ==> 0 <= used <= input.len(),
{
    lemma_line_settled(input, more, SPACE, at_end);
    lemma_line_within(input, SPACE, false);
    if let Ok(Some((method, used))) = line_before(input, SPACE, false) {
        let rest = input.skip(used);
        assert((input + more).skip(used) =~= rest + more);
        match kind_of(method) {
            RequestKind::Tunnel => lemma_tunnel_request_settled(method, rest, more, at_end),
            RequestKind::Plain => lemma_plain_request_settled(method, rest, more, at_end),
        }
    }
}

/// Where reading a request waits for more bytes, the end of the stream is a
/// connection closed too early.
pub proof fn lemma_request_cut_short(input: Seq<u8>)
    requires
        request_in(input, false) == Ok::<Option<(RequestView, int)>, ProxyError>(None),
    ensures
        request_in(input, true) == Err::<Option<(RequestView, int)>, ProxyError>(
            ProxyError::ConnectionClosed,
        ),
{
}

/// Whether `method` is `CONNECT`.
pub fn is_connect(method: &[u8]) -> (r: bool)
    ensures
        r == (kind_of(method@) == RequestKind::Tunnel),
{
    let token: [u8; 7] = [0x43, 0x4f, 0x4e, 0x4e, 0x45, 0x43, 0x54];
    assert(token@ =~= connect_token());
    same_bytes(method, token.as_slice())
}

/// Finds the end of the header block that `rest` begins with.
pub fn skip_headers(rest: &[u8], at_end: bool) -> (r: Result<Option<usize>, ProxyError>)
    ensures
        skipped_view(r) == header_end(rest@, at_end),
        r matches Ok(Some(n)) ==> n <= rest.len(),
{
    let window = if rest.len() > MAX_HEADER_LEN {
        vstd::slice::slice_subrange(rest, 0, MAX_HEADER_LEN)
    } else {
        rest
    };
    if window.len() >= 4 {
        let mut i: usize = 0;
        while i < window.len() - 3
            invariant
                4 <= window.len() <= rest.len(),
                i <= window.len() - 3,
                window@ == header_window(rest@),
                forall|j: int| 0 <= j < i ==> !is_blank_line_at(window@, j),
            decreases window.len() - i,
        {
            if window[i] == CR && window[i + 1] == LF && window[i + 2] == CR && window[i + 3]
                == LF {
                proof {
                    assert(is_first_blank_line(window@, i as int));
                    let c = choose|c: int| is_first_blank_line(window@, c);
                    assert(is_blank_line_at(window@, i as int));
                    assert(c == i);
                }
                return Ok(Some(i + 4));
            }
            i = i + 1;
        }
    }
    assert(forall|j: int| !is_blank_line_at(window@, j));
    if rest.len() >= MAX_HEADER_LEN {
        Err(ProxyError::LineTooLong)
    } else if at_end {
        Err(ProxyError::ConnectionClosed)
    } else {
        Ok(None)
    }
}

/// Reads what follows the method of a tunnel request.
fn parse_tunnel(method: Vec<u8>, rest: &[u8], at_end: bool) -> (r: Result<
    Option<(RelayRequest, usize)>,
    ProxyError,
>)
    ensures
        parsed_view(r) == tunnel_request_in(method@, rest@, at_end),
        r matches Ok(Some((_, used))) ==> used <= rest.len(),
{
    match read_until(rest, SPACE, at_end) {
        Err(e) => Err(e),
        Ok(None) => Ok(None),
        Ok(Some((target, used))) => {
            let behind = vstd::slice::slice_subrange(rest, used, rest.len());
            match skip_headers(behind, at_end) {
                Err(e) => Err(e),
                Ok(None) => Ok(None),
                Ok(Some(block)) => Ok(
                    Some((RelayRequest { kind: RequestKind::Tunnel, method, target }, used + block)),
                ),
            }
        },
    }
}

/// Reads what follows the method of a plain request.
fn parse_plain(method: Vec<u8>, rest: &[u8], at_end: bool) -> (r: Result<
    Option<(RelayRequest, usize)>,
    ProxyError,
>)
    ensures
        parsed_view(r) == plain_request_in(method@, rest@, at_end),
        r matches Ok(Some((_, used))) ==> used <= rest.len(),
{
    match read_until(rest, SLASH, at_end) {
        Err(e) => Err(e),
        Ok(None) => Ok(None),
        Ok(Some((_, used))) => {
            if rest.len() == used {
                if at_end {
                    return Err(ProxyError::ConnectionClosed);
                } else {
                    return Ok(None);
                }
            }
            let behind = vstd::slice::slice_subrange(rest, used + 1, rest.len());
            match read_until(behind, SLASH, at_end) {
                Err(e) => Err(e),
                Ok(None) => Ok(None),
                Ok(Some((target, more))) => Ok(
                    Some(
                        (
                            RelayRequest { kind: RequestKind::Plain, method, target },
                            used + 1 + more,
                        ),
                    ),
                ),
            }
        },
    }
}

/// Reads the request at the start of `input`, the bytes that the client has
/// sent so far; `at_end` says that the client has closed the stream behind
/// them.
///
/// Gives the request and how many bytes of `input` it takes, or `None` where
/// more bytes have to arrive first.
pub fn parse_request(input: &[u8], at_end: bool) -> (r: Result<
    Option<(RelayRequest, usize)>,
    ProxyError,
>)
    ensures
        parsed_view(r) == request_in(input@, at_end),
        r matches Ok(Some((request, used))) ==> used <= input.len() && request@.wf(),
{
    match read_until(input, SPACE, at_end) {
        Err(e) => Err(e),
        Ok(None) => Ok(None),
        Ok(Some((method, used))) => {
            let rest = vstd::slice::slice_subrange(input, used, input.len());
            let tunnel = is_connect(method.as_slice());
            let behind = if tunnel {
                parse_tunnel(method, rest, at_end)
            } else {
                parse_plain(method, rest, at_end)
            };
            match behind {
                Err(e) => Err(e),
                Ok(None) => Ok(None),
                Ok(Some((request, more))) => Ok(Some((request, used + more))),
            }
        },
    }
}

impl RelayRequest {
    /// The destination to hand to the relay.
    pub fn destination(&self) -> (r: Vec<u8>)
        ensures
            r@ == self@.destination(),
    {
        let mut r = copy_range(self.target.as_slice(), 0, self.target.len());
        assert(r@ =~= self.target@);
        proof {
            self.target@.index_of_first_ensures(COLON);
        }
        if find_first(self.target.as_slice(), COLON).is_none() {
            match self.kind {
                RequestKind::Tunnel => {
                    let suffix: [u8; 4] = [0x3a, 0x34, 0x34, 0x33];
                    assert(suffix@ =~= tunnel_port_suffix());
                    append(&mut r, suffix.as_slice());
                },
                RequestKind::Plain => {
                    let suffix: [u8; 3] = [0x3a, 0x38, 0x30];
                    assert(suffix@ =~= plain_port_suffix());
                    append(&mut r, suffix.as_slice());
                },
            }
        }
        r
    }

    /// What the client is told once its request is read.
    pub fn reply_to_client(&self) -> (r: Vec<u8>)
        ensures
            r@ == self@.reply_to_client(),
    {
        let mut r: Vec<u8> = Vec::new();
        match self.kind {
            RequestKind::Tunnel => {
                let text: [u8; 19] = [
                    0x48, 0x54, 0x54, 0x50, 0x2f, 0x31, 0x2e, 0x31, 0x20, 0x32, 0x30, 0x30, 0x20,
                    0x4f, 0x4b, 0x0d, 0x0a, 0x0d, 0x0a,
                ];
                assert(text@ =~= ok_response());
                append(&mut r, text.as_slice());
                assert(r@ =~= ok_response());
            },
            RequestKind::Plain => {},
        }
        r
    }

    /// What is written to the destination before any byte is passed on.
    pub fn opening_for_upstream(&self) -> (r: Vec<u8>)
        ensures
            r@ == self@.opening_for_upstream(),
    {
        let mut r: Vec<u8> = Vec::new();
        match self.kind {
            RequestKind::Tunnel => {},
            RequestKind::Plain => {
                append(&mut r, self.method.as_slice());
                r.push(SPACE);
                r.push(SLASH);
                assert(r@ =~= self.method@ + seq![SPACE, SLASH]);
            },
        }
        r
    }
}

} // verus!
