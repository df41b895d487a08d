//! The client side of a SOCKS5 handshake: no authentication, the CONNECT
//! command, and a destination given as an IPv4 address or as a host name.
//!
//! A session is fed the bytes that the relay sends and answers with the bytes
//! to send back. It walks from the greeting through the chosen method and the
//! request to an established connection, or fails on the way, and never
//! returns to a phase that it has left.

use crate::addr::{
    check_socket_addr_v6, is_socket_addr_v4, is_socket_addr_v6, parse_socket_addr_v4,
    socket_addr_v4_of, target_of, ProxyTarget,
};
use crate::error::ProxyError;
use crate::text::{append, copy_range, same_bytes};
use vstd::prelude::*;

verus! {

/// How many bytes the relay answers to the greeting.
pub const METHOD_REPLY_LEN: usize = 2;

/// How many bytes the relay answers to the request.
pub const CONNECT_REPLY_LEN: usize = 10;

/// The longest host name that a request can carry.
pub const MAX_NAME_LEN: usize = 255;

/// Version 5, one method on offer, "no authentication".
pub open spec fn greeting() -> Seq<u8> {
    seq![5u8, 1u8, 0u8]
}

/// Version 5, "no authentication" chosen.
pub open spec fn method_accepted() -> Seq<u8> {
    seq![5u8, 0u8]
}

/// Version 5, success, the reserved byte, and the mark of an IPv4 bound
/// address: what an answer to the request has to begin with.
pub open spec fn connect_granted() -> Seq<u8> {
    seq![5u8, 0u8, 0u8, 1u8]
}

/// The two bytes of `port`, the more significant first.
pub open spec fn port_bytes(port: u16) -> Seq<u8> {
    seq![(port / 256) as u8, (port % 256) as u8]
}

/// The request to connect to an IPv4 address.
pub open spec fn request_for_ipv4(octets: Seq<u8>, port: u16) -> Seq<u8> {
    seq![5u8, 1u8, 0u8, 1u8] + octets + port_bytes(port)
}

/// The request to connect to a host by name.
pub open spec fn request_for_name(name: Seq<u8>, port: u16) -> Seq<u8> {
    seq![5u8, 1u8, 0u8, 3u8, name.len() as u8] + name + port_bytes(port)
}

/// The request that asks the relay to connect to `destination`, or the reason
/// why there is none.
///
/// An IPv4 socket address is sent as four address bytes. A socket address of
/// another family is refused. Anything else is a host name and a port, split
/// at the last colon; it is refused if it names no port, or if the name does
/// not fit the one byte that holds its length.
pub open spec fn connect_request(destination: Seq<u8>) -> Result<Seq<u8>, ProxyError> {
    if is_socket_addr_v4(destination) {
        let (octets, port) = socket_addr_v4_of(destination);
        Ok(request_for_ipv4(octets, port))
    } else if is_socket_addr_v6(destination) {
        Err(ProxyError::UnsupportedAddressFamily)
    } else {
        match target_of(destination) {
            Some((name, port)) => if name.len() <= MAX_NAME_LEN {
                Ok(request_for_name(name, port))
            } else {
                Err(ProxyError::InvalidDestination)
            },
            None => Err(ProxyError::InvalidDestination),
        }
    }
}

/// How far a handshake has come.
#[derive(Clone, Copy, Debug, PartialEq, Eq, Structural)]
pub enum Phase {
    /// The greeting is out; the relay has not chosen a method yet.
    Greeting,
    /// The relay has chosen "no authentication".
    MethodSelected,
    /// The request is out; the relay has not answered it yet.
    ConnectRequested,
    /// The relay has connected to the destination.
    Established,
    /// The handshake was given up.
    Failed(ProxyError),
}

impl Phase {
    /// The place of a phase in the order in which a handshake passes them.
    /// Both ends of a handshake stand last.
    pub open spec fn rank(self) -> nat {
        match self {
            Phase::Greeting => 0,
            Phase::MethodSelected => 1,
            Phase::ConnectRequested => 2,
            Phase::Established => 3,
            Phase::Failed(_) => 3,
        }
    }

    /// The handshake is over, one way or the other.
    pub open spec fn is_final(self) -> bool {
        self is Established || self is Failed
    }
}

/// A handshake as the contracts see it.
pub struct SessionView {
    pub phase: Phase,
    /// The text that names where the relay is to connect.
    pub destination: Seq<u8>,
    /// What the relay has sent and the handshake has not yet used.
    pub inbox: Seq<u8>,
}

impl SessionView {
    /// A handshake whose greeting has just been sent.
    pub open spec fn start(destination: Seq<u8>) -> SessionView {
        SessionView { phase: Phase::Greeting, destination, inbox: Seq::empty() }
    }

    /// The handshake waits for the relay: it is in no passing phase, and
    /// holds fewer bytes than the answer that it waits for.
    pub open spec fn settled(self) -> bool {
        match self.phase {
            Phase::Greeting => self.inbox.len() < METHOD_REPLY_LEN,
            Phase::MethodSelected => false,
            Phase::ConnectRequested => self.inbox.len() < CONNECT_REPLY_LEN,
            _ => true,
        }
    }

    /// Reads the relay's choice of method, once both of its bytes are there.
    pub open spec fn select_method(self) -> SessionView {
        if self.phase == Phase::Greeting && self.inbox.len() >= METHOD_REPLY_LEN {
            if self.inbox.take(METHOD_REPLY_LEN as int) == method_accepted() {
                SessionView {
                    phase: Phase::MethodSelected,
                    inbox: self.inbox.skip(METHOD_REPLY_LEN as int),
                    ..self
                }
            } else {
                SessionView { phase: Phase::Failed(ProxyError::RelayProtocolError), ..self }
            }
        } else {
            self
        }
    }

    /// Once a method is chosen, makes the request, with the bytes to send; or
    /// fails, with nothing to send, where the destination allows none.
    pub open spec fn request(self) -> (SessionView, Seq<u8>) {
        if self.phase == Phase::MethodSelected {
            match connect_request(self.destination) {
                Ok(bytes) => (SessionView { phase: Phase::ConnectRequested, ..self }, bytes),
                Err(e) => (SessionView { phase: Phase::Failed(e), ..self }, Seq::empty()),
            }
        } else {
            (self, Seq::empty())
        }
    }

    /// Reads the relay's answer to the request, once all of its bytes are
    /// there. Only the first four count.
    pub open spec fn conclude(self) -> SessionView {
        if self.phase == Phase::ConnectRequested && self.inbox.len() >= CONNECT_REPLY_LEN {
            if self.inbox.take(4) == connect_granted() {
                SessionView {
                    phase: Phase::Established,
                    inbox: self.inbox.skip(CONNECT_REPLY_LEN as int),
                    ..self
                }
            } else {
                SessionView { phase: Phase::Failed(ProxyError::RelayConnectRejected), ..self }
            }
        } else {
            self
        }
    }

    /// Takes in `data` from the relay and goes as far as the bytes allow.
    /// Gives the handshake afterwards and the bytes to send to the relay.
    pub open spec fn receive(self, data: Seq<u8>) -> (SessionView, Seq<u8>) {
        let fed = SessionView { inbox: self.inbox + data, ..self };
        let (asked, out) = fed.select_method().request();
        (asked.conclude(), out)
    }

    /// The relay has closed the connection. An answer that was still awaited
    /// will not come, which fails the step that waited for it.
    pub open spec fn close(self) -> SessionView {
        match self.phase {
            Phase::Greeting | Phase::MethodSelected => SessionView {
                phase: Phase::Failed(ProxyError::RelayProtocolError),
                ..self
            },
            Phase::ConnectRequested => SessionView {
                phase: Phase::Failed(ProxyError::RelayConnectRejected),
                ..self
            },
            _ => self,
        }
    }
}

/// It does not matter in how many pieces the relay's bytes arrive: taking
/// two pieces one after the other leaves the handshake where taking them
/// as one does, and the same bytes are sent.
pub proof fn lemma_receive_in_pieces(session: SessionView, first: Seq<u8>, second: Seq<u8>)
    ensures
        session.receive(first + second) == ({
            let (between, early) = session.receive(first);
            let (last, late) = between.receive(second);
            (last, early + late)
        }),
{
    let a = session.inbox + first;
    let b = a + second;
    assert(session.inbox + (first + second) =~= b);
    let (between, early) = session.receive(first);
    let (last, late) = between.receive(second);
    let (whole, out) = session.receive(first + second);
    if a.len() >= METHOD_REPLY_LEN {
        assert(b.take(METHOD_REPLY_LEN as int) =~= a.take(METHOD_REPLY_LEN as int));
        assert(b.skip(METHOD_REPLY_LEN as int) =~= a.skip(METHOD_REPLY_LEN as int) + second);
        let c = a.skip(METHOD_REPLY_LEN as int);
        if c.len() >= CONNECT_REPLY_LEN {
            assert((c + second).take(4) =~= c.take(4));
            assert((c + second).skip(CONNECT_REPLY_LEN as int) =~= c.skip(
                CONNECT_REPLY_LEN as int,
            ) + second);
        }
    }
    if a.len() >= CONNECT_REPLY_LEN {
        assert(b.take(4) =~= a.take(4));
        assert(b.skip(CONNECT_REPLY_LEN as int) =~= a.skip(CONNECT_REPLY_LEN as int) + second);
    }
    assert(whole.inbox =~= last.inbox);
    assert(out =~= early + late);
}

/// One SOCKS5 handshake, from the greeting to its end.
#[derive(Debug)]
pub struct Socks5Session {
    phase: Phase,
    destination: Vec<u8>,
    inbox: Vec<u8>,
}

impl View for Socks5Session {
    type V = SessionView;

    closed spec fn view(&self) -> SessionView {
        SessionView { phase: self.phase, destination: self.destination@, inbox: self.inbox@ }
    }
}

/// The greeting that opens a handshake.
pub fn greeting_bytes() -> (r: Vec<u8>)
    ensures
        r@ == greeting(),
{
    let mut r: Vec<u8> = Vec::new();
    r.push(5);
    r.push(1);
    r.push(0);
    assert(r@ =~= greeting());
    r
}

/// Puts the two bytes of `port` behind `out`, the more significant first.
fn push_port(out: &mut Vec<u8>, port: u16)
    ensures
        final(out)@ == old(out)@ + port_bytes(port),
{
    out.push((port / 256) as u8);
    out.push((port % 256) as u8);
    assert(out@ =~= old(out)@ + port_bytes(port));
}

/// The request that asks the relay to connect to `destination`.
pub fn encode_connect_request(destination: &[u8]) -> (r: Result<Vec<u8>, ProxyError>)
    ensures
        match r {
            Ok(bytes) => connect_request(destination@) == Ok::<Seq<u8>, ProxyError>(bytes@),
            Err(e) => connect_request(destination@) == Err::<Seq<u8>, ProxyError>(e),
        },
{
    if let Some(a) = parse_socket_addr_v4(destination) {
        let mut out: Vec<u8> = Vec::new();
        out.push(5);
        out.push(1);
        out.push(0);
        out.push(1);
        assert(out@ =~= seq![5u8, 1u8, 0u8, 1u8]);
        append(&mut out, a.octets.as_slice());
        push_port(&mut out, a.port);
        return Ok(out);
    }
    if check_socket_addr_v6(destination) {
        return Err(ProxyError::UnsupportedAddressFamily);
    }
    match ProxyTarget::parse(destination) {
        None => Err(ProxyError::InvalidDestination),
        Some(target) => {
            if target.host_or_ip.len() > MAX_NAME_LEN {
                return Err(ProxyError::InvalidDestination);
            }
            let mut out: Vec<u8> = Vec::new();
            out.push(5);
            out.push(1);
            out.push(0);
            out.push(3);
            out.push(target.host_or_ip.len() as u8);
            assert(out@ =~= seq![5u8, 1u8, 0u8, 3u8, target.host_or_ip@.len() as u8]);
            append(&mut out, target.host_or_ip.as_slice());
            push_port(&mut out, target.port);
            Ok(out)
        },
    }
}

impl Socks5Session {
    /// Begins a handshake for `destination`. Gives the session, which waits
    /// for the relay's choice of method, and the greeting to send.
    pub fn start(destination: Vec<u8>) -> (r: (Socks5Session, Vec<u8>))
        ensures
            r.0@ == SessionView::start(destination@),
            r.1@ == greeting(),
    {
        (Socks5Session { phase: Phase::Greeting, destination, inbox: Vec::new() }, greeting_bytes())
    }

    /// How far the handshake has come.
    pub fn phase(&self) -> (p: Phase)
        ensures
            p == self@.phase,
    {
        self.phase
    }

    /// The text that names where the relay is to connect.
    pub fn destination(&self) -> (d: &[u8])
        ensures
            d@ == self@.destination,
    {
        self.destination.as_slice()
    }

    /// What the relay has sent and the handshake has not used. Once the
    /// connection is established, these bytes are the first of its payload.
    pub fn unread(&self) -> (d: &[u8])
        ensures
            d@ == self@.inbox,
    {
        self.inbox.as_slice()
    }

    /// Drops the first `n` bytes of the inbox.
    fn consume(&mut self, n: usize)
        requires
            n <= old(self).inbox@.len(),
        ensures
            final(self).phase == old(self).phase,
            final(self).destination == old(self).destination,
            final(self).inbox@ == old(self).inbox@.skip(n as int),
    {
        let rest = copy_range(self.inbox.as_slice(), n, self.inbox.len());
        self.inbox = rest;
    }

    /// Takes in `data` from the relay and goes as far as the bytes allow.
    /// Gives the bytes to send to the relay: the request, when the relay has
    /// just chosen the method and the destination allows one; else nothing.
    pub fn receive(&mut self, data: &[u8]) -> (out: Vec<u8>)
        ensures
            (final(self)@, out@) == old(self)@.receive(data@),
            final(self)@.settled(),
    {
        append(&mut self.inbox, data);
        let ghost fed = self@;
        if self.phase == Phase::Greeting && self.inbox.len() >= METHOD_REPLY_LEN {
            let reply = vstd::slice::slice_subrange(self.inbox.as_slice(), 0, METHOD_REPLY_LEN);
            let accepted: [u8; 2] = [5, 0];
            assert(accepted@ =~= method_accepted());
            if same_bytes(reply, accepted.as_slice()) {
                self.phase = Phase::MethodSelected;
                self.consume(METHOD_REPLY_LEN);
            } else {
                self.phase = Phase::Failed(ProxyError::RelayProtocolError);
            }
        }
        assert(self@ == fed.select_method());
        let mut out: Vec<u8> = Vec::new();
        if self.phase == Phase::MethodSelected {
            match encode_connect_request(self.destination.as_slice()) {
                Ok(bytes) => {
                    self.phase = Phase::ConnectRequested;
                    out = bytes;
                },
                Err(e) => {
                    self.phase = Phase::Failed(e);
                },
            }
        }
        assert((self@, out@) == fed.select_method().request());
        let ghost asked = self@;
        if self.phase == Phase::ConnectRequested && self.inbox.len() >= CONNECT_REPLY_LEN {
            let head = vstd::slice::slice_subrange(self.inbox.as_slice(), 0, 4);
            let granted: [u8; 4] = [5, 0, 0, 1];
            assert(granted@ =~= connect_granted());
            if same_bytes(head, granted.as_slice()) {
                self.phase = Phase::Established;
                self.consume(CONNECT_REPLY_LEN);
            } else {
                self.phase = Phase::Failed(ProxyError::RelayConnectRejected);
            }
        }
        assert(self@ == asked.conclude());
        out
    }

    /// Tells the handshake that the relay has closed the connection.
    pub fn closed(&mut self)
        ensures
            final(self)@ == old(self)@.close(),
    {
        match self.phase {
            Phase::Greeting | Phase::MethodSelected => {
                self.phase = Phase::Failed(ProxyError::RelayProtocolError);
            },
            Phase::ConnectRequested => {
                self.phase = Phase::Failed(ProxyError::RelayConnectRejected);
            },
            _ => {},
        }
    }
}

} // verus!
