//! One client connection, from its first byte to its end.
//!
//! The connection is a value that is handed each thing that happens on its
//! two sockets, and answers with what to do: bytes for either side, whether
//! to open the connection to the relay, whether to close both sockets. It
//! reads the request, has the relay connect to the destination, and then
//! passes bytes on in both directions until either side closes.
//!
//! A client that ends its stream behind its request is served all the same:
//! what it has sent reaches the destination once the relay has connected,
//! and only then are the sockets closed.
//!
//! A connection owns its state alone. Nothing is shared between two of them.

use crate::error::ProxyError;
use crate::request::{parse_request, request_in, RelayRequest, RequestView};
use crate::socks5::{greeting, Phase, SessionView, Socks5Session};
use crate::text::{append, copy_range};
use vstd::prelude::*;

verus! {

/// What happens on the sockets of a connection.
#[derive(Debug)]
pub enum Event {
    /// The client has sent these bytes.
    ClientData(Vec<u8>),
    /// The client has closed its side, or its socket has failed.
    ClientClosed,
    /// The connection to the relay is open.
    UpstreamConnected,
    /// The connection to the relay could not be opened.
    UpstreamUnreachable,
    /// The relay has sent these bytes.
    UpstreamData(Vec<u8>),
    /// The relay has closed its side, or its socket has failed.
    UpstreamClosed,
}

/// An event as the contracts see it.
pub enum EventView {
    ClientData(Seq<u8>),
    ClientClosed,
    UpstreamConnected,
    UpstreamUnreachable,
    UpstreamData(Seq<u8>),
    UpstreamClosed,
}

impl View for Event {
    type V = EventView;

    open spec fn view(&self) -> EventView {
        match *self {
            Event::ClientData(data) => EventView::ClientData(data@),
            Event::ClientClosed => EventView::ClientClosed,
            Event::UpstreamConnected => EventView::UpstreamConnected,
            Event::UpstreamUnreachable => EventView::UpstreamUnreachable,
            Event::UpstreamData(data) => EventView::UpstreamData(data@),
            Event::UpstreamClosed => EventView::UpstreamClosed,
        }
    }
}

/// What the caller has to do after an event, in this order: write to the
/// client, open the connection to the relay, write to the relay, close both
/// sockets.
#[derive(Debug)]
pub struct Actions {
    /// Bytes to write to the client.
    pub to_client: Vec<u8>,
    /// Bytes to write to the relay.
    pub to_upstream: Vec<u8>,
    /// Open a connection to the relay, and report how that went.
    pub connect: bool,
    /// Close both sockets. The connection is over.
    pub close: bool,
}

/// Actions as the contracts see them.
pub struct ActionsView {
    pub to_client: Seq<u8>,
    pub to_upstream: Seq<u8>,
    pub connect: bool,
    pub close: bool,
}

impl View for Actions {
    type V = ActionsView;

    open spec fn view(&self) -> ActionsView {
        ActionsView {
            to_client: self.to_client@,
            to_upstream: self.to_upstream@,
            connect: self.connect,
            close: self.close,
        }
    }
}

impl ActionsView {
    /// Nothing to do.
    pub open spec fn nothing() -> ActionsView {
        ActionsView {
            to_client: Seq::empty(),
            to_upstream: Seq::empty(),
            connect: false,
            close: false,
        }
    }

    /// Only bytes for the client.
    pub open spec fn for_client(bytes: Seq<u8>) -> ActionsView {
        ActionsView { to_client: bytes, ..ActionsView::nothing() }
    }

    /// Only bytes for the relay.
    pub open spec fn for_upstream(bytes: Seq<u8>) -> ActionsView {
        ActionsView { to_upstream: bytes, ..ActionsView::nothing() }
    }

    /// Only the closing of both sockets.
    pub open spec fn closing() -> ActionsView {
        ActionsView { close: true, ..ActionsView::nothing() }
    }
}

/// The state of one client connection.
#[derive(Debug)]
pub enum Connection {
    /// The request is being read. `inbox` holds what the client has sent.
    Parsing { inbox: Vec<u8> },
    /// The request is read and the connection to the relay is being opened.
    /// `pending` holds what the client has sent behind the request, and
    /// `client_done` says that the client has ended its stream.
    Connecting { request: RelayRequest, pending: Vec<u8>, client_done: bool },
    /// The relay is being asked to connect to the destination.
    Handshaking {
        request: RelayRequest,
        session: Socks5Session,
        pending: Vec<u8>,
        client_done: bool,
    },
    /// Bytes are passed on in both directions.
    Relay,
    /// Either side has closed once the relay had connected.
    Closed,
    /// The connection was given up before bytes could be passed on.
    Failed(ProxyError),
}

/// A connection as the contracts see it.
pub enum ConnectionView {
    Parsing { inbox: Seq<u8> },
    Connecting { request: RequestView, pending: Seq<u8>, client_done: bool },
    Handshaking { request: RequestView, session: SessionView, pending: Seq<u8>, client_done: bool },
    Relay,
    Closed,
    Failed(ProxyError),
}

impl View for Connection {
    type V = ConnectionView;

    open spec fn view(&self) -> ConnectionView {
        match *self {
            Connection::Parsing { inbox } => ConnectionView::Parsing { inbox: inbox@ },
            Connection::Connecting { request, pending, client_done } => ConnectionView::Connecting {
                request: request@,
                pending: pending@,
                client_done,
            },
            Connection::Handshaking {
                request,
                session,
                pending,
                client_done,
            } => ConnectionView::Handshaking {
                request: request@,
                session: session@,
                pending: pending@,
                client_done,
            },
            Connection::Relay => ConnectionView::Relay,
            Connection::Closed => ConnectionView::Closed,
            Connection::Failed(e) => ConnectionView::Failed(e),
        }
    }
}

impl ConnectionView {
    /// A connection that has just been accepted.
    pub open spec fn start() -> ConnectionView {
        ConnectionView::Parsing { inbox: Seq::empty() }
    }

    /// The connection is over: nothing will be done for it any more.
    pub open spec fn is_over(self) -> bool {
        self is Closed || self is Failed
    }

    /// Giving up: both sockets are closed and nothing more is sent.
    pub open spec fn fail(e: ProxyError) -> (ConnectionView, ActionsView) {
        (ConnectionView::Failed(e), ActionsView::closing())
    }

    /// Where a connection stands that has read `inbox` from the client and
    /// nothing else has happened to it.
    ///
    /// Once the request is complete, a tunnel request is answered with
    /// success, and the connection to the relay is to be opened. What the
    /// client has sent behind the request is kept for the destination.
    pub open spec fn after_input(inbox: Seq<u8>) -> (ConnectionView, ActionsView) {
        match request_in(inbox, false) {
            Ok(Some((request, used))) => (
                ConnectionView::Connecting {
                    request,
                    pending: inbox.skip(used),
                    client_done: false,
                },
                ActionsView {
                    to_client: request.reply_to_client(),
                    to_upstream: Seq::empty(),
                    connect: true,
                    close: false,
                },
            ),
            Ok(None) => (ConnectionView::Parsing { inbox }, ActionsView::nothing()),
            Err(e) => ConnectionView::fail(e),
        }
    }

    /// Where a connection stands after its handshake has taken a step that
    /// left `session` and gave `out` to send to the relay.
    ///
    /// Whatever the step gave to send is sent. Once the handshake is through,
    /// the relay gets behind it the opening of the request and then what the
    /// client has sent in the meantime; the client gets what the relay has
    /// sent behind its last answer. If the client has ended its stream by
    /// then, both sockets are closed after these bytes are written, and the
    /// connection is over; else bytes are passed on from now. Where the
    /// handshake has failed, both sockets are closed.
    pub open spec fn after_handshake_step(
        request: RequestView,
        session: SessionView,
        out: Seq<u8>,
        pending: Seq<u8>,
        client_done: bool,
    ) -> (ConnectionView, ActionsView) {
        match session.phase {
            Phase::Established => (
                if client_done {
                    ConnectionView::Closed
                } else {
                    ConnectionView::Relay
                },
                ActionsView {
                    to_client: session.inbox,
                    to_upstream: out + request.opening_for_upstream() + pending,
                    connect: false,
                    close: client_done,
                },
            ),
            Phase::Failed(e) => (
                ConnectionView::Failed(e),
                ActionsView { to_upstream: out, ..ActionsView::closing() },
            ),
            _ => (
                ConnectionView::Handshaking { request, session, pending, client_done },
                ActionsView::for_upstream(out),
            ),
        }
    }

    /// The connection after `event`, and what the caller has to do.
    ///
    /// While the request is read, the end of the client's stream is a
    /// connection closed too early. Later, while the relay is being reached,
    /// it is only taken note of: nothing is lost and nothing is asked for.
    /// An event that cannot belong to the state leaves everything as it is.
    /// A connection that is over stays so.
    pub open spec fn react(self, event: EventView) -> (ConnectionView, ActionsView) {
        match self {
            ConnectionView::Parsing { inbox } => match event {
                EventView::ClientData(data) => ConnectionView::after_input(inbox + data),
                EventView::ClientClosed => ConnectionView::fail(ProxyError::ConnectionClosed),
                _ => (self, ActionsView::nothing()),
            },
            ConnectionView::Connecting { request, pending, client_done } => match event {
                EventView::ClientData(data) => (
                    ConnectionView::Connecting { request, pending: pending + data, client_done },
                    ActionsView::nothing(),
                ),
                EventView::ClientClosed => (
                    ConnectionView::Connecting { request, pending, client_done: true },
                    ActionsView::nothing(),
                ),
                EventView::UpstreamConnected => (
                    ConnectionView::Handshaking {
                        request,
                        session: SessionView::start(request.destination()),
                        pending,
                        client_done,
                    },
                    ActionsView::for_upstream(greeting()),
                ),
                EventView::UpstreamUnreachable | EventView::UpstreamClosed => ConnectionView::fail(
                    ProxyError::RelayUnreachable,
                ),
                EventView::UpstreamData(_) => (self, ActionsView::nothing()),
            },
            ConnectionView::Handshaking { request, session, pending, client_done } => match event {
                EventView::ClientData(data) => (
                    ConnectionView::Handshaking {
                        request,
                        session,
                        pending: pending + data,
                        client_done,
                    },
                    ActionsView::nothing(),
                ),
                EventView::ClientClosed => (
                    ConnectionView::Handshaking { request, session, pending, client_done: true },
                    ActionsView::nothing(),
                ),
                EventView::UpstreamData(data) => {
                    let (stepped, out) = session.receive(data);
                    ConnectionView::after_handshake_step(
                        request,
                        stepped,
                        out,
                        pending,
                        client_done,
                    )
                },
                EventView::UpstreamClosed => match session.close().phase {
                    Phase::Failed(e) => ConnectionView::fail(e),
                    _ => (ConnectionView::Closed, ActionsView::closing()),
                },
                _ => (self, ActionsView::nothing()),
            },
            ConnectionView::Relay => match event {
                EventView::ClientData(data) => (
                    ConnectionView::Relay,
                    ActionsView::for_upstream(data),
                ),
                EventView::UpstreamData(data) => (
                    ConnectionView::Relay,
                    ActionsView::for_client(data),
                ),
                EventView::ClientClosed | EventView::UpstreamClosed => (
                    ConnectionView::Closed,
                    ActionsView::closing(),
                ),
                _ => (self, ActionsView::nothing()),
            },
            ConnectionView::Closed => (self, ActionsView::nothing()),
            ConnectionView::Failed(_) => (self, ActionsView::nothing()),
        }
    }
}

impl Actions {
    /// Nothing to do.
    pub fn nothing() -> (r: Actions)
        ensures
            r@ == ActionsView::nothing(),
    {
        Actions { to_client: Vec::new(), to_upstream: Vec::new(), connect: false, close: false }
    }

    /// Only bytes for the client.
    pub fn for_client(bytes: Vec<u8>) -> (r: Actions)
        ensures
            r@ == ActionsView::for_client(bytes@),
    {
        Actions { to_client: bytes, to_upstream: Vec::new(), connect: false, close: false }
    }

    /// Only bytes for the relay.
    pub fn for_upstream(bytes: Vec<u8>) -> (r: Actions)
        ensures
            r@ == ActionsView::for_upstream(bytes@),
    {
        Actions { to_client: Vec::new(), to_upstream: bytes, connect: false, close: false }
    }

    /// Only the closing of both sockets.
    pub fn closing() -> (r: Actions)
        ensures
            r@ == ActionsView::closing(),
    {
        Actions { to_client: Vec::new(), to_upstream: Vec::new(), connect: false, close: true }
    }
}

impl Connection {
    /// A connection that has just been accepted.
    pub fn new() -> (r: Connection)
        ensures
            r@ == ConnectionView::start(),
    {
        Connection::Parsing { inbox: Vec::new() }
    }

    /// Whether the connection is over.
    pub fn is_over(&self) -> (r: bool)
        ensures
            r == self@.is_over(),
    {
        match self {
            Connection::Closed => true,
            Connection::Failed(_) => true,
            _ => false,
        }
    }

    /// Whether bytes are being passed on in both directions.
    pub fn is_relaying(&self) -> (r: bool)
        ensures
            r == (self@ is Relay),
    {
        match self {
            Connection::Relay => true,
            _ => false,
        }
    }

    /// Why the connection was given up, if it was.
    pub fn failure(&self) -> (r: Option<ProxyError>)
        ensures
            r == match self@ {
                ConnectionView::Failed(e) => Some(e),
                _ => None,
            },
    {
        match self {
            Connection::Failed(e) => Some(*e),
            _ => None,
        }
    }

    /// Gives up with `e`.
    fn fail(e: ProxyError) -> (r: (Connection, Actions))
        ensures
            (r.0@, r.1@) == ConnectionView::fail(e),
    {
        (Connection::Failed(e), Actions::closing())
    }

    /// Looks for the request in what the client has sent.
    fn after_input(inbox: Vec<u8>) -> (r: (Connection, Actions))
        ensures
            (r.0@, r.1@) == ConnectionView::after_input(inbox@),
    {
        match parse_request(inbox.as_slice(), false) {
            Err(e) => Connection::fail(e),
            Ok(None) => (Connection::Parsing { inbox }, Actions::nothing()),
            Ok(Some((request, used))) => {
                let pending = copy_range(inbox.as_slice(), used, inbox.len());
                let reply = request.reply_to_client();
                (
                    Connection::Connecting { request, pending, client_done: false },
                    Actions { to_client: reply, to_upstream: Vec::new(), connect: true, close: false },
                )
            },
        }
    }

    /// Goes on after the handshake has taken a step.
    fn after_handshake_step(
        request: RelayRequest,
        session: Socks5Session,
        out: Vec<u8>,
        pending: Vec<u8>,
        client_done: bool,
    ) -> (r: (Connection, Actions))
        ensures
            (r.0@, r.1@) == ConnectionView::after_handshake_step(
                request@,
                session@,
                out@,
                pending@,
                client_done,
            ),
    {
        match session.phase() {
            Phase::Established => {
                let mut to_upstream = out;
                let opening = request.opening_for_upstream();
                append(&mut to_upstream, opening.as_slice());
                append(&mut to_upstream, pending.as_slice());
                let unread = session.unread();
                let to_client = copy_range(unread, 0, unread.len());
                assert(to_client@ =~= session@.inbox);
                let actions = Actions { to_client, to_upstream, connect: false, close: client_done };
                if client_done {
                    (Connection::Closed, actions)
                } else {
                    (Connection::Relay, actions)
                }
            },
            Phase::Failed(e) => (
                Connection::Failed(e),
                Actions { to_client: Vec::new(), to_upstream: out, connect: false, close: true },
            ),
            _ => (
                Connection::Handshaking { request, session, pending, client_done },
                Actions::for_upstream(out),
            ),
        }
    }

    /// Takes in `event` and says what to do. Gives the connection as it is
    /// afterwards.
    pub fn handle(self, event: Event) -> (r: (Connection, Actions))
        ensures
            (r.0@, r.1@) == self@.react(event@),
    {
        match self {
            Connection::Parsing { inbox } => match event {
                Event::ClientData(data) => {
                    let mut inbox = inbox;
                    append(&mut inbox, data.as_slice());
                    Connection::after_input(inbox)
                },
                Event::ClientClosed => Connection::fail(ProxyError::ConnectionClosed),
                _ => (Connection::Parsing { inbox }, Actions::nothing()),
            },
            Connection::Connecting { request, pending, client_done } => match event {
                Event::ClientData(data) => {
                    let mut pending = pending;
                    append(&mut pending, data.as_slice());
                    (Connection::Connecting { request, pending, client_done }, Actions::nothing())
                },
                Event::ClientClosed => (
                    Connection::Connecting { request, pending, client_done: true },
                    Actions::nothing(),
                ),
                Event::UpstreamConnected => {
                    let (session, hello) = Socks5Session::start(request.destination());
                    (
                        Connection::Handshaking { request, session, pending, client_done },
                        Actions::for_upstream(hello),
                    )
                },
                Event::UpstreamUnreachable => Connection::fail(ProxyError::RelayUnreachable),
                Event::UpstreamClosed => Connection::fail(ProxyError::RelayUnreachable),
                Event::UpstreamData(_) => (
                    Connection::Connecting { request, pending, client_done },
                    Actions::nothing(),
                ),
            },
            Connection::Handshaking { request, session, pending, client_done } => match event {
                Event::ClientData(data) => {
                    let mut pending = pending;
                    append(&mut pending, data.as_slice());
                    (
                        Connection::Handshaking { request, session, pending, client_done },
                        Actions::nothing(),
                    )
                },
                Event::ClientClosed => (
                    Connection::Handshaking { request, session, pending, client_done: true },
                    Actions::nothing(),
                ),
                Event::UpstreamData(data) => {
                    let mut session = session;
                    let out = session.receive(data.as_slice());
                    Connection::after_handshake_step(request, session, out, pending, client_done)
                },
                Event::UpstreamClosed => {
                    let mut session = session;
                    session.closed();
                    match session.phase() {
                        Phase::Failed(e) => Connection::fail(e),
                        _ => (Connection::Closed, Actions::closing()),
                    }
                },
                _ => (
                    Connection::Handshaking { request, session, pending, client_done },
                    Actions::nothing(),
                ),
            },
            Connection::Relay => match event {
                Event::ClientData(data) => (Connection::Relay, Actions::for_upstream(data)),
                Event::UpstreamData(data) => (Connection::Relay, Actions::for_client(data)),
                Event::ClientClosed => (Connection::Closed, Actions::closing()),
                Event::UpstreamClosed => (Connection::Closed, Actions::closing()),
                _ => (Connection::Relay, Actions::nothing()),
            },
            Connection::Closed => (Connection::Closed, Actions::nothing()),
            Connection::Failed(e) => (Connection::Failed(e), Actions::nothing()),
        }
    }
}

} // verus!
