//! What holds of every handshake and of every connection, whatever the
//! bytes and the events. Each statement is proved over the models that the
//! contracts of the library speak of.

use crate::addr::{is_socket_addr_v6, lemma_address_families_differ, target_of};
use crate::connection::{ActionsView, ConnectionView, EventView};
use crate::error::ProxyError;
use crate::line_reader::{lemma_line_found, MAX_LINE_LEN};
use crate::request::{
    connect_token, is_first_blank_line, kind_of, lemma_header_block_found, lemma_request_settled,
    ok_response, request_in, RequestKind, RequestView, MAX_HEADER_LEN,
};
use crate::socks5::{
    connect_granted, connect_request, greeting, lemma_receive_in_pieces, method_accepted, Phase,
    SessionView, CONNECT_REPLY_LEN, METHOD_REPLY_LEN,
};
use crate::text::{COLON, SLASH, SPACE};
use vstd::prelude::*;

verus! {

/// What is to be done after two events, one after the other: the bytes for
/// each side in order, and each of the two steps if either asks for it.
pub open spec fn joined(first: ActionsView, next: ActionsView) -> ActionsView {
    ActionsView {
        to_client: first.to_client + next.to_client,
        to_upstream: first.to_upstream + next.to_upstream,
        connect: first.connect || next.connect,
        close: first.close || next.close,
    }
}

/// The connection after all of `events`, in order, and all that is to be
/// done for them.
pub open spec fn run(c: ConnectionView, events: Seq<EventView>) -> (ConnectionView, ActionsView)
    decreases events.len(),
{
    if events.len() == 0 {
        (c, ActionsView::nothing())
    } else {
        let (next, first) = c.react(events.first());
        let (last, rest) = run(next, events.drop_first());
        (last, joined(first, rest))
    }
}

/// The event brings bytes from one of the two sides.
pub open spec fn is_payload(event: EventView) -> bool {
    event is ClientData || event is UpstreamData
}

/// All the bytes that the client sends in `events`, in order.
pub open spec fn from_client(events: Seq<EventView>) -> Seq<u8>
    decreases events.len(),
{
    if events.len() == 0 {
        Seq::empty()
    } else {
        let first = match events.first() {
            EventView::ClientData(data) => data,
            _ => Seq::empty(),
        };
        first + from_client(events.drop_first())
    }
}

/// All the bytes that the relay sends in `events`, in order.
pub open spec fn from_upstream(events: Seq<EventView>) -> Seq<u8>
    decreases events.len(),
{
    if events.len() == 0 {
        Seq::empty()
    } else {
        let first = match events.first() {
            EventView::UpstreamData(data) => data,
            _ => Seq::empty(),
        };
        first + from_upstream(events.drop_first())
    }
}

/// A tunnel request as a client writes it: `CONNECT`, the target, and the
/// rest of the header block, with single spaces between them.
pub open spec fn tunnel_request_text(target: Seq<u8>, block: Seq<u8>) -> Seq<u8> {
    connect_token() + seq![SPACE] + target + seq![SPACE] + block
}

/// A plain request as a client writes it, up to the slash behind the host:
/// the method, a space, the scheme with its colon, two slashes, the host,
/// and a slash.
pub open spec fn plain_request_text(method: Seq<u8>, scheme: Seq<u8>, host: Seq<u8>) -> Seq<u8> {
    method + seq![SPACE] + scheme + seq![SLASH] + seq![SLASH] + host + seq![SLASH]
}

/// The tunnel request for `target`.
pub open spec fn tunnel_to(target: Seq<u8>) -> RequestView {
    RequestView { kind: RequestKind::Tunnel, method: connect_token(), target }
}

/// The plain request that `method` makes for `host`.
pub open spec fn plain_to(method: Seq<u8>, host: Seq<u8>) -> RequestView {
    RequestView { kind: RequestKind::Plain, method, target: host }
}

/// A handshake that has sent its request and has read all that came in.
pub open spec fn asked(destination: Seq<u8>) -> SessionView {
    SessionView { phase: Phase::ConnectRequested, destination, inbox: Seq::empty() }
}

/// A handshake that has come through, with `unread` behind the relay's last
/// answer.
pub open spec fn established_with(destination: Seq<u8>, unread: Seq<u8>) -> SessionView {
    SessionView { phase: Phase::Established, destination, inbox: unread }
}

/// A connection that has read `request`, keeps `pending` for the
/// destination, and waits for the connection to the relay.
pub open spec fn connecting(
    request: RequestView,
    pending: Seq<u8>,
    client_done: bool,
) -> ConnectionView {
    ConnectionView::Connecting { request, pending, client_done }
}

/// A connection whose handshake stands at `session`.
pub open spec fn handshaking(
    request: RequestView,
    session: SessionView,
    pending: Seq<u8>,
    client_done: bool,
) -> ConnectionView {
    ConnectionView::Handshaking { request, session, pending, client_done }
}

/// Where a connection stands once the relay has connected: it passes bytes
/// on, or it is closed if the client has ended its stream before.
pub open spec fn served(client_done: bool) -> ConnectionView {
    if client_done {
        ConnectionView::Closed
    } else {
        ConnectionView::Relay
    }
}

/// The client has not ended its stream while the relay was being asked.
pub open spec fn client_is_there(c: ConnectionView) -> bool {
    c matches ConnectionView::Handshaking { client_done, .. } ==> !client_done
}

/// The bytes of all `pieces`, in order.
pub open spec fn flat(pieces: Seq<Seq<u8>>) -> Seq<u8>
    decreases pieces.len(),
{
    if pieces.len() == 0 {
        Seq::empty()
    } else {
        pieces.first() + flat(pieces.drop_first())
    }
}

/// The arrival of each of `pieces` from the client, in order.
pub open spec fn client_data(pieces: Seq<Seq<u8>>) -> Seq<EventView> {
    pieces.map_values(|piece: Seq<u8>| EventView::ClientData(piece))
}

/// The arrival of each of `pieces` from the relay, in order.
pub open spec fn upstream_data(pieces: Seq<Seq<u8>>) -> Seq<EventView> {
    pieces.map_values(|piece: Seq<u8>| EventView::UpstreamData(piece))
}

/// The handshake after it has taken in each of `pieces` from the relay, in
/// order, and all that it gave to send.
pub open spec fn receive_each(session: SessionView, pieces: Seq<Seq<u8>>) -> (SessionView, Seq<u8>)
    decreases pieces.len(),
{
    if pieces.len() == 0 {
        (session, Seq::empty())
    } else {
        let (next, out) = session.receive(pieces.first());
        let (last, more) = receive_each(next, pieces.drop_first());
        (last, out + more)
    }
}

/// However the relay's bytes are cut into pieces, the handshake takes the
/// same steps in the same order and sends the same bytes as with all of
/// them in one piece.
pub proof fn lemma_receive_in_many_pieces(session: SessionView, pieces: Seq<Seq<u8>>)
    requires
        pieces.len() >= 1,
    ensures
        receive_each(session, pieces) == session.receive(flat(pieces)),
    decreases pieces.len(),
{
    let first = pieces.first();
    let rest = pieces.drop_first();
    let (next, out) = session.receive(first);
    if rest.len() == 0 {
        assert(flat(rest) =~= Seq::<u8>::empty());
        assert(flat(pieces) =~= first);
        assert(out + receive_each(next, rest).1 =~= out);
    } else {
        lemma_receive_in_many_pieces(next, rest);
        lemma_receive_in_pieces(session, first, flat(rest));
    }
}

/// Running a first event and then the rest is running them all.
pub proof fn lemma_run_first(c: ConnectionView, first: EventView, rest: Seq<EventView>)
    ensures
        run(c, seq![first] + rest) == ({
            let (next, done) = c.react(first);
            let (last, more) = run(next, rest);
            (last, joined(done, more))
        }),
{
    let events = seq![first] + rest;
    assert(events.first() == first);
    assert(events.drop_first() =~= rest);
}

/// Running one event is reacting to it.
pub proof fn lemma_run_one(c: ConnectionView, event: EventView)
    ensures
        run(c, seq![event]) == c.react(event),
{
    let none = Seq::<EventView>::empty();
    assert(seq![event] =~= seq![event] + none);
    lemma_run_first(c, event, none);
    let (next, done) = c.react(event);
    assert(joined(done, ActionsView::nothing()).to_client =~= done.to_client);
    assert(joined(done, ActionsView::nothing()).to_upstream =~= done.to_upstream);
}

/// Running early events and then late ones is running them all.
pub proof fn lemma_run_in_two(c: ConnectionView, early: Seq<EventView>, late: Seq<EventView>)
    ensures
        run(c, early + late) == ({
            let (between, done) = run(c, early);
            let (last, more) = run(between, late);
            (last, joined(done, more))
        }),
    decreases early.len(),
{
    let (between, done) = run(c, early);
    let (last, more) = run(between, late);
    if early.len() == 0 {
        assert(early + late =~= late);
        assert(joined(done, more).to_client =~= more.to_client);
        assert(joined(done, more).to_upstream =~= more.to_upstream);
    } else {
        let (next, first) = c.react(early.first());
        assert((early + late).first() == early.first());
        assert((early + late).drop_first() =~= early.drop_first() + late);
        lemma_run_in_two(next, early.drop_first(), late);
        let (_, rest) = run(next, early.drop_first());
        assert(joined(first, joined(rest, more)).to_client =~= joined(
            joined(first, rest),
            more,
        ).to_client);
        assert(joined(first, joined(rest, more)).to_upstream =~= joined(
            joined(first, rest),
            more,
        ).to_upstream);
    }
}

/// It does not matter in how many pieces the relay's bytes arrive: two
/// pieces, one after the other, do to a connection what the two do as one.
/// This is so while the client is there; once it has ended its stream, the
/// connection is closed with the relay's last answer, and a later piece
/// finds it closed.
pub proof fn lemma_upstream_data_in_two(c: ConnectionView, first: Seq<u8>, second: Seq<u8>)
    requires
        client_is_there(c),
    ensures
        run(c, seq![EventView::UpstreamData(first), EventView::UpstreamData(second)]) == c.react(
            EventView::UpstreamData(first + second),
        ),
        client_is_there(c.react(EventView::UpstreamData(first)).0),
{
    let e1 = EventView::UpstreamData(first);
    let e2 = EventView::UpstreamData(second);
    assert(seq![e1, e2] =~= seq![e1] + seq![e2]);
    lemma_run_first(c, e1, seq![e2]);
    let (c1, a1) = c.react(e1);
    lemma_run_one(c1, e2);
    let (c2, a2) = c1.react(e2);
    let (whole, all) = c.react(EventView::UpstreamData(first + second));
    if let ConnectionView::Handshaking { request, session, pending, client_done } = c {
        lemma_receive_in_pieces(session, first, second);
        let (between, early) = session.receive(first);
        let (last, late) = between.receive(second);
        assert(early + late + request.opening_for_upstream() + pending =~= early + (late
            + request.opening_for_upstream() + pending));
        assert(between.phase.is_final() ==> late =~= Seq::<u8>::empty() && last.inbox
            =~= between.inbox + second);
    }
    assert(joined(a1, a2).to_client =~= all.to_client);
    assert(joined(a1, a2).to_upstream =~= all.to_upstream);
}

/// It does not matter in how many pieces the client's bytes arrive: two
/// pieces, one after the other, do to a connection what the two do as one.
pub proof fn lemma_client_data_in_two(c: ConnectionView, first: Seq<u8>, second: Seq<u8>)
    ensures
        run(c, seq![EventView::ClientData(first), EventView::ClientData(second)]) == c.react(
            EventView::ClientData(first + second),
        ),
{
    let e1 = EventView::ClientData(first);
    let e2 = EventView::ClientData(second);
    assert(seq![e1, e2] =~= seq![e1] + seq![e2]);
    lemma_run_first(c, e1, seq![e2]);
    let (c1, a1) = c.react(e1);
    lemma_run_one(c1, e2);
    let (c2, a2) = c1.react(e2);
    let (whole, all) = c.react(EventView::ClientData(first + second));
    match c {
        ConnectionView::Parsing { inbox } => {
            assert(inbox + (first + second) =~= inbox + first + second);
            if request_in(inbox + first, false) != Ok::<Option<(RequestView, int)>, ProxyError>(
                None,
            ) {
                lemma_request_settled(inbox + first, second, false);
                if let Ok(Some((_, used))) = request_in(inbox + first, false) {
                    assert((inbox + first + second).skip(used) =~= (inbox + first).skip(used)
                        + second);
                }
            }
        },
        ConnectionView::Connecting { request, pending, client_done } => {
            assert(pending + (first + second) =~= pending + first + second);
        },
        ConnectionView::Handshaking { request, session, pending, client_done } => {
            assert(pending + (first + second) =~= pending + first + second);
        },
        _ => {},
    }
    assert(joined(a1, a2).to_client =~= all.to_client);
    assert(joined(a1, a2).to_upstream =~= all.to_upstream);
}

/// However the client's bytes are cut into pieces, the connection ends
/// where it would with all of them in one piece, and the same is done.
pub proof fn lemma_client_data_in_pieces(c: ConnectionView, pieces: Seq<Seq<u8>>)
    requires
        pieces.len() >= 1,
    ensures
        run(c, client_data(pieces)) == c.react(EventView::ClientData(flat(pieces))),
    decreases pieces.len(),
{
    let first = pieces.first();
    let rest = pieces.drop_first();
    let e1 = EventView::ClientData(first);
    assert(client_data(pieces) =~= seq![e1] + client_data(rest));
    lemma_run_first(c, e1, client_data(rest));
    if rest.len() == 0 {
        assert(flat(rest) =~= Seq::<u8>::empty());
        assert(flat(pieces) =~= first);
        assert(client_data(pieces) =~= seq![e1]);
        lemma_run_one(c, e1);
    } else {
        let e2 = EventView::ClientData(flat(rest));
        lemma_client_data_in_pieces(c.react(e1).0, rest);
        assert(seq![e1, e2] =~= seq![e1] + seq![e2]);
        lemma_run_first(c, e1, seq![e2]);
        lemma_run_one(c.react(e1).0, e2);
        lemma_client_data_in_two(c, first, flat(rest));
    }
}

/// However the relay's bytes are cut into pieces, the connection ends where
/// it would with all of them in one piece, and the same is done, while the
/// client is there.
pub proof fn lemma_upstream_data_in_pieces(c: ConnectionView, pieces: Seq<Seq<u8>>)
    requires
        pieces.len() >= 1,
        client_is_there(c),
    ensures
        run(c, upstream_data(pieces)) == c.react(EventView::UpstreamData(flat(pieces))),
    decreases pieces.len(),
{
    let first = pieces.first();
    let rest = pieces.drop_first();
    let e1 = EventView::UpstreamData(first);
    assert(upstream_data(pieces) =~= seq![e1] + upstream_data(rest));
    lemma_run_first(c, e1, upstream_data(rest));
    if rest.len() == 0 {
        assert(flat(rest) =~= Seq::<u8>::empty());
        assert(flat(pieces) =~= first);
        assert(upstream_data(pieces) =~= seq![e1]);
        lemma_run_one(c, e1);
    } else {
        let e2 = EventView::UpstreamData(flat(rest));
        lemma_upstream_data_in_two(c, first, flat(rest));
        lemma_upstream_data_in_pieces(c.react(e1).0, rest);
        assert(seq![e1, e2] =~= seq![e1] + seq![e2]);
        lemma_run_first(c, e1, seq![e2]);
        lemma_run_one(c.react(e1).0, e2);
        lemma_upstream_data_in_two(c, first, flat(rest));
    }
}

/// While bytes are passed on, every byte from either side goes to the other
/// side unchanged and in order, nothing else is sent, and nothing is closed.
pub proof fn lemma_relay_passes_bytes_on(traffic: Seq<EventView>)
    requires
        forall|i: int| 0 <= i < traffic.len() ==> is_payload(#[trigger] traffic[i]),
    ensures
        run(ConnectionView::Relay, traffic) == (
            ConnectionView::Relay,
            ActionsView {
                to_client: from_upstream(traffic),
                to_upstream: from_client(traffic),
                connect: false,
                close: false,
            },
        ),
    decreases traffic.len(),
{
    if traffic.len() > 0 {
        let rest = traffic.drop_first();
        assert forall|i: int| 0 <= i < rest.len() implies is_payload(#[trigger] rest[i]) by {
            assert(rest[i] == traffic[i + 1]);
        }
        lemma_relay_passes_bytes_on(rest);
        assert(is_payload(traffic[0]));
        let (next, first) = ConnectionView::Relay.react(traffic.first());
        let (last, more) = run(next, rest);
        assert(joined(first, more).to_client =~= from_upstream(traffic));
        assert(joined(first, more).to_upstream =~= from_client(traffic));
    }
}

/// While bytes are passed on, either side closing closes both sockets and
/// ends the connection.
pub proof fn lemma_closing_ends_the_relay(event: EventView)
    requires
        event is ClientClosed || event is UpstreamClosed,
    ensures
        ConnectionView::Relay.react(event) == (ConnectionView::Closed, ActionsView::closing()),
{
}

/// `CONNECT` has no space in it.
pub proof fn lemma_connect_token_is_one_word()
    ensures
        !connect_token().contains(SPACE),
        connect_token().len() == 7,
{
    let t = connect_token();
    assert forall|i: int| 0 <= i < t.len() implies t[i] != SPACE by {
        assert(t.len() == 7);
        if i == 0 {
        } else if i == 1 {
        } else if i == 2 {
        } else if i == 3 {
        } else if i == 4 {
        } else if i == 5 {
        } else {
        }
    }
}

/// A tunnel request whose target is one word of no more than a line, and
/// whose header block is no longer than it may be and ends with its first
/// blank line, is read as the tunnel request for that target. It takes all
/// its bytes and none of what follows.
pub proof fn lemma_tunnel_request_is_read(
    target: Seq<u8>,
    block: Seq<u8>,
    rest: Seq<u8>,
    at_end: bool,
)
    requires
        target.len() <= MAX_LINE_LEN,
        !target.contains(SPACE),
        block.len() <= MAX_HEADER_LEN,
        is_first_blank_line(block, block.len() - 4),
    ensures
        request_in(tunnel_request_text(target, block) + rest, at_end) == Ok::<
            Option<(RequestView, int)>,
            ProxyError,
        >(Some((tunnel_to(target), tunnel_request_text(target, block).len() as int))),
        (tunnel_request_text(target, block) + rest).skip(
            tunnel_request_text(target, block).len() as int,
        ) == rest,
{
    let text = tunnel_request_text(target, block);
    let input = text + rest;
    let behind_method = target + seq![SPACE] + (block + rest);
    lemma_connect_token_is_one_word();
    assert(input =~= connect_token() + seq![SPACE] + behind_method);
    lemma_line_found(connect_token(), SPACE, behind_method, at_end);
    lemma_line_found(target, SPACE, block + rest, at_end);
    lemma_header_block_found(block, rest, at_end);
    assert(input.skip(text.len() as int) =~= rest);
}

/// A plain request is read up to the slash behind its host, and as the same
/// request whatever path follows that slash. The method is one word other
/// than `CONNECT`; scheme and host have no slash in them; none of the three
/// is longer than a line.
pub proof fn lemma_plain_request_is_read(
    method: Seq<u8>,
    scheme: Seq<u8>,
    host: Seq<u8>,
    path: Seq<u8>,
    at_end: bool,
)
    requires
        method.len() <= MAX_LINE_LEN,
        !method.contains(SPACE),
        method != connect_token(),
        scheme.len() <= MAX_LINE_LEN,
        !scheme.contains(SLASH),
        host.len() <= MAX_LINE_LEN,
        !host.contains(SLASH),
    ensures
        request_in(plain_request_text(method, scheme, host) + path, at_end) == Ok::<
            Option<(RequestView, int)>,
            ProxyError,
        >(Some((plain_to(method, host), plain_request_text(method, scheme, host).len() as int))),
        (plain_request_text(method, scheme, host) + path).skip(
            plain_request_text(method, scheme, host).len() as int,
        ) == path,
        plain_to(method, host).opening_for_upstream() == method + seq![SPACE, SLASH],
{
    let text = plain_request_text(method, scheme, host);
    let input = text + path;
    let behind_scheme = seq![SLASH] + host + seq![SLASH] + path;
    let behind_method = scheme + seq![SLASH] + behind_scheme;
    assert(input =~= method + seq![SPACE] + behind_method);
    lemma_line_found(method, SPACE, behind_method, at_end);
    lemma_line_found(scheme, SLASH, behind_scheme, at_end);
    assert(behind_method.skip(scheme.len() as int + 1) == behind_scheme);
    assert(behind_method.skip(scheme.len() as int + 1 + 1) =~= host + seq![SLASH] + path);
    lemma_line_found(host, SLASH, path, at_end);
    assert(kind_of(method) == RequestKind::Plain);
    assert(input.skip(text.len() as int) =~= path);
}

/// A handshake whose relay accepts the method and grants the request sends
/// the request once and nothing else, and is established; what the relay
/// has sent behind its second answer is left unread.
pub proof fn lemma_handshake_runs_through(
    destination: Seq<u8>,
    ask: Seq<u8>,
    reply: Seq<u8>,
    early: Seq<u8>,
)
    requires
        connect_request(destination) == Ok::<Seq<u8>, ProxyError>(ask),
        reply.len() == CONNECT_REPLY_LEN,
        reply.take(4) == connect_granted(),
    ensures
        SessionView::start(destination).receive(method_accepted()) == (asked(destination), ask),
        asked(destination).receive(reply + early) == (
            established_with(destination, early),
            Seq::<u8>::empty(),
        ),
{
    let begun = SessionView::start(destination);
    let fed = SessionView { inbox: begun.inbox + method_accepted(), ..begun };
    assert(fed.inbox =~= method_accepted());
    assert(fed.inbox.take(METHOD_REPLY_LEN as int) =~= method_accepted());
    assert(fed.inbox.skip(METHOD_REPLY_LEN as int) =~= Seq::<u8>::empty());
    let answered = SessionView { inbox: asked(destination).inbox + (reply + early), ..asked(
        destination,
    ) };
    assert(answered.inbox =~= reply + early);
    assert(answered.inbox.take(4) =~= reply.take(4));
    assert(answered.inbox.skip(CONNECT_REPLY_LEN as int) =~= early);
}

/// While the relay is being reached, the end of the client's stream is only
/// taken note of: the request, the handshake and the bytes kept for the
/// destination stay, and nothing is asked for.
pub proof fn lemma_early_close_is_noted(
    request: RequestView,
    session: SessionView,
    pending: Seq<u8>,
    client_done: bool,
)
    ensures
        connecting(request, pending, client_done).react(EventView::ClientClosed) == (
            connecting(request, pending, true),
            ActionsView::nothing(),
        ),
        handshaking(request, session, pending, client_done).react(EventView::ClientClosed) == (
            handshaking(request, session, pending, true),
            ActionsView::nothing(),
        ),
{
}

/// While the relay is being reached, it does not matter when the end of the
/// client's stream is reported: before an event or after it, the same is
/// done and the connection ends in the same place.
pub proof fn lemma_client_may_close_early(c: ConnectionView, event: EventView)
    requires
        c is Connecting || c is Handshaking,
    ensures
        run(c, seq![EventView::ClientClosed, event]) == run(
            c,
            seq![event, EventView::ClientClosed],
        ),
{
    let close = EventView::ClientClosed;
    assert(seq![close, event] =~= seq![close] + seq![event]);
    assert(seq![event, close] =~= seq![event] + seq![close]);
    lemma_run_first(c, close, seq![event]);
    lemma_run_one(c.react(close).0, event);
    lemma_run_first(c, event, seq![close]);
    lemma_run_one(c.react(event).0, close);
    let (c1, a1) = c.react(close);
    let (c2, a2) = c1.react(event);
    let (d1, b1) = c.react(event);
    let (d2, b2) = d1.react(close);
    assert(joined(a1, a2).to_client =~= joined(b1, b2).to_client);
    assert(joined(a1, a2).to_upstream =~= joined(b1, b2).to_upstream);
}

/// The three steps from a request that is read to the passing on of bytes,
/// for a destination that a request can name and a relay that accepts. The
/// greeting goes out; the request to the relay goes out; then the relay gets
/// the opening of the request and what the client has sent behind it, and
/// the client gets what the relay has sent behind its second answer. If the
/// client has ended its stream by then, both sockets are closed with that.
pub proof fn lemma_relay_is_reached(
    request: RequestView,
    pending: Seq<u8>,
    client_done: bool,
    ask: Seq<u8>,
    reply: Seq<u8>,
    early: Seq<u8>,
)
    requires
        connect_request(request.destination()) == Ok::<Seq<u8>, ProxyError>(ask),
        reply.len() == CONNECT_REPLY_LEN,
        reply.take(4) == connect_granted(),
    ensures
        connecting(request, pending, client_done).react(EventView::UpstreamConnected) == (
            handshaking(
                request,
                SessionView::start(request.destination()),
                pending,
                client_done,
            ),
            ActionsView::for_upstream(greeting()),
        ),
        handshaking(
            request,
            SessionView::start(request.destination()),
            pending,
            client_done,
        ).react(EventView::UpstreamData(method_accepted())) == (
            handshaking(request, asked(request.destination()), pending, client_done),
            ActionsView::for_upstream(ask),
        ),
        handshaking(request, asked(request.destination()), pending, client_done).react(
            EventView::UpstreamData(reply + early),
        ) == (
            served(client_done),
            ActionsView {
                to_client: early,
                to_upstream: request.opening_for_upstream() + pending,
                connect: false,
                close: client_done,
            },
        ),
{
    let destination = request.destination();
    lemma_handshake_runs_through(destination, ask, reply, early);
    let (c, a) = handshaking(request, asked(destination), pending, client_done).react(
        EventView::UpstreamData(reply + early),
    );
    assert(a.to_upstream =~= request.opening_for_upstream() + pending);
}

/// For every request that is read, a destination that a request can name,
/// and a relay that accepts: the client gets its answer, if its kind has
/// one, once, then what the relay sends behind its own two answers; the
/// relay gets the greeting, the request for the destination, the opening
/// of the client's request, what the client sent behind its request, and
/// then what the client sends. All bytes keep their order, however the
/// client's and the relay's bytes are cut into pieces, and nothing is
/// closed.
pub proof fn lemma_request_is_served(
    input: Seq<u8>,
    request: RequestView,
    used: int,
    ask: Seq<u8>,
    reply: Seq<u8>,
    early: Seq<u8>,
    sent: Seq<Seq<u8>>,
    answers: Seq<Seq<u8>>,
    traffic: Seq<EventView>,
)
    requires
        request_in(input, false) == Ok::<Option<(RequestView, int)>, ProxyError>(
            Some((request, used)),
        ),
        connect_request(request.destination()) == Ok::<Seq<u8>, ProxyError>(ask),
        reply.len() == CONNECT_REPLY_LEN,
        reply.take(4) == connect_granted(),
        sent.len() >= 1,
        flat(sent) == input,
        answers.len() >= 1,
        flat(answers) == method_accepted() + reply + early,
        forall|i: int| 0 <= i < traffic.len() ==> is_payload(#[trigger] traffic[i]),
    ensures
        run(
            ConnectionView::start(),
            client_data(sent) + seq![EventView::UpstreamConnected] + upstream_data(answers)
                + traffic,
        ) == (
            ConnectionView::Relay,
            ActionsView {
                to_client: request.reply_to_client() + early + from_upstream(traffic),
                to_upstream: greeting() + ask + request.opening_for_upstream() + input.skip(used)
                    + from_client(traffic),
                connect: true,
                close: false,
            },
        ),
{
    let destination = request.destination();
    let pending = input.skip(used);
    let c0 = ConnectionView::start();
    let c1 = connecting(request, pending, false);
    let c2 = handshaking(request, SessionView::start(destination), pending, false);
    let c3 = handshaking(request, asked(destination), pending, false);
    let c4 = ConnectionView::Relay;
    let s1 = client_data(sent);
    let s2 = seq![EventView::UpstreamConnected];
    let s3 = upstream_data(answers);
    let e3 = EventView::UpstreamData(method_accepted());
    let e4 = EventView::UpstreamData(reply + early);
    lemma_relay_is_reached(request, pending, false, ask, reply, early);
    lemma_client_data_in_pieces(c0, sent);
    assert(Seq::<u8>::empty() + input =~= input);
    lemma_run_one(c1, EventView::UpstreamConnected);
    lemma_upstream_data_in_pieces(c2, answers);
    assert(method_accepted() + reply + early =~= method_accepted() + (reply + early));
    lemma_upstream_data_in_two(c2, method_accepted(), reply + early);
    assert(seq![e3, e4] =~= seq![e3] + seq![e4]);
    lemma_run_first(c2, e3, seq![e4]);
    lemma_run_one(c3, e4);
    lemma_relay_passes_bytes_on(traffic);
    let (_, a1) = run(c0, s1);
    let (_, a2) = run(c1, s2);
    let (_, a3) = run(c2, s3);
    let (_, a5) = run(c4, traffic);
    lemma_run_in_two(c2, s3, traffic);
    assert(s2 + s3 + traffic =~= s2 + (s3 + traffic));
    lemma_run_in_two(c1, s2, s3 + traffic);
    assert(s1 + s2 + s3 + traffic =~= s1 + (s2 + s3 + traffic));
    lemma_run_in_two(c0, s1, s2 + s3 + traffic);
    let all = joined(a1, joined(a2, joined(a3, a5)));
    assert(all.to_client =~= request.reply_to_client() + early + from_upstream(traffic));
    assert(all.to_upstream =~= greeting() + ask + request.opening_for_upstream() + pending
        + from_client(traffic));
}

/// The four events that take a connection from its first byte to the
/// passing on of bytes, each in one piece.
pub open spec fn set_up(input: Seq<u8>, reply: Seq<u8>, early: Seq<u8>) -> Seq<EventView> {
    seq![
        EventView::ClientData(input),
        EventView::UpstreamConnected,
        EventView::UpstreamData(method_accepted()),
        EventView::UpstreamData(reply + early),
    ]
}

/// The three events that take a connection whose request is read to the
/// passing on of bytes, each in one piece.
pub open spec fn reaching(reply: Seq<u8>, early: Seq<u8>) -> Seq<EventView> {
    seq![
        EventView::UpstreamConnected,
        EventView::UpstreamData(method_accepted()),
        EventView::UpstreamData(reply + early),
    ]
}

/// What is done in all for a request that is read and a relay that is
/// reached, when the client has ended its stream on the way.
pub open spec fn reached_and_closed(
    request: RequestView,
    pending: Seq<u8>,
    ask: Seq<u8>,
    early: Seq<u8>,
) -> ActionsView {
    ActionsView {
        to_client: early,
        to_upstream: greeting() + ask + request.opening_for_upstream() + pending,
        connect: false,
        close: true,
    }
}

/// The end of the client's stream, reported before the relay is connected.
proof fn lemma_reached_closing_first(
    request: RequestView,
    pending: Seq<u8>,
    ask: Seq<u8>,
    reply: Seq<u8>,
    early: Seq<u8>,
)
    requires
        connect_request(request.destination()) == Ok::<Seq<u8>, ProxyError>(ask),
        reply.len() == CONNECT_REPLY_LEN,
        reply.take(4) == connect_granted(),
    ensures
        run(
            connecting(request, pending, false),
            seq![EventView::ClientClosed] + reaching(reply, early),
        ) == (ConnectionView::Closed, reached_and_closed(request, pending, ask, early)),
{
    let destination = request.destination();
    let e2 = EventView::UpstreamConnected;
    let e3 = EventView::UpstreamData(method_accepted());
    let e4 = EventView::UpstreamData(reply + early);
    let close = EventView::ClientClosed;
    let c1 = connecting(request, pending, false);
    let k1 = connecting(request, pending, true);
    let k2 = handshaking(request, SessionView::start(destination), pending, true);
    let k3 = handshaking(request, asked(destination), pending, true);
    lemma_relay_is_reached(request, pending, true, ask, reply, early);
    lemma_early_close_is_noted(request, asked(destination), pending, false);
    assert(reaching(reply, early) =~= seq![e2] + seq![e3, e4]);
    assert(seq![e3, e4] =~= seq![e3] + seq![e4]);
    lemma_run_one(k3, e4);
    lemma_run_first(k2, e3, seq![e4]);
    lemma_run_first(k1, e2, seq![e3, e4]);
    lemma_run_first(c1, close, reaching(reply, early));
    let all = run(c1, seq![close] + reaching(reply, early)).1;
    assert(all.to_client =~= early);
    assert(all.to_upstream =~= greeting() + ask + request.opening_for_upstream() + pending);
}

/// The end of the client's stream, reported once the relay is connected.
proof fn lemma_reached_closing_second(
    request: RequestView,
    pending: Seq<u8>,
    ask: Seq<u8>,
    reply: Seq<u8>,
    early: Seq<u8>,
)
    requires
        connect_request(request.destination()) == Ok::<Seq<u8>, ProxyError>(ask),
        reply.len() == CONNECT_REPLY_LEN,
        reply.take(4) == connect_granted(),
    ensures
        run(
            connecting(request, pending, false),
            seq![
                EventView::UpstreamConnected,
                EventView::ClientClosed,
                EventView::UpstreamData(method_accepted()),
                EventView::UpstreamData(reply + early),
            ],
        ) == (ConnectionView::Closed, reached_and_closed(request, pending, ask, early)),
{
    let destination = request.destination();
    let e2 = EventView::UpstreamConnected;
    let e3 = EventView::UpstreamData(method_accepted());
    let e4 = EventView::UpstreamData(reply + early);
    let close = EventView::ClientClosed;
    let c1 = connecting(request, pending, false);
    let c2 = handshaking(request, SessionView::start(destination), pending, false);
    let k2 = handshaking(request, SessionView::start(destination), pending, true);
    let k3 = handshaking(request, asked(destination), pending, true);
    lemma_relay_is_reached(request, pending, false, ask, reply, early);
    lemma_relay_is_reached(request, pending, true, ask, reply, early);
    lemma_early_close_is_noted(request, SessionView::start(destination), pending, false);
    assert(seq![e2, close, e3, e4] =~= seq![e2] + seq![close, e3, e4]);
    assert(seq![close, e3, e4] =~= seq![close] + seq![e3, e4]);
    assert(seq![e3, e4] =~= seq![e3] + seq![e4]);
    lemma_run_one(k3, e4);
    lemma_run_first(k2, e3, seq![e4]);
    lemma_run_first(c2, close, seq![e3, e4]);
    lemma_run_first(c1, e2, seq![close, e3, e4]);
    let all = run(c1, seq![e2, close, e3, e4]).1;
    assert(all.to_client =~= early);
    assert(all.to_upstream =~= greeting() + ask + request.opening_for_upstream() + pending);
}

/// The end of the client's stream, reported once the relay has accepted the
/// method.
proof fn lemma_reached_closing_third(
    request: RequestView,
    pending: Seq<u8>,
    ask: Seq<u8>,
    reply: Seq<u8>,
    early: Seq<u8>,
)
    requires
        connect_request(request.destination()) == Ok::<Seq<u8>, ProxyError>(ask),
        reply.len() == CONNECT_REPLY_LEN,
        reply.take(4) == connect_granted(),
    ensures
        run(
            connecting(request, pending, false),
            seq![
                EventView::UpstreamConnected,
                EventView::UpstreamData(method_accepted()),
                EventView::ClientClosed,
                EventView::UpstreamData(reply + early),
            ],
        ) == (ConnectionView::Closed, reached_and_closed(request, pending, ask, early)),
{
    let destination = request.destination();
    let e2 = EventView::UpstreamConnected;
    let e3 = EventView::UpstreamData(method_accepted());
    let e4 = EventView::UpstreamData(reply + early);
    let close = EventView::ClientClosed;
    let c1 = connecting(request, pending, false);
    let c2 = handshaking(request, SessionView::start(destination), pending, false);
    let c3 = handshaking(request, asked(destination), pending, false);
    let k3 = handshaking(request, asked(destination), pending, true);
    lemma_relay_is_reached(request, pending, false, ask, reply, early);
    lemma_relay_is_reached(request, pending, true, ask, reply, early);
    lemma_early_close_is_noted(request, asked(destination), pending, false);
    assert(seq![e2, e3, close, e4] =~= seq![e2] + seq![e3, close, e4]);
    assert(seq![e3, close, e4] =~= seq![e3] + seq![close, e4]);
    assert(seq![close, e4] =~= seq![close] + seq![e4]);
    lemma_run_one(k3, e4);
    lemma_run_first(c3, close, seq![e4]);
    lemma_run_first(c2, e3, seq![close, e4]);
    lemma_run_first(c1, e2, seq![e3, close, e4]);
    let all = run(c1, seq![e2, e3, close, e4]).1;
    assert(all.to_client =~= early);
    assert(all.to_upstream =~= greeting() + ask + request.opening_for_upstream() + pending);
}

/// The end of the client's stream, reported once the relay has connected to
/// the destination.
proof fn lemma_reached_closing_last(
    request: RequestView,
    pending: Seq<u8>,
    ask: Seq<u8>,
    reply: Seq<u8>,
    early: Seq<u8>,
)
    requires
        connect_request(request.destination()) == Ok::<Seq<u8>, ProxyError>(ask),
        reply.len() == CONNECT_REPLY_LEN,
        reply.take(4) == connect_granted(),
    ensures
        run(
            connecting(request, pending, false),
            reaching(reply, early) + seq![EventView::ClientClosed],
        ) == (ConnectionView::Closed, reached_and_closed(request, pending, ask, early)),
{
    let destination = request.destination();
    let e2 = EventView::UpstreamConnected;
    let e3 = EventView::UpstreamData(method_accepted());
    let e4 = EventView::UpstreamData(reply + early);
    let close = EventView::ClientClosed;
    let c1 = connecting(request, pending, false);
    let c2 = handshaking(request, SessionView::start(destination), pending, false);
    let c3 = handshaking(request, asked(destination), pending, false);
    lemma_relay_is_reached(request, pending, false, ask, reply, early);
    assert(reaching(reply, early) + seq![close] =~= seq![e2] + seq![e3, e4, close]);
    assert(seq![e3, e4, close] =~= seq![e3] + seq![e4, close]);
    assert(seq![e4, close] =~= seq![e4] + seq![close]);
    lemma_run_one(ConnectionView::Relay, close);
    lemma_run_first(c3, e4, seq![close]);
    lemma_run_first(c2, e3, seq![e4, close]);
    lemma_run_first(c1, e2, seq![e3, e4, close]);
    let all = run(c1, reaching(reply, early) + seq![close]).1;
    assert(all.to_client =~= early);
    assert(all.to_upstream =~= greeting() + ask + request.opening_for_upstream() + pending);
}

/// A client that ends its stream behind its request is served all the same.
/// Whether the end of its stream is reported while the relay is being
/// connected, while it is being asked, or only when it has answered: the
/// relay gets the greeting, the request for the destination, the opening of
/// the client's request and what the client sent behind it; the client gets
/// its answer and what the relay sent behind its own; and both sockets are
/// closed after that.
pub proof fn lemma_request_is_served_though_client_closes(
    input: Seq<u8>,
    request: RequestView,
    used: int,
    ask: Seq<u8>,
    reply: Seq<u8>,
    early: Seq<u8>,
    at: int,
)
    requires
        request_in(input, false) == Ok::<Option<(RequestView, int)>, ProxyError>(
            Some((request, used)),
        ),
        connect_request(request.destination()) == Ok::<Seq<u8>, ProxyError>(ask),
        reply.len() == CONNECT_REPLY_LEN,
        reply.take(4) == connect_granted(),
        1 <= at <= 4,
    ensures
        run(
            ConnectionView::start(),
            set_up(input, reply, early).take(at) + seq![EventView::ClientClosed] + set_up(
                input,
                reply,
                early,
            ).skip(at),
        ) == (
            ConnectionView::Closed,
            ActionsView {
                to_client: request.reply_to_client() + early,
                to_upstream: greeting() + ask + request.opening_for_upstream() + input.skip(used),
                connect: true,
                close: true,
            },
        ),
{
    let pending = input.skip(used);
    let e1 = EventView::ClientData(input);
    let e2 = EventView::UpstreamConnected;
    let e3 = EventView::UpstreamData(method_accepted());
    let e4 = EventView::UpstreamData(reply + early);
    let close = EventView::ClientClosed;
    let whole = set_up(input, reply, early);
    let events = whole.take(at) + seq![close] + whole.skip(at);
    let tail = if at == 1 {
        seq![close] + reaching(reply, early)
    } else if at == 2 {
        seq![e2, close, e3, e4]
    } else if at == 3 {
        seq![e2, e3, close, e4]
    } else {
        reaching(reply, early) + seq![close]
    };
    assert(events =~= seq![e1] + tail);
    if at == 1 {
        lemma_reached_closing_first(request, pending, ask, reply, early);
    } else if at == 2 {
        lemma_reached_closing_second(request, pending, ask, reply, early);
    } else if at == 3 {
        lemma_reached_closing_third(request, pending, ask, reply, early);
    } else {
        lemma_reached_closing_last(request, pending, ask, reply, early);
    }
    let c0 = ConnectionView::start();
    assert(Seq::<u8>::empty() + input =~= input);
    assert(c0.react(e1).0 == connecting(request, pending, false));
    lemma_run_first(c0, e1, tail);
    let all = run(c0, events).1;
    assert(all.to_client =~= request.reply_to_client() + early);
    assert(all.to_upstream =~= greeting() + ask + request.opening_for_upstream() + pending);
}

/// For every tunnel request that is well written, a destination that a
/// request can name, and a relay that accepts: the client gets the success
/// response once, and after it exactly what the relay sends behind its two
/// answers; the relay gets the greeting, the request, and then exactly what
/// the client sends behind its request, be it in the same piece or later.
/// All bytes keep their order, and nothing is closed.
pub proof fn lemma_tunnel_passes_bytes_on(
    target: Seq<u8>,
    block: Seq<u8>,
    behind: Seq<u8>,
    ask: Seq<u8>,
    reply: Seq<u8>,
    early: Seq<u8>,
    traffic: Seq<EventView>,
)
    requires
        target.len() <= MAX_LINE_LEN,
        !target.contains(SPACE),
        block.len() <= MAX_HEADER_LEN,
        is_first_blank_line(block, block.len() - 4),
        connect_request(tunnel_to(target).destination()) == Ok::<Seq<u8>, ProxyError>(ask),
        reply.len() == CONNECT_REPLY_LEN,
        reply.take(4) == connect_granted(),
        forall|i: int| 0 <= i < traffic.len() ==> is_payload(#[trigger] traffic[i]),
    ensures
        run(
            ConnectionView::start(),
            set_up(tunnel_request_text(target, block) + behind, reply, early) + traffic,
        ) == (
            ConnectionView::Relay,
            ActionsView {
                to_client: ok_response() + early + from_upstream(traffic),
                to_upstream: greeting() + ask + behind + from_client(traffic),
                connect: true,
                close: false,
            },
        ),
{
    let input = tunnel_request_text(target, block) + behind;
    let sent = seq![input];
    let answers = seq![method_accepted(), reply + early];
    assert(flat(sent) =~= input) by {
        assert(sent.drop_first() =~= Seq::<Seq<u8>>::empty());
        assert(flat(sent.drop_first()) =~= Seq::<u8>::empty());
    }
    assert(flat(answers) =~= method_accepted() + reply + early) by {
        assert(answers.drop_first() =~= seq![reply + early]);
        assert(answers.drop_first().drop_first() =~= Seq::<Seq<u8>>::empty());
        assert(flat(answers.drop_first().drop_first()) =~= Seq::<u8>::empty());
        assert(flat(answers.drop_first()) =~= reply + early);
    }
    lemma_tunnel_passes_bytes_on_in_pieces(
        target,
        block,
        behind,
        ask,
        reply,
        early,
        sent,
        answers,
        traffic,
    );
    assert(client_data(sent) + seq![EventView::UpstreamConnected] + upstream_data(answers)
        + traffic =~= set_up(input, reply, early) + traffic);
}

/// The same holds however the client's bytes and the relay's bytes are cut
/// into pieces on their way.
pub proof fn lemma_tunnel_passes_bytes_on_in_pieces(
    target: Seq<u8>,
    block: Seq<u8>,
    behind: Seq<u8>,
    ask: Seq<u8>,
    reply: Seq<u8>,
    early: Seq<u8>,
    sent: Seq<Seq<u8>>,
    answers: Seq<Seq<u8>>,
    traffic: Seq<EventView>,
)
    requires
        target.len() <= MAX_LINE_LEN,
        !target.contains(SPACE),
        block.len() <= MAX_HEADER_LEN,
        is_first_blank_line(block, block.len() - 4),
        connect_request(tunnel_to(target).destination()) == Ok::<Seq<u8>, ProxyError>(ask),
        reply.len() == CONNECT_REPLY_LEN,
        reply.take(4) == connect_granted(),
        sent.len() >= 1,
        flat(sent) == tunnel_request_text(target, block) + behind,
        answers.len() >= 1,
        flat(answers) == method_accepted() + reply + early,
        forall|i: int| 0 <= i < traffic.len() ==> is_payload(#[trigger] traffic[i]),
    ensures
        run(
            ConnectionView::start(),
            client_data(sent) + seq![EventView::UpstreamConnected] + upstream_data(answers)
                + traffic,
        ) == (
            ConnectionView::Relay,
            ActionsView {
                to_client: ok_response() + early + from_upstream(traffic),
                to_upstream: greeting() + ask + behind + from_client(traffic),
                connect: true,
                close: false,
            },
        ),
{
    let text = tunnel_request_text(target, block);
    lemma_tunnel_request_is_read(target, block, behind, false);
    lemma_request_is_served(
        text + behind,
        tunnel_to(target),
        text.len() as int,
        ask,
        reply,
        early,
        sent,
        answers,
        traffic,
    );
    assert(greeting() + ask + tunnel_to(target).opening_for_upstream() + behind + from_client(
        traffic,
    ) =~= greeting() + ask + behind + from_client(traffic));
}

/// A tunnel is set up for a client that ends its stream behind its request,
/// whenever that end is reported: the client gets the success response and
/// what the relay sent behind its answers, the relay gets the greeting, the
/// request, and what the client sent behind its own; then both sockets are
/// closed.
pub proof fn lemma_tunnel_is_served_though_client_closes(
    target: Seq<u8>,
    block: Seq<u8>,
    behind: Seq<u8>,
    ask: Seq<u8>,
    reply: Seq<u8>,
    early: Seq<u8>,
    at: int,
)
    requires
        target.len() <= MAX_LINE_LEN,
        !target.contains(SPACE),
        block.len() <= MAX_HEADER_LEN,
        is_first_blank_line(block, block.len() - 4),
        connect_request(tunnel_to(target).destination()) == Ok::<Seq<u8>, ProxyError>(ask),
        reply.len() == CONNECT_REPLY_LEN,
        reply.take(4) == connect_granted(),
        1 <= at <= 4,
    ensures
        run(
            ConnectionView::start(),
            set_up(tunnel_request_text(target, block) + behind, reply, early).take(at)
                + seq![EventView::ClientClosed] + set_up(
                tunnel_request_text(target, block) + behind,
                reply,
                early,
            ).skip(at),
        ) == (
            ConnectionView::Closed,
            ActionsView {
                to_client: ok_response() + early,
                to_upstream: greeting() + ask + behind,
                connect: true,
                close: true,
            },
        ),
{
    let text = tunnel_request_text(target, block);
    lemma_tunnel_request_is_read(target, block, behind, false);
    lemma_request_is_served_though_client_closes(
        text + behind,
        tunnel_to(target),
        text.len() as int,
        ask,
        reply,
        early,
        at,
    );
    assert(greeting() + ask + tunnel_to(target).opening_for_upstream() + behind =~= greeting()
        + ask + behind);
}

/// For every plain request that is well written and a relay that accepts,
/// the first thing that the destination gets is the method, a space and a
/// slash, whatever path the request names; what the client wrote behind the
/// host's slash follows. The client gets what the relay sent behind its
/// answers, and nothing before.
pub proof fn lemma_plain_request_opens_at_the_root(
    method: Seq<u8>,
    scheme: Seq<u8>,
    host: Seq<u8>,
    path: Seq<u8>,
    ask: Seq<u8>,
    reply: Seq<u8>,
    early: Seq<u8>,
    traffic: Seq<EventView>,
)
    requires
        method.len() <= MAX_LINE_LEN,
        !method.contains(SPACE),
        method != connect_token(),
        scheme.len() <= MAX_LINE_LEN,
        !scheme.contains(SLASH),
        host.len() <= MAX_LINE_LEN,
        !host.contains(SLASH),
        connect_request(plain_to(method, host).destination()) == Ok::<Seq<u8>, ProxyError>(ask),
        reply.len() == CONNECT_REPLY_LEN,
        reply.take(4) == connect_granted(),
        forall|i: int| 0 <= i < traffic.len() ==> is_payload(#[trigger] traffic[i]),
    ensures
        run(
            ConnectionView::start(),
            set_up(plain_request_text(method, scheme, host) + path, reply, early) + traffic,
        ) == (
            ConnectionView::Relay,
            ActionsView {
                to_client: early + from_upstream(traffic),
                to_upstream: greeting() + ask + (method + seq![SPACE, SLASH]) + path + from_client(
                    traffic,
                ),
                connect: true,
                close: false,
            },
        ),
{
    let text = plain_request_text(method, scheme, host);
    let input = text + path;
    let sent = seq![input];
    let answers = seq![method_accepted(), reply + early];
    assert(flat(sent) =~= input) by {
        assert(sent.drop_first() =~= Seq::<Seq<u8>>::empty());
        assert(flat(sent.drop_first()) =~= Seq::<u8>::empty());
    }
    assert(flat(answers) =~= method_accepted() + reply + early) by {
        assert(answers.drop_first() =~= seq![reply + early]);
        assert(answers.drop_first().drop_first() =~= Seq::<Seq<u8>>::empty());
        assert(flat(answers.drop_first().drop_first()) =~= Seq::<u8>::empty());
        assert(flat(answers.drop_first()) =~= reply + early);
    }
    lemma_plain_request_is_read(method, scheme, host, path, false);
    lemma_request_is_served(
        input,
        plain_to(method, host),
        text.len() as int,
        ask,
        reply,
        early,
        sent,
        answers,
        traffic,
    );
    assert(client_data(sent) + seq![EventView::UpstreamConnected] + upstream_data(answers)
        + traffic =~= set_up(input, reply, early) + traffic);
    assert(plain_to(method, host).reply_to_client() + early + from_upstream(traffic) =~= early
        + from_upstream(traffic));
}

/// A plain request reaches its destination for a client that ends its
/// stream behind it, whenever that end is reported: the relay gets the
/// greeting, the request for the destination, the method with a space and a
/// slash, and what the client wrote behind the host's slash; then both
/// sockets are closed.
pub proof fn lemma_plain_request_is_served_though_client_closes(
    method: Seq<u8>,
    scheme: Seq<u8>,
    host: Seq<u8>,
    path: Seq<u8>,
    ask: Seq<u8>,
    reply: Seq<u8>,
    early: Seq<u8>,
    at: int,
)
    requires
        method.len() <= MAX_LINE_LEN,
        !method.contains(SPACE),
        method != connect_token(),
        scheme.len() <= MAX_LINE_LEN,
        !scheme.contains(SLASH),
        host.len() <= MAX_LINE_LEN,
        !host.contains(SLASH),
        connect_request(plain_to(method, host).destination()) == Ok::<Seq<u8>, ProxyError>(ask),
        reply.len() == CONNECT_REPLY_LEN,
        reply.take(4) == connect_granted(),
        1 <= at <= 4,
    ensures
        run(
            ConnectionView::start(),
            set_up(plain_request_text(method, scheme, host) + path, reply, early).take(at)
                + seq![EventView::ClientClosed] + set_up(
                plain_request_text(method, scheme, host) + path,
                reply,
                early,
            ).skip(at),
        ) == (
            ConnectionView::Closed,
            ActionsView {
                to_client: early,
                to_upstream: greeting() + ask + (method + seq![SPACE, SLASH]) + path,
                connect: true,
                close: true,
            },
        ),
{
    let text = plain_request_text(method, scheme, host);
    lemma_plain_request_is_read(method, scheme, host, path, false);
    lemma_request_is_served_though_client_closes(
        text + path,
        plain_to(method, host),
        text.len() as int,
        ask,
        reply,
        early,
        at,
    );
    assert(plain_to(method, host).reply_to_client() + early =~= early);
}

/// A relay that answers the greeting with anything but the acceptance of
/// "no authentication" fails the handshake with `RelayProtocolError`, and no
/// request is sent, however the answer arrives.
pub proof fn lemma_refused_method_sends_no_request(session: SessionView, data: Seq<u8>)
    requires
        session.phase == Phase::Greeting,
        (session.inbox + data).len() >= METHOD_REPLY_LEN,
        (session.inbox + data).take(METHOD_REPLY_LEN as int) != method_accepted(),
    ensures
        session.receive(data).0.phase == Phase::Failed(ProxyError::RelayProtocolError),
        session.receive(data).1 == Seq::<u8>::empty(),
{
}

/// A connection whose relay refuses the method is given up with
/// `RelayProtocolError`: both sockets are closed and nothing is sent.
pub proof fn lemma_refused_method_ends_the_connection(
    request: RequestView,
    session: SessionView,
    pending: Seq<u8>,
    client_done: bool,
    data: Seq<u8>,
)
    requires
        session.phase == Phase::Greeting,
        (session.inbox + data).len() >= METHOD_REPLY_LEN,
        (session.inbox + data).take(METHOD_REPLY_LEN as int) != method_accepted(),
    ensures
        (ConnectionView::Handshaking { request, session, pending, client_done }).react(
            EventView::UpstreamData(data),
        ) == ConnectionView::fail(ProxyError::RelayProtocolError),
{
    lemma_refused_method_sends_no_request(session, data);
}

/// An IPv6 socket address is refused as a destination.
pub proof fn lemma_ipv6_destination_is_refused(destination: Seq<u8>)
    requires
        is_socket_addr_v6(destination),
    ensures
        connect_request(destination) == Err::<Seq<u8>, ProxyError>(
            ProxyError::UnsupportedAddressFamily,
        ),
{
    lemma_address_families_differ(destination);
}

/// A handshake for an IPv6 destination sends nothing behind its greeting,
/// whatever the relay answers, and fails with `UnsupportedAddressFamily` as
/// soon as the relay has accepted the method.
pub proof fn lemma_ipv6_handshake_sends_nothing(session: SessionView, data: Seq<u8>)
    requires
        is_socket_addr_v6(session.destination),
        session.phase == Phase::Greeting,
    ensures
        session.receive(data).1 == Seq::<u8>::empty(),
        (session.inbox + data).len() >= METHOD_REPLY_LEN && (session.inbox + data).take(
            METHOD_REPLY_LEN as int,
        ) == method_accepted() ==> session.receive(data).0.phase == Phase::Failed(
            ProxyError::UnsupportedAddressFamily,
        ),
{
    lemma_ipv6_destination_is_refused(session.destination);
}

/// A connection whose destination is an IPv6 socket address sends the relay
/// nothing behind the greeting, and is given up with
/// `UnsupportedAddressFamily` as soon as the relay has accepted the method.
pub proof fn lemma_ipv6_target_ends_the_connection(
    request: RequestView,
    session: SessionView,
    pending: Seq<u8>,
    client_done: bool,
    data: Seq<u8>,
)
    requires
        is_socket_addr_v6(session.destination),
        session.phase == Phase::Greeting,
    ensures
        (ConnectionView::Handshaking { request, session, pending, client_done }).react(
            EventView::UpstreamData(data),
        ).1.to_upstream == Seq::<u8>::empty(),
        (session.inbox + data).len() >= METHOD_REPLY_LEN && (session.inbox + data).take(
            METHOD_REPLY_LEN as int,
        ) == method_accepted() ==> (ConnectionView::Handshaking {
            request,
            session,
            pending,
            client_done,
        }).react(EventView::UpstreamData(data)) == ConnectionView::fail(
            ProxyError::UnsupportedAddressFamily,
        ),
{
    lemma_ipv6_handshake_sends_nothing(session, data);
}

/// A destination without a colon names no port, and is invalid.
pub proof fn lemma_destination_without_port_is_invalid(destination: Seq<u8>)
    requires
        !destination.contains(COLON),
    ensures
        target_of(destination) is None,
        connect_request(destination) == Err::<Seq<u8>, ProxyError>(
            ProxyError::InvalidDestination,
        ),
{
    destination.index_of_last_ensures(COLON);
}

/// A handshake never returns to a phase that it has left, and once it is
/// over it stays as it ended.
pub proof fn lemma_handshake_never_goes_back(session: SessionView, data: Seq<u8>)
    ensures
        session.receive(data).0.phase.rank() >= session.phase.rank(),
        session.close().phase.rank() >= session.phase.rank(),
        session.phase.is_final() ==> session.receive(data).0.phase == session.phase
            && session.receive(data).1 == Seq::<u8>::empty() && session.close() == session,
        session.receive(data).0.settled(),
        session.receive(data).0.destination == session.destination,
{
}

/// Both sockets are closed exactly when a connection comes to its end; a
/// connection that is over does nothing more and stays as it is.
pub proof fn lemma_sockets_close_together(c: ConnectionView, event: EventView)
    ensures
        c.react(event).1.close <==> !c.is_over() && c.react(event).0.is_over(),
        c.is_over() ==> c.react(event) == (c, ActionsView::nothing()),
{
}

/// Over a whole run, the sockets of a connection that was not over at first
/// are closed if and only if it is over at last.
pub proof fn lemma_run_closes_what_it_ends(c: ConnectionView, events: Seq<EventView>)
    ensures
        run(c, events).1.close <==> !c.is_over() && run(c, events).0.is_over(),
        c.is_over() ==> run(c, events).0 == c,
    decreases events.len(),
{
    if events.len() > 0 {
        lemma_sockets_close_together(c, events.first());
        lemma_run_closes_what_it_ends(c.react(events.first()).0, events.drop_first());
    }
}

/// The events of a schedule that belong to one of two connections, in order.
/// Each entry of a schedule names the connection, `true` for the second, and
/// what happens to it.
pub open spec fn events_for(schedule: Seq<(bool, EventView)>, second: bool) -> Seq<EventView>
    decreases schedule.len(),
{
    if schedule.len() == 0 {
        Seq::empty()
    } else if schedule.first().0 == second {
        seq![schedule.first().1] + events_for(schedule.drop_first(), second)
    } else {
        events_for(schedule.drop_first(), second)
    }
}

/// Two connections after a schedule in which their events are mixed, each
/// with all that is to be done for it.
pub open spec fn run_both(
    a: ConnectionView,
    b: ConnectionView,
    schedule: Seq<(bool, EventView)>,
) -> ((ConnectionView, ActionsView), (ConnectionView, ActionsView))
    decreases schedule.len(),
{
    if schedule.len() == 0 {
        ((a, ActionsView::nothing()), (b, ActionsView::nothing()))
    } else {
        let (second, event) = schedule.first();
        if second {
            let (next, first) = b.react(event);
            let (of_a, of_b) = run_both(a, next, schedule.drop_first());
            (of_a, (of_b.0, joined(first, of_b.1)))
        } else {
            let (next, first) = a.react(event);
            let (of_a, of_b) = run_both(next, b, schedule.drop_first());
            ((of_a.0, joined(first, of_a.1)), of_b)
        }
    }
}

/// Two connections do not interfere: however their events are mixed, each
/// ends where it would have ended alone, and the same is done for it.
pub proof fn lemma_connections_do_not_interfere(
    a: ConnectionView,
    b: ConnectionView,
    schedule: Seq<(bool, EventView)>,
)
    ensures
        run_both(a, b, schedule) == (
            run(a, events_for(schedule, false)),
            run(b, events_for(schedule, true)),
        ),
    decreases schedule.len(),
{
    if schedule.len() > 0 {
        let (second, event) = schedule.first();
        let rest = schedule.drop_first();
        if second {
            lemma_connections_do_not_interfere(a, b.react(event).0, rest);
            lemma_run_first(b, event, events_for(rest, true));
        } else {
            lemma_connections_do_not_interfere(a.react(event).0, b, rest);
            lemma_run_first(a, event, events_for(rest, false));
        }
    }
}

/// The same events give the same connection and the same work, on whichever
/// connection they arrive: two connections that see the same events from the
/// start, mixed in any way, end alike.
pub proof fn lemma_same_events_same_outcome(schedule: Seq<(bool, EventView)>)
    requires
        events_for(schedule, false) == events_for(schedule, true),
    ensures
        run_both(ConnectionView::start(), ConnectionView::start(), schedule).0 == run_both(
            ConnectionView::start(),
            ConnectionView::start(),
            schedule,
        ).1,
{
    lemma_connections_do_not_interfere(ConnectionView::start(), ConnectionView::start(), schedule);
}

} // verus!
