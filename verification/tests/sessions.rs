use dope::manifold::connector::app::{ChunkOutcome, CloseKind, Requests};
use dope::manifold::connector::codec::Codec;
use dope::manifold::connector::lifecycle::{Close, Lifecycle, Stateless};
use dope::manifold::connector::port::{Noting, Outlet, Port};
use dope::manifold::connector::session::{Session, SessionApp, SessionConn, INGRESS_BUF_CAP};
use dope::manifold::Idle;
use dope::park::WakeRef;
use dope::token::Token;

/// Messages that end with a newline.
struct Lines;

impl Codec for Lines {
    type Head = String;
    type ParseState = usize;

    fn parse(&self, state: &mut usize, buf: &o3::buffer::Shared) -> Option<(String, usize)> {
        *state += 1;
        let bytes = buf.as_slice();
        let end = bytes.iter().position(|b| *b == b'\n')?;
        Some((String::from_utf8_lossy(&bytes[..end]).into_owned(), end + 1))
    }

    fn finish(&self, _: &mut usize, remaining: o3::buffer::Shared) -> Option<String> {
        let bytes = remaining.as_slice();
        if bytes.is_empty() {
            return None;
        }
        Some(String::from_utf8_lossy(bytes).into_owned())
    }
}

#[derive(Default)]
struct Ending {
    close: Option<Close>,
}

impl Lifecycle for Ending {
    fn closing(&self) -> Close {
        self.close.unwrap_or(Close::Keep)
    }

    fn deferring(&self) -> bool {
        true
    }

    fn drained(&self) -> bool {
        false
    }

    fn wants_close(&self) -> Close {
        self.close.unwrap_or(Close::Keep)
    }

    fn defer_close(&self) -> bool {
        true
    }

    fn is_drained(&self) -> bool {
        false
    }
}

struct Echo {
    codec: Lines,
    heard: Vec<String>,
    over: bool,
    port: Port<String>,
    sent: usize,
}

impl Session for Echo {
    type Codec = Lines;
    type ConnState = Ending;
    type Send = String;
    type Sink = Vec<String>;

    fn spec_codec(&self) -> Lines {
        Lines
    }

    fn codec(&self) -> &Lines {
        &self.codec
    }

    fn activate(&mut self, token: Token, ready: WakeRef) {
        assert!(self.port.activate(token, ready));
    }

    fn connect(&mut self, token: Token, _: &mut Ending, sink: &mut Vec<String>) {
        // It is announced by now.
        assert!(self.port.is_active(token));
        sink.push("hello".to_string());
    }

    fn sent(&mut self, _: Token, sent: usize) {
        self.sent += sent;
    }

    fn drain_requests<K: Outlet<String>>(&mut self, token: Token, outlet: &mut K) -> Requests {
        self.port.drain_requests(token, outlet).unwrap_or_default()
    }

    fn response(&mut self, head: String, _: Token, state: &mut Ending, sink: &mut Vec<String>) {
        if head == "quit" {
            state.close = Some(Close::Permanent);
        }
        if head == "again" {
            state.close = Some(Close::Reconnect);
        }
        sink.push(head.clone());
        self.heard.push(head);
    }

    fn disconnect(&mut self, _: Token, _: &mut Ending, _: &mut Vec<String>) {
        self.over = true;
    }

    fn flush_trailer(&mut self, _: Token, _: &mut Ending, sink: &mut Vec<String>) {
        sink.push("trailer".to_string());
    }
}

fn app() -> SessionApp<Echo> {
    SessionApp {
        session: Echo {
            codec: Lines,
            heard: Vec::new(),
            over: false,
            port: Port::with_capacity(1),
            sent: 0,
        },
    }
}

fn id() -> Token {
    Token { route: 0, kind: 0, slot: 0, epoch: 1 }
}

#[test]
fn messages_are_cut_from_chunks() {
    let mut app = app();
    let mut conn: SessionConn<Echo> = SessionConn::default();
    let mut sink = Vec::new();
    app.connected(&mut conn, id(), WakeRef { id: 1 }, &mut sink);
    assert_eq!(app.chunk(&mut conn, id(), &mut sink, b""), ChunkOutcome::Accepted);
    assert_eq!(app.chunk(&mut conn, id(), &mut sink, b"on"), ChunkOutcome::Accepted);
    assert_eq!(app.chunk(&mut conn, id(), &mut sink, b"e\ntwo\nth"), ChunkOutcome::Accepted);
    app.before_send(&mut conn, id(), &mut sink);
    assert_eq!(sink, vec!["hello", "one", "two", "trailer"]);
    app.close(&mut conn, id(), &mut sink);
    assert_eq!(app.session.heard, vec!["one", "two", "th"]);
    assert!(app.session.over);
}

#[test]
fn session_sends_what_others_hand_it() {
    let mut app = app();
    let mut conn: SessionConn<Echo> = SessionConn::default();
    let mut sink = Vec::new();
    let early = app.session.port.try_enqueue(id(), "early".to_string(), 5, true);
    assert_eq!(early, Err("early".to_string()));
    app.connected(&mut conn, id(), WakeRef { id: 6 }, &mut sink);
    // What is handed in wakes the connection by the key that it was announced with.
    let woken = app.session.port.try_enqueue(id(), "late".to_string(), 4, true);
    assert_eq!(woken, Ok(Some(WakeRef { id: 6 })));
    let mut outlet = Noting::new(Vec::new());
    let requests = app.drain_requests(id(), &mut outlet);
    assert_eq!(requests.close, None);
    assert_eq!(outlet.outlet, vec!["late"]);
    assert!(outlet.taken);
    assert_eq!(app.session.port.close(id()), Some(WakeRef { id: 6 }));
    let mut empty: Noting<Vec<String>> = Noting::new(Vec::new());
    assert_eq!(app.drain_requests(id(), &mut empty).close, Some(CloseKind::Reconnect));
    assert!(!empty.taken);
    app.send(id(), 4);
    app.send(id(), 3);
    assert_eq!(app.session.sent, 7);
}

#[test]
fn session_that_wants_to_close_hears_no_more() {
    let mut app = app();
    let mut conn: SessionConn<Echo> = SessionConn::new(0, Ending::default());
    let mut sink = Vec::new();
    let outcome = app.chunk(&mut conn, id(), &mut sink, b"a\nquit\nb\n");
    assert_eq!(outcome, ChunkOutcome::ClosePermanent);
    assert_eq!(app.session.heard, vec!["a", "quit"]);
    let mut other: SessionConn<Echo> = SessionConn::new(0, Ending::default());
    let outcome = app.chunk(&mut other, id(), &mut sink, b"again\n");
    assert_eq!(outcome, ChunkOutcome::CloseReconnect);
    // A session that wants the connection closed is not given the end of the stream.
    let mut closing: SessionConn<Echo> =
        SessionConn::new(0, Ending { close: Some(Close::Reconnect) });
    app.session.heard.clear();
    let _ = app.chunk(&mut closing, id(), &mut sink, b"rest");
    app.close(&mut closing, id(), &mut sink);
    assert!(app.session.heard.is_empty());
}

#[test]
fn too_many_bytes_are_an_overrun() {
    let mut app = app();
    let mut conn: SessionConn<Echo> = SessionConn::default();
    let mut sink = Vec::new();
    let big = vec![b'x'; INGRESS_BUF_CAP];
    assert_eq!(app.chunk(&mut conn, id(), &mut sink, &big), ChunkOutcome::Accepted);
    assert_eq!(app.chunk(&mut conn, id(), &mut sink, b"y"), ChunkOutcome::Overrun);
}

#[test]
fn defaults_come_from_the_state() {
    let mut app = app();
    let state = Ending::default();
    assert!(app.session.defer_close(id(), &state));
    assert!(!app.session.is_drained(id(), &state));
    assert_eq!(app.session.idle(), Idle::Park(None));
    assert_eq!(app.session.inbound_idle_timeout(), None);
    let mut outlet: Vec<String> = Vec::new();
    assert_eq!(app.drain_requests(id(), &mut outlet).close, None);
    let stateless = Stateless;
    assert_eq!(stateless.wants_close(), Close::Keep);
    assert!(!stateless.defer_close());
    assert!(stateless.is_drained());
    let conn: SessionConn<Echo> = SessionConn::default();
    assert_eq!(conn.state().wants_close(), Close::Keep);
}
