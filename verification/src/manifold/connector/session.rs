//! Sessions: connections on which messages are exchanged.
use vstd::prelude::*;

use crate::collections::accumulator;
use crate::collections::accumulator::{shared_empty, Accumulator};
use crate::manifold::Idle;
use crate::park::WakeRef;
use crate::time::Duration;
use crate::token::Token;
use super::app::{ChunkOutcome, Requests};
use super::codec::Codec;
use super::lifecycle::{Close, Lifecycle};
use super::port::Outlet;

verus! {

/// How many received bytes may wait for the rest of their message.
pub const INGRESS_BUF_CAP: usize = 16_777_216;

/// How many there is room for at first.
pub const INGRESS_INITIAL_CAP: usize = 16_384;

/// What is done with the messages on a connection. A session is given the
/// connection's token and state and the queue of outgoing bytes to put its own
/// messages in. Each spec function says what the method of the same purpose may
/// turn the session, the state and the queue into: anything, unless a session says
/// more.
pub trait Session: Sized {
    type Codec: Codec;

    type ConnState: Lifecycle;

    /// What is handed to a connection to be sent.
    type Send;

    /// The queue of outgoing bytes.
    type Sink;

    spec fn spec_codec(&self) -> Self::Codec;

    open spec fn activates(before: Self, token: Token, ready: WakeRef, after: Self) -> bool {
        true
    }

    open spec fn connects(
        before: (Self, Self::ConnState, Self::Sink),
        conn_id: Token,
        after: (Self, Self::ConnState, Self::Sink),
    ) -> bool {
        true
    }

    open spec fn responds(
        before: (Self, Self::ConnState, Self::Sink),
        conn_id: Token,
        head: <Self::Codec as Codec>::Head,
        after: (Self, Self::ConnState, Self::Sink),
    ) -> bool {
        true
    }

    open spec fn disconnects(
        before: (Self, Self::ConnState, Self::Sink),
        conn_id: Token,
        after: (Self, Self::ConnState, Self::Sink),
    ) -> bool {
        true
    }

    open spec fn trails(
        before: (Self, Self::ConnState, Self::Sink),
        conn_id: Token,
        after: (Self, Self::ConnState, Self::Sink),
    ) -> bool {
        true
    }

    open spec fn notes_sent(before: Self, token: Token, sent: usize, after: Self) -> bool {
        true
    }

    open spec fn gives_requests<K: Outlet<Self::Send>>(
        before: (Self, K),
        token: Token,
        requests: Requests,
        after: (Self, K),
    ) -> bool {
        true
    }

    fn codec(&self) -> (codec: &Self::Codec)
        ensures
            *codec == self.spec_codec(),
    ;

    /// The connection stands; `ready` has the connector see to it.
    fn activate(&mut self, token: Token, ready: WakeRef)
        ensures
            Self::activates(*old(self), token, ready, *final(self)),
    ;

    fn connect(&mut self, conn_id: Token, state: &mut Self::ConnState, sink: &mut Self::Sink)
        ensures
            Self::connects(
                (*old(self), *old(state), *old(sink)),
                conn_id,
                (*final(self), *final(state), *final(sink)),
            ),
    ;

    /// A message has come in.
    fn response(
        &mut self,
        head: <Self::Codec as Codec>::Head,
        conn_id: Token,
        state: &mut Self::ConnState,
        sink: &mut Self::Sink,
    )
        ensures
            Self::responds(
                (*old(self), *old(state), *old(sink)),
                conn_id,
                head,
                (*final(self), *final(state), *final(sink)),
            ),
    ;

    fn disconnect(&mut self, conn_id: Token, state: &mut Self::ConnState, sink: &mut Self::Sink)
        ensures
            Self::disconnects(
                (*old(self), *old(state), *old(sink)),
                conn_id,
                (*final(self), *final(state), *final(sink)),
            ),
    ;

    /// What is queued is about to be written.
    fn flush_trailer(&mut self, conn_id: Token, state: &mut Self::ConnState, sink: &mut Self::Sink)
        ensures
            Self::trails(
                (*old(self), *old(state), *old(sink)),
                conn_id,
                (*final(self), *final(state), *final(sink)),
            ),
    ;

    /// So many bytes were sent.
    fn sent(&mut self, token: Token, sent: usize)
        ensures
            Self::notes_sent(*old(self), token, sent, *final(self)),
    ;

    /// What is asked for outside the receive path. What is to be sent on the
    /// connection goes to the outlet.
    fn drain_requests<K: Outlet<Self::Send>>(&mut self, token: Token, outlet: &mut K) -> (requests:
        Requests)
        ensures
            Self::gives_requests(
                (*old(self), *old(outlet)),
                token,
                requests,
                (*final(self), *final(outlet)),
            ),
    ;

    fn defer_close(&self, token: Token, state: &Self::ConnState) -> (defer: bool)
        default_ensures
            defer == state.deferring(),
    {
        state.defer_close()
    }

    fn is_drained(&self, token: Token, state: &Self::ConnState) -> (drained: bool)
        default_ensures
            drained == state.drained(),
    {
        state.is_drained()
    }

    fn pre_park(&mut self)
        default_ensures
            *final(self) == *old(self),
    {
    }

    fn idle(&self) -> (idle: Idle)
        default_ensures
            idle == Idle::Park(None),
    {
        Idle::Park(None)
    }

    /// How long a connection may be silent; `None` for any time.
    fn inbound_idle_timeout(&self) -> (timeout: Option<Duration>)
        default_ensures
            timeout is None,
    {
        None
    }
}

/// What is kept of a connection with a session.
pub struct SessionConn<N: Session> {
    ingress: Accumulator<INGRESS_BUF_CAP>,
    parse_state: <N::Codec as Codec>::ParseState,
    conn_state: N::ConnState,
}

/// The abstract value of a [`SessionConn`].
pub struct ConnView<N: Session> {
    /// Received bytes that are not part of a message yet.
    pub ingress: Seq<u8>,
    pub parse: <N::Codec as Codec>::ParseState,
    pub state: N::ConnState,
}

/// All that the handling of received bytes changes.
pub struct Scene<N: Session> {
    pub session: N,
    pub conn: ConnView<N>,
    pub sink: N::Sink,
}

impl<N: Session> Scene<N> {
    pub open spec fn parties(self) -> (N, N::ConnState, N::Sink) {
        (self.session, self.conn.state, self.sink)
    }

    /// Nothing is taken off the bytes: there are none, or they hold no whole
    /// message yet.
    pub open spec fn halts(self, after: Self) -> bool {
        &&& after.parties() == self.parties()
        &&& after.conn.ingress == self.conn.ingress
        &&& if self.conn.ingress.len() == 0 {
            after.conn.parse == self.conn.parse
        } else {
            exists|parsed: Option<(<N::Codec as Codec>::Head, usize)>|
                {
                    &&& #[trigger] self.session.spec_codec().parses(
                        self.conn.parse,
                        self.conn.ingress,
                        parsed,
                        after.conn.parse,
                    )
                    &&& parsed matches Some((_, consumed)) ==> consumed == 0 || consumed
                        > self.conn.ingress.len()
                }
        }
    }

    /// A message of `consumed` bytes is taken off and the session responds to it.
    pub open spec fn steps(self, conn_id: Token, consumed: usize, after: Self) -> bool {
        &&& 0 < consumed <= self.conn.ingress.len()
        &&& after.conn.ingress == self.conn.ingress.skip(consumed as int)
        &&& exists|head: <N::Codec as Codec>::Head|
            {
                &&& #[trigger] self.session.spec_codec().parses(
                    self.conn.parse,
                    self.conn.ingress,
                    Some((head, consumed)),
                    after.conn.parse,
                )
                &&& N::responds(self.parties(), conn_id, head, after.parties())
            }
    }

    /// Messages of the given sizes are taken off, one by one, until no whole one is
    /// left or the session wants the connection closed.
    pub open spec fn drains(self, conn_id: Token, sizes: Seq<usize>, after: Self) -> bool
        decreases sizes.len(),
    {
        if sizes.len() == 0 {
            self.halts(after)
        } else {
            exists|mid: Self|
                {
                    &&& #[trigger] self.steps(conn_id, sizes[0], mid)
                    &&& if mid.conn.state.closing() is Keep {
                        mid.drains(conn_id, sizes.skip(1), after)
                    } else {
                        sizes.len() == 1 && after == mid
                    }
                }
        }
    }

    /// The connection is over: what messages there are get their response, and the
    /// rest is handed over as the end of the stream.
    pub open spec fn finishes(self, conn_id: Token, after: Self) -> bool {
        if self.conn.state.closing() is Keep {
            exists|finished: Option<<N::Codec as Codec>::Head>|
                {
                    &&& #[trigger] self.session.spec_codec().finishes(
                        self.conn.parse,
                        self.conn.ingress,
                        finished,
                        after.conn.parse,
                    )
                    &&& after.conn.ingress == self.conn.ingress
                    &&& match finished {
                        Some(head) => N::responds(self.parties(), conn_id, head, after.parties()),
                        None => after.parties() == self.parties(),
                    }
                }
        } else {
            after == self
        }
    }
}

pub open spec fn total(sizes: Seq<usize>) -> int
    decreases sizes.len(),
{
    if sizes.len() == 0 {
        0
    } else {
        sizes[0] + total(sizes.skip(1))
    }
}

/// No received byte is lost or looked at out of order: what is left after any
/// number of messages is what was there, less the bytes of those messages.
pub proof fn law_drained_is_a_prefix<N: Session>(
    before: Scene<N>,
    conn_id: Token,
    sizes: Seq<usize>,
    after: Scene<N>,
)
    requires
        before.drains(conn_id, sizes, after),
    ensures
        0 <= total(sizes) <= before.conn.ingress.len(),
        after.conn.ingress == before.conn.ingress.skip(total(sizes)),
    decreases sizes.len(),
{
    if sizes.len() == 0 {
        assert(before.conn.ingress.skip(0) =~= before.conn.ingress);
    } else {
        let mid = choose|mid: Scene<N>|
            {
                &&& #[trigger] before.steps(conn_id, sizes[0], mid)
                &&& if mid.conn.state.closing() is Keep {
                    mid.drains(conn_id, sizes.skip(1), after)
                } else {
                    sizes.len() == 1 && after == mid
                }
            };
        if mid.conn.state.closing() is Keep {
            law_drained_is_a_prefix(mid, conn_id, sizes.skip(1), after);
            assert(before.conn.ingress.skip(sizes[0] as int).skip(total(sizes.skip(1)))
                =~= before.conn.ingress.skip(total(sizes)));
        } else {
            assert(sizes.skip(1).len() == 0);
        }
    }
}

/// Draining goes on until nothing more can be taken off, or until the session
/// wants the connection closed.
pub proof fn law_drained_to_the_end<N: Session>(
    before: Scene<N>,
    conn_id: Token,
    sizes: Seq<usize>,
    after: Scene<N>,
)
    requires
        before.drains(conn_id, sizes, after),
    ensures
        !(after.conn.state.closing() is Keep) || exists|last: Scene<N>| #[trigger]
            last.halts(after),
    decreases sizes.len(),
{
    if sizes.len() > 0 {
        let mid = choose|mid: Scene<N>|
            {
                &&& #[trigger] before.steps(conn_id, sizes[0], mid)
                &&& if mid.conn.state.closing() is Keep {
                    mid.drains(conn_id, sizes.skip(1), after)
                } else {
                    sizes.len() == 1 && after == mid
                }
            };
        if mid.conn.state.closing() is Keep {
            law_drained_to_the_end(mid, conn_id, sizes.skip(1), after);
        }
    }
}

/// Every message that is taken off lies at the front of the bytes, and the session
/// responds to what the codec made of it before the next is looked at. A session that
/// wants the connection closed is given no more.
pub proof fn law_messages_are_answered_in_order<N: Session>(
    before: Scene<N>,
    conn_id: Token,
    sizes: Seq<usize>,
    after: Scene<N>,
) -> (next: (<N::Codec as Codec>::Head, Scene<N>))
    requires
        before.drains(conn_id, sizes, after),
        sizes.len() > 0,
    ensures
        0 < sizes[0] <= before.conn.ingress.len(),
        before.session.spec_codec().parses(
            before.conn.parse,
            before.conn.ingress,
            Some((next.0, sizes[0])),
            next.1.conn.parse,
        ),
        N::responds(
            (before.session, before.conn.state, before.sink),
            conn_id,
            next.0,
            (next.1.session, next.1.conn.state, next.1.sink),
        ),
        before.conn.ingress == before.conn.ingress.take(sizes[0] as int) + next.1.conn.ingress,
        next.1.conn.state.closing() is Keep ==> next.1.drains(conn_id, sizes.skip(1), after),
        !(next.1.conn.state.closing() is Keep) ==> sizes.len() == 1 && after == next.1,
{
    let mid = choose|mid: Scene<N>|
        {
            &&& #[trigger] before.steps(conn_id, sizes[0], mid)
            &&& if mid.conn.state.closing() is Keep {
                mid.drains(conn_id, sizes.skip(1), after)
            } else {
                sizes.len() == 1 && after == mid
            }
        };
    let head = choose|head: <N::Codec as Codec>::Head|
        {
            &&& #[trigger] before.session.spec_codec().parses(
                before.conn.parse,
                before.conn.ingress,
                Some((head, sizes[0])),
                mid.conn.parse,
            )
            &&& N::responds(before.parties(), conn_id, head, mid.parties())
        };
    assert(before.conn.ingress =~= before.conn.ingress.take(sizes[0] as int) + mid.conn.ingress);
    (head, mid)
}

/// As long as the session keeps the connection, bytes are left only if the codec, asked
/// last, found no whole message in them; then nothing but the codec's own state has
/// changed since.
pub proof fn law_no_whole_message_is_left<N: Session>(
    before: Scene<N>,
    conn_id: Token,
    sizes: Seq<usize>,
    after: Scene<N>,
)
    requires
        before.drains(conn_id, sizes, after),
        after.conn.state.closing() is Keep,
        after.conn.ingress.len() > 0,
    ensures
        exists|
            parse: <N::Codec as Codec>::ParseState,
            parsed: Option<(<N::Codec as Codec>::Head, usize)>,
        | #[trigger]
            after.session.spec_codec().parses(
                parse,
                after.conn.ingress,
                parsed,
                after.conn.parse,
            ) && (parsed matches Some((_, consumed)) ==> consumed == 0 || consumed
                > after.conn.ingress.len()),
    decreases sizes.len(),
{
    if sizes.len() == 0 {
        let parsed = choose|parsed: Option<(<N::Codec as Codec>::Head, usize)>|
            {
                &&& #[trigger] before.session.spec_codec().parses(
                    before.conn.parse,
                    before.conn.ingress,
                    parsed,
                    after.conn.parse,
                )
                &&& parsed matches Some((_, consumed)) ==> consumed == 0 || consumed
                    > before.conn.ingress.len()
            };
        assert(after.session.spec_codec().parses(
            before.conn.parse,
            after.conn.ingress,
            parsed,
            after.conn.parse,
        ));
    } else {
        let (_, mid) = law_messages_are_answered_in_order(before, conn_id, sizes, after);
        law_no_whole_message_is_left(mid, conn_id, sizes.skip(1), after);
    }
}

/// A drain that takes nothing off changes neither the session, nor what it keeps, nor
/// what is to be sent, nor the bytes.
pub proof fn law_nothing_taken_nothing_changed<N: Session>(
    before: Scene<N>,
    conn_id: Token,
    after: Scene<N>,
)
    requires
        before.drains(conn_id, Seq::empty(), after),
    ensures
        after.session == before.session,
        after.sink == before.sink,
        after.conn.state == before.conn.state,
        after.conn.ingress == before.conn.ingress,
        before.conn.ingress.len() == 0 ==> after == before,
{
}

/// At the end of the stream a session that keeps the connection is given what the codec
/// makes of the bytes that are left, if anything; one that wants it closed is given
/// nothing. The bytes themselves stay.
pub proof fn law_end_of_stream_is_answered<N: Session>(
    before: Scene<N>,
    conn_id: Token,
    after: Scene<N>,
)
    requires
        before.finishes(conn_id, after),
    ensures
        after.conn.ingress == before.conn.ingress,
        !(before.conn.state.closing() is Keep) ==> after == before,
        before.conn.state.closing() is Keep ==> exists|
            finished: Option<<N::Codec as Codec>::Head>,
        | #[trigger]
            before.session.spec_codec().finishes(
                before.conn.parse,
                before.conn.ingress,
                finished,
                after.conn.parse,
            ) && match finished {
                Some(head) => N::responds(
                    (before.session, before.conn.state, before.sink),
                    conn_id,
                    head,
                    (after.session, after.conn.state, after.sink),
                ),
                None => after.session == before.session && after.conn.state == before.conn.state
                    && after.sink == before.sink,
            },
{
}

impl<N: Session> View for SessionConn<N> {
    type V = ConnView<N>;

    closed spec fn view(&self) -> ConnView<N> {
        ConnView {
            ingress: self.ingress@,
            parse: self.parse_state,
            state: self.conn_state,
        }
    }
}

impl<N: Session> SessionConn<N> {
    pub closed spec fn wf(self) -> bool {
        self.ingress.wf()
    }

    /// A connection on which nothing was received.
    pub fn new(parse_state: <N::Codec as Codec>::ParseState, conn_state: N::ConnState) -> (conn:
        Self)
        ensures
            conn.wf(),
            conn@ == (ConnView::<N> {
                ingress: Seq::empty(),
                parse: parse_state,
                state: conn_state,
            }),
    {
        SessionConn {
            ingress: Accumulator::with_capacity(INGRESS_INITIAL_CAP),
            parse_state,
            conn_state,
        }
    }

    pub fn state(&self) -> (state: &N::ConnState)
        ensures
            *state == self@.state,
    {
        &self.conn_state
    }
}

impl<N: Session> Default for SessionConn<N> {
    /// A connection on which nothing was received, in the states that the codec and
    /// the session start with.
    fn default() -> (conn: Self)
        ensures
            conn.wf(),
            conn@.ingress == Seq::<u8>::empty(),
            call_ensures(<<N::Codec as Codec>::ParseState>::default, (), conn@.parse),
            call_ensures(N::ConnState::default, (), conn@.state),
    {
        SessionConn::new(<N::Codec as Codec>::ParseState::default(), N::ConnState::default())
    }
}

/// The scene that is made of what the handling of received bytes is given.
pub open spec fn scene<N: Session>(session: N, conn: SessionConn<N>, sink: N::Sink) -> Scene<N> {
    Scene { session, conn: conn@, sink }
}

/// Takes whole messages off the received bytes and has the session respond to
/// each, until no whole one is left or the session wants the connection closed.
pub fn drain_ingress<N: Session>(
    session: &mut N,
    conn: &mut SessionConn<N>,
    conn_id: Token,
    sink: &mut N::Sink,
)
    requires
        old(conn).wf(),
    ensures
        final(conn).wf(),
        exists|sizes: Seq<usize>| #[trigger]
            scene(*old(session), *old(conn), *old(sink)).drains(
                conn_id,
                sizes,
                scene(*final(session), *final(conn), *final(sink)),
            ),
{
    let ghost first = scene(*session, *conn, *sink);
    let ghost mut taken: Seq<usize> = Seq::empty();
    proof {
        assert forall|rest: Seq<usize>, after: Scene<N>|
            #[trigger] first.drains(conn_id, rest, after) implies first.drains(
            conn_id,
            taken + rest,
            after,
        ) by {
            assert(taken + rest =~= rest);
        }
    }
    loop
        invariant_except_break
            forall|rest: Seq<usize>, after: Scene<N>| #[trigger]
                scene(*session, *conn, *sink).drains(conn_id, rest, after) ==> first.drains(
                    conn_id,
                    taken + rest,
                    after,
                ),
        invariant
            conn.wf(),
            first == scene(*old(session), *old(conn), *old(sink)),
        ensures
            exists|sizes: Seq<usize>| #[trigger]
                first.drains(conn_id, sizes, scene(*session, *conn, *sink)),
        decreases conn.ingress@.len(),
    {
        let ghost now = scene(*session, *conn, *sink);
        let Some(pending) = conn.ingress.snapshot() else {
            assert(now.halts(now));
            assert(now.drains(conn_id, Seq::empty(), now));
            break ;
        };
        let parsed = session.codec().parse(&mut conn.parse_state, &pending);
        let (head, consumed) = match parsed {
            Some(message) => message,
            None => {
                proof {
                    let stopped = scene(*session, *conn, *sink);
                    assert(now.session.spec_codec().parses(
                        now.conn.parse,
                        now.conn.ingress,
                        parsed,
                        stopped.conn.parse,
                    ));
                    assert(now.halts(stopped));
                    assert(now.drains(conn_id, Seq::empty(), stopped));
                }
                break ;
            },
        };
        if consumed == 0 || !conn.ingress.advance(consumed) {
            proof {
                let stopped = scene(*session, *conn, *sink);
                assert(now.session.spec_codec().parses(
                    now.conn.parse,
                    now.conn.ingress,
                    parsed,
                    stopped.conn.parse,
                ));
                assert(now.halts(stopped));
                assert(now.drains(conn_id, Seq::empty(), stopped));
            }
            break ;
        }
        session.response(head, conn_id, &mut conn.conn_state, sink);
        let ghost next = scene(*session, *conn, *sink);
        proof {
            assert(now.session.spec_codec().parses(
                now.conn.parse,
                now.conn.ingress,
                Some((head, consumed)),
                next.conn.parse,
            ));
            assert(now.steps(conn_id, consumed, next));
        }
        match conn.conn_state.wants_close() {
            Close::Keep => {},
            _ => {
                proof {
                    let last = seq![consumed];
                    assert(now.steps(conn_id, last[0], next));
                    assert(now.drains(conn_id, last, next));
                }
                break ;
            },
        }
        proof {
            let before = taken;
            taken = taken.push(consumed);
            assert forall|rest: Seq<usize>, after: Scene<N>|
                #[trigger] next.drains(conn_id, rest, after) implies first.drains(
                conn_id,
                taken + rest,
                after,
            ) by {
                let longer = seq![consumed] + rest;
                assert(longer.skip(1) =~= rest);
                assert(now.steps(conn_id, longer[0], next));
                assert(now.drains(conn_id, longer, after));
                assert(before + longer =~= taken + rest);
            }
        }
    }
}

/// What is done with a connection whose session wants it closed like this.
pub open spec fn outcome_of(close: Close) -> ChunkOutcome {
    match close {
        Close::Keep => ChunkOutcome::Accepted,
        Close::Reconnect => ChunkOutcome::CloseReconnect,
        Close::Permanent => ChunkOutcome::ClosePermanent,
    }
}

/// A connection is closed as its session wants it, and else its bytes are accepted;
/// a session alone never has it overrun.
pub proof fn law_closed_as_the_session_wants(close: Close)
    ensures
        outcome_of(close) is Accepted <==> close is Keep,
        outcome_of(close) is CloseReconnect <==> close is Reconnect,
        outcome_of(close) is ClosePermanent <==> close is Permanent,
{
}

/// An application that runs a session on each of its connections.
pub struct SessionApp<N: Session> {
    pub session: N,
}

impl<N: Session> SessionApp<N> {
    /// Takes in received bytes.
    pub fn chunk(
        &mut self,
        conn: &mut SessionConn<N>,
        conn_id: Token,
        sink: &mut N::Sink,
        chunk: &[u8],
    ) -> (outcome: ChunkOutcome)
        requires
            old(conn).wf(),
        ensures
            final(conn).wf(),
            ({
                let before = scene(old(self).session, *old(conn), *old(sink));
                let after = scene(final(self).session, *final(conn), *final(sink));
                if chunk@.len() == 0 {
                    outcome is Accepted && after == before
                } else if before.conn.ingress.len() + chunk@.len() > INGRESS_BUF_CAP {
                    outcome is Overrun && after == before
                } else {
                    let taken = Scene {
                        conn: ConnView { ingress: before.conn.ingress + chunk@, ..before.conn },
                        ..before
                    };
                    &&& exists|sizes: Seq<usize>| #[trigger] taken.drains(conn_id, sizes, after)
                    &&& outcome == outcome_of(after.conn.state.closing())
                }
            }),
    {
        if chunk.len() == 0 {
            return ChunkOutcome::Accepted;
        }
        if !conn.ingress.extend(chunk) {
            return ChunkOutcome::Overrun;
        }
        drain_ingress(&mut self.session, conn, conn_id, sink);
        match conn.conn_state.wants_close() {
            Close::Keep => ChunkOutcome::Accepted,
            Close::Reconnect => ChunkOutcome::CloseReconnect,
            Close::Permanent => ChunkOutcome::ClosePermanent,
        }
    }

    /// The connection stands: the session is given its token and what has the
    /// connector see to it, and then begins.
    pub fn connected(
        &mut self,
        conn: &mut SessionConn<N>,
        conn_id: Token,
        ready: WakeRef,
        sink: &mut N::Sink,
    )
        requires
            old(conn).wf(),
        ensures
            final(conn).wf(),
            exists|active: N|
                {
                    &&& #[trigger] N::activates(old(self).session, conn_id, ready, active)
                    &&& N::connects(
                        (active, old(conn)@.state, *old(sink)),
                        conn_id,
                        scene(final(self).session, *final(conn), *final(sink)).parties(),
                    )
                },
            final(conn)@.ingress == old(conn)@.ingress,
            final(conn)@.parse == old(conn)@.parse,
    {
        self.session.activate(conn_id, ready);
        self.session.connect(conn_id, &mut conn.conn_state, sink);
    }

    /// What is queued is about to be written.
    pub fn before_send(&mut self, conn: &mut SessionConn<N>, conn_id: Token, sink: &mut N::Sink)
        requires
            old(conn).wf(),
        ensures
            final(conn).wf(),
            N::trails(
                scene(old(self).session, *old(conn), *old(sink)).parties(),
                conn_id,
                scene(final(self).session, *final(conn), *final(sink)).parties(),
            ),
            final(conn)@.ingress == old(conn)@.ingress,
            final(conn)@.parse == old(conn)@.parse,
    {
        self.session.flush_trailer(conn_id, &mut conn.conn_state, sink);
    }

    /// Bytes were sent.
    pub fn send(&mut self, conn_id: Token, sent: usize)
        ensures
            N::notes_sent(old(self).session, conn_id, sent, final(self).session),
    {
        self.session.sent(conn_id, sent);
    }

    /// What the session asks for outside the receive path. What it wants sent goes to
    /// the outlet.
    pub fn drain_requests<K: Outlet<N::Send>>(&mut self, conn_id: Token, outlet: &mut K) -> (requests:
        Requests)
        ensures
            N::gives_requests(
                (old(self).session, *old(outlet)),
                conn_id,
                requests,
                (final(self).session, *final(outlet)),
            ),
    {
        self.session.drain_requests(conn_id, outlet)
    }

    /// The connection is over: the messages that were received get their response,
    /// and what is left is handed to the codec as the end of the stream.
    pub fn close(&mut self, conn: &mut SessionConn<N>, conn_id: Token, sink: &mut N::Sink)
        requires
            old(conn).wf(),
        ensures
            final(conn).wf(),
            exists|sizes: Seq<usize>, drained: Scene<N>, ended: Scene<N>|
                {
                    &&& #[trigger] scene(old(self).session, *old(conn), *old(sink)).drains(
                        conn_id,
                        sizes,
                        drained,
                    )
                    &&& #[trigger] drained.finishes(conn_id, ended)
                    &&& N::disconnects(
                        ended.parties(),
                        conn_id,
                        scene(final(self).session, *final(conn), *final(sink)).parties(),
                    )
                    &&& final(conn)@.ingress == ended.conn.ingress
                    &&& final(conn)@.parse == ended.conn.parse
                },
    {
        drain_ingress(&mut self.session, conn, conn_id, sink);
        let ghost drained = scene(self.session, *conn, *sink);
        if let Close::Keep = conn.conn_state.wants_close() {
            let remaining = match conn.ingress.snapshot() {
                Some(bytes) => bytes,
                None => shared_empty(),
            };
            assert(accumulator::shared_bytes(remaining) =~= drained.conn.ingress);
            let finished = self.session.codec().finish(&mut conn.parse_state, remaining);
            if let Some(head) = finished {
                self.session.response(head, conn_id, &mut conn.conn_state, sink);
            }
            proof {
                let ended = scene(self.session, *conn, *sink);
                assert(drained.session.spec_codec().finishes(
                    drained.conn.parse,
                    drained.conn.ingress,
                    finished,
                    ended.conn.parse,
                ));
            }
        }
        let ghost ended = scene(self.session, *conn, *sink);
        assert(drained.finishes(conn_id, ended));
        self.session.disconnect(conn_id, &mut conn.conn_state, sink);
    }
}

} // verus!
