//! What is kept of each connection.
use vstd::prelude::*;

use crate::manifold::Reclaim;
use crate::manifold::pending::{Marked, Pending};
use crate::token::Token;
use super::accept::PeerIp;
use super::egress;
use super::egress::{Egress, Flow};
use super::raw::accept::Peer;
use super::send;

verus! {

/// One connection. `C` is what the application keeps of it.
pub struct State<C> {
    pub conn: C,
    pub token: Token,
    pub send: send::State,
    pub pending: Pending,
    pub peer: Option<Peer>,
}

impl<C> Marked for State<C> {
    open spec fn marks(&self) -> Pending {
        self.pending
    }
}

/// What is to be done with bytes that the application has written.
#[derive(Clone, Copy, PartialEq, Eq, Structural, Debug)]
pub enum Submit {
    /// The first `bytes` bytes are queued behind what is still to be sent.
    Stage { bytes: usize },
    /// More was written than there is room for.
    Refused,
    /// They are sent at once.
    Send,
}

/// What became of bytes that the application has written.
#[derive(Clone, Copy, PartialEq, Eq, Structural, Debug)]
pub struct Concluded {
    /// They will be sent.
    pub taken: bool,
    /// The connection is to be closed once it has nothing left to send.
    pub close_after: bool,
}

impl Submit {
    /// What became of the bytes, given whether they could be queued if they were to
    /// be. A connection that bytes are lost on is closed after what it still sends.
    pub fn concluded(self, staged: bool) -> (concluded: Concluded)
        ensures
            concluded.taken == match self {
                Submit::Stage { .. } => staged,
                Submit::Refused => false,
                Submit::Send => true,
            },
            concluded.close_after == !concluded.taken,
    {
        let taken = match self {
            Submit::Stage { .. } => staged,
            Submit::Refused => false,
            Submit::Send => true,
        };
        Concluded { taken, close_after: !taken }
    }
}

impl<C> State<C> {
    pub fn new(conn: C, token: Token, peer: Option<Peer>) -> (state: Self)
        ensures
            state == (State {
                conn,
                token,
                send: send::State::fresh(),
                pending: Pending { egress: false, shutdown: false, close: false, how: 0 },
                peer,
            }),
    {
        State { conn, token, send: send::State::new(), pending: Pending::new(), peer }
    }

    pub fn peer_ip(&self) -> (ip: Option<PeerIp>)
        ensures
            ip == match self.peer {
                Some(peer) => Some(peer.ip),
                None => None,
            },
    {
        match self.peer {
            Some(peer) => Some(peer.ip),
            None => None,
        }
    }

    /// The answer that is being sent, if any, has not been handed over in full, or
    /// something else is still to be sent.
    pub open spec fn owes(self, reclaim: Reclaim, flow: Flow) -> bool {
        !(egress::classify(self.send, reclaim, flow) is Clear)
    }

    pub fn owes_egress(&self, reclaim: Reclaim, flow: Flow) -> (owes: bool)
        ensures
            owes == self.owes(reclaim, flow),
    {
        match egress::egress(self.send, reclaim, flow) {
            Egress::Clear => false,
            _ => true,
        }
    }

    /// What is done with `written` bytes from a buffer of `capacity` bytes.
    pub open spec fn submission(
        self,
        reclaim: Reclaim,
        flow: Flow,
        capacity: usize,
        written: usize,
    ) -> Submit {
        if self.owes(reclaim, flow) {
            Submit::Stage {
                bytes: if written < capacity {
                    written
                } else {
                    capacity
                },
            }
        } else if written > capacity {
            Submit::Refused
        } else {
            Submit::Send
        }
    }

    /// An answer of `written` bytes, and `body` bytes that lie elsewhere, begins.
    pub open spec fn answering(self, written: usize, body: usize) -> Self {
        State {
            send: (send::State { write_buf_len: written, ..self.send }).begun(
                (written + body) as usize,
            ),
            ..self
        }
    }

    /// Takes `written` bytes from a buffer of `capacity` bytes, and `body` bytes
    /// that lie elsewhere.
    pub fn submit(
        &mut self,
        reclaim: Reclaim,
        flow: Flow,
        capacity: usize,
        written: usize,
        body: usize,
    ) -> (submit: Submit)
        requires
            written + body <= usize::MAX,
        ensures
            submit == old(self).submission(reclaim, flow, capacity, written),
            *final(self) == if submit is Send {
                old(self).answering(written, body)
            } else {
                *old(self)
            },
    {
        if self.owes_egress(reclaim, flow) {
            let bytes = if written < capacity {
                written
            } else {
                capacity
            };
            return Submit::Stage { bytes };
        }
        if written > capacity {
            return Submit::Refused;
        }
        self.send.write_buf_len = written;
        self.send.begin(written + body);
        Submit::Send
    }
}
/// Whether something is still to be sent on a connection is told by the driver and
/// by how far its answer has come. Bytes behind it are queued, as many as there is
/// room for; without it they are sent at once if they fit, and refused if not.
pub proof fn law_bytes_wait_their_turn<C>(
    state: State<C>,
    reclaim: Reclaim,
    flow: Flow,
    capacity: usize,
    written: usize,
)
    ensures
        ({
            let owes = flow.inflight || flow.holds_plain || flow.deferred
                || state.send.consumed_plain < state.send.total_plain;
            let submit = state.submission(reclaim, flow, capacity, written);
            &&& state.owes(reclaim, flow) <==> owes
            &&& owes <==> submit is Stage
            &&& owes ==> submit->bytes <= written && submit->bytes <= capacity && (submit->bytes
                == written || submit->bytes == capacity)
            &&& submit is Send <==> !owes && written <= capacity
            &&& submit is Refused <==> !owes && written > capacity
        }),
{
}

/// An answer begins with its whole length to be sent and nothing sent, and changes
/// nothing else of the connection.
pub proof fn law_answer_begins_at_its_first_byte<C>(state: State<C>, written: usize, body: usize)
    requires
        written + body <= usize::MAX,
    ensures
        state.answering(written, body).send.total_plain == written + body,
        state.answering(written, body).send.write_buf_len == written,
        state.answering(written, body).send.consumed_plain == 0,
        state.answering(written, body).send.inflight_plain == 0,
        state.answering(written, body).conn == state.conn,
        state.answering(written, body).token == state.token,
        state.answering(written, body).pending == state.pending,
        state.answering(written, body).peer == state.peer,
{
}


} // verus!
