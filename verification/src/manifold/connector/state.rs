//! What is kept of each connection.
use vstd::prelude::*;

use crate::manifold::pending::{Marked, Pending};
use crate::time::Instant;
use crate::token::Token;
use super::source::DialKey;

verus! {

/// How many pieces one write may gather.
pub const IOV_CAP: usize = 32;

/// How far a connection has come.
#[derive(Clone, Copy, PartialEq, Eq, Structural, Debug)]
pub enum Establish {
    /// Its socket is being created.
    Idle,
    Connecting,
    Done,
}

/// One connection. `D` is what the application keeps of it.
pub struct State<D> {
    pub conn: D,
    pub token: Token,
    /// Its lane among the queues of outgoing bytes.
    pub lane: usize,
    pub dial: DialKey,
    pub pending: Pending,
    pub establish: Establish,
    /// The dialer has been told that the connection is gone.
    pub retired: bool,
    /// When something was last received: how a silent peer is found out.
    pub last_recv: Option<Instant>,
    /// The application asked for a close after which nothing is dialed again.
    pub close_permanent: bool,
}

impl<D> Marked for State<D> {
    open spec fn marks(&self) -> Pending {
        self.pending
    }
}

impl<D> State<D> {
    pub fn new(conn: D, token: Token, dial: DialKey, lane: usize) -> (state: Self)
        ensures
            state == (State {
                conn,
                token,
                lane,
                dial,
                pending: Pending { egress: false, shutdown: false, close: false, how: 0 },
                establish: Establish::Idle,
                retired: false,
                last_recv: None,
                close_permanent: false,
            }),
    {
        State {
            conn,
            token,
            lane,
            dial,
            pending: Pending::new(),
            establish: Establish::Idle,
            retired: false,
            last_recv: None,
            close_permanent: false,
        }
    }
}

} // verus!
