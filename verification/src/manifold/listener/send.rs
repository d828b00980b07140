//! Sending on incoming connections.
use vstd::prelude::*;

use crate::collections::accumulator;
use crate::collections::accumulator::shared_slice;

verus! {

/// How much an answer, or the head of one, may take up.
pub const WRITE_BUF_CAP: usize = 16384;

/// A buffer that an answer is written into.
pub struct Buf {
    bytes: [u8; 16384],
}

impl View for Buf {
    type V = Seq<u8>;

    closed spec fn view(&self) -> Seq<u8> {
        self.bytes@
    }
}

impl Buf {
    pub fn new() -> (buf: Self)
        ensures
            buf@ == Seq::new(WRITE_BUF_CAP as nat, |i: int| 0u8),
    {
        let buf = Buf { bytes: [0u8; 16384] };
        assert(buf@ =~= Seq::new(WRITE_BUF_CAP as nat, |i: int| 0u8));
        buf
    }

    pub fn as_slice(&self) -> (bytes: &[u8])
        ensures
            bytes@ == self@,
    {
        self.bytes.as_slice()
    }

    pub fn as_mut_slice(&mut self) -> (bytes: &mut [u8])
        ensures
            bytes@ == old(self)@,
            final(self)@ == final(bytes)@,
    {
        &mut self.bytes
    }
}

/// The body of an answer.
pub enum SendBuffer {
    Static(&'static [u8]),
    Owned(Vec<u8>),
    Shared(o3::buffer::Shared),
}

impl SendBuffer {
    pub open spec fn bytes(self) -> Seq<u8> {
        match self {
            SendBuffer::Static(bytes) => bytes@,
            SendBuffer::Owned(bytes) => bytes@,
            SendBuffer::Shared(shared) => accumulator::shared_bytes(shared),
        }
    }

    pub fn as_slice(&self) -> (bytes: &[u8])
        ensures
            bytes@ == self.bytes(),
    {
        match self {
            SendBuffer::Static(bytes) => bytes,
            SendBuffer::Owned(bytes) => bytes.as_slice(),
            SendBuffer::Shared(shared) => shared_slice(shared),
        }
    }
}

pub open spec fn at_most(a: int, b: int) -> int {
    if a < b {
        a
    } else {
        b
    }
}

/// An answer that is being sent: its head, and its body if that lies elsewhere.
pub struct DirectFlight {
    buf: Buf,
    source: Option<SendBuffer>,
}

/// The abstract value of a [`DirectFlight`].
pub struct FlightView {
    pub head: Seq<u8>,
    pub source: Option<SendBuffer>,
}

impl FlightView {
    pub open spec fn body(self) -> Seq<u8> {
        match self.source {
            Some(source) => source.bytes(),
            None => Seq::empty(),
        }
    }

    /// The whole answer, whose head is `header_len` bytes long.
    pub open spec fn message(self, header_len: usize) -> Seq<u8> {
        self.head.take(at_most(header_len as int, WRITE_BUF_CAP as int)) + self.body()
    }

    /// What is left of the head after `sent` bytes.
    pub open spec fn head_left(self, sent: usize, header_len: usize) -> Seq<u8> {
        let len = at_most(header_len as int, WRITE_BUF_CAP as int);
        if sent < len {
            self.head.subrange(sent as int, len)
        } else {
            Seq::empty()
        }
    }

    /// What is left of the body after `sent` bytes.
    pub open spec fn body_left(self, sent: usize, header_len: usize) -> Seq<u8> {
        let len = at_most(header_len as int, WRITE_BUF_CAP as int);
        let offset = if sent < len {
            0
        } else {
            sent - len
        };
        if offset <= self.body().len() {
            self.body().skip(offset)
        } else {
            Seq::empty()
        }
    }
}

/// An answer is its head, as far as a buffer holds it, and then its body.
pub proof fn law_head_comes_before_body(flight: FlightView, header_len: usize)
    requires
        flight.head.len() == WRITE_BUF_CAP,
    ensures
        header_len <= WRITE_BUF_CAP ==> flight.message(header_len) == flight.head.take(
            header_len as int,
        ) + flight.body(),
        header_len > WRITE_BUF_CAP ==> flight.message(header_len) == flight.head + flight.body(),
        flight.source is None ==> flight.body().len() == 0,
        flight.source matches Some(SendBuffer::Static(bytes)) ==> flight.body() == bytes@,
        flight.source matches Some(SendBuffer::Owned(bytes)) ==> flight.body() == bytes@,
        flight.source matches Some(SendBuffer::Shared(shared)) ==> flight.body()
            == accumulator::shared_bytes(shared),
{
    assert(flight.head.take(WRITE_BUF_CAP as int) =~= flight.head);
}

/// What is sent after the first `sent` bytes is exactly the rest of the answer.
pub proof fn law_rest_of_message(flight: FlightView, sent: usize, header_len: usize)
    requires
        flight.head.len() == WRITE_BUF_CAP,
        sent <= flight.message(header_len).len(),
    ensures
        flight.head_left(sent, header_len) + flight.body_left(sent, header_len) == flight.message(
            header_len,
        ).skip(sent as int),
{
    assert(flight.head_left(sent, header_len) + flight.body_left(sent, header_len)
        =~= flight.message(header_len).skip(sent as int));
}

impl View for DirectFlight {
    type V = FlightView;

    closed spec fn view(&self) -> FlightView {
        FlightView { head: self.buf@, source: self.source }
    }
}

impl DirectFlight {
    pub open spec fn wf(self) -> bool {
        self@.head.len() == WRITE_BUF_CAP
    }

    pub fn new() -> (flight: Self)
        ensures
            flight.wf(),
            flight@.source is None,
            flight@.head == Seq::new(WRITE_BUF_CAP as nat, |i: int| 0u8),
    {
        DirectFlight { buf: Buf::new(), source: None }
    }

    pub fn header(&self) -> (head: &[u8])
        ensures
            head@ == self@.head,
    {
        self.buf.as_slice()
    }

    pub fn header_mut(&mut self) -> (head: &mut [u8])
        ensures
            head@ == old(self)@.head,
            final(self)@ == (FlightView { head: final(head)@, ..old(self)@ }),
    {
        self.buf.as_mut_slice()
    }

    /// Starts to send an answer with this body.
    pub fn begin(&mut self, source: Option<SendBuffer>)
        ensures
            final(self)@ == (FlightView { source, ..old(self)@ }),
    {
        self.source = source;
    }

    /// Lets go of the body.
    pub fn clear(&mut self)
        ensures
            final(self)@ == (FlightView { source: None, ..old(self)@ }),
    {
        self.source = None;
    }

    /// The first `len` bytes of the head.
    pub fn plain(&self, len: usize) -> (bytes: &[u8])
        requires
            self.wf(),
        ensures
            bytes@ == self@.head.take(at_most(len as int, WRITE_BUF_CAP as int)),
    {
        let len = if len < WRITE_BUF_CAP {
            len
        } else {
            WRITE_BUF_CAP
        };
        vstd::slice::slice_subrange(self.buf.as_slice(), 0, len)
    }

    /// What is left of the head and of the body after `sent` bytes of an answer
    /// whose head is `header_len` bytes long.
    pub fn vectored(&self, sent: usize, header_len: usize) -> (parts: (&[u8], &[u8]))
        requires
            self.wf(),
        ensures
            parts.0@ == self@.head_left(sent, header_len),
            parts.1@ == self@.body_left(sent, header_len),
    {
        let len = if header_len < WRITE_BUF_CAP {
            header_len
        } else {
            WRITE_BUF_CAP
        };
        let bytes = self.buf.as_slice();
        let head = if sent < len {
            vstd::slice::slice_subrange(bytes, sent, len)
        } else {
            vstd::slice::slice_subrange(bytes, 0, 0)
        };
        assert(head@ =~= self@.head_left(sent, header_len));
        let offset = sent.saturating_sub(len);
        let body = match &self.source {
            Some(source) => {
                let all = source.as_slice();
                if offset <= all.len() {
                    vstd::slice::slice_subrange(all, offset, all.len())
                } else {
                    vstd::slice::slice_subrange(all, 0, 0)
                }
            },
            None => vstd::slice::slice_subrange(bytes, 0, 0),
        };
        assert(body@ =~= self@.body_left(sent, header_len));
        (head, body)
    }
}

/// How far the sending of an answer has come.
#[derive(Clone, Copy, PartialEq, Eq, Structural, Debug)]
pub struct State {
    pub write_buf_len: usize,
    /// Bytes of the answer that the write in flight covers.
    pub inflight_plain: usize,
    /// Bytes of the answer that the wire has taken.
    pub consumed_plain: usize,
    pub total_plain: usize,
}

impl State {
    pub open spec fn wf(self) -> bool {
        self.inflight_plain <= self.consumed_plain
    }

    pub open spec fn begun(self, total_plain: usize) -> Self {
        State { total_plain, consumed_plain: 0, inflight_plain: 0, ..self }
    }

    pub open spec fn fresh() -> Self {
        State { write_buf_len: 0, inflight_plain: 0, consumed_plain: 0, total_plain: 0 }
    }

    /// The wire took `consumed` bytes, in a new write if `armed`.
    pub open spec fn handed(self, consumed: usize, armed: bool) -> Self {
        State {
            inflight_plain: if armed {
                consumed
            } else {
                self.inflight_plain
            },
            consumed_plain: (self.consumed_plain + consumed) as usize,
            ..self
        }
    }

    /// The write in flight sent `sent` bytes.
    pub open spec fn completed(self, sent: usize) -> Self {
        if sent > self.inflight_plain {
            self
        } else {
            State {
                consumed_plain: (self.consumed_plain - (self.inflight_plain - sent)) as usize,
                inflight_plain: 0,
                ..self
            }
        }
    }

    /// Something of the answer is still to be handed to the wire.
    pub open spec fn unfinished(self) -> bool {
        self.consumed_plain < self.total_plain
    }

    pub fn new() -> (state: Self)
        ensures
            state == State::fresh(),
            state.wf(),
    {
        State { write_buf_len: 0, inflight_plain: 0, consumed_plain: 0, total_plain: 0 }
    }

    pub fn begin(&mut self, total_plain: usize)
        ensures
            *final(self) == old(self).begun(total_plain),
            final(self).wf(),
    {
        self.total_plain = total_plain;
        self.consumed_plain = 0;
        self.inflight_plain = 0;
    }

    pub fn reset(&mut self)
        ensures
            *final(self) == State::fresh(),
    {
        self.write_buf_len = 0;
        self.total_plain = 0;
        self.consumed_plain = 0;
        self.inflight_plain = 0;
    }

    pub fn record_handoff(&mut self, consumed: usize, armed: bool)
        requires
            old(self).wf(),
            old(self).consumed_plain + consumed <= usize::MAX,
        ensures
            final(self).wf(),
            *final(self) == old(self).handed(consumed, armed),
    {
        if armed {
            self.inflight_plain = consumed;
        }
        self.consumed_plain += consumed;
    }

    /// Says whether the write can have sent so much.
    pub fn complete_handoff(&mut self, sent: usize) -> (valid: bool)
        requires
            old(self).wf(),
        ensures
            final(self).wf(),
            valid == (sent <= old(self).inflight_plain),
            *final(self) == old(self).completed(sent),
    {
        if sent > self.inflight_plain {
            return false;
        }
        self.consumed_plain -= self.inflight_plain - sent;
        self.inflight_plain = 0;
        true
    }
}

/// What a write did not send is handed to the wire again: after it is over, only
/// what was sent counts.
pub proof fn law_unsent_is_handed_again(state: State, consumed: usize, sent: usize)
    requires
        state.wf(),
        state.consumed_plain + consumed <= usize::MAX,
        sent <= consumed,
    ensures
        ({
            let after = state.handed(consumed, true).completed(sent);
            &&& after.consumed_plain == state.consumed_plain + sent
            &&& after.inflight_plain == 0
            &&& after.total_plain == state.total_plain
        }),
{
}
/// An answer begins with all of its bytes still to be handed over; what the wire
/// takes counts as handed over, and is what the write in flight covers if a new
/// write was begun. The length of an answer does not change on the way.
pub proof fn law_bytes_of_an_answer_are_counted(
    state: State,
    total_plain: usize,
    consumed: usize,
    armed: bool,
)
    requires
        state.consumed_plain + consumed <= usize::MAX,
    ensures
        state.begun(total_plain).total_plain == total_plain,
        state.begun(total_plain).consumed_plain == 0,
        state.begun(total_plain).inflight_plain == 0,
        state.begun(total_plain).write_buf_len == state.write_buf_len,
        state.begun(total_plain).unfinished() <==> total_plain > 0,
        state.handed(consumed, armed).consumed_plain == state.consumed_plain + consumed,
        state.handed(consumed, armed).total_plain == state.total_plain,
        state.handed(consumed, armed).write_buf_len == state.write_buf_len,
        armed ==> state.handed(consumed, armed).inflight_plain == consumed,
        !armed ==> state.handed(consumed, armed).inflight_plain == state.inflight_plain,
        state.unfinished() <==> state.consumed_plain < state.total_plain,
        State::fresh().total_plain == 0 && State::fresh().consumed_plain == 0,
        State::fresh().inflight_plain == 0 && State::fresh().write_buf_len == 0,
{
}

/// A write that sent less than it covers gives the difference back; one that claims
/// more changes nothing.
pub proof fn law_completed_write_gives_back_the_rest(state: State, sent: usize)
    requires
        state.wf(),
    ensures
        sent <= state.inflight_plain ==> {
            &&& state.completed(sent).consumed_plain + state.inflight_plain == state.consumed_plain
                + sent
            &&& state.completed(sent).inflight_plain == 0
            &&& state.completed(sent).total_plain == state.total_plain
            &&& state.completed(sent).write_buf_len == state.write_buf_len
        },
        sent > state.inflight_plain ==> state.completed(sent) == state,
{
}


} // verus!
