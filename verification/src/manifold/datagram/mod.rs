//! Datagram sockets.
//!
//! The descriptor and the arming of receives belong to the driver; what is waiting
//! to be sent, what is in flight and how much memory that takes is kept here.
use vstd::prelude::*;

pub mod send;

use crate::collections::backlog::Backlog;
use crate::collections::slab::{Slab, SlabKey, SlabView};
use crate::token::{Token, SEND};
use self::send::{Outgoing, Payload};

verus! {

/// How many datagrams may wait to be sent.
pub const OUT_CAP: usize = 4096;

/// How many bytes may wait to be sent or be in flight.
pub const OUT_BYTES_CAP: usize = 16_777_216;

/// How many sends may be in flight.
pub const IN_FLIGHT_SENDS_CAP: usize = 4096;

/// What one batch of datagrams may hold, as the driver can send it.
#[derive(Clone, Copy, PartialEq, Eq, Structural, Debug)]
pub struct GsoLimits {
    pub max_bytes: usize,
    pub max_segments: usize,
}

/// Where the bytes of a received datagram lie in the buffer it came in.
#[derive(Clone, Copy, PartialEq, Eq, Structural, Debug)]
pub struct Packet {
    pub offset: usize,
    pub len: usize,
}

impl Packet {
    /// The bytes of the datagram, given those of its buffer.
    pub fn slice<'a>(&self, buffer: &'a [u8]) -> (bytes: &'a [u8])
        requires
            self.offset + self.len <= buffer@.len(),
        ensures
            bytes@ == buffer@.subrange(self.offset as int, self.offset + self.len),
    {
        let len = buffer.len();
        assert(self.offset + self.len <= len);
        vstd::slice::slice_subrange(buffer, self.offset, self.offset + self.len)
    }
}

/// A completed receive.
#[derive(Clone, Copy, PartialEq, Eq, Structural, Debug)]
pub enum RecvEvent {
    Data,
    Failed(i32),
    Eof,
    Cancelled,
    Starved,
    Discarded,
}

/// What the driver makes of received bytes.
#[derive(Debug)]
pub enum RecvOutcome<A> {
    Packet { src: A, packet: Packet },
    Empty,
    Truncated { src: A, partial: Packet },
    Error(i32),
}

/// What becomes of a completed receive.
#[derive(Clone, Copy, PartialEq, Eq, Structural, Debug)]
pub enum RecvStep {
    Nothing,
    /// It came for an arming that is over: its buffer is dropped.
    Stale,
    /// The handler is told of an error.
    Report(i32),
    /// The arming is told of it, and the bytes are looked at.
    Look,
}

/// What the handler is told of received bytes.
#[derive(Debug)]
pub enum Delivery<A> {
    Packet { src: A, packet: Packet },
    Empty,
    Truncated { src: A, partial: Packet },
    Error(i32),
}

/// What becomes of a completed receive; `current` says whether it came for the
/// arming that stands.
pub open spec fn recv_step(event: RecvEvent, current: bool) -> RecvStep {
    match event {
        RecvEvent::Data => if current {
            RecvStep::Look
        } else {
            RecvStep::Stale
        },
        RecvEvent::Failed(errno) => RecvStep::Report(errno),
        _ => RecvStep::Nothing,
    }
}

/// A bound socket.
pub struct Socket<A, B, K> {
    route: u8,
    bound_addr: A,
    pending: Backlog<Outgoing<A, B, K>>,
    retained: usize,
    in_flight: Slab<Outgoing<A, B, K>>,
}

/// The abstract value of a [`Socket`].
pub struct SocketView<A, B, K> {
    pub route: u8,
    pub bound_addr: A,
    /// What waits to be sent, in this order.
    pub pending: Seq<Outgoing<A, B, K>>,
    /// How many bytes wait or are in flight.
    pub retained: int,
    pub in_flight: SlabView<Outgoing<A, B, K>>,
}

pub open spec fn waiting_bytes<A, B, K>(pending: Seq<Outgoing<A, B, K>>) -> int
    decreases pending.len(),
{
    if pending.len() == 0 {
        0
    } else {
        waiting_bytes(pending.drop_last()) + pending.last().payload.spec_len()
    }
}

pub open spec fn slot_bytes<A, B, K>(in_flight: SlabView<Outgoing<A, B, K>>, i: int) -> int {
    if in_flight.occupied(i) {
        in_flight.entries[in_flight.key_at(i)].payload.spec_len()
    } else {
        0
    }
}

/// The bytes in flight from the first `n` slots.
pub open spec fn flying_bytes<A, B, K>(in_flight: SlabView<Outgoing<A, B, K>>, n: int) -> int
    decreases n,
{
    if n <= 0 {
        0
    } else {
        flying_bytes(in_flight, n - 1) + slot_bytes(in_flight, n - 1)
    }
}

impl<A, B, K> SocketView<A, B, K> {
    /// Every byte that waits or is in flight is counted, and no other.
    pub open spec fn wf(self) -> bool {
        &&& self.pending.len() <= OUT_CAP
        &&& self.in_flight.wf()
        &&& self.in_flight.generations.len() == IN_FLIGHT_SENDS_CAP
        &&& self.retained == waiting_bytes(self.pending) + flying_bytes(
            self.in_flight,
            IN_FLIGHT_SENDS_CAP as int,
        )
        &&& self.retained <= OUT_BYTES_CAP
    }

    pub open spec fn fits(self, bytes: int) -> bool {
        self.pending.len() < OUT_CAP && self.retained + bytes <= OUT_BYTES_CAP
    }

    pub open spec fn queued(self, out: Outgoing<A, B, K>) -> Self {
        SocketView {
            pending: self.pending.push(out),
            retained: self.retained + out.payload.spec_len(),
            ..self
        }
    }

    /// The first datagram that waits is in flight under `key`.
    pub open spec fn sending(self, key: SlabKey) -> Self {
        SocketView {
            pending: self.pending.skip(1),
            in_flight: self.in_flight.insert(key, self.pending[0]),
            ..self
        }
    }

    /// The send under `key` never began: it waits again, before all others.
    pub open spec fn unsent(self, key: SlabKey) -> Self {
        if self.in_flight.entries.contains_key(key) {
            SocketView {
                pending: seq![self.in_flight.entries[key]] + self.pending,
                in_flight: self.in_flight.remove(key),
                ..self
            }
        } else {
            self
        }
    }

    /// The datagrams that wait go into flight one after the other, under `keys`.
    pub open spec fn flushing(self, keys: Seq<SlabKey>) -> Self
        decreases keys.len(),
    {
        if keys.len() == 0 {
            self
        } else {
            self.flushing(keys.drop_last()).sending(keys.last())
        }
    }

    /// `keys` are what a flush may hand out: as many datagrams wait, and each key is
    /// free when its turn comes.
    pub open spec fn hands_out(self, keys: Seq<SlabKey>) -> bool
        decreases keys.len(),
    {
        keys.len() == 0 || {
            let before = self.flushing(keys.drop_last());
            &&& self.hands_out(keys.drop_last())
            &&& before.pending.len() > 0
            &&& before.in_flight.vacant(keys.last())
        }
    }

    /// The tokens of what is in flight from the first `n` slots.
    pub open spec fn flying_tokens(self, n: int) -> Seq<Token>
        decreases n,
    {
        if n <= 0 {
            Seq::empty()
        } else if self.in_flight.occupied(n - 1) {
            self.flying_tokens(n - 1).push(
                Token::spec_of(self.route, SEND, self.in_flight.key_at(n - 1)),
            )
        } else {
            self.flying_tokens(n - 1)
        }
    }

    /// What is canceled when the socket is shut down.
    pub open spec fn targets(self, armed: Option<Token>) -> Seq<Token> {
        let flying = self.flying_tokens(self.in_flight.generations.len() as int);
        match armed {
            Some(token) => seq![token] + flying,
            None => flying,
        }
    }

    /// The send under `key` is over.
    pub open spec fn sent(self, key: SlabKey) -> Self {
        if self.in_flight.entries.contains_key(key) {
            SocketView {
                retained: self.retained - self.in_flight.entries[key].payload.spec_len(),
                in_flight: self.in_flight.remove(key),
                ..self
            }
        } else {
            self
        }
    }
}

/// How many datagrams a payload makes.
pub open spec fn segments(bytes: int, segment_size: u16) -> int {
    (bytes + segment_size - 1) / (segment_size as int)
}

/// A payload can be sent as a batch of datagrams.
pub open spec fn is_batch(bytes: int, segment_size: u16, limits: GsoLimits) -> bool {
    2 <= segments(bytes, segment_size) <= limits.max_segments && bytes <= limits.max_bytes
}

proof fn lemma_waiting_nonnegative<A, B, K>(pending: Seq<Outgoing<A, B, K>>)
    ensures
        waiting_bytes(pending) >= 0,
    decreases pending.len(),
{
    if pending.len() > 0 {
        lemma_waiting_nonnegative(pending.drop_last());
    }
}

proof fn lemma_flying_nonnegative<A, B, K>(in_flight: SlabView<Outgoing<A, B, K>>, n: int)
    ensures
        flying_bytes(in_flight, n) >= 0,
        forall|i: int| 0 <= i < n ==> flying_bytes(in_flight, n) >= #[trigger] slot_bytes(
            in_flight,
            i,
        ),
    decreases n,
{
    if n > 0 {
        lemma_flying_nonnegative(in_flight, n - 1);
    }
}

proof fn lemma_waiting_front<A, B, K>(first: Outgoing<A, B, K>, rest: Seq<Outgoing<A, B, K>>)
    ensures
        waiting_bytes(seq![first] + rest) == first.payload.spec_len() + waiting_bytes(rest),
    decreases rest.len(),
{
    let all = seq![first] + rest;
    if rest.len() == 0 {
        assert(all.drop_last() =~= rest);
        assert(all.last() == first);
    } else {
        lemma_waiting_front(first, rest.drop_last());
        assert(all.drop_last() =~= seq![first] + rest.drop_last());
    }
}

proof fn lemma_flying_change<A, B, K>(
    before: SlabView<Outgoing<A, B, K>>,
    after: SlabView<Outgoing<A, B, K>>,
    i: int,
    n: int,
)
    requires
        forall|j: int|
            0 <= j < n && j != i ==> #[trigger] slot_bytes(before, j) == slot_bytes(after, j),
    ensures
        flying_bytes(after, n) == flying_bytes(before, n) + if 0 <= i < n {
            slot_bytes(after, i) - slot_bytes(before, i)
        } else {
            0
        },
    decreases n,
{
    if n > 0 {
        lemma_flying_change(before, after, i, n - 1);
    }
}

proof fn lemma_insert<A, B, K>(
    in_flight: SlabView<Outgoing<A, B, K>>,
    key: SlabKey,
    out: Outgoing<A, B, K>,
    n: int,
)
    requires
        in_flight.wf(),
        in_flight.vacant(key),
        n == in_flight.generations.len(),
    ensures
        flying_bytes(in_flight.insert(key, out), n) == flying_bytes(in_flight, n)
            + out.payload.spec_len(),
        in_flight.insert(key, out).wf(),
{
    let after = in_flight.insert(key, out);
    assert forall|j: int| 0 <= j < n && j != key.index implies #[trigger] slot_bytes(
        in_flight,
        j,
    ) == slot_bytes(after, j) by {
        assert(after.key_at(j) == in_flight.key_at(j));
    }
    lemma_flying_change(in_flight, after, key.index as int, n);
    assert(after.key_at(key.index as int) == key);
}

proof fn lemma_remove<A, B, K>(in_flight: SlabView<Outgoing<A, B, K>>, key: SlabKey, n: int)
    requires
        in_flight.wf(),
        in_flight.entries.contains_key(key),
        n == in_flight.generations.len(),
    ensures
        flying_bytes(in_flight.remove(key), n) == flying_bytes(in_flight, n)
            - in_flight.entries[key].payload.spec_len(),
        in_flight.remove(key).wf(),
{
    let after = in_flight.remove(key);
    let i = key.index as int;
    assert forall|j: int| 0 <= j < n && j != i implies #[trigger] slot_bytes(in_flight, j)
        == slot_bytes(after, j) by {
        assert(after.key_at(j) == in_flight.key_at(j));
    }
    lemma_flying_change(in_flight, after, i, n);
    assert(in_flight.key_at(i) == key);
    assert(!after.occupied(i));
}

/// A send that never began leaves no trace: the same datagrams wait in the same
/// order, and as many bytes are counted.
pub proof fn law_unsent_undoes_sending<A, B, K>(view: SocketView<A, B, K>, key: SlabKey)
    requires
        view.wf(),
        view.pending.len() > 0,
        view.in_flight.vacant(key),
    ensures
        ({
            let back = view.sending(key).unsent(key);
            &&& back.pending == view.pending
            &&& back.retained == view.retained
            &&& back.in_flight.entries == view.in_flight.entries
        }),
{
    let back = view.sending(key).unsent(key);
    assert(back.pending =~= view.pending);
    assert(back.in_flight.entries =~= view.in_flight.entries);
}

/// A flush sends what waits in the order in which it was queued, each datagram under
/// a key of its own. What was in flight stays there, and no byte is lost count of.
pub proof fn law_flush_sends_in_order<A, B, K>(view: SocketView<A, B, K>, keys: Seq<SlabKey>)
    requires
        view.wf(),
        view.hands_out(keys),
    ensures
        ({
            let after = view.flushing(keys);
            &&& after.wf()
            &&& keys.len() <= view.pending.len()
            &&& after.pending == view.pending.skip(keys.len() as int)
            &&& after.retained == view.retained
            &&& keys.no_duplicates()
            &&& forall|i: int|
                0 <= i < keys.len() ==> !view.in_flight.entries.contains_key(#[trigger] keys[i])
                    && after.in_flight.entries.contains_key(keys[i])
                    && after.in_flight.entries[keys[i]] == view.pending[i]
            &&& forall|key: SlabKey| #[trigger]
                view.in_flight.entries.contains_key(key)
                    ==> after.in_flight.entries.contains_key(key)
                    && after.in_flight.entries[key] == view.in_flight.entries[key]
            &&& forall|key: SlabKey| #[trigger]
                after.in_flight.entries.contains_key(key)
                    ==> view.in_flight.entries.contains_key(key) || keys.contains(key)
        }),
    decreases keys.len(),
{
    if keys.len() == 0 {
        assert(view.pending.skip(0) =~= view.pending);
    } else {
        let rest = keys.drop_last();
        let key = keys.last();
        law_flush_sends_in_order(view, rest);
        let before = view.flushing(rest);
        let after = view.flushing(keys);
        let first = before.pending[0];
        assert(first == view.pending[rest.len() as int]);
        assert(after.pending =~= view.pending.skip(keys.len() as int));
        lemma_insert(before.in_flight, key, first, IN_FLIGHT_SENDS_CAP as int);
        assert(before.pending =~= seq![first] + before.pending.skip(1));
        lemma_waiting_front(first, before.pending.skip(1));
        assert forall|i: int| 0 <= i < rest.len() implies #[trigger] keys[i] != key by {
            assert(before.in_flight.entries.contains_key(rest[i]));
        }
        assert forall|i: int, j: int| 0 <= i < j < keys.len() implies keys[i] != keys[j] by {
            if j < rest.len() {
                assert(rest[i] != rest[j]);
            }
        }
        assert forall|i: int| 0 <= i < keys.len() implies !view.in_flight.entries.contains_key(
            #[trigger] keys[i],
        ) && after.in_flight.entries.contains_key(keys[i]) && after.in_flight.entries[keys[i]]
            == view.pending[i] by {
            if i < rest.len() {
                assert(rest[i] == keys[i]);
            }
        }
        assert forall|k: SlabKey| #[trigger] after.in_flight.entries.contains_key(k) implies
            view.in_flight.entries.contains_key(k) || keys.contains(k) by {
            if k == key {
                assert(keys[keys.len() - 1] == k);
            } else if rest.contains(k) {
                let i = choose|i: int| 0 <= i < rest.len() && rest[i] == k;
                assert(keys[i] == k);
            }
        }
    }
}

/// A send that is refused ends a flush as if it had not been tried: what came before
/// it is in flight, and it waits before all that came after it.
pub proof fn law_refused_send_ends_flush<A, B, K>(
    view: SocketView<A, B, K>,
    keys: Seq<SlabKey>,
    refused: SlabKey,
)
    requires
        view.wf(),
        view.hands_out(keys.push(refused)),
    ensures
        ({
            let after = view.flushing(keys.push(refused)).unsent(refused);
            &&& after.pending == view.pending.skip(keys.len() as int)
            &&& after.retained == view.retained
            &&& after.in_flight.entries == view.flushing(keys).in_flight.entries
            &&& !after.in_flight.entries.contains_key(refused)
        }),
{
    assert(keys.push(refused).drop_last() =~= keys);
    law_flush_sends_in_order(view, keys);
    law_unsent_undoes_sending(view.flushing(keys), refused);
}

/// What was queued and sent is not counted any more once the send is over.
pub proof fn law_sent_bytes_are_given_back<A, B, K>(view: SocketView<A, B, K>, key: SlabKey)
    requires
        view.wf(),
        view.pending.len() > 0,
        view.in_flight.vacant(key),
    ensures
        view.sending(key).sent(key).retained == view.retained - view.pending[0].payload.spec_len(),
        view.sending(key).sent(key).wf(),
{
    let n = IN_FLIGHT_SENDS_CAP as int;
    let first = view.pending[0];
    lemma_insert(view.in_flight, key, first, n);
    lemma_remove(view.sending(key).in_flight, key, n);
    assert(view.pending =~= seq![first] + view.pending.skip(1));
    lemma_waiting_front(first, view.pending.skip(1));
}

/// A completion that comes twice is counted once.
pub proof fn law_completion_counts_once<A, B, K>(view: SocketView<A, B, K>, key: SlabKey)
    requires
        view.wf(),
    ensures
        view.sent(key).sent(key) == view.sent(key),
{
}

proof fn lemma_flying_token<A, B, K>(view: SocketView<A, B, K>, i: int, n: int)
    requires
        0 <= i < n,
        view.in_flight.occupied(i),
    ensures
        view.flying_tokens(n).contains(
            Token::spec_of(view.route, SEND, view.in_flight.key_at(i)),
        ),
    decreases n,
{
    let token = Token::spec_of(view.route, SEND, view.in_flight.key_at(i));
    let all = view.flying_tokens(n);
    if i == n - 1 {
        assert(all[all.len() - 1] == token);
    } else {
        lemma_flying_token(view, i, n - 1);
        let rest = view.flying_tokens(n - 1);
        let k = choose|k: int| 0 <= k < rest.len() && rest[k] == token;
        assert(all[k] == token);
    }
}

/// A shutdown cancels everything that is in flight.
pub proof fn law_shutdown_spares_nothing<A, B, K>(
    view: SocketView<A, B, K>,
    armed: Option<Token>,
    key: SlabKey,
)
    requires
        view.wf(),
        view.in_flight.entries.contains_key(key),
    ensures
        view.targets(armed).contains(Token::spec_of(view.route, SEND, key)),
{
    let n = view.in_flight.generations.len() as int;
    let token = Token::spec_of(view.route, SEND, key);
    assert(view.in_flight.key_at(key.index as int) == key);
    lemma_flying_token(view, key.index as int, n);
    let flying = view.flying_tokens(n);
    let k = choose|k: int| 0 <= k < flying.len() && flying[k] == token;
    if armed is Some {
        assert(view.targets(armed)[k + 1] == token);
    }
}

/// A datagram is queued exactly if fewer than 4096 wait and no more than 16 MiB wait
/// or are in flight with it.
pub proof fn law_room_for_a_datagram<A, B, K>(view: SocketView<A, B, K>, bytes: int)
    ensures
        view.fits(bytes) <==> view.pending.len() < 4096 && view.retained + bytes <= 16 * 1024
            * 1024,
{
}

/// A datagram is queued behind all that wait, as it is, and its bytes are counted;
/// what is in flight is not touched.
pub proof fn law_queued_last<A, B, K>(view: SocketView<A, B, K>, out: Outgoing<A, B, K>)
    requires
        view.wf(),
        view.fits(out.payload.spec_len()),
    ensures
        ({
            let after = view.queued(out);
            &&& after.pending == view.pending + seq![out]
            &&& after.retained == view.retained + out.payload.spec_len()
            &&& after.in_flight == view.in_flight
            &&& after.route == view.route
            &&& after.bound_addr == view.bound_addr
            &&& after.wf()
        }),
{
    assert(view.queued(out).pending =~= view.pending + seq![out]);
    assert(view.queued(out).pending.drop_last() =~= view.pending);
}

/// The first datagram that waits is the one that goes into flight. It is not lost
/// count of, and nothing else changes.
pub proof fn law_first_goes_into_flight<A, B, K>(
    view: SocketView<A, B, K>,
    key: SlabKey,
    other: SlabKey,
)
    requires
        view.wf(),
        view.pending.len() > 0,
        view.in_flight.vacant(key),
    ensures
        ({
            let after = view.sending(key);
            &&& view.pending == seq![after.in_flight.entries[key]] + after.pending
            &&& after.in_flight.entries.contains_key(key)
            &&& after.retained == view.retained
            &&& after.route == view.route
            &&& after.bound_addr == view.bound_addr
            &&& other != key ==> (after.in_flight.entries.contains_key(other)
                <==> view.in_flight.entries.contains_key(other))
            &&& other != key && view.in_flight.entries.contains_key(other)
                ==> after.in_flight.entries[other] == view.in_flight.entries[other]
        }),
{
    assert(view.pending =~= seq![view.pending[0]] + view.pending.skip(1));
}

/// A send that is over gives back the bytes that it held, exactly those, and leaves
/// what waits and all other sends alone. A send that is not in flight changes
/// nothing.
pub proof fn law_over_gives_its_bytes_back<A, B, K>(
    view: SocketView<A, B, K>,
    key: SlabKey,
    other: SlabKey,
)
    requires
        view.wf(),
    ensures
        !view.in_flight.entries.contains_key(key) ==> view.sent(key) == view && view.unsent(key)
            == view,
        view.in_flight.entries.contains_key(key) ==> {
            let after = view.sent(key);
            &&& after.retained + view.in_flight.entries[key].payload.spec_len() == view.retained
            &&& after.pending == view.pending
            &&& !after.in_flight.entries.contains_key(key)
            &&& after.route == view.route
            &&& after.bound_addr == view.bound_addr
        },
        view.in_flight.entries.contains_key(key) ==> {
            let after = view.unsent(key);
            &&& after.retained == view.retained
            &&& after.pending == seq![view.in_flight.entries[key]] + view.pending
            &&& !after.in_flight.entries.contains_key(key)
            &&& after.route == view.route
            &&& after.bound_addr == view.bound_addr
        },
        other != key ==> (view.sent(key).in_flight.entries.contains_key(other)
            <==> view.in_flight.entries.contains_key(other)),
        other != key ==> (view.unsent(key).in_flight.entries.contains_key(other)
            <==> view.in_flight.entries.contains_key(other)),
        other != key && view.in_flight.entries.contains_key(other) ==> view.sent(
            key,
        ).in_flight.entries[other] == view.in_flight.entries[other] && view.unsent(
            key,
        ).in_flight.entries[other] == view.in_flight.entries[other],
{
}

/// A payload is a batch exactly if it is longer than one datagram, no longer than the
/// driver can send at once, and makes no more datagrams than that.
pub proof fn law_batch_is_more_than_one(bytes: int, segment_size: u16, limits: GsoLimits)
    requires
        segment_size > 0,
        bytes >= 0,
    ensures
        is_batch(bytes, segment_size, limits) <==> segment_size < bytes <= limits.max_bytes && bytes
            <= segment_size * limits.max_segments,
{
    let s = segment_size as int;
    let m = limits.max_segments as int;
    let count = segments(bytes, segment_size);
    assert(bytes <= s * count && s * (count - 1) < bytes + (if bytes == 0 {
        1int
    } else {
        0int
    })) by (nonlinear_arith)
        requires
            s > 0,
            bytes >= 0,
            count == (bytes + s - 1) / s,
    ;
    assert(count >= 2 <==> s < bytes) by (nonlinear_arith)
        requires
            s > 0,
            bytes >= 0,
            bytes <= s * count,
            s * (count - 1) < bytes + (if bytes == 0 {
                1int
            } else {
                0int
            }),
    ;
    assert(s < bytes ==> (count <= m <==> bytes <= s * m)) by (nonlinear_arith)
        requires
            s > 0,
            bytes >= 0,
            m >= 0,
            bytes <= s * count,
            s * (count - 1) < bytes + (if bytes == 0 {
                1int
            } else {
                0int
            }),
    ;
}

/// The bytes of a received datagram are looked at exactly if it came for the arming
/// that stands, and an error is always reported, as it is.
pub proof fn law_received_is_looked_at(event: RecvEvent, current: bool)
    ensures
        recv_step(event, current) is Look <==> event is Data && current,
        recv_step(event, current) is Stale <==> event is Data && !current,
        recv_step(event, current) is Report <==> event is Failed,
        event matches RecvEvent::Failed(errno) ==> recv_step(event, current) == RecvStep::Report(
            errno,
        ),
{
}

/// A shutdown cancels nothing but the receive that is armed and what is in flight.
pub proof fn law_shutdown_cancels_no_other<A, B, K>(
    view: SocketView<A, B, K>,
    armed: Option<Token>,
    token: Token,
)
    requires
        view.wf(),
        view.targets(armed).contains(token),
    ensures
        armed == Some(token) || (token.route == view.route && token.kind == SEND
            && view.in_flight.entries.contains_key(
            SlabKey { index: token.slot, generation: token.epoch },
        )),
        armed is Some ==> view.targets(armed)[0] == armed->0,
{
    let n = view.in_flight.generations.len() as int;
    let flying = view.flying_tokens(n);
    let all = view.targets(armed);
    let i = choose|i: int| 0 <= i < all.len() && all[i] == token;
    if !(armed is Some && i == 0) {
        let j = if armed is Some {
            i - 1
        } else {
            i
        };
        assert(flying[j] == token);
        lemma_flying_only(view, n, j);
    }
}

proof fn lemma_flying_only<A, B, K>(view: SocketView<A, B, K>, n: int, j: int)
    requires
        0 <= n <= view.in_flight.generations.len(),
        0 <= j < view.flying_tokens(n).len(),
    ensures
        view.flying_tokens(n)[j].route == view.route,
        view.flying_tokens(n)[j].kind == SEND,
        view.in_flight.entries.contains_key(
            SlabKey {
                index: view.flying_tokens(n)[j].slot,
                generation: view.flying_tokens(n)[j].epoch,
            },
        ),
    decreases n,
{
    if n > 0 {
        if j < view.flying_tokens(n - 1).len() {
            lemma_flying_only(view, n - 1, j);
            assert(view.flying_tokens(n)[j] == view.flying_tokens(n - 1)[j]);
        }
    }
}

impl<A, B, K> View for Socket<A, B, K> {
    type V = SocketView<A, B, K>;

    closed spec fn view(&self) -> SocketView<A, B, K> {
        SocketView {
            route: self.route,
            bound_addr: self.bound_addr,
            pending: self.pending@,
            retained: self.retained as int,
            in_flight: self.in_flight@,
        }
    }
}

impl<A, B, K> Socket<A, B, K> {
    pub closed spec fn wf(self) -> bool {
        &&& self@.wf()
        &&& self.pending.wf()
        &&& self.pending.room() == OUT_CAP
        &&& self.in_flight.wf()
    }

    /// A socket that the driver has bound to `bound_addr`.
    pub fn bind(route: u8, bound_addr: A) -> (socket: Self)
        ensures
            socket.wf(),
            socket@ == (SocketView::<A, B, K> {
                route,
                bound_addr,
                pending: Seq::empty(),
                retained: 0,
                in_flight: SlabView {
                    entries: Map::empty(),
                    generations: Seq::new(IN_FLIGHT_SENDS_CAP as nat, |i: int| 1u32),
                    retired: Set::empty(),
                },
            }),
    {
        let socket = Socket {
            route,
            bound_addr,
            pending: Backlog::with_capacity(OUT_CAP),
            retained: 0,
            in_flight: Slab::with_capacity(IN_FLIGHT_SENDS_CAP),
        };
        proof {
            lemma_none_flying(socket.in_flight@, IN_FLIGHT_SENDS_CAP as int);
            socket.in_flight.lemma_view_wf();
        }
        socket
    }

    pub fn local_addr(&self) -> (addr: &A)
        ensures
            *addr == self@.bound_addr,
    {
        &self.bound_addr
    }

    fn fits(&self, bytes: usize) -> (fits: bool)
        requires
            self.wf(),
        ensures
            fits == self@.fits(bytes as int),
    {
        self.pending.len() < OUT_CAP && bytes <= OUT_BYTES_CAP && self.retained <= OUT_BYTES_CAP
            - bytes
    }

    fn enqueue(&mut self, out: Outgoing<A, B, K>)
        requires
            old(self).wf(),
            old(self)@.fits(out.payload.spec_len()),
        ensures
            final(self).wf(),
            final(self)@ == old(self)@.queued(out),
    {
        proof {
            lemma_waiting_nonnegative(self@.pending);
            lemma_flying_nonnegative(self@.in_flight, IN_FLIGHT_SENDS_CAP as int);
        }
        self.retained += out.payload.len();
        let _ = self.pending.push_back(out);
        assert(self@.pending.drop_last() =~= old(self)@.pending);
    }

    /// Queues bytes for `addr`, or gives them back if there is no room.
    pub fn queue_to(&mut self, payload: Vec<u8>, addr: A) -> (result: Result<(), Vec<u8>>)
        requires
            old(self).wf(),
        ensures
            final(self).wf(),
            if old(self)@.fits(payload@.len() as int) {
                &&& result is Ok
                &&& final(self)@ == old(self)@.queued(
                    Outgoing { addr, payload: Payload::Owned(payload), segment_size: 0 },
                )
            } else {
                result == Err::<(), Vec<u8>>(payload) && final(self)@ == old(self)@
            },
    {
        if !self.fits(payload.len()) {
            return Err(payload);
        }
        self.enqueue(Outgoing::plain(Payload::Owned(payload), addr));
        Ok(())
    }

    /// Queues a buffer on loan, which holds `len` bytes.
    pub fn queue_buffer(&mut self, lease: B, len: usize, addr: A) -> (result: Result<(), B>)
        requires
            old(self).wf(),
        ensures
            final(self).wf(),
            if old(self)@.fits(len as int) {
                &&& result is Ok
                &&& final(self)@ == old(self)@.queued(
                    Outgoing { addr, payload: Payload::Buffer { lease, len }, segment_size: 0 },
                )
            } else {
                result == Err::<(), B>(lease) && final(self)@ == old(self)@
            },
    {
        if !self.fits(len) {
            return Err(lease);
        }
        self.enqueue(Outgoing::plain(Payload::Buffer { lease, len }, addr));
        Ok(())
    }

    /// Queues a received packet of `len` bytes.
    pub fn queue_packet(&mut self, packet: K, len: usize, addr: A) -> (result: Result<(), K>)
        requires
            old(self).wf(),
        ensures
            final(self).wf(),
            if old(self)@.fits(len as int) {
                &&& result is Ok
                &&& final(self)@ == old(self)@.queued(
                    Outgoing { addr, payload: Payload::Packet { packet, len }, segment_size: 0 },
                )
            } else {
                result == Err::<(), K>(packet) && final(self)@ == old(self)@
            },
    {
        if !self.fits(len) {
            return Err(packet);
        }
        self.enqueue(Outgoing::plain(Payload::Packet { packet, len }, addr));
        Ok(())
    }

    /// Queues a batch of datagrams of `segment_size` bytes each, the last of which
    /// may be smaller. There must be at least two, and no more than the driver can
    /// send at once.
    pub fn queue_gso(
        &mut self,
        payload: Vec<u8>,
        segment_size: u16,
        addr: A,
        limits: GsoLimits,
    ) -> (result: Result<(), Vec<u8>>)
        requires
            old(self).wf(),
            segment_size > 0,
        ensures
            final(self).wf(),
            if is_batch(payload@.len() as int, segment_size, limits) && old(self)@.fits(
                payload@.len() as int,
            ) {
                &&& result is Ok
                &&& final(self)@ == old(self)@.queued(
                    Outgoing { addr, payload: Payload::Owned(payload), segment_size },
                )
            } else {
                result == Err::<(), Vec<u8>>(payload) && final(self)@ == old(self)@
            },
    {
        let bytes = payload.len();
        let size = segment_size as usize;
        let whole = bytes / size;
        assert(whole * size <= bytes && whole <= bytes) by (nonlinear_arith)
            requires
                whole == bytes / size,
                size > 0,
        ;
        assert(bytes % size != 0 ==> whole < bytes) by (nonlinear_arith)
            requires
                whole == bytes / size,
                size > 0,
        ;
        let count = if bytes % size == 0 {
            whole
        } else {
            whole + 1
        };
        proof {
            lemma_segments(bytes as int, segment_size);
        }
        if count < 2 || count > limits.max_segments || bytes > limits.max_bytes || !self.fits(
            bytes,
        ) {
            return Err(payload);
        }
        self.enqueue(Outgoing::gso(payload, segment_size, addr));
        Ok(())
    }

    /// Moves the first datagram that waits into flight, if there is one and there
    /// is room. The driver is to send it under the token.
    pub fn next_send(&mut self) -> (token: Option<Token>)
        requires
            old(self).wf(),
        ensures
            final(self).wf(),
            match token {
                Some(token) => {
                    &&& old(self)@.pending.len() > 0
                    &&& token.spec_parts(old(self)@.route, SEND) matches Some(key)
                    &&& token == Token::spec_of(old(self)@.route, SEND, key)
                    &&& old(self)@.in_flight.vacant(key)
                    &&& final(self)@ == old(self)@.sending(key)
                },
                None => {
                    &&& old(self)@.pending.len() == 0 || old(self)@.in_flight.full()
                    &&& final(self)@ == old(self)@
                },
            },
    {
        let ghost view = self@;
        let Some(out) = self.pending.pop_front() else {
            return None;
        };
        assert(view.pending =~= seq![out] + view.pending.skip(1));
        proof {
            lemma_waiting_front(out, view.pending.skip(1));
        }
        match self.in_flight.insert(out) {
            Ok(key) => {
                proof {
                    lemma_insert(view.in_flight, key, out, IN_FLIGHT_SENDS_CAP as int);
                }
                Some(Token::of(self.route, SEND, key))
            },
            Err(out) => {
                let _ = self.pending.push_front(out);
                assert(self@.pending =~= view.pending);
                None
            },
        }
    }

    /// What is in flight under a token.
    pub fn flying(&self, token: Token) -> (out: Option<&Outgoing<A, B, K>>)
        ensures
            match token.spec_parts(self@.route, SEND) {
                Some(key) if self@.in_flight.entries.contains_key(key) => out == Some(
                    &self@.in_flight.entries[key],
                ),
                _ => out is None,
            },
    {
        match token.parts(self.route, SEND) {
            Some(key) => self.in_flight.get(key),
            None => None,
        }
    }

    /// The driver did not take the send under a token: what it would have sent
    /// waits again, before all others.
    pub fn unsend(&mut self, token: Token)
        requires
            old(self).wf(),
            old(self)@.pending.len() < OUT_CAP,
        ensures
            final(self).wf(),
            final(self)@ == match token.spec_parts(old(self)@.route, SEND) {
                Some(key) => old(self)@.unsent(key),
                None => old(self)@,
            },
    {
        let ghost view = self@;
        let Some(key) = token.parts(self.route, SEND) else {
            return ;
        };
        if let Some(out) = self.in_flight.remove(key) {
            let _ = self.pending.push_front(out);
            proof {
                lemma_remove(view.in_flight, key, IN_FLIGHT_SENDS_CAP as int);
                lemma_waiting_front(out, view.pending);
            }
        }
    }

    /// Takes whether the driver took the send under a token. Says whether the flush
    /// goes on: what was refused waits again, and the flush is over.
    pub fn submitted(&mut self, token: Token, accepted: bool) -> (goes_on: bool)
        requires
            old(self).wf(),
            accepted || old(self)@.pending.len() < OUT_CAP,
        ensures
            final(self).wf(),
            goes_on == accepted,
            final(self)@ == match token.spec_parts(old(self)@.route, SEND) {
                Some(key) if !accepted => old(self)@.unsent(key),
                _ => old(self)@,
            },
    {
        if !accepted {
            self.unsend(token);
        }
        accepted
    }

    /// A send is over. What was sent is returned; a packet among it is to be
    /// released.
    pub fn dispatch_send(&mut self, token: Token) -> (done: Option<Outgoing<A, B, K>>)
        requires
            old(self).wf(),
        ensures
            final(self).wf(),
            match token.spec_parts(old(self)@.route, SEND) {
                Some(key) => {
                    &&& final(self)@ == old(self)@.sent(key)
                    &&& done == if old(self)@.in_flight.entries.contains_key(key) {
                        Some(old(self)@.in_flight.entries[key])
                    } else {
                        None
                    }
                },
                None => done is None && final(self)@ == old(self)@,
            },
    {
        let ghost view = self@;
        let Some(key) = token.parts(self.route, SEND) else {
            return None;
        };
        let done = self.in_flight.remove(key);
        if let Some(out) = &done {
            proof {
                let n = IN_FLIGHT_SENDS_CAP as int;
                lemma_remove(view.in_flight, key, n);
                lemma_waiting_nonnegative(view.pending);
                lemma_flying_nonnegative(view.in_flight, n);
                lemma_flying_nonnegative(self.in_flight@, n);
            }
            self.retained -= out.payload.len();
        }
        done
    }

    /// Decides what becomes of a completed receive.
    pub fn dispatch_recv(&self, event: RecvEvent, current: bool) -> (step: RecvStep)
        ensures
            step == recv_step(event, current),
    {
        match event {
            RecvEvent::Data => if current {
                RecvStep::Look
            } else {
                RecvStep::Stale
            },
            RecvEvent::Failed(errno) => RecvStep::Report(errno),
            _ => RecvStep::Nothing,
        }
    }

    /// Decides what the handler is told of received bytes, and whether their buffer is
    /// released afterwards: that of a whole datagram goes to the handler.
    pub fn deliver(&self, outcome: RecvOutcome<A>) -> (delivery: (Delivery<A>, bool))
        ensures
            match outcome {
                RecvOutcome::Packet { src, packet } => delivery == (
                    Delivery::Packet { src, packet },
                    false,
                ),
                RecvOutcome::Empty => delivery == (Delivery::<A>::Empty, true),
                RecvOutcome::Truncated { src, partial } => delivery == (
                    Delivery::Truncated { src, partial },
                    true,
                ),
                RecvOutcome::Error(errno) => delivery == (Delivery::<A>::Error(errno), true),
            },
    {
        match outcome {
            RecvOutcome::Packet { src, packet } => (Delivery::Packet { src, packet }, false),
            RecvOutcome::Empty => (Delivery::Empty, true),
            RecvOutcome::Truncated { src, partial } => (Delivery::Truncated { src, partial }, true),
            RecvOutcome::Error(errno) => (Delivery::Error(errno), true),
        }
    }

    /// Whether the driver is to call again. `needs_rearm` says whether the receive
    /// waits to be armed.
    pub fn needs_flush(&self, needs_rearm: bool) -> (needs: bool)
        ensures
            needs == (self@.pending.len() > 0 || needs_rearm),
    {
        self.pending.len() > 0 || needs_rearm
    }

    /// What is to be canceled when the socket is shut down: the receive that is
    /// armed, if any, and all that is in flight.
    pub fn shutdown(&self, armed: Option<Token>) -> (targets: Vec<Token>)
        requires
            self.wf(),
        ensures
            targets@ == self@.targets(armed),
    {
        let mut targets: Vec<Token> = Vec::new();
        if let Some(token) = armed {
            targets.push(token);
        }
        let ghost first = targets@;
        let n = self.in_flight.capacity();
        let mut i: usize = 0;
        assert(targets@ =~= first + self@.flying_tokens(0));
        while i < n
            invariant
                self.wf(),
                i <= n,
                n == self@.in_flight.generations.len(),
                targets@ == first + self@.flying_tokens(i as int),
            decreases n - i,
        {
            if let Some(key) = self.in_flight.key_of(i) {
                targets.push(Token::of(self.route, SEND, key));
            }
            i += 1;
            assert(targets@ =~= first + self@.flying_tokens(i as int));
        }
        targets
    }
}

proof fn lemma_none_flying<A, B, K>(in_flight: SlabView<Outgoing<A, B, K>>, n: int)
    requires
        in_flight.entries == Map::<SlabKey, Outgoing<A, B, K>>::empty(),
    ensures
        flying_bytes(in_flight, n) == 0,
    decreases n,
{
    if n > 0 {
        lemma_none_flying(in_flight, n - 1);
    }
}

proof fn lemma_segments(bytes: int, segment_size: u16)
    requires
        segment_size > 0,
        bytes >= 0,
    ensures
        segments(bytes, segment_size) == bytes / (segment_size as int) + if bytes % (
        segment_size as int) == 0 {
            0int
        } else {
            1int
        },
{
    let s = segment_size as int;
    assert((bytes + s - 1) / s == bytes / s + if bytes % s == 0 {
        0int
    } else {
        1int
    }) by (nonlinear_arith)
        requires
            s > 0,
            bytes >= 0,
    ;
}

} // verus!
