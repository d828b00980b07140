//! The table of operations of one kind.
use vstd::prelude::*;

use crate::collections::ring::KeyQueue;
use crate::collections::seqs;
use crate::collections::slab;
use crate::collections::slab::{Slab, SlabKey, SlabView};
use crate::park::WakeRef;
use crate::token::Token;

verus! {

/// Where an operation stands.
pub enum State<R> {
    Submitted,
    /// Submitted, with a task to wake on completion.
    Waiting(WakeRef),
    /// To be canceled by the next flush.
    CancelPending,
    Settled(R),
}

/// An operation and what has to stay in place until it is over.
pub struct Operation<H, R> {
    pub hold: H,
    pub state: State<R>,
}

/// What an operation holds on to, and how a completion of it is understood.
pub trait Hold<E, R>: Sized {
    /// What is held is as a completion finds it.
    spec fn awaiting(self) -> bool;

    /// `event` turns `before` into `after` and means `result`.
    spec fn understood(before: Self, event: E, after: Self, result: R) -> bool;

    fn transition(&mut self, event: E) -> (result: R)
        requires
            old(self).awaiting(),
        ensures
            Self::understood(*old(self), event, *final(self), result),
    ;
}

/// Whether any table has cancellations to flush.
pub struct CancellationSignal {
    pending: bool,
}

impl CancellationSignal {
    pub closed spec fn pending(self) -> bool {
        self.pending
    }

    pub fn new() -> (signal: Self)
        ensures
            !signal.pending(),
    {
        CancellationSignal { pending: false }
    }

    pub fn mark(&mut self)
        ensures
            final(self).pending(),
    {
        self.pending = true;
    }

    pub fn is_pending(&self) -> (pending: bool)
        ensures
            pending == self.pending(),
    {
        self.pending
    }

    pub fn clear(&mut self)
        ensures
            !final(self).pending(),
    {
        self.pending = false;
    }
}

/// Operations of one kind, `KIND`, of the manifold with route `ID`.
pub struct OperationTable<H, R, const ID: u8, const KIND: u8> {
    entries: Slab<Operation<H, R>>,
    cancelled: KeyQueue,
}

/// The abstract value of an [`OperationTable`].
pub struct TableView<H, R> {
    pub slab: SlabView<Operation<H, R>>,
    /// The operations to be canceled, in the order in which that was asked for.
    pub cancelled: Seq<SlabKey>,
}

impl<H, R> TableView<H, R> {
    pub open spec fn has(self, key: SlabKey) -> bool {
        self.slab.entries.contains_key(key)
    }

    pub open spec fn state(self, key: SlabKey) -> State<R> {
        self.slab.entries[key].state
    }

    pub open spec fn hold(self, key: SlabKey) -> H {
        self.slab.entries[key].hold
    }

    /// A table without operations and with room for `capacity`.
    pub open spec fn fresh(capacity: nat) -> Self {
        TableView {
            slab: SlabView {
                entries: Map::empty(),
                generations: Seq::new(capacity, |i: int| 1u32),
                retired: Set::empty(),
            },
            cancelled: Seq::empty(),
        }
    }

    /// There is no operation.
    pub open spec fn is_idle(self) -> bool {
        self.slab.is_idle()
    }

    /// Exactly the operations to be canceled are queued for it, each once.
    pub open spec fn wf(self) -> bool {
        &&& self.slab.wf()
        &&& self.cancelled.no_duplicates()
        &&& forall|k: SlabKey|
            #![trigger self.cancelled.contains(k)]
            #![trigger self.has(k)]
            self.cancelled.contains(k) <==> self.has(k) && self.state(k) is CancelPending
    }

    pub open spec fn with(self, key: SlabKey, hold: H, state: State<R>) -> Self {
        TableView { slab: self.slab.insert(key, Operation { hold, state }), ..self }
    }

    pub open spec fn without(self, key: SlabKey) -> Self {
        TableView { slab: self.slab.remove(key), ..self }
    }

    /// The table after a poll for `key`: a settled operation is over, any other
    /// that is not to be canceled now wakes `wake`.
    pub open spec fn poll(self, key: SlabKey, wake: WakeRef) -> Self {
        if !self.has(key) {
            self
        } else {
            match self.state(key) {
                State::Settled(_) => self.without(key),
                State::CancelPending => self,
                _ => self.with(key, self.hold(key), State::Waiting(wake)),
            }
        }
    }

    pub open spec fn poll_result(self, key: SlabKey) -> Option<(H, R)> {
        if self.has(key) {
            match self.state(key) {
                State::Settled(result) => Some((self.hold(key), result)),
                _ => None,
            }
        } else {
            None
        }
    }

    /// The table after a request to cancel `key`: a settled operation is over, one
    /// in flight is queued.
    pub open spec fn request_cancel(self, key: SlabKey) -> Self {
        if !self.has(key) {
            self
        } else {
            match self.state(key) {
                State::Settled(_) => self.without(key),
                State::CancelPending => self,
                _ => TableView {
                    cancelled: self.cancelled.push(key),
                    ..self.with(key, self.hold(key), State::CancelPending)
                },
            }
        }
    }

    /// Whether a request to cancel `key` leaves something to flush.
    pub open spec fn cancel_queues(self, key: SlabKey) -> bool {
        self.has(key) && (self.state(key) is Submitted || self.state(key) is Waiting)
    }

    /// The table without the first `n` operations to be canceled.
    pub open spec fn flushed(self, n: int) -> Self
        decreases n,
    {
        if n <= 0 {
            self
        } else {
            let prior = self.flushed(n - 1);
            TableView { slab: prior.slab.remove(self.cancelled[n - 1]), ..prior }
        }
    }

    pub open spec fn flush(self) -> Self {
        TableView { cancelled: Seq::empty(), ..self.flushed(self.cancelled.len() as int) }
    }

    /// A completion of `key` that leaves `hold` behind and means `result`.
    pub open spec fn complete(self, key: SlabKey, hold: H, result: R) -> Self {
        match self.state(key) {
            State::CancelPending => self.with(key, hold, State::CancelPending),
            State::Settled(_) => self,
            _ => self.with(key, hold, State::Settled(result)),
        }
    }

    /// The operation under `key` is in flight.
    pub open spec fn in_flight(self, key: SlabKey) -> bool {
        self.has(key) && !(self.state(key) is Settled)
    }
}

impl<H, R, const ID: u8, const KIND: u8> View for OperationTable<H, R, ID, KIND> {
    type V = TableView<H, R>;

    closed spec fn view(&self) -> TableView<H, R> {
        TableView { slab: self.entries@, cancelled: self.cancelled@ }
    }
}

impl<H, R, const ID: u8, const KIND: u8> OperationTable<H, R, ID, KIND> {
    pub closed spec fn wf(self) -> bool {
        &&& self.entries.wf()
        &&& self@.wf()
        &&& self.cancelled.room() == self.entries@.generations.len()
    }

    pub proof fn lemma_view_wf(&self)
        requires
            self.wf(),
        ensures
            self@.wf(),
    {
    }

    pub fn with_capacity(capacity: usize) -> (table: Self)
        requires
            capacity <= 0x0100_0000,
        ensures
            table.wf(),
            table@ == TableView::<H, R>::fresh(capacity as nat),
    {
        let table = OperationTable {
            entries: Slab::with_capacity(capacity),
            cancelled: KeyQueue::with_capacity(capacity),
        };
        assert(table@.slab =~= TableView::<H, R>::fresh(capacity as nat).slab);
        assert(table@.cancelled =~= Seq::empty());
        table
    }

    pub fn is_empty(&self) -> (empty: bool)
        requires
            self.wf(),
        ensures
            empty == self@.is_idle(),
    {
        self.entries.is_empty()
    }

    /// Enters an operation that is about to be submitted; gives `hold` back when
    /// there is no room.
    pub fn begin(&mut self, hold: H) -> (token: Result<Token, H>)
        requires
            old(self).wf(),
        ensures
            final(self).wf(),
            match token {
                Ok(t) => {
                    &&& t.spec_parts(ID, KIND) matches Some(key) && old(self)@.slab.vacant(key)
                        && final(self)@ == old(self)@.with(key, hold, State::Submitted)
                },
                Err(h) => h == hold && old(self)@.slab.full() && final(self)@ == old(self)@,
            },
    {
        match self.entries.insert(Operation { hold, state: State::Submitted }) {
            Ok(key) => {
                assert(old(self)@.cancelled.contains(key) ==> old(self)@.has(key));
                Ok(Token::of(ID, KIND, key))
            },
            Err(operation) => Err(operation.hold),
        }
    }

    /// Takes back an operation that the driver did not take.
    pub fn rollback(&mut self, token: Token) -> (hold: Option<H>)
        requires
            old(self).wf(),
            token.spec_parts(ID, KIND) matches Some(key) ==> old(self)@.has(key) ==> old(self)@.state(
                key,
            ) is Submitted,
        ensures
            final(self).wf(),
            match token.spec_parts(ID, KIND) {
                Some(key) => {
                    &&& final(self)@ == old(self)@.without(key)
                    &&& hold == if old(self)@.has(key) {
                        Some(old(self)@.hold(key))
                    } else {
                        None
                    }
                },
                None => hold is None && final(self)@ == old(self)@,
            },
    {
        match token.parts(ID, KIND) {
            Some(key) => match self.entries.remove(key) {
                Some(operation) => Some(operation.hold),
                None => None,
            },
            None => None,
        }
    }

    /// What an operation holds, to be changed.
    pub fn hold_mut(&mut self, token: Token) -> (hold: Option<&mut H>)
        requires
            old(self).wf(),
        ensures
            final(self).wf(),
            match hold {
                Some(h) => {
                    &&& token.spec_parts(ID, KIND) matches Some(key) && old(self)@.has(key) && *h
                        == old(self)@.hold(key) && final(self)@ == old(self)@.with(
                        key,
                        *final(h),
                        old(self)@.state(key),
                    )
                },
                None => {
                    &&& token.spec_parts(ID, KIND) matches Some(key) ==> !old(self)@.has(key)
                    &&& final(self)@ == old(self)@
                },
            },
    {
        match token.parts(ID, KIND) {
            Some(key) => match self.entries.get_mut(key) {
                Some(operation) => Some(&mut operation.hold),
                None => None,
            },
            None => None,
        }
    }

    /// Takes a settled operation out of the table; has `wake` woken when another
    /// one settles.
    pub fn poll(&mut self, token: Token, wake: WakeRef) -> (done: Option<(H, R)>)
        requires
            old(self).wf(),
        ensures
            final(self).wf(),
            match token.spec_parts(ID, KIND) {
                Some(key) => {
                    &&& final(self)@ == old(self)@.poll(key, wake)
                    &&& done == old(self)@.poll_result(key)
                },
                None => done is None && final(self)@ == old(self)@,
            },
    {
        let key = match token.parts(ID, KIND) {
            Some(key) => key,
            None => {
                return None;
            },
        };
        let ghost view = self@;
        let settled = match self.entries.get_mut(key) {
            Some(operation) => match operation.state {
                State::Settled(_) => true,
                State::Submitted | State::Waiting(_) => {
                    operation.state = State::Waiting(wake);
                    false
                },
                State::CancelPending => false,
            },
            None => false,
        };
        proof {
            assert(view.has(key) ==> (view.state(key) is Settled || view.state(key)
                is CancelPending) ==> self@.slab =~= view.slab);
        }
        if !settled {
            return None;
        }
        match self.entries.remove(key) {
            Some(operation) => match operation.state {
                State::Settled(result) => Some((operation.hold, result)),
                State::Submitted | State::Waiting(_) | State::CancelPending => None,
            },
            None => None,
        }
    }

    /// Asks for an operation to be canceled. One that has settled is over at once
    /// and what it held is returned; one in flight is left to the next flush, and
    /// `signal` says so.
    pub fn request_cancel(&mut self, token: Token, signal: &mut CancellationSignal) -> (hold:
        Option<H>)
        requires
            old(self).wf(),
        ensures
            final(self).wf(),
            match token.spec_parts(ID, KIND) {
                Some(key) => {
                    &&& final(self)@ == old(self)@.request_cancel(key)
                    &&& hold == match old(self)@.poll_result(key) {
                        Some((h, _)) => Some(h),
                        None => None,
                    }
                    &&& final(signal).pending() == (old(signal).pending() || old(
                        self,
                    )@.cancel_queues(key))
                },
                None => {
                    &&& hold is None
                    &&& final(self)@ == old(self)@
                    &&& final(signal).pending() == old(signal).pending()
                },
            },
    {
        let key = match token.parts(ID, KIND) {
            Some(key) => key,
            None => {
                return None;
            },
        };
        let ghost view = self@;
        proof {
            if view.cancel_queues(key) {
                self.lemma_room(key);
            }
            seqs::lemma_push(view.cancelled, key);
        }
        let settled = match self.entries.get_mut(key) {
            Some(operation) => match operation.state {
                State::Submitted | State::Waiting(_) => {
                    operation.state = State::CancelPending;
                    let _ = self.cancelled.push_back(key);
                    signal.mark();
                    return None;
                },
                State::CancelPending => false,
                State::Settled(_) => true,
            },
            None => false,
        };
        proof {
            assert(view.has(key) ==> self@.slab =~= view.slab);
        }
        if !settled {
            return None;
        }
        match self.entries.remove(key) {
            Some(operation) => Some(operation.hold),
            None => None,
        }
    }

    /// An operation that is not queued for cancellation leaves room in the queue.
    proof fn lemma_room(&self, key: SlabKey)
        requires
            self.wf(),
            self@.has(key),
            !(self@.state(key) is CancelPending),
        ensures
            self@.cancelled.len() < self.cancelled.room(),
    {
        let n = self@.slab.generations.len() as int;
        let taken = Seq::new(self@.cancelled.len(), |i: int| self@.cancelled[i].index as int);
        let all = vstd::set_lib::set_int_range(0, n);
        vstd::set_lib::lemma_int_range(0, n);
        assert forall|i: int| 0 <= i < taken.len() implies 0 <= #[trigger] taken[i] < n && taken[i]
            != key.index by {
            let k = self@.cancelled[i];
            assert(self@.cancelled.contains(k));
            assert(self@.has(k));
            assert(self@.slab.entries.contains_key(key));
        }
        assert forall|i: int, j: int| 0 <= i < j < taken.len() implies taken[i] != taken[j] by {
            let a = self@.cancelled[i];
            let b = self@.cancelled[j];
            assert(self@.cancelled.contains(a) && self@.cancelled.contains(b));
            assert(self@.has(a) && self@.has(b));
            assert(a != b);
        }
        taken.unique_seq_to_set();
        assert(taken.to_set().subset_of(all.remove(key.index as int)));
        vstd::set_lib::lemma_len_subset(taken.to_set(), all.remove(key.index as int));
        assert(all.contains(key.index as int));
    }

    /// Takes all operations to be canceled out of the table and returns their
    /// tokens, for the driver to cancel in this order.
    pub fn flush_cancellations(&mut self) -> (targets: Vec<Token>)
        requires
            old(self).wf(),
        ensures
            final(self).wf(),
            final(self)@ == old(self)@.flush(),
            targets@ == old(self)@.cancelled.map_values(|k: SlabKey| Token::spec_of(ID, KIND, k)),
    {
        let ghost view = self@;
        let ghost tokens = view.cancelled.map_values(|k: SlabKey| Token::spec_of(ID, KIND, k));
        let mut targets: Vec<Token> = Vec::new();
        let ghost mut n: int = 0;
        proof {
            assert(view.cancelled.skip(0) =~= view.cancelled);
            assert(targets@ =~= tokens.take(0));
        }
        loop
            invariant
                self.wf(),
                view == old(self)@,
                tokens == view.cancelled.map_values(|k: SlabKey| Token::spec_of(ID, KIND, k)),
                0 <= n <= view.cancelled.len(),
                self@.slab == view.flushed(n).slab,
                self@.cancelled == view.cancelled.skip(n),
                targets@ == tokens.take(n),
            ensures
                n == view.cancelled.len(),
            decreases view.cancelled.len() - n,
        {
            let ghost before = self@;
            match self.cancelled.pop_front() {
                None => {
                    break ;
                },
                Some(key) => {
                    proof {
                        assert(before.cancelled[0] == key);
                        assert(before.cancelled.contains(key));
                        seqs::lemma_tail(before.cancelled);
                        assert(view.cancelled.skip(n).skip(1) =~= view.cancelled.skip(n + 1));
                    }
                    targets.push(Token::of(ID, KIND, key));
                    let _ = self.entries.remove(key);
                    proof {
                        n = n + 1;
                        assert(targets@ =~= tokens.take(n));
                        assert forall|k: SlabKey|
                            #![trigger self@.cancelled.contains(k)]
                            #![trigger self@.has(k)]
                            self@.cancelled.contains(k) <==> self@.has(k) && self@.state(
                                k,
                            ) is CancelPending by {
                            assert(before.cancelled.contains(k) <==> before.has(k) && before.state(
                                k,
                            ) is CancelPending);
                        }
                    }
                },
            }
        }
        proof {
            assert(tokens.take(n) =~= tokens);
            assert(self@.cancelled =~= Seq::empty());
            lemma_flushed_keeps(view, n);
        }
        targets
    }

    /// Takes in a completion and returns whom to wake.
    pub fn complete<E>(&mut self, token: Token, event: E) -> (woken: Option<WakeRef>) where
        H: Hold<E, R>,

        requires
            old(self).wf(),
            token.spec_parts(ID, KIND) matches Some(key) ==> old(self)@.in_flight(key) ==> old(
                self,
            )@.hold(key).awaiting(),
        ensures
            final(self).wf(),
            match token.spec_parts(ID, KIND) {
                Some(key) => if old(self)@.in_flight(key) {
                    &&& exists|hold: H, result: R| #[trigger]
                        H::understood(old(self)@.hold(key), event, hold, result) && final(self)@
                            == old(self)@.complete(key, hold, result)
                    &&& woken == match old(self)@.state(key) {
                        State::Waiting(wake) => Some(wake),
                        _ => None,
                    }
                } else {
                    woken is None && final(self)@ == old(self)@
                },
                None => woken is None && final(self)@ == old(self)@,
            },
    {
        let key = match token.parts(ID, KIND) {
            Some(key) => key,
            None => {
                return None;
            },
        };
        let ghost view = self@;
        let ghost mut meaning: Option<R> = None;
        let woken = match self.entries.get_mut(key) {
            Some(operation) => match operation.state {
                State::CancelPending => {
                    let result = operation.hold.transition(event);
                    proof {
                        meaning = Some(result);
                    }
                    None
                },
                State::Settled(_) => None,
                State::Submitted => {
                    let result = operation.hold.transition(event);
                    proof {
                        meaning = Some(result);
                    }
                    operation.state = State::Settled(result);
                    None
                },
                State::Waiting(registered) => {
                    let result = operation.hold.transition(event);
                    proof {
                        meaning = Some(result);
                    }
                    operation.state = State::Settled(result);
                    Some(registered)
                },
            },
            None => None,
        };
        proof {
            if view.has(key) && view.state(key) is Settled {
                assert(self@.slab =~= view.slab);
            }
            if view.in_flight(key) {
                let hold = self@.hold(key);
                assert(H::understood(view.hold(key), event, hold, meaning->0));
                assert(self@.slab =~= view.complete(key, hold, meaning->0).slab);
            }
            assert forall|k: SlabKey|
                #![trigger self@.cancelled.contains(k)]
                #![trigger self@.has(k)]
                self@.cancelled.contains(k) <==> self@.has(k) && self@.state(k) is CancelPending by {
                assert(view.cancelled.contains(k) <==> view.has(k) && view.state(
                    k,
                ) is CancelPending);
            }
        }
        woken
    }

    /// The tokens of all operations in flight, in the order of their slots.
    pub fn targets(&self) -> (targets: Vec<Token>)
        requires
            self.wf(),
        ensures
            targets@ == flight_tokens(self@, ID, KIND, self@.slab.generations.len() as int),
    {
        let mut targets: Vec<Token> = Vec::new();
        let capacity = self.entries.capacity();
        let mut index: usize = 0;
        while index < capacity
            invariant
                self.wf(),
                index <= capacity == self@.slab.generations.len(),
                targets@ == flight_tokens(self@, ID, KIND, index as int),
            decreases capacity - index,
        {
            if let Some(key) = self.entries.key_of(index) {
                let flying = match self.entries.get(key) {
                    Some(operation) => !matches!(operation.state, State::Settled(_)),
                    None => false,
                };
                if flying {
                    targets.push(Token::of(ID, KIND, key));
                }
            }
            index += 1;
        }
        targets
    }
}

/// The tokens of the operations in flight in the first `n` slots.
pub open spec fn flight_tokens<H, R>(
    table: TableView<H, R>,
    route: u8,
    kind: u8,
    n: int,
) -> Seq<Token>
    decreases n,
{
    if n <= 0 {
        Seq::empty()
    } else {
        let key = table.slab.key_at(n - 1);
        let before = flight_tokens(table, route, kind, n - 1);
        if table.in_flight(key) {
            before.push(Token::spec_of(route, kind, key))
        } else {
            before
        }
    }
}

/// Flushing touches the slab only.
proof fn lemma_flushed_keeps<H, R>(table: TableView<H, R>, n: int)
    ensures
        table.flushed(n) == (TableView { slab: table.flushed(n).slab, ..table }),
    decreases n,
{
    if n > 0 {
        lemma_flushed_keeps(table, n - 1);
    }
}

/// Flushing takes out exactly the operations that were queued.
proof fn lemma_flushed<H, R>(table: TableView<H, R>, n: int)
    requires
        table.wf(),
        0 <= n <= table.cancelled.len(),
    ensures
        forall|k: SlabKey|
            #![trigger table.flushed(n).has(k)]
            table.flushed(n).has(k) <==> table.has(k) && !table.cancelled.take(n).contains(k),
        forall|k: SlabKey|
            #![trigger table.flushed(n).slab.entries[k]]
            table.flushed(n).has(k) ==> table.flushed(n).slab.entries[k] == table.slab.entries[k],
    decreases n,
{
    if n > 0 {
        lemma_flushed(table, n - 1);
        let key = table.cancelled[n - 1];
        let shorter = table.cancelled.take(n - 1);
        assert(table.cancelled.take(n) =~= shorter.push(key));
        seqs::lemma_push(shorter, key);
        assert(table.cancelled.contains(key));
        assert(!shorter.contains(key));
        let prior = table.flushed(n - 1);
        assert(prior.has(key));
        let after = table.flushed(n);
        assert(after.slab == prior.slab.remove(key));
        assert forall|k: SlabKey| #![trigger table.flushed(n).has(k)] after.has(k)
            <==> table.has(k) && !table.cancelled.take(n).contains(k) by {
            assert(prior.has(k) <==> table.has(k) && !shorter.contains(k));
        }
        assert forall|k: SlabKey| #![trigger table.flushed(n).slab.entries[k]] after.has(
            k,
        ) implies after.slab.entries[k] == table.slab.entries[k] by {
            assert(prior.has(k));
            assert(prior.slab.entries[k] == table.slab.entries[k]);
        }
    } else {
        assert(table.cancelled.take(0) =~= Seq::empty());
    }
}

/// What a flush leaves is as it was.
pub proof fn lemma_flush_entries<H, R>(table: TableView<H, R>)
    requires
        table.wf(),
    ensures
        forall|k: SlabKey|
            #![trigger table.flush().has(k)]
            table.flush().has(k) ==> table.has(k) && table.flush().slab.entries[k]
                == table.slab.entries[k],
{
    let n = table.cancelled.len() as int;
    lemma_flushed(table, n);
    assert forall|k: SlabKey| #![trigger table.flush().has(k)] table.flush().has(
        k,
    ) implies table.has(k) && table.flush().slab.entries[k] == table.slab.entries[k] by {
        assert(table.flushed(n).has(k));
        assert(table.flushed(n).slab.entries[k] == table.slab.entries[k]);
    }
}

/// What was done about one operation leaves all others, and the order in which
/// they are to be canceled, alone.
pub open spec fn others_untouched<H, R>(
    before: TableView<H, R>,
    after: TableView<H, R>,
    key: SlabKey,
) -> bool {
    forall|other: SlabKey|
        #![trigger after.slab.entries.contains_key(other)]
        #![trigger after.slab.entries[other]]
        other != key ==> {
            &&& after.slab.entries.contains_key(other) <==> before.slab.entries.contains_key(other)
            &&& before.slab.entries.contains_key(other) ==> after.slab.entries[other]
                == before.slab.entries[other]
        }
}

/// A poll hands out a settled operation, with what it held, and takes it out of the
/// table. Of one in flight it hands out nothing: the operation stays, with what it
/// holds, and the task that polled last is the one to be woken, unless it is to be
/// canceled. No other operation is touched.
pub proof fn law_poll_takes_or_waits<H, R>(table: TableView<H, R>, key: SlabKey, wake: WakeRef)
    requires
        table.wf(),
    ensures
        others_untouched(table, table.poll(key, wake), key),
        table.poll(key, wake).cancelled == table.cancelled,
        table.poll_result(key) is Some <==> table.slab.entries.contains_key(key)
            && table.slab.entries[key].state is Settled,
        table.poll_result(key) matches Some(done) ==> {
            &&& done.0 == table.slab.entries[key].hold
            &&& table.slab.entries[key].state == State::Settled(done.1)
            &&& !table.poll(key, wake).slab.entries.contains_key(key)
        },
        !table.slab.entries.contains_key(key) ==> !table.poll(
            key,
            wake,
        ).slab.entries.contains_key(key),
        table.slab.entries.contains_key(key) && table.poll_result(key) is None ==> {
            let was = table.slab.entries[key];
            let cur = table.poll(key, wake).slab.entries[key];
            &&& table.poll(key, wake).slab.entries.contains_key(key)
            &&& cur.hold == was.hold
            &&& was.state is CancelPending ==> cur.state is CancelPending
            &&& !(was.state is CancelPending) ==> cur.state == State::<R>::Waiting(wake)
        },
{
}

/// A request to cancel takes a settled operation out, queues one in flight behind
/// those that are queued already, with what it holds still held, and changes
/// nothing about one that is queued already. No other operation is touched.
pub proof fn law_cancel_takes_or_queues<H, R>(table: TableView<H, R>, key: SlabKey)
    requires
        table.wf(),
    ensures
        others_untouched(table, table.request_cancel(key), key),
        table.slab.entries.contains_key(key) && table.slab.entries[key].state is Settled ==> {
            &&& !table.request_cancel(key).slab.entries.contains_key(key)
            &&& table.request_cancel(key).cancelled == table.cancelled
            &&& !table.cancel_queues(key)
        },
        table.slab.entries.contains_key(key) && (table.slab.entries[key].state is Submitted
            || table.slab.entries[key].state is Waiting) ==> {
            &&& table.request_cancel(key).slab.entries.contains_key(key)
            &&& table.request_cancel(key).slab.entries[key].state is CancelPending
            &&& table.request_cancel(key).slab.entries[key].hold == table.slab.entries[key].hold
            &&& table.request_cancel(key).cancelled == table.cancelled + seq![key]
            &&& table.cancel_queues(key)
        },
        !table.slab.entries.contains_key(key) || table.slab.entries[key].state
            is CancelPending ==> table.request_cancel(key) == table && !table.cancel_queues(key),
{
    assert(table.cancelled.push(key) =~= table.cancelled + seq![key]);
}

/// A completion settles an operation in flight with its result, once: a settled
/// operation keeps its result, and one that is to be canceled stays so. No other
/// operation is touched.
pub proof fn law_completion_settles_one<H, R>(
    table: TableView<H, R>,
    key: SlabKey,
    hold: H,
    result: R,
)
    requires
        table.wf(),
        table.slab.entries.contains_key(key),
    ensures
        others_untouched(table, table.complete(key, hold, result), key),
        table.complete(key, hold, result).cancelled == table.cancelled,
        table.complete(key, hold, result).slab.entries.contains_key(key),
        ({
            let was = table.slab.entries[key];
            let cur = table.complete(key, hold, result).slab.entries[key];
            &&& was.state is Settled ==> cur == was
            &&& !(was.state is Settled) ==> cur.hold == hold
            &&& was.state is CancelPending ==> cur.state is CancelPending
            &&& was.state is Submitted || was.state is Waiting ==> cur.state == State::Settled(
                result,
            )
        }),
        table.in_flight(key) <==> !(table.slab.entries[key].state is Settled),
{
}

/// `token` belongs to an operation in flight in one of the first `n` slots.
pub open spec fn stops_one_in_flight<H, R>(
    table: TableView<H, R>,
    route: u8,
    kind: u8,
    n: int,
    token: Token,
) -> bool {
    exists|k: SlabKey|
        #![trigger table.slab.entries.dom().contains(k)]
        table.slab.entries.dom().contains(k) && k.index < n && !(table.slab.entries[k].state
            is Settled) && token == Token::spec_of(route, kind, k)
}

/// The tokens to stop are those of the operations in flight in the slots looked at,
/// and no others.
pub proof fn law_exactly_those_in_flight_are_stopped<H, R>(
    table: TableView<H, R>,
    route: u8,
    kind: u8,
    n: int,
    token: Token,
)
    requires
        table.wf(),
        0 <= n <= table.slab.generations.len(),
    ensures
        flight_tokens(table, route, kind, n).contains(token) <==> stops_one_in_flight(
            table,
            route,
            kind,
            n,
            token,
        ),
    decreases n,
{
    if n > 0 {
        law_exactly_those_in_flight_are_stopped(table, route, kind, n - 1, token);
        let last = table.slab.key_at(n - 1);
        let prior = flight_tokens(table, route, kind, n - 1);
        seqs::lemma_push(prior, Token::spec_of(route, kind, last));
        if stops_one_in_flight(table, route, kind, n, token) {
            let k = choose|k: SlabKey|
                #![trigger table.slab.entries.dom().contains(k)]
                table.slab.entries.dom().contains(k) && k.index < n && !(
                table.slab.entries[k].state is Settled) && token == Token::spec_of(route, kind, k);
            if k.index == n - 1 {
                assert(k == last);
            } else {
                assert(stops_one_in_flight(table, route, kind, n - 1, token));
            }
        }
        if stops_one_in_flight(table, route, kind, n - 1, token) {
            let k = choose|k: SlabKey|
                #![trigger table.slab.entries.dom().contains(k)]
                table.slab.entries.dom().contains(k) && k.index < n - 1 && !(
                table.slab.entries[k].state is Settled) && token == Token::spec_of(route, kind, k);
            assert(table.slab.entries.dom().contains(k));
        }
        if table.in_flight(last) && token == Token::spec_of(route, kind, last) {
            assert(table.slab.entries.dom().contains(last));
        }
    }
}

/// A new table has no operation and nothing to be canceled, and room for as many as it
/// was made for.
pub proof fn law_new_table_is_empty<H, R>(capacity: nat, key: SlabKey)
    ensures
        !TableView::<H, R>::fresh(capacity).slab.entries.contains_key(key),
        TableView::<H, R>::fresh(capacity).slab.generations.len() == capacity,
        TableView::<H, R>::fresh(capacity).cancelled.len() == 0,
        TableView::<H, R>::fresh(capacity).is_idle(),
        capacity > 0 ==> !TableView::<H, R>::fresh(capacity).slab.full(),
{
    if capacity > 0 {
        let slab = TableView::<H, R>::fresh(capacity).slab;
        assert(!slab.occupied(0));
    }
}

/// A canceled operation yields nothing any more: not at once, not when its
/// completion comes in, and after the next flush it is gone.
pub proof fn law_canceled_yields_nothing<H, R>(
    table: TableView<H, R>,
    key: SlabKey,
    hold: H,
    result: R,
)
    requires
        table.wf(),
        table.cancel_queues(key),
    ensures
        table.request_cancel(key).poll_result(key) is None,
        table.request_cancel(key).complete(key, hold, result).poll_result(key) is None,
        !table.request_cancel(key).flush().has(key),
{
    let after = table.request_cancel(key);
    seqs::lemma_push(table.cancelled, key);
    assert(!table.cancelled.contains(key));
    assert(after.wf()) by {
        assert forall|k: SlabKey|
            #![trigger after.cancelled.contains(k)]
            #![trigger after.has(k)]
            after.cancelled.contains(k) <==> after.has(k) && after.state(k) is CancelPending by {
            assert(table.cancelled.contains(k) <==> table.has(k) && table.state(k) is CancelPending);
        }
    }
    let n = after.cancelled.len() as int;
    lemma_flushed(after, n);
    lemma_flushed_keeps(after, n);
    assert(after.cancelled.take(n) =~= after.cancelled);
    assert(after.cancelled.contains(key));
    assert(!after.flushed(n).has(key));
}

/// A flush touches no operation that was not to be canceled.
pub proof fn law_flush_spares_others<H, R>(table: TableView<H, R>, key: SlabKey)
    requires
        table.wf(),
        table.has(key),
        !(table.state(key) is CancelPending),
    ensures
        table.flush().has(key),
        table.flush().slab.entries[key] == table.slab.entries[key],
        table.flush().cancelled.len() == 0,
{
    let n = table.cancelled.len() as int;
    lemma_flushed(table, n);
    lemma_flushed_keeps(table, n);
    assert(table.cancelled.take(n) =~= table.cancelled);
    assert(!table.cancelled.contains(key));
    assert(table.flushed(n).has(key));
}

/// A completion is handed out by the next poll, together with what the operation
/// held, and only once.
pub proof fn law_completion_is_polled_once<H, R>(
    table: TableView<H, R>,
    key: SlabKey,
    hold: H,
    result: R,
    wake: WakeRef,
)
    requires
        table.wf(),
        table.in_flight(key),
        !(table.state(key) is CancelPending),
    ensures
        table.complete(key, hold, result).poll_result(key) == Some((hold, result)),
        table.complete(key, hold, result).poll(key, wake).poll_result(key) is None,
        !table.complete(key, hold, result).poll(key, wake).has(key),
{
}

/// An operation that the driver does not take leaves no trace but a spent key.
pub proof fn law_rollback_undoes_begin<H, R>(table: TableView<H, R>, key: SlabKey, hold: H)
    requires
        table.wf(),
        table.slab.vacant(key),
    ensures
        table.with(key, hold, State::Submitted).without(key).slab.entries == table.slab.entries,
        table.with(key, hold, State::Submitted).without(key).cancelled == table.cancelled,
        table.with(key, hold, State::Submitted).without(key).slab.spent(key),
{
    assert(table.with(key, hold, State::Submitted).without(key).slab.entries
        =~= table.slab.entries);
}

} // verus!
