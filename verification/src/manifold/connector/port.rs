//! Ports: how others hand bytes to a connection and ask for it to be closed.
//!
//! While bytes are handed over, foreign code may run and use the port itself. The
//! hand-over is therefore made in steps: the entry is suspended, and what happens
//! meanwhile is found out by comparing generations.
use std::collections::VecDeque;

use vstd::prelude::*;

use crate::park::WakeRef;
use crate::token::Token;
use super::app::{CloseKind, Requests};

verus! {

/// A connection as it was announced to a port.
#[derive(Clone, Copy, PartialEq, Eq, Structural, Debug)]
pub struct Publication {
    pub token: Token,
    pub ready: WakeRef,
}

#[derive(Clone, Copy, PartialEq, Eq, Structural, Debug)]
pub enum EntryState {
    Vacant,
    Active(Publication),
    /// Something is being handed over.
    Suspended(Publication),
    /// Out of generations: never to be used again.
    Retired,
}

/// A connection in one generation of its entry.
#[derive(Clone, Copy, PartialEq, Eq, Structural, Debug)]
pub struct Transaction {
    pub publication: Publication,
    pub generation: u64,
}

struct Entry<B> {
    state: EntryState,
    close: bool,
    generation: u64,
    queue: VecDeque<B>,
}

/// The abstract value of an entry of a port.
pub struct EntryView<B> {
    pub state: EntryState,
    /// A close was asked for.
    pub close: bool,
    pub generation: u64,
    /// What was handed in and not taken out.
    pub queue: Seq<B>,
}

impl<B> EntryView<B> {
    pub open spec fn wf(self) -> bool {
        self.state is Retired ==> self.generation == u64::MAX
    }

    pub open spec fn fresh() -> Self {
        EntryView { state: EntryState::Vacant, close: false, generation: 0, queue: Seq::empty() }
    }

    pub open spec fn transaction(self, token: Token) -> Option<Transaction> {
        match self.state {
            EntryState::Active(publication) if publication.token.spec_same_target(token) => Some(
                Transaction { publication, generation: self.generation },
            ),
            _ => None,
        }
    }

    pub open spec fn is_active(self, transaction: Transaction) -> bool {
        &&& self.generation == transaction.generation
        &&& self.state matches EntryState::Active(publication)
        &&& publication.spec_matches(transaction.publication)
    }

    pub open spec fn is_suspended(self, transaction: Transaction) -> bool {
        &&& self.generation == transaction.generation
        &&& self.state matches EntryState::Suspended(publication)
        &&& publication.spec_matches(transaction.publication)
    }

    pub open spec fn suspended(self, transaction: Transaction) -> Self {
        if self.is_active(transaction) {
            EntryView { state: EntryState::Suspended(transaction.publication), ..self }
        } else {
            self
        }
    }

    pub open spec fn restored(self, transaction: Transaction) -> Self {
        if self.is_suspended(transaction) {
            EntryView { state: EntryState::Active(transaction.publication), ..self }
        } else {
            self
        }
    }

    /// Suspended and restored again, with nothing in between.
    pub open spec fn touched(self, transaction: Transaction) -> Self {
        if self.is_active(transaction) {
            self.suspended(transaction).restored(transaction)
        } else {
            self
        }
    }

    pub open spec fn retired(self) -> Self {
        EntryView { state: EntryState::Retired, close: false, queue: Seq::empty(), ..self }
    }

    pub open spec fn activated(self, publication: Publication) -> Self {
        if self.generation < u64::MAX {
            EntryView {
                state: EntryState::Active(publication),
                close: false,
                generation: (self.generation + 1) as u64,
                queue: Seq::empty(),
            }
        } else {
            self.retired()
        }
    }

    /// The connection that the entry is for now.
    pub open spec fn published(self) -> Option<Publication> {
        match self.state {
            EntryState::Active(publication) => Some(publication),
            EntryState::Suspended(publication) => Some(publication),
            _ => None,
        }
    }

    pub open spec fn is_for(self, token: Token) -> bool {
        self.published() matches Some(publication) && publication.token.spec_same_target(token)
    }

    pub open spec fn deactivated(self, token: Token) -> Self {
        if !self.is_for(token) {
            self
        } else if self.generation < u64::MAX {
            EntryView {
                state: EntryState::Vacant,
                close: false,
                generation: (self.generation + 1) as u64,
                queue: Seq::empty(),
            }
        } else {
            self.retired()
        }
    }

    /// A close was asked for. What is being handed over then comes to nothing.
    pub open spec fn closed(self, token: Token) -> Self {
        if !self.is_for(token) {
            self
        } else if self.state is Active {
            EntryView { close: true, ..self }
        } else if self.generation < u64::MAX {
            EntryView {
                state: EntryState::Active(self.published()->0),
                close: true,
                generation: (self.generation + 1) as u64,
                ..self
            }
        } else {
            self.retired()
        }
    }
}

impl Publication {
    pub open spec fn spec_matches(self, other: Publication) -> bool {
        self.token.spec_same_target(other.token) && self.ready == other.ready
    }

    fn matches(self, other: Publication) -> (same: bool)
        ensures
            same == self.spec_matches(other),
    {
        self.token.same_target(other.token) && self.ready == other.ready
    }
}

/// What was handed over under an earlier generation of an entry has no effect any
/// more: a connection that was given up, or closed in the middle of a hand-over,
/// is not touched by what was begun before.
pub proof fn law_old_transactions_are_dead<B>(
    entry: EntryView<B>,
    transaction: Transaction,
    token: Token,
    publication: Publication,
)
    requires
        entry.wf(),
        entry.is_active(transaction) || entry.is_suspended(transaction),
        entry.is_for(token),
    ensures
        ({
            let gone = entry.deactivated(token);
            !gone.is_active(transaction) && !gone.is_suspended(transaction)
        }),
        ({
            let again = entry.deactivated(token).activated(publication);
            !again.is_active(transaction) && !again.is_suspended(transaction)
        }),
        entry.is_suspended(transaction) ==> ({
            let closed = entry.closed(token);
            !closed.is_active(transaction) && !closed.is_suspended(transaction)
        }),
{
}

/// A connection starts with nothing handed in and no close asked for.
pub proof fn law_activation_starts_afresh<B>(entry: EntryView<B>, publication: Publication)
    requires
        entry.generation < u64::MAX,
    ensures
        ({
            let after = entry.activated(publication);
            &&& after.queue.len() == 0
            &&& !after.close
            &&& after.transaction(publication.token) == Some(
                Transaction { publication, generation: after.generation },
            )
        }),
{
}

/// A new entry is for no connection, holds nothing and closes nothing.
pub proof fn law_new_entry_is_vacant<B>(token: Token)
    ensures
        EntryView::<B>::fresh().state is Vacant,
        !EntryView::<B>::fresh().is_for(token),
        !EntryView::<B>::fresh().close,
        EntryView::<B>::fresh().queue.len() == 0,
        EntryView::<B>::fresh().generation == 0,
{
}

/// Generations never repeat, and an entry that has none left stays retired.
pub proof fn law_generations_grow<B>(
    entry: EntryView<B>,
    token: Token,
    publication: Publication,
)
    requires
        entry.wf(),
    ensures
        entry.generation <= entry.activated(publication).generation,
        entry.generation <= entry.deactivated(token).generation,
        entry.generation <= entry.closed(token).generation,
        entry.activated(publication).state is Active ==> entry.generation < entry.activated(
            publication,
        ).generation,
        entry.state is Retired ==> entry.activated(publication).state is Retired,
{
}

/// A transaction is had of the connection that is announced under the token, in the
/// generation that stands, and only while nothing is being handed over.
pub proof fn law_transaction_is_of_the_announced<B>(entry: EntryView<B>, token: Token)
    ensures
        entry.transaction(token) is Some <==> (entry.state matches EntryState::Active(p)
            && p.token.route == token.route && p.token.slot == token.slot && p.token.epoch
            == token.epoch),
        entry.transaction(token) matches Some(t) ==> t.generation == entry.generation
            && entry.state == EntryState::Active(t.publication) && entry.is_active(t),
        entry.is_for(token) <==> (entry.published() matches Some(p) && p.token.route == token.route
            && p.token.slot == token.slot && p.token.epoch == token.epoch),
        entry.published() is Some <==> entry.state is Active || entry.state is Suspended,
        entry.state matches EntryState::Active(p) ==> entry.published() == Some(p),
        entry.state matches EntryState::Suspended(p) ==> entry.published() == Some(p),
{
}

/// A transaction stands in its generation only, and only while its connection, with
/// the same task to be woken, is the one announced; never both free and in the middle
/// of a hand-over.
pub proof fn law_transaction_stands_in_its_generation<B>(
    entry: EntryView<B>,
    transaction: Transaction,
)
    ensures
        entry.is_active(transaction) || entry.is_suspended(transaction) ==> {
            &&& entry.generation == transaction.generation
            &&& entry.published() matches Some(p)
            &&& p.ready == transaction.publication.ready
            &&& p.token.route == transaction.publication.token.route
            &&& p.token.slot == transaction.publication.token.slot
            &&& p.token.epoch == transaction.publication.token.epoch
        },
        entry.is_active(transaction) ==> entry.state is Active,
        entry.is_suspended(transaction) ==> entry.state is Suspended,
        entry.state == EntryState::Active(transaction.publication) && entry.generation
            == transaction.generation ==> entry.is_active(transaction),
        entry.state == EntryState::Suspended(transaction.publication) && entry.generation
            == transaction.generation ==> entry.is_suspended(transaction),
{
}

/// A hand-over takes a free entry out of use and puts it back, and nothing that was
/// handed in or asked for is lost by it; an entry that has moved on is left alone.
pub proof fn law_hand_over_leaves_the_entry<B>(entry: EntryView<B>, transaction: Transaction)
    ensures
        ({
            let held = entry.suspended(transaction);
            &&& held.queue == entry.queue
            &&& held.close == entry.close
            &&& held.generation == entry.generation
            &&& entry.is_active(transaction) ==> held.is_suspended(transaction) && held.state
                == EntryState::Suspended(transaction.publication)
            &&& !entry.is_active(transaction) ==> held == entry
        }),
        ({
            let back = entry.restored(transaction);
            &&& back.queue == entry.queue
            &&& back.close == entry.close
            &&& back.generation == entry.generation
            &&& entry.is_suspended(transaction) ==> back.is_active(transaction) && back.state
                == EntryState::Active(transaction.publication)
            &&& !entry.is_suspended(transaction) ==> back == entry
        }),
        ({
            let touched = entry.touched(transaction);
            &&& touched.queue == entry.queue
            &&& touched.close == entry.close
            &&& touched.generation == entry.generation
            &&& touched.is_active(transaction) == entry.is_active(transaction)
        }),
{
}

/// Announcing a connection begins another generation, and so does giving one up,
/// which empties the entry; without another generation the entry is retired. Only the
/// connection that the entry is for is given up.
pub proof fn law_each_connection_has_its_generation<B>(
    entry: EntryView<B>,
    publication: Publication,
    token: Token,
)
    ensures
        entry.generation < u64::MAX ==> {
            let after = entry.activated(publication);
            &&& after.state == EntryState::Active(publication)
            &&& after.generation == entry.generation + 1
            &&& after.queue.len() == 0
            &&& !after.close
        },
        entry.generation == u64::MAX ==> {
            let after = entry.activated(publication);
            &&& after.state is Retired
            &&& after.generation == u64::MAX
            &&& after.queue.len() == 0
            &&& !after.close
        },
        !entry.is_for(token) ==> entry.deactivated(token) == entry,
        entry.is_for(token) ==> {
            let after = entry.deactivated(token);
            &&& after.queue.len() == 0
            &&& !after.close
            &&& entry.generation < u64::MAX ==> after.state is Vacant && after.generation
                == entry.generation + 1
            &&& entry.generation == u64::MAX ==> after.state is Retired && after.generation
                == u64::MAX
        },
{
}

/// A close that is asked for is kept, with what was handed in, and the connection
/// stays announced. One that is asked for in the middle of a hand-over begins another
/// generation, so that the hand-over comes to nothing. Only the connection that the
/// entry is for is closed.
pub proof fn law_close_is_kept<B>(entry: EntryView<B>, token: Token)
    ensures
        !entry.is_for(token) ==> entry.closed(token) == entry,
        entry.is_for(token) && entry.state is Active ==> {
            let after = entry.closed(token);
            &&& after.close
            &&& after.state == entry.state
            &&& after.generation == entry.generation
            &&& after.queue == entry.queue
        },
        entry.is_for(token) && entry.state is Suspended && entry.generation < u64::MAX ==> {
            let after = entry.closed(token);
            &&& after.close
            &&& after.state == EntryState::Active(entry.state->Suspended_0)
            &&& after.generation == entry.generation + 1
            &&& after.queue == entry.queue
        },
        entry.is_for(token) && entry.state is Suspended && entry.generation == u64::MAX
            ==> entry.closed(token).state is Retired,
{
}

impl<B> View for Entry<B> {
    type V = EntryView<B>;

    closed spec fn view(&self) -> EntryView<B> {
        EntryView {
            state: self.state,
            close: self.close,
            generation: self.generation,
            queue: self.queue@,
        }
    }
}

impl<B> Entry<B> {
    fn new() -> (entry: Self)
        ensures
            entry@ == EntryView::<B>::fresh(),
    {
        Entry {
            state: EntryState::Vacant,
            close: false,
            generation: 0,
            queue: VecDeque::new(),
        }
    }

    fn transaction(&self, token: Token) -> (transaction: Option<Transaction>)
        ensures
            transaction == self@.transaction(token),
    {
        match self.state {
            EntryState::Active(publication) => if publication.token.same_target(token) {
                Some(Transaction { publication, generation: self.generation })
            } else {
                None
            },
            _ => None,
        }
    }

    fn is_active(&self, transaction: Transaction) -> (active: bool)
        ensures
            active == self@.is_active(transaction),
    {
        if self.generation != transaction.generation {
            return false;
        }
        match self.state {
            EntryState::Active(publication) => publication.matches(transaction.publication),
            _ => false,
        }
    }

    fn is_suspended(&self, transaction: Transaction) -> (suspended: bool)
        ensures
            suspended == self@.is_suspended(transaction),
    {
        if self.generation != transaction.generation {
            return false;
        }
        match self.state {
            EntryState::Suspended(publication) => publication.matches(transaction.publication),
            _ => false,
        }
    }

    fn suspend(&mut self, transaction: Transaction) -> (suspended: bool)
        ensures
            final(self)@ == old(self)@.suspended(transaction),
            suspended == old(self)@.is_active(transaction),
    {
        if !self.is_active(transaction) {
            return false;
        }
        self.state = EntryState::Suspended(transaction.publication);
        true
    }

    fn restore(&mut self, transaction: Transaction) -> (restored: bool)
        ensures
            final(self)@ == old(self)@.restored(transaction),
            restored == old(self)@.is_suspended(transaction),
    {
        if !self.is_suspended(transaction) {
            return false;
        }
        self.state = EntryState::Active(transaction.publication);
        true
    }

    fn advance_generation(&mut self) -> (advanced: bool)
        ensures
            advanced == (old(self)@.generation < u64::MAX),
            final(self)@ == if advanced {
                EntryView { generation: (old(self)@.generation + 1) as u64, ..old(self)@ }
            } else {
                old(self)@
            },
    {
        match self.generation.checked_add(1) {
            Some(next) => {
                self.generation = next;
                true
            },
            None => false,
        }
    }

    fn retire(&mut self)
        ensures
            final(self)@ == old(self)@.retired(),
    {
        self.state = EntryState::Retired;
        self.close = false;
        self.queue.clear();
        assert(self.queue@ =~= Seq::<B>::empty());
    }

    fn activate(&mut self, publication: Publication) -> (active: bool)
        ensures
            final(self)@ == old(self)@.activated(publication),
            active == (old(self)@.generation < u64::MAX),
    {
        if !self.advance_generation() {
            self.retire();
            return false;
        }
        self.close = false;
        self.queue.clear();
        self.state = EntryState::Active(publication);
        assert(self.queue@ =~= Seq::<B>::empty());
        true
    }

    fn deactivate(&mut self, token: Token)
        ensures
            final(self)@ == old(self)@.deactivated(token),
    {
        let same = match self.state {
            EntryState::Active(publication) => publication.token.same_target(token),
            EntryState::Suspended(publication) => publication.token.same_target(token),
            _ => false,
        };
        if !same {
            return ;
        }
        if self.advance_generation() {
            self.state = EntryState::Vacant;
            self.close = false;
            self.queue.clear();
            assert(self.queue@ =~= Seq::<B>::empty());
        } else {
            self.retire();
        }
    }

    fn close(&mut self, token: Token) -> (woken: Option<WakeRef>)
        ensures
            final(self)@ == old(self)@.closed(token),
            woken == if old(self)@.is_for(token) {
                Some((old(self)@.published()->0).ready)
            } else {
                None
            },
    {
        let (publication, suspended) = match self.state {
            EntryState::Active(publication) => (publication, false),
            EntryState::Suspended(publication) => (publication, true),
            _ => {
                return None;
            },
        };
        if !publication.token.same_target(token) {
            return None;
        }
        if suspended {
            if !self.advance_generation() {
                self.retire();
                return Some(publication.ready);
            }
            self.state = EntryState::Active(publication);
        }
        self.close = true;
        Some(publication.ready)
    }
}

/// Where others reach the connections of a connector. `B` is what is handed in.
pub struct Port<B> {
    entries: Vec<Entry<B>>,
}

impl<B> View for Port<B> {
    type V = Seq<EntryView<B>>;

    closed spec fn view(&self) -> Seq<EntryView<B>> {
        Seq::new(self.entries@.len(), |i: int| self.entries@[i]@)
    }
}

/// Hands bytes to one connection.
#[derive(Clone, Copy, PartialEq, Eq, Structural, Debug)]
pub struct Sender {
    pub slot: u32,
    pub transaction: Transaction,
}

/// Takes out what was handed to one connection.
#[derive(Clone, Copy, PartialEq, Eq, Structural, Debug)]
pub struct Receiver {
    pub slot: u32,
    pub transaction: Transaction,
}

/// The transaction of a connection, while its entry is free for one.
pub open spec fn transaction<B>(entries: Seq<EntryView<B>>, token: Token) -> Option<Transaction> {
    if token.slot < entries.len() {
        entries[token.slot as int].transaction(token)
    } else {
        None
    }
}

/// The entries with that of `slot` changed.
pub open spec fn with_entry<B>(entries: Seq<EntryView<B>>, slot: u32, entry: EntryView<B>) -> Seq<
    EntryView<B>,
> {
    entries.update(slot as int, entry)
}

pub open spec fn all_wf<B>(entries: Seq<EntryView<B>>) -> bool {
    forall|i: int| 0 <= i < entries.len() ==> (#[trigger] entries[i]).wf()
}

impl<B> Port<B> {
    pub open spec fn wf(self) -> bool {
        all_wf(self@)
    }

    pub fn with_capacity(capacity: usize) -> (port: Self)
        ensures
            port.wf(),
            port@ == Seq::new(capacity as nat, |i: int| EntryView::<B>::fresh()),
    {
        let mut entries: Vec<Entry<B>> = Vec::new();
        let mut i: usize = 0;
        while i < capacity
            invariant
                i <= capacity,
                entries@.len() == i,
                forall|j: int| 0 <= j < i ==> (#[trigger] entries@[j])@ == EntryView::<B>::fresh(),
            decreases capacity - i,
        {
            entries.push(Entry::new());
            i += 1;
        }
        let port = Port { entries };
        assert(port@ =~= Seq::new(capacity as nat, |i: int| EntryView::<B>::fresh()));
        port
    }

    pub fn capacity(&self) -> (capacity: usize)
        ensures
            capacity == self@.len(),
    {
        self.entries.len()
    }

    fn entry_transaction(&self, token: Token) -> (found: Option<Transaction>)
        ensures
            found == transaction(self@, token),
    {
        let slot = token.slot as usize;
        if slot < self.entries.len() {
            self.entries[slot].transaction(token)
        } else {
            None
        }
    }

    pub fn is_active(&self, token: Token) -> (active: bool)
        ensures
            active == transaction(self@, token) is Some,
    {
        self.entry_transaction(token).is_some()
    }

    pub fn sender(&self, token: Token) -> (sender: Option<Sender>)
        ensures
            sender == match transaction(self@, token) {
                Some(transaction) => Some(Sender { slot: token.slot, transaction }),
                None => None,
            },
    {
        match self.entry_transaction(token) {
            Some(transaction) => Some(Sender { slot: token.slot, transaction }),
            None => None,
        }
    }

    pub fn receiver(&self, token: Token) -> (receiver: Option<Receiver>)
        ensures
            receiver == match transaction(self@, token) {
                Some(transaction) => Some(Receiver { slot: token.slot, transaction }),
                None => None,
            },
    {
        match self.entry_transaction(token) {
            Some(transaction) => Some(Receiver { slot: token.slot, transaction }),
            None => None,
        }
    }

    /// Announces a connection, which `ready` has its connector see to.
    pub fn activate(&mut self, token: Token, ready: WakeRef) -> (active: bool)
        requires
            old(self).wf(),
        ensures
            final(self).wf(),
            active == (token.slot < old(self)@.len() && old(self)@[token.slot as int].generation
                < u64::MAX),
            final(self)@ == if token.slot < old(self)@.len() {
                with_entry(
                    old(self)@,
                    token.slot,
                    old(self)@[token.slot as int].activated(Publication { token, ready }),
                )
            } else {
                old(self)@
            },
    {
        let slot = token.slot as usize;
        if slot >= self.entries.len() {
            return false;
        }
        let ghost before = self@[slot as int];
        assert(before.wf());
        let active = self.entries[slot].activate(Publication { token, ready });
        proof {
            assert(self@ =~= with_entry(
                old(self)@,
                token.slot,
                before.activated(Publication { token, ready }),
            ));
        }
        active
    }

    /// A connection is gone, with all that was handed to it.
    pub fn deactivate(&mut self, token: Token)
        requires
            old(self).wf(),
        ensures
            final(self).wf(),
            final(self)@ == if token.slot < old(self)@.len() {
                with_entry(
                    old(self)@,
                    token.slot,
                    old(self)@[token.slot as int].deactivated(token),
                )
            } else {
                old(self)@
            },
    {
        let slot = token.slot as usize;
        if slot < self.entries.len() {
            let ghost before = self@[slot as int];
            assert(before.wf());
            self.entries[slot].deactivate(token);
            assert(self@ =~= with_entry(old(self)@, token.slot, before.deactivated(token)));
        }
    }

    /// Asks for a connection to be closed. What is returned is to be woken.
    pub fn close(&mut self, token: Token) -> (woken: Option<WakeRef>)
        requires
            old(self).wf(),
        ensures
            final(self).wf(),
            final(self)@ == if token.slot < old(self)@.len() {
                with_entry(old(self)@, token.slot, old(self)@[token.slot as int].closed(token))
            } else {
                old(self)@
            },
            woken == if token.slot < old(self)@.len() && old(self)@[token.slot as int].is_for(
                token,
            ) {
                Some((old(self)@[token.slot as int].published()->0).ready)
            } else {
                None
            },
    {
        let slot = token.slot as usize;
        if slot >= self.entries.len() {
            return None;
        }
        let ghost before = self@[slot as int];
        assert(before.wf());
        let woken = self.entries[slot].close(token);
        assert(self@ =~= with_entry(old(self)@, token.slot, before.closed(token)));
        woken
    }
}

impl<B> EntryView<B> {
    /// What handing in `value`, of `bytes` bytes, does. `fits` says whether there
    /// is room for it.
    pub open spec fn enqueued(
        self,
        transaction: Transaction,
        value: B,
        bytes: usize,
        fits: bool,
    ) -> Self {
        if self.is_active(transaction) && bytes > 0 && fits {
            EntryView { queue: self.queue.push(value), ..self }
        } else {
            self
        }
    }

    /// What it comes to: the connector is to be woken if something is queued, and
    /// the value is given back if it cannot be.
    pub open spec fn enqueue_result(
        self,
        transaction: Transaction,
        value: B,
        bytes: usize,
        fits: bool,
    ) -> Result<Option<WakeRef>, B> {
        if !self.is_active(transaction) {
            Err(value)
        } else if bytes == 0 {
            Ok(None)
        } else if fits {
            Ok(Some(transaction.publication.ready))
        } else {
            Err(value)
        }
    }
}

/// A value is queued, behind all others, exactly if its connection is still there, it
/// is not empty and there is room for it; then the connector is woken. An empty value
/// is taken without a trace, and any other that is not queued is given back.
pub proof fn law_value_is_queued_or_given_back<B>(
    entry: EntryView<B>,
    transaction: Transaction,
    value: B,
    bytes: usize,
    fits: bool,
)
    ensures
        ({
            let after = entry.enqueued(transaction, value, bytes, fits);
            let result = entry.enqueue_result(transaction, value, bytes, fits);
            let here = entry.is_active(transaction);
            &&& after.state == entry.state
            &&& after.close == entry.close
            &&& after.generation == entry.generation
            &&& here && bytes > 0 && fits ==> {
                &&& after.queue == entry.queue + seq![value]
                &&& result == Ok::<Option<WakeRef>, B>(Some(transaction.publication.ready))
            }
            &&& !(here && bytes > 0 && fits) ==> after.queue == entry.queue
            &&& here && bytes == 0 ==> result == Ok::<Option<WakeRef>, B>(None)
            &&& !here || (bytes > 0 && !fits) ==> result == Err::<Option<WakeRef>, B>(value)
        }),
{
    assert(entry.queue.push(value) =~= entry.queue + seq![value]);
}

/// What is done with one entry of a port leaves all others alone.
pub proof fn law_entries_are_independent<B>(
    entries: Seq<EntryView<B>>,
    slot: u32,
    entry: EntryView<B>,
    other: Token,
)
    requires
        slot < entries.len(),
        other.slot != slot,
    ensures
        transaction(with_entry(entries, slot, entry), other) == transaction(entries, other),
        with_entry(entries, slot, entry).len() == entries.len(),
        other.slot < entries.len() ==> with_entry(entries, slot, entry)[other.slot as int]
            == entries[other.slot as int],
        with_entry(entries, slot, entry)[slot as int] == entry,
{
}

impl Sender {
    pub open spec fn here<B>(self, entries: Seq<EntryView<B>>) -> bool {
        self.slot < entries.len()
    }

    pub open spec fn entry<B>(self, entries: Seq<EntryView<B>>) -> EntryView<B> {
        entries[self.slot as int]
    }

    /// Begins to hand in a value, if the connection is still there. Foreign code
    /// may run until `finish` is called.
    pub fn begin<B>(&self, port: &mut Port<B>) -> (begun: bool)
        requires
            old(port).wf(),
            self.here(old(port)@),
        ensures
            final(port).wf(),
            begun == self.entry(old(port)@).is_active(self.transaction),
            final(port)@ == with_entry(
                old(port)@,
                self.slot,
                self.entry(old(port)@).suspended(self.transaction),
            ),
    {
        let ghost before = self.entry(port@);
        assert(before.wf());
        let begun = port.entries[self.slot as usize].suspend(self.transaction);
        assert(port@ =~= with_entry(old(port)@, self.slot, before.suspended(self.transaction)));
        begun
    }

    /// Hands in the value that was begun with, unless the connection has moved on.
    pub fn finish<B>(&self, port: &mut Port<B>, value: B, bytes: usize, fits: bool) -> (result:
        Result<Option<WakeRef>, B>)
        requires
            old(port).wf(),
            self.here(old(port)@),
        ensures
            final(port).wf(),
            ({
                let suspended = self.entry(old(port)@);
                let entry = suspended.restored(self.transaction);
                if suspended.is_suspended(self.transaction) {
                    &&& result == entry.enqueue_result(self.transaction, value, bytes, fits)
                    &&& final(port)@ == with_entry(
                        old(port)@,
                        self.slot,
                        entry.enqueued(self.transaction, value, bytes, fits),
                    )
                } else {
                    result == Err::<Option<WakeRef>, B>(value) && final(port)@ == old(port)@
                }
            }),
    {
        let ghost before = self.entry(port@);
        assert(before.wf());
        let slot = self.slot as usize;
        if !port.entries[slot].restore(self.transaction) {
            assert(port@ =~= old(port)@);
            return Err(value);
        }
        let ghost entry = before.restored(self.transaction);
        if bytes == 0 {
            assert(port@ =~= with_entry(old(port)@, self.slot, entry));
            return Ok(None);
        }
        if !fits {
            assert(port@ =~= with_entry(old(port)@, self.slot, entry));
            return Err(value);
        }
        port.entries[slot].queue.push_back(value);
        assert(port@ =~= with_entry(
            old(port)@,
            self.slot,
            entry.enqueued(self.transaction, value, bytes, fits),
        ));
        Ok(Some(self.transaction.publication.ready))
    }

    /// Hands in a value at once.
    pub fn try_enqueue<B>(&self, port: &mut Port<B>, value: B, bytes: usize, fits: bool) -> (result:
        Result<Option<WakeRef>, B>)
        requires
            old(port).wf(),
            self.here(old(port)@),
        ensures
            final(port).wf(),
            result == self.entry(old(port)@).enqueue_result(self.transaction, value, bytes, fits),
            final(port)@ == with_entry(
                old(port)@,
                self.slot,
                self.entry(old(port)@).touched(self.transaction).enqueued(
                    self.transaction,
                    value,
                    bytes,
                    fits,
                ),
            ),
    {
        let ghost entry = self.entry(port@).touched(self.transaction);
        if !self.begin(port) {
            assert(port@ =~= old(port)@);
            return Err(value);
        }
        assert(self.entry(port@).is_suspended(self.transaction));
        assert(self.entry(port@).restored(self.transaction) == entry);
        let result = self.finish(port, value, bytes, fits);
        assert(port@ =~= with_entry(
            old(port)@,
            self.slot,
            entry.enqueued(self.transaction, value, bytes, fits),
        ));
        result
    }

    /// Asks for the connection to be closed. What is returned is to be woken.
    pub fn close<B>(&self, port: &mut Port<B>) -> (woken: Option<WakeRef>)
        requires
            old(port).wf(),
            self.here(old(port)@),
        ensures
            final(port).wf(),
            ({
                let entry = self.entry(old(port)@);
                if entry.is_active(self.transaction) {
                    &&& woken == Some(self.transaction.publication.ready)
                    &&& final(port)@ == with_entry(
                        old(port)@,
                        self.slot,
                        EntryView { close: true, ..entry },
                    )
                } else {
                    woken is None && final(port)@ == old(port)@
                }
            }),
    {
        let ghost entry = self.entry(port@);
        assert(entry.wf());
        let slot = self.slot as usize;
        if port.entries[slot].is_active(self.transaction) {
            port.entries[slot].close = true;
            assert(port@ =~= with_entry(
                old(port)@,
                self.slot,
                EntryView { close: true, ..entry },
            ));
            return Some(self.transaction.publication.ready);
        }
        None
    }
}

/// Where values go that are taken out of a port.
pub trait Outlet<B>: Sized {
    /// Pushing `value` may come to this, with `back` given back.
    spec fn takes(&self, value: B, back: Option<B>, after: Self) -> bool;

    /// Takes a value, or gives one back.
    fn push(&mut self, value: B) -> (result: Result<(), B>)
        ensures
            match result {
                Ok(_) => old(self).takes(value, None, *final(self)),
                Err(back) => old(self).takes(value, Some(back), *final(self)),
            },
    ;
}

/// A vector takes everything.
impl<B> Outlet<B> for Vec<B> {
    open spec fn takes(&self, value: B, back: Option<B>, after: Self) -> bool {
        back is None && after@ == self@.push(value)
    }

    fn push(&mut self, value: B) -> (result: Result<(), B>) {
        Vec::push(self, value);
        Ok(())
    }
}

/// A vector is given all values of a queue, in their order, and none stays behind.
pub proof fn law_vector_is_given_all<B>(
    queue: Seq<B>,
    outlet: Vec<B>,
    n: nat,
    rest: Seq<B>,
    after: Vec<B>,
)
    requires
        moves(queue, outlet, n, rest, after),
    ensures
        n == queue.len(),
        rest.len() == 0,
        after@ == outlet@ + queue,
    decreases n,
{
    if n == 0 {
        if queue.len() > 0 {
            let back = choose|back: B|
                {
                    &&& #[trigger] outlet.takes(queue[0], Some(back), after)
                    &&& rest == seq![back] + queue.skip(1)
                };
            assert(outlet.takes(queue[0], Some(back), after));
        }
        assert(outlet@ + queue =~= outlet@);
    } else {
        let mid = choose|mid: Vec<B>|
            {
                &&& #[trigger] outlet.takes(queue[0], None, mid)
                &&& moves(queue.skip(1), mid, (n - 1) as nat, rest, after)
            };
        law_vector_is_given_all(queue.skip(1), mid, (n - 1) as nat, rest, after);
        assert(outlet@ + queue =~= mid@ + queue.skip(1));
    }
}

/// `n` values are moved from a queue to an outlet, in order, until the queue is
/// empty or the outlet gives one back, which goes back to the front.
pub open spec fn moves<B, K: Outlet<B>>(
    queue: Seq<B>,
    outlet: K,
    n: nat,
    rest: Seq<B>,
    after: K,
) -> bool
    decreases n,
{
    if n == 0 {
        if queue.len() == 0 {
            rest == queue && after == outlet
        } else {
            exists|back: B|
                {
                    &&& #[trigger] outlet.takes(queue[0], Some(back), after)
                    &&& rest == seq![back] + queue.skip(1)
                }
        }
    } else {
        &&& queue.len() > 0
        &&& exists|mid: K|
            {
                &&& #[trigger] outlet.takes(queue[0], None, mid)
                &&& moves(queue.skip(1), mid, (n - 1) as nat, rest, after)
            }
    }
}

/// Values leave a port in the order in which they were handed in, and those that
/// are not taken stay in it.
pub proof fn law_moved_in_order<B, K: Outlet<B>>(
    queue: Seq<B>,
    outlet: K,
    n: nat,
    rest: Seq<B>,
    after: K,
)
    requires
        moves(queue, outlet, n, rest, after),
    ensures
        n <= queue.len(),
        rest.len() == queue.len() - n,
        rest.len() > 0 ==> rest.skip(1) == queue.skip(n as int + 1),
    decreases n,
{
    if n == 0 {
        if queue.len() > 0 {
            assert(rest.skip(1) =~= queue.skip(1));
        }
    } else {
        let mid = choose|mid: K|
            {
                &&& #[trigger] outlet.takes(queue[0], None, mid)
                &&& moves(queue.skip(1), mid, (n - 1) as nat, rest, after)
            };
        law_moved_in_order(queue.skip(1), mid, (n - 1) as nat, rest, after);
        if rest.len() > 0 {
            assert(queue.skip(1).skip(n as int) =~= queue.skip(n as int + 1));
        }
    }
}

/// An outlet that notes whether it has taken anything.
pub struct Noting<K> {
    pub outlet: K,
    pub taken: bool,
}

impl<K> Noting<K> {
    pub fn new(outlet: K) -> (noting: Self)
        ensures
            noting == (Noting { outlet, taken: false }),
    {
        Noting { outlet, taken: false }
    }
}

impl<B, K: Outlet<B>> Outlet<B> for Noting<K> {
    open spec fn takes(&self, value: B, back: Option<B>, after: Self) -> bool {
        &&& self.outlet.takes(value, back, after.outlet)
        &&& after.taken == (self.taken || back is None)
    }

    fn push(&mut self, value: B) -> (result: Result<(), B>) {
        match self.outlet.push(value) {
            Ok(_) => {
                self.taken = true;
                Ok(())
            },
            Err(back) => Err(back),
        }
    }
}

/// A noting outlet takes what the one inside it takes, and notes it exactly when at
/// least one value was moved to it.
pub proof fn law_noted_when_moved<B, K: Outlet<B>>(
    queue: Seq<B>,
    noting: Noting<K>,
    n: nat,
    rest: Seq<B>,
    after: Noting<K>,
)
    requires
        moves(queue, noting, n, rest, after),
    ensures
        moves(queue, noting.outlet, n, rest, after.outlet),
        after.taken == (noting.taken || n > 0),
    decreases n,
{
    if n == 0 {
        if queue.len() > 0 {
            let back = choose|back: B|
                {
                    &&& #[trigger] noting.takes(queue[0], Some(back), after)
                    &&& rest == seq![back] + queue.skip(1)
                };
            assert(noting.outlet.takes(queue[0], Some(back), after.outlet));
        }
    } else {
        let mid = choose|mid: Noting<K>|
            {
                &&& #[trigger] noting.takes(queue[0], None, mid)
                &&& moves(queue.skip(1), mid, (n - 1) as nat, rest, after)
            };
        law_noted_when_moved(queue.skip(1), mid, (n - 1) as nat, rest, after);
        assert(noting.outlet.takes(queue[0], None, mid.outlet));
    }
}

impl Receiver {
    pub open spec fn here<B>(self, entries: Seq<EntryView<B>>) -> bool {
        self.slot < entries.len()
    }

    pub open spec fn entry<B>(self, entries: Seq<EntryView<B>>) -> EntryView<B> {
        entries[self.slot as int]
    }

    /// Begins to take values out, if the connection is still there. Foreign code
    /// may run until the taking has come to its end.
    pub fn begin<B>(&self, port: &mut Port<B>) -> (begun: bool)
        requires
            old(port).wf(),
            self.here(old(port)@),
        ensures
            final(port).wf(),
            begun == self.entry(old(port)@).is_active(self.transaction),
            final(port)@ == with_entry(
                old(port)@,
                self.slot,
                self.entry(old(port)@).suspended(self.transaction),
            ),
    {
        Sender { slot: self.slot, transaction: self.transaction }.begin(port)
    }

    /// Takes the next value out; with none left the taking has come to its end.
    pub fn take<B>(&self, port: &mut Port<B>) -> (value: Option<B>)
        requires
            old(port).wf(),
            self.here(old(port)@),
        ensures
            final(port).wf(),
            ({
                let entry = self.entry(old(port)@);
                if entry.queue.len() > 0 {
                    &&& value == Some(entry.queue[0])
                    &&& final(port)@ == with_entry(
                        old(port)@,
                        self.slot,
                        EntryView { queue: entry.queue.skip(1), ..entry },
                    )
                } else {
                    &&& value is None
                    &&& final(port)@ == with_entry(
                        old(port)@,
                        self.slot,
                        entry.restored(self.transaction),
                    )
                }
            }),
    {
        let ghost entry = self.entry(port@);
        assert(entry.wf());
        let slot = self.slot as usize;
        let value = port.entries[slot].queue.pop_front();
        if value.is_none() {
            let _ = port.entries[slot].restore(self.transaction);
            assert(port@ =~= with_entry(
                old(port)@,
                self.slot,
                entry.restored(self.transaction),
            ));
        } else {
            assert(port.entries@[slot as int].queue@ =~= entry.queue.skip(1));
            assert(port@ =~= with_entry(
                old(port)@,
                self.slot,
                EntryView { queue: entry.queue.skip(1), ..entry },
            ));
        }
        value
    }

    /// The value was accepted. Says whether to go on: if not, the connection has
    /// moved on.
    pub fn accepted<B>(&self, port: &Port<B>) -> (go_on: bool)
        requires
            self.here(port@),
        ensures
            go_on == self.entry(port@).is_suspended(self.transaction),
    {
        port.entries[self.slot as usize].is_suspended(self.transaction)
    }

    /// The value was given back: it goes to the front again, unless the connection
    /// has moved on. The taking has come to its end.
    pub fn refused<B>(&self, port: &mut Port<B>, value: B)
        requires
            old(port).wf(),
            self.here(old(port)@),
        ensures
            final(port).wf(),
            ({
                let entry = self.entry(old(port)@);
                final(port)@ == if entry.is_suspended(self.transaction) {
                    with_entry(
                        old(port)@,
                        self.slot,
                        (EntryView { queue: seq![value] + entry.queue, ..entry }).restored(
                            self.transaction,
                        ),
                    )
                } else {
                    old(port)@
                }
            }),
    {
        let ghost entry = self.entry(port@);
        assert(entry.wf());
        let slot = self.slot as usize;
        if port.entries[slot].is_suspended(self.transaction) {
            port.entries[slot].queue.push_front(value);
            assert(port.entries@[slot as int].queue@ =~= seq![value] + entry.queue);
            let _ = port.entries[slot].restore(self.transaction);
            assert(port@ =~= with_entry(
                old(port)@,
                self.slot,
                (EntryView { queue: seq![value] + entry.queue, ..entry }).restored(
                    self.transaction,
                ),
            ));
        }
    }

    /// Takes the request to close, if there is one.
    pub fn take_close<B>(&self, port: &mut Port<B>) -> (close: bool)
        requires
            old(port).wf(),
            self.here(old(port)@),
        ensures
            final(port).wf(),
            ({
                let entry = self.entry(old(port)@);
                if entry.is_active(self.transaction) {
                    &&& close == entry.close
                    &&& final(port)@ == with_entry(
                        old(port)@,
                        self.slot,
                        EntryView { close: false, ..entry },
                    )
                } else {
                    !close && final(port)@ == old(port)@
                }
            }),
    {
        let ghost entry = self.entry(port@);
        assert(entry.wf());
        let slot = self.slot as usize;
        if port.entries[slot].is_active(self.transaction) {
            let close = port.entries[slot].close;
            port.entries[slot].close = false;
            assert(port@ =~= with_entry(
                old(port)@,
                self.slot,
                EntryView { close: false, ..entry },
            ));
            close
        } else {
            false
        }
    }

    /// Moves values to an outlet until none is left or one is given back.
    pub fn drain<B, K: Outlet<B>>(&self, port: &mut Port<B>, outlet: &mut K)
        requires
            old(port).wf(),
            self.here(old(port)@),
        ensures
            final(port).wf(),
            ({
                let entry = self.entry(old(port)@);
                let back = entry.touched(self.transaction);
                if entry.is_active(self.transaction) {
                    exists|n: nat, rest: Seq<B>|
                        {
                            &&& #[trigger] moves(
                                entry.queue,
                                *old(outlet),
                                n,
                                rest,
                                *final(outlet),
                            )
                            &&& final(port)@ == with_entry(
                                old(port)@,
                                self.slot,
                                EntryView { queue: rest, ..back },
                            )
                        }
                } else {
                    final(port)@ == old(port)@ && *final(outlet) == *old(outlet)
                }
            }),
    {
        let ghost entry = self.entry(port@);
        let ghost first = *outlet;
        if !self.begin(port) {
            assert(port@ =~= old(port)@);
            return ;
        }
        let ghost held = entry.suspended(self.transaction);
        let ghost back = held.restored(self.transaction);
        let ghost mut moved: nat = 0;
        assert(entry.queue.skip(0) =~= entry.queue);
        loop
            invariant
                port.wf(),
                entry == self.entry(old(port)@),
                self.here(old(port)@),
                first == *old(outlet),
                entry.is_active(self.transaction),
                held == entry.suspended(self.transaction),
                back == held.restored(self.transaction),
                moved <= entry.queue.len(),
                port@ == with_entry(
                    old(port)@,
                    self.slot,
                    EntryView { queue: entry.queue.skip(moved as int), ..held },
                ),
                forall|n: nat, rest: Seq<B>, after: K| #[trigger]
                    moves(entry.queue.skip(moved as int), *outlet, n, rest, after) ==> moves(
                        entry.queue,
                        first,
                        moved + n,
                        rest,
                        after,
                    ),
            decreases entry.queue.len() - moved,
        {
            let ghost queue = entry.queue.skip(moved as int);
            let ghost before = *outlet;
            match self.take(port) {
                None => {
                    proof {
                        assert(moves(queue, before, 0, queue, before));
                        assert(moves(entry.queue, first, moved, queue, *outlet));
                        assert(port@ =~= with_entry(
                            old(port)@,
                            self.slot,
                            EntryView { queue, ..back },
                        ));
                    }
                    return ;
                },
                Some(value) => {
                    assert(value == queue[0]);
                    match outlet.push(value) {
                        Ok(_) => {
                            proof {
                                let mid = *outlet;
                                assert(queue.skip(1) =~= entry.queue.skip((moved + 1) as int));
                                assert forall|n: nat, rest: Seq<B>, after: K|
                                    #[trigger] moves(
                                        entry.queue.skip((moved + 1) as int),
                                        mid,
                                        n,
                                        rest,
                                        after,
                                    ) implies moves(
                                    entry.queue,
                                    first,
                                    (moved + 1) as nat + n,
                                    rest,
                                    after,
                                ) by {
                                    assert(before.takes(queue[0], None, mid));
                                    assert(moves(queue, before, n + 1, rest, after));
                                }
                                moved = moved + 1;
                                assert(port@ =~= with_entry(
                                    old(port)@,
                                    self.slot,
                                    EntryView { queue: entry.queue.skip(moved as int), ..held },
                                ));
                            }
                        },
                        Err(value) => {
                            proof {
                                assert(before.takes(queue[0], Some(value), *outlet));
                                let rest = seq![value] + queue.skip(1);
                                assert(moves(queue, before, 0, rest, *outlet));
                                assert(moves(entry.queue, first, moved, rest, *outlet));
                            }
                            self.refused(port, value);
                            assert(port@ =~= with_entry(
                                old(port)@,
                                self.slot,
                                EntryView { queue: seq![value] + queue.skip(1), ..back },
                            ));
                            return ;
                        },
                    }
                },
            }
        }
    }
}

impl<B> Port<B> {
    /// Hands a value to a connection.
    pub fn try_enqueue(&mut self, token: Token, value: B, bytes: usize, fits: bool) -> (result:
        Result<Option<WakeRef>, B>)
        requires
            old(self).wf(),
        ensures
            final(self).wf(),
            match transaction(old(self)@, token) {
                Some(transaction) => {
                    let entry = old(self)@[token.slot as int];
                    &&& result == entry.enqueue_result(transaction, value, bytes, fits)
                    &&& final(self)@ == with_entry(
                        old(self)@,
                        token.slot,
                        entry.enqueued(transaction, value, bytes, fits),
                    )
                },
                None => {
                    &&& result == Err::<Option<WakeRef>, B>(value)
                    &&& final(self)@ == old(self)@
                },
            },
    {
        match self.sender(token) {
            Some(sender) => {
                proof {
                    let entry = self@[token.slot as int];
                    assert(entry.touched(sender.transaction) == entry);
                }
                sender.try_enqueue(self, value, bytes, fits)
            },
            None => Err(value),
        }
    }

    /// Moves what was handed to a connection to an outlet, and takes the request to
    /// close it.
    pub fn drain_requests<K: Outlet<B>>(&mut self, token: Token, outlet: &mut K) -> (requests:
        Option<Requests>)
        requires
            old(self).wf(),
        ensures
            final(self).wf(),
            match transaction(old(self)@, token) {
                Some(transaction) => {
                    let entry = old(self)@[token.slot as int];
                    &&& requests == Some(
                        Requests {
                            shutdown: None,
                            close: if entry.close {
                                Some(CloseKind::Reconnect)
                            } else {
                                None
                            },
                        },
                    )
                    &&& exists|n: nat, rest: Seq<B>|
                        {
                            &&& #[trigger] moves(
                                entry.queue,
                                *old(outlet),
                                n,
                                rest,
                                *final(outlet),
                            )
                            &&& final(self)@ == with_entry(
                                old(self)@,
                                token.slot,
                                EntryView { queue: rest, close: false, ..entry },
                            )
                        }
                },
                None => {
                    &&& requests is None
                    &&& final(self)@ == old(self)@
                    &&& *final(outlet) == *old(outlet)
                },
            },
    {
        let Some(receiver) = self.receiver(token) else {
            return None;
        };
        let ghost entry = self@[token.slot as int];
        let ghost entries = self@;
        receiver.drain(self, outlet);
        let ghost drained = self@;
        let close = if receiver.take_close(self) {
            Some(CloseKind::Reconnect)
        } else {
            None
        };
        proof {
            let (n, rest) = choose|n: nat, rest: Seq<B>|
                {
                    &&& #[trigger] moves(entry.queue, *old(outlet), n, rest, *outlet)
                    &&& drained == with_entry(
                        entries,
                        token.slot,
                        EntryView {
                            queue: rest,
                            ..entry.touched(receiver.transaction)
                        },
                    )
                };
            assert(self@ =~= with_entry(
                entries,
                token.slot,
                EntryView { queue: rest, close: false, ..entry },
            ));
        }
        Some(Requests { shutdown: None, close })
    }
}

} // verus!
