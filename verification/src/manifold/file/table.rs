//! A table of operations whose cancellations are found by a sweep.
//!
//! Unlike [`raw::table`](crate::manifold::file::raw::table), an operation may take
//! several submissions to settle, and canceling one may stop two operations of
//! the driver and give a reserved descriptor back.
use vstd::prelude::*;

use crate::collections::slab::{Slab, SlabKey, SlabView};
use crate::manifold::file::raw::table::{Operation, State};
use crate::park::WakeRef;
use crate::token::Token;

verus! {

/// What a completion calls for: the operation is over, or it goes on with another
/// submission and has `failed` if that is not taken.
pub enum CompletionAction<S, R> {
    Settle(R),
    Resubmit { submission: S, failed: R },
}

/// What the driver has to do about a completion.
pub enum Completed<S, R> {
    /// Wake the task that waits, if any.
    Settled(Option<WakeRef>),
    /// Submit again, and say whether that was taken.
    Resubmit { submission: S, failed: R },
}

/// The operations of the driver to stop for one that is canceled, and a reserved
/// descriptor to give back.
#[derive(Clone, Copy, PartialEq, Eq, Structural, Debug)]
pub struct Targets {
    pub first: Token,
    pub second: Option<Token>,
    pub release: Option<u32>,
}

impl Targets {
    pub fn one(first: Token) -> (targets: Self)
        ensures
            targets == (Targets { first, second: None, release: None }),
    {
        Targets { first, second: None, release: None }
    }

    pub fn two_releasing(first: Token, second: Token, slot: u32) -> (targets: Self)
        ensures
            targets == (Targets { first, second: Some(second), release: Some(slot) }),
    {
        Targets { first, second: Some(second), release: Some(slot) }
    }

    pub open spec fn tokens(self) -> Seq<Token> {
        match self.second {
            Some(second) => seq![self.first, second],
            None => seq![self.first],
        }
    }

    pub fn append_to(self, targets: &mut Vec<Token>)
        ensures
            final(targets)@ == old(targets)@ + self.tokens(),
    {
        targets.push(self.first);
        if let Some(second) = self.second {
            targets.push(second);
        }
        assert(targets@ =~= old(targets)@ + self.tokens());
    }

    /// The tokens to quiesce together, and the descriptor to release after that.
    pub fn quiesce(self) -> (order: (Vec<Token>, Option<u32>))
        ensures
            order.0@ == self.tokens(),
            order.1 == self.release,
    {
        let mut tokens: Vec<Token> = Vec::new();
        self.append_to(&mut tokens);
        assert(tokens@ =~= self.tokens());
        (tokens, self.release)
    }
}

/// What an operation holds on to; `E` is a completion, `S` a submission and `R` a
/// result.
pub trait Flight<E, S, R>: Sized {
    /// `event` turns `before` into `after` and calls for `action`.
    spec fn understood(before: Self, event: E, after: Self, action: CompletionAction<S, R>) -> bool;

    fn transition(&mut self, event: E) -> (action: CompletionAction<S, R>)
        ensures
            Self::understood(*old(self), event, *final(self), action),
    ;
}

/// What to stop for an operation that is canceled.
pub trait Cancel: Sized {
    spec fn spec_targets(self, token: Token) -> Targets;

    fn targets(&self, token: Token) -> (targets: Targets)
        ensures
            targets == self.spec_targets(token),
    ;
}

/// Operations of one kind, `KIND`, of the manifold with route `ID`.
pub struct OperationTable<H, R, const ID: u8, const KIND: u8> {
    entries: Slab<Operation<H, R>>,
}

pub open spec fn in_flight<H, R>(slab: SlabView<Operation<H, R>>, key: SlabKey) -> bool {
    slab.entries.contains_key(key) && !(slab.entries[key].state is Settled)
}

pub open spec fn canceling<H, R>(slab: SlabView<Operation<H, R>>, key: SlabKey) -> bool {
    slab.entries.contains_key(key) && slab.entries[key].state is CancelPending
}

/// The result of a settled operation.
pub open spec fn settled<H, R>(slab: SlabView<Operation<H, R>>, key: SlabKey) -> Option<(H, R)> {
    if slab.entries.contains_key(key) {
        match slab.entries[key].state {
            State::Settled(result) => Some((slab.entries[key].hold, result)),
            _ => None,
        }
    } else {
        None
    }
}

/// The table with the operation under `key` in another state.
pub open spec fn restated<H, R>(
    slab: SlabView<Operation<H, R>>,
    key: SlabKey,
    state: State<R>,
) -> SlabView<Operation<H, R>> {
    slab.insert(key, Operation { hold: slab.entries[key].hold, state })
}

pub open spec fn polled<H, R>(
    slab: SlabView<Operation<H, R>>,
    key: SlabKey,
    wake: WakeRef,
) -> SlabView<Operation<H, R>> {
    if !slab.entries.contains_key(key) {
        slab
    } else {
        match slab.entries[key].state {
            State::Settled(_) => slab.remove(key),
            State::CancelPending => slab,
            _ => restated(slab, key, State::Waiting(wake)),
        }
    }
}

pub open spec fn cancel_requested<H, R>(
    slab: SlabView<Operation<H, R>>,
    key: SlabKey,
) -> SlabView<Operation<H, R>> {
    if !slab.entries.contains_key(key) {
        slab
    } else {
        match slab.entries[key].state {
            State::Settled(_) => slab.remove(key),
            State::CancelPending => slab,
            _ => restated(slab, key, State::CancelPending),
        }
    }
}

/// The table without the operations to be canceled in the first `n` slots.
pub open spec fn swept<H, R>(
    slab: SlabView<Operation<H, R>>,
    n: int,
) -> SlabView<Operation<H, R>>
    decreases n,
{
    if n <= 0 {
        slab
    } else {
        let prior = swept(slab, n - 1);
        let key = slab.key_at(n - 1);
        if canceling(slab, key) {
            prior.remove(key)
        } else {
            prior
        }
    }
}

/// What to stop for the operations to be canceled in the first `n` slots.
pub open spec fn sweep_targets<H: Cancel, R>(
    slab: SlabView<Operation<H, R>>,
    route: u8,
    kind: u8,
    n: int,
) -> Seq<Targets>
    decreases n,
{
    if n <= 0 {
        Seq::empty()
    } else {
        let key = slab.key_at(n - 1);
        let prior = sweep_targets(slab, route, kind, n - 1);
        if canceling(slab, key) {
            prior.push(slab.entries[key].hold.spec_targets(Token::spec_of(route, kind, key)))
        } else {
            prior
        }
    }
}

/// The tokens of all operations in flight in the first `n` slots.
pub open spec fn flight_targets<H: Cancel, R>(
    slab: SlabView<Operation<H, R>>,
    route: u8,
    kind: u8,
    n: int,
) -> Seq<Token>
    decreases n,
{
    if n <= 0 {
        Seq::empty()
    } else {
        let key = slab.key_at(n - 1);
        let prior = flight_targets(slab, route, kind, n - 1);
        if in_flight(slab, key) {
            prior + slab.entries[key].hold.spec_targets(Token::spec_of(route, kind, key)).tokens()
        } else {
            prior
        }
    }
}

/// A sweep leaves the slots that it has not reached as they were.
proof fn lemma_swept<H, R>(slab: SlabView<Operation<H, R>>, n: int)
    requires
        slab.wf(),
        0 <= n <= slab.generations.len(),
    ensures
        swept(slab, n).generations.len() == slab.generations.len(),
        forall|k: SlabKey|
            #![trigger swept(slab, n).entries.dom().contains(k)]
            swept(slab, n).entries.contains_key(k) <==> slab.entries.contains_key(k) && !(k.index < n
                && canceling(slab, k)),
        forall|k: SlabKey|
            #![trigger swept(slab, n).entries[k]]
            swept(slab, n).entries.contains_key(k) ==> swept(slab, n).entries[k] == slab.entries[k],
        forall|i: int|
            n <= i < slab.generations.len() ==> #[trigger] swept(slab, n).generations[i]
                == slab.generations[i],
    decreases n,
{
    if n > 0 {
        lemma_swept(slab, n - 1);
        let prior = swept(slab, n - 1);
        let key = slab.key_at(n - 1);
        let after = swept(slab, n);
        assert(prior.entries.contains_key(key) == slab.entries.contains_key(key));
        assert forall|k: SlabKey|
            #![trigger after.entries.dom().contains(k)]
            after.entries.contains_key(k) <==> slab.entries.contains_key(k) && !(k.index < n
                && canceling(slab, k)) by {
            assert(prior.entries.contains_key(k) <==> slab.entries.contains_key(k) && !(k.index < n
                - 1 && canceling(slab, k)));
        }
        assert forall|k: SlabKey| #![trigger after.entries[k]] after.entries.contains_key(
            k,
        ) implies after.entries[k] == slab.entries[k] by {
            assert(prior.entries.contains_key(k));
            assert(prior.entries[k] == slab.entries[k]);
        }
        assert forall|i: int| n <= i < slab.generations.len() implies #[trigger] after.generations[i]
            == slab.generations[i] by {
            assert(prior.generations[i] == slab.generations[i]);
        }
    }
}

/// A sweep takes out exactly the operations to be canceled.
pub proof fn law_sweep_cancels_exactly<H, R>(slab: SlabView<Operation<H, R>>, key: SlabKey)
    requires
        slab.wf(),
    ensures
        swept(slab, slab.generations.len() as int).entries.contains_key(key)
            <==> slab.entries.contains_key(key) && !canceling(slab, key),
{
    lemma_swept(slab, slab.generations.len() as int);
    let after = swept(slab, slab.generations.len() as int);
    assert(after.entries.dom().contains(key) <==> slab.entries.contains_key(key) && !(key.index
        < slab.generations.len() && canceling(slab, key)));
}

/// What was done about one operation leaves all others alone.
pub open spec fn others_untouched<H, R>(
    before: SlabView<Operation<H, R>>,
    after: SlabView<Operation<H, R>>,
    key: SlabKey,
) -> bool {
    forall|other: SlabKey|
        #![trigger after.entries.contains_key(other)]
        #![trigger after.entries[other]]
        other != key ==> {
            &&& after.entries.contains_key(other) <==> before.entries.contains_key(other)
            &&& before.entries.contains_key(other) ==> after.entries[other] == before.entries[other]
        }
}

/// A poll hands out a settled operation and takes it out of the table. One in
/// flight stays, with what it holds, and the task that polled last is the one to be
/// woken, unless it is to be canceled. No other operation is touched.
pub proof fn law_poll_takes_or_waits<H, R>(
    slab: SlabView<Operation<H, R>>,
    key: SlabKey,
    wake: WakeRef,
)
    requires
        slab.wf(),
    ensures
        others_untouched(slab, polled(slab, key, wake), key),
        settled(slab, key) is Some <==> slab.entries.contains_key(key)
            && slab.entries[key].state is Settled,
        settled(slab, key) matches Some(done) ==> {
            &&& done.0 == slab.entries[key].hold
            &&& slab.entries[key].state == State::Settled(done.1)
            &&& !polled(slab, key, wake).entries.contains_key(key)
        },
        !slab.entries.contains_key(key) ==> polled(slab, key, wake) == slab,
        slab.entries.contains_key(key) && settled(slab, key) is None ==> {
            let was = slab.entries[key];
            let cur = polled(slab, key, wake).entries[key];
            &&& polled(slab, key, wake).entries.contains_key(key)
            &&& cur.hold == was.hold
            &&& was.state is CancelPending ==> cur.state is CancelPending
            &&& !(was.state is CancelPending) ==> cur.state == State::<R>::Waiting(wake)
        },
{
}

/// A request to cancel takes a settled operation out and marks one in flight, with
/// what it holds still held. No other operation is touched.
pub proof fn law_cancel_takes_or_marks<H, R>(slab: SlabView<Operation<H, R>>, key: SlabKey)
    requires
        slab.wf(),
    ensures
        others_untouched(slab, cancel_requested(slab, key), key),
        !slab.entries.contains_key(key) ==> cancel_requested(slab, key) == slab,
        slab.entries.contains_key(key) ==> {
            let was = slab.entries[key];
            let after = cancel_requested(slab, key);
            &&& after.entries.contains_key(key) <==> !(was.state is Settled)
            &&& !(was.state is Settled) ==> after.entries[key].hold == was.hold
                && after.entries[key].state is CancelPending
        },
{
}

/// A completion settles an operation with its result, or leaves it as it is until
/// the next submission is over; it does not bring back one that is to be canceled.
/// Exactly a task that waits for an operation that has settled is woken, and exactly
/// an operation that goes on and is not to be canceled is submitted again.
pub proof fn law_completion_settles_or_goes_on<S, R>(
    state: State<R>,
    action: CompletionAction<S, R>,
)
    ensures
        state is CancelPending ==> completed_state(state, action) is CancelPending
            && completed_next(state, action) == Completed::<S, R>::Settled(None),
        !(state is CancelPending) && action is Settle ==> {
            &&& completed_state(state, action) == State::Settled(action->Settle_0)
            &&& completed_next(state, action) is Settled
            &&& state is Waiting ==> completed_next(state, action)->Settled_0 == Some(
                state->Waiting_0,
            )
            &&& !(state is Waiting) ==> completed_next(state, action)->Settled_0 is None
        },
        !(state is CancelPending) && action is Resubmit ==> {
            &&& completed_state(state, action) == state
            &&& completed_next(state, action) is Resubmit
            &&& completed_next(state, action)->Resubmit_submission == action->Resubmit_submission
            &&& completed_next(state, action)->Resubmit_failed == action->Resubmit_failed
        },
{
}

/// Both tokens of an operation are stopped, the second where there is one.
pub proof fn law_all_tokens_are_stopped(targets: Targets)
    ensures
        targets.tokens().contains(targets.first),
        targets.second matches Some(second) ==> targets.tokens().contains(second),
        targets.tokens().len() == if targets.second is Some {
            2nat
        } else {
            1nat
        },
{
    assert(targets.tokens()[0] == targets.first);
    if let Some(second) = targets.second {
        assert(targets.tokens()[1] == second);
    }
}

/// An operation is in flight until it has settled, and to be canceled exactly if that
/// was asked for; one that is not in the table is neither.
pub proof fn law_in_flight_until_settled<H, R>(slab: SlabView<Operation<H, R>>, key: SlabKey)
    ensures
        !slab.entries.contains_key(key) ==> !in_flight(slab, key) && !canceling(slab, key),
        slab.entries.contains_key(key) ==> {
            &&& in_flight(slab, key) <==> slab.entries[key].state is Submitted
                || slab.entries[key].state is Waiting || slab.entries[key].state is CancelPending
            &&& canceling(slab, key) <==> slab.entries[key].state is CancelPending
        },
{
}

/// Another state is given to one operation, which keeps what it holds.
pub proof fn law_restating_keeps_the_hold<H, R>(
    slab: SlabView<Operation<H, R>>,
    key: SlabKey,
    state: State<R>,
)
    ensures
        restated(slab, key, state).entries.contains_key(key),
        restated(slab, key, state).entries[key].state == state,
        restated(slab, key, state).entries[key].hold == slab.entries[key].hold,
        others_untouched(slab, restated(slab, key, state), key),
{
}

/// Nothing is stopped but for operations that are to be canceled, one after the other
/// in the order of their slots.
pub proof fn law_only_the_canceled_are_stopped<H: Cancel, R>(
    slab: SlabView<Operation<H, R>>,
    route: u8,
    kind: u8,
    n: int,
    i: int,
) -> (key: SlabKey)
    requires
        slab.wf(),
        0 <= n <= slab.generations.len(),
        0 <= i < sweep_targets(slab, route, kind, n).len(),
    ensures
        slab.entries.contains_key(key),
        slab.entries[key].state is CancelPending,
        i <= key.index < n,
        sweep_targets(slab, route, kind, n)[i] == slab.entries[key].hold.spec_targets(
            Token::spec_of(route, kind, key),
        ),
        sweep_targets(slab, route, kind, n).len() <= n,
    decreases n,
{
    let prior = sweep_targets(slab, route, kind, n - 1);
    lemma_swept_at_most(slab, route, kind, n - 1);
    if i < prior.len() {
        law_only_the_canceled_are_stopped(slab, route, kind, n - 1, i)
    } else {
        slab.key_at(n - 1)
    }
}

proof fn lemma_swept_at_most<H: Cancel, R>(
    slab: SlabView<Operation<H, R>>,
    route: u8,
    kind: u8,
    n: int,
)
    requires
        0 <= n,
    ensures
        sweep_targets(slab, route, kind, n).len() <= n,
    decreases n,
{
    if n > 0 {
        lemma_swept_at_most(slab, route, kind, n - 1);
    }
}

/// No token is stopped but those of operations in flight.
pub proof fn law_only_those_in_flight_are_stopped<H: Cancel, R>(
    slab: SlabView<Operation<H, R>>,
    route: u8,
    kind: u8,
    n: int,
    i: int,
) -> (key: SlabKey)
    requires
        slab.wf(),
        0 <= n <= slab.generations.len(),
        0 <= i < flight_targets(slab, route, kind, n).len(),
    ensures
        slab.entries.contains_key(key),
        !(slab.entries[key].state is Settled),
        key.index < n,
        slab.entries[key].hold.spec_targets(Token::spec_of(route, kind, key)).tokens().contains(
            flight_targets(slab, route, kind, n)[i],
        ),
    decreases n,
{
    let prior = flight_targets(slab, route, kind, n - 1);
    if i < prior.len() {
        law_only_those_in_flight_are_stopped(slab, route, kind, n - 1, i)
    } else {
        let key = slab.key_at(n - 1);
        let own = slab.entries[key].hold.spec_targets(Token::spec_of(route, kind, key)).tokens();
        assert(flight_targets(slab, route, kind, n) == prior + own);
        assert(own[i - prior.len()] == flight_targets(slab, route, kind, n)[i]);
        key
    }
}

/// Something is stopped for every operation to be canceled in the slots looked at.
pub proof fn law_every_canceled_is_stopped<H: Cancel, R>(
    slab: SlabView<Operation<H, R>>,
    route: u8,
    kind: u8,
    n: int,
    key: SlabKey,
)
    requires
        slab.wf(),
        0 <= n <= slab.generations.len(),
        slab.entries.contains_key(key),
        slab.entries[key].state is CancelPending,
        key.index < n,
    ensures
        sweep_targets(slab, route, kind, n).contains(
            slab.entries[key].hold.spec_targets(Token::spec_of(route, kind, key)),
        ),
    decreases n,
{
    let all = sweep_targets(slab, route, kind, n);
    let prior = sweep_targets(slab, route, kind, n - 1);
    let wanted = slab.entries[key].hold.spec_targets(Token::spec_of(route, kind, key));
    if key.index == n - 1 {
        assert(key == slab.key_at(n - 1));
        assert(all[all.len() - 1] == wanted);
    } else {
        law_every_canceled_is_stopped(slab, route, kind, n - 1, key);
        let i = choose|i: int| 0 <= i < prior.len() && prior[i] == wanted;
        assert(all[i] == wanted);
    }
}

/// Every token of every operation in flight in the slots looked at is stopped.
pub proof fn law_every_one_in_flight_is_stopped<H: Cancel, R>(
    slab: SlabView<Operation<H, R>>,
    route: u8,
    kind: u8,
    n: int,
    key: SlabKey,
    token: Token,
)
    requires
        slab.wf(),
        0 <= n <= slab.generations.len(),
        slab.entries.contains_key(key),
        !(slab.entries[key].state is Settled),
        key.index < n,
        slab.entries[key].hold.spec_targets(Token::spec_of(route, kind, key)).tokens().contains(
            token,
        ),
    ensures
        flight_targets(slab, route, kind, n).contains(token),
    decreases n,
{
    let all = flight_targets(slab, route, kind, n);
    let prior = flight_targets(slab, route, kind, n - 1);
    if key.index == n - 1 {
        assert(key == slab.key_at(n - 1));
        let own = slab.entries[key].hold.spec_targets(Token::spec_of(route, kind, key)).tokens();
        let i = choose|i: int| 0 <= i < own.len() && own[i] == token;
        assert(all[prior.len() + i] == token);
    } else {
        law_every_one_in_flight_is_stopped(slab, route, kind, n - 1, key, token);
        let i = choose|i: int| 0 <= i < prior.len() && prior[i] == token;
        assert(all[i] == token);
    }
}

/// A canceled operation yields no result any more.
pub proof fn law_canceled_yields_nothing<H, R>(slab: SlabView<Operation<H, R>>, key: SlabKey)
    requires
        slab.wf(),
    ensures
        settled(cancel_requested(slab, key), key) is None,
{
}

impl<H, R, const ID: u8, const KIND: u8> View for OperationTable<H, R, ID, KIND> {
    type V = SlabView<Operation<H, R>>;

    closed spec fn view(&self) -> SlabView<Operation<H, R>> {
        self.entries@
    }
}

impl<H, R, const ID: u8, const KIND: u8> OperationTable<H, R, ID, KIND> {
    pub closed spec fn wf(self) -> bool {
        self.entries.wf()
    }

    pub fn with_capacity(capacity: usize) -> (table: Self)
        requires
            capacity <= 0x0100_0000,
        ensures
            table.wf(),
            table@ == (SlabView::<Operation<H, R>> {
                entries: Map::empty(),
                generations: Seq::new(capacity as nat, |i: int| 1u32),
                retired: Set::empty(),
            }),
    {
        OperationTable { entries: Slab::with_capacity(capacity) }
    }

    pub fn is_empty(&self) -> (empty: bool)
        requires
            self.wf(),
        ensures
            empty == self@.is_idle(),
    {
        self.entries.is_empty()
    }

    /// Enters an operation that is about to be submitted; gives `hold` back when
    /// there is no room.
    pub fn begin(&mut self, hold: H) -> (token: Result<Token, H>)
        requires
            old(self).wf(),
        ensures
            final(self).wf(),
            match token {
                Ok(t) => {
                    &&& t.spec_parts(ID, KIND) matches Some(key) && old(self)@.vacant(key)
                        && final(self)@ == old(self)@.insert(
                        key,
                        Operation { hold, state: State::Submitted },
                    )
                },
                Err(h) => h == hold && old(self)@.full() && final(self)@ == old(self)@,
            },
    {
        match self.entries.insert(Operation { hold, state: State::Submitted }) {
            Ok(key) => Ok(Token::of(ID, KIND, key)),
            Err(operation) => Err(operation.hold),
        }
    }

    /// Takes back an operation that the driver did not take.
    pub fn remove(&mut self, token: Token) -> (hold: Option<H>)
        requires
            old(self).wf(),
        ensures
            final(self).wf(),
            match token.spec_parts(ID, KIND) {
                Some(key) => {
                    &&& final(self)@ == old(self)@.remove(key)
                    &&& hold == if old(self)@.entries.contains_key(key) {
                        Some(old(self)@.entries[key].hold)
                    } else {
                        None
                    }
                },
                None => hold is None && final(self)@ == old(self)@,
            },
    {
        match token.parts(ID, KIND) {
            Some(key) => match self.entries.remove(key) {
                Some(operation) => Some(operation.hold),
                None => None,
            },
            None => None,
        }
    }

    pub fn poll(&mut self, token: Token, wake: WakeRef) -> (done: Option<(H, R)>)
        requires
            old(self).wf(),
        ensures
            final(self).wf(),
            match token.spec_parts(ID, KIND) {
                Some(key) => {
                    &&& final(self)@ == polled(old(self)@, key, wake)
                    &&& done == settled(old(self)@, key)
                },
                None => done is None && final(self)@ == old(self)@,
            },
    {
        let key = match token.parts(ID, KIND) {
            Some(key) => key,
            None => {
                return None;
            },
        };
        let ghost view = self@;
        let over = match self.entries.get_mut(key) {
            Some(operation) => match operation.state {
                State::Settled(_) => true,
                State::Submitted | State::Waiting(_) => {
                    operation.state = State::Waiting(wake);
                    false
                },
                State::CancelPending => false,
            },
            None => false,
        };
        proof {
            assert(view.entries.contains_key(key) ==> (view.entries[key].state is Settled
                || view.entries[key].state is CancelPending) ==> self@ =~= view);
        }
        if !over {
            return None;
        }
        match self.entries.remove(key) {
            Some(operation) => match operation.state {
                State::Settled(result) => Some((operation.hold, result)),
                State::Submitted | State::Waiting(_) | State::CancelPending => None,
            },
            None => None,
        }
    }

    /// Asks for an operation to be canceled; one that has settled is over at once
    /// and what it held is returned.
    pub fn request_cancel(&mut self, token: Token) -> (hold: Option<H>)
        requires
            old(self).wf(),
        ensures
            final(self).wf(),
            match token.spec_parts(ID, KIND) {
                Some(key) => {
                    &&& final(self)@ == cancel_requested(old(self)@, key)
                    &&& hold == match settled(old(self)@, key) {
                        Some((h, _)) => Some(h),
                        None => None,
                    }
                },
                None => hold is None && final(self)@ == old(self)@,
            },
    {
        let key = match token.parts(ID, KIND) {
            Some(key) => key,
            None => {
                return None;
            },
        };
        let ghost view = self@;
        let over = match self.entries.get_mut(key) {
            Some(operation) => match operation.state {
                State::Submitted | State::Waiting(_) => {
                    operation.state = State::CancelPending;
                    false
                },
                State::CancelPending => false,
                State::Settled(_) => true,
            },
            None => false,
        };
        proof {
            assert(view.entries.contains_key(key) ==> (view.entries[key].state is Settled
                || view.entries[key].state is CancelPending) ==> self@ =~= view);
        }
        if !over {
            return None;
        }
        match self.entries.remove(key) {
            Some(operation) => Some(operation.hold),
            None => None,
        }
    }

    /// The tokens to stop for all operations in flight, in the order of their
    /// slots, added to `targets`.
    pub fn append_targets(&self, targets: &mut Vec<Token>) where H: Cancel
        requires
            self.wf(),
        ensures
            final(targets)@ == old(targets)@ + flight_targets(
                self@,
                ID,
                KIND,
                self@.generations.len() as int,
            ),
    {
        let capacity = self.entries.capacity();
        let mut index: usize = 0;
        assert(targets@ =~= old(targets)@ + flight_targets(self@, ID, KIND, 0));
        while index < capacity
            invariant
                self.wf(),
                index <= capacity == self@.generations.len(),
                targets@ == old(targets)@ + flight_targets(self@, ID, KIND, index as int),
            decreases capacity - index,
        {
            if let Some(key) = self.entries.key_of(index) {
                if let Some(operation) = self.entries.get(key) {
                    match operation.state {
                        State::Submitted | State::Waiting(_) | State::CancelPending => {
                            operation.hold.targets(Token::of(ID, KIND, key)).append_to(targets);
                        },
                        State::Settled(_) => {},
                    }
                }
            }
            index += 1;
            assert(targets@ =~= old(targets)@ + flight_targets(self@, ID, KIND, index as int));
        }
    }

    /// Takes all operations to be canceled out of the table, in the order of their
    /// slots, and returns what to stop for each.
    pub fn flush_cancellations(&mut self) -> (stopped: Vec<Targets>) where H: Cancel
        requires
            old(self).wf(),
        ensures
            final(self).wf(),
            final(self)@ == swept(old(self)@, old(self)@.generations.len() as int),
            stopped@ == sweep_targets(
                old(self)@,
                ID,
                KIND,
                old(self)@.generations.len() as int,
            ),
    {
        let ghost view = self@;
        proof {
            self.entries.lemma_view_wf();
        }
        let mut stopped: Vec<Targets> = Vec::new();
        let capacity = self.entries.capacity();
        let mut index: usize = 0;
        while index < capacity
            invariant
                self.wf(),
                view == old(self)@,
                view.wf(),
                index <= capacity == view.generations.len(),
                self@ == swept(view, index as int),
                stopped@ == sweep_targets(view, ID, KIND, index as int),
            decreases capacity - index,
        {
            proof {
                lemma_swept(view, index as int);
                let key = view.key_at(index as int);
                assert(self@.generations[index as int] == view.generations[index as int]);
                assert(self@.entries.dom().contains(key) <==> view.entries.contains_key(key));
                assert(self@.entries.contains_key(key) ==> self@.entries[key] == view.entries[key]);
            }
            if let Some(key) = self.entries.key_of(index) {
                let pending = match self.entries.get(key) {
                    Some(operation) => match operation.state {
                        State::CancelPending => Some(
                            operation.hold.targets(Token::of(ID, KIND, key)),
                        ),
                        State::Submitted | State::Waiting(_) | State::Settled(_) => None,
                    },
                    None => None,
                };
                if let Some(targets) = pending {
                    stopped.push(targets);
                    let _ = self.entries.remove(key);
                }
            }
            index += 1;
        }
        stopped
    }

    /// Takes in a completion. Where it calls for another submission, the driver is
    /// to make it and to say so by [`OperationTable::resubmitted`].
    pub fn complete<E, S>(&mut self, token: Token, event: E) -> (next: Completed<S, R>) where
        H: Flight<E, S, R>,

        requires
            old(self).wf(),
        ensures
            final(self).wf(),
            match token.spec_parts(ID, KIND) {
                Some(key) => if in_flight(old(self)@, key) {
                    let before = old(self)@.entries[key];
                    exists|hold: H, action: CompletionAction<S, R>|
                        {
                            &&& #[trigger] H::understood(before.hold, event, hold, action)
                            &&& final(self)@ == old(self)@.insert(
                                key,
                                Operation { hold, state: completed_state(before.state, action) },
                            )
                            &&& next == completed_next(before.state, action)
                        }
                } else {
                    next == Completed::<S, R>::Settled(None) && final(self)@ == old(self)@
                },
                None => next == Completed::<S, R>::Settled(None) && final(self)@ == old(self)@,
            },
    {
        let key = match token.parts(ID, KIND) {
            Some(key) => key,
            None => {
                return Completed::Settled(None);
            },
        };
        let ghost view = self@;
        let ghost mut called: Option<CompletionAction<S, R>> = None;
        let next = match self.entries.get_mut(key) {
            Some(operation) => {
                let registered = match operation.state {
                    State::Waiting(registered) => Some(registered),
                    State::Submitted | State::CancelPending | State::Settled(_) => None,
                };
                match operation.state {
                    State::CancelPending => {
                        let action = operation.hold.transition(event);
                        proof {
                            called = Some(action);
                        }
                        Completed::Settled(None)
                    },
                    State::Settled(_) => Completed::Settled(None),
                    State::Submitted | State::Waiting(_) => {
                        let action = operation.hold.transition(event);
                        proof {
                            called = Some(action);
                        }
                        match action {
                            CompletionAction::Settle(result) => {
                                operation.state = State::Settled(result);
                                Completed::Settled(registered)
                            },
                            CompletionAction::Resubmit { submission, failed } => {
                                Completed::Resubmit { submission, failed }
                            },
                        }
                    },
                }
            },
            None => Completed::Settled(None),
        };
        proof {
            if in_flight(view, key) {
                let before = view.entries[key];
                let hold = self@.entries[key].hold;
                assert(H::understood(before.hold, event, hold, called->0));
                assert(self@ =~= view.insert(
                    key,
                    Operation { hold, state: completed_state(before.state, called->0) },
                ));
            } else if view.entries.contains_key(key) {
                assert(self@ =~= view);
            }
        }
        next
    }

    /// Takes in whether another submission was taken: if not, the operation has
    /// failed.
    pub fn resubmitted(&mut self, token: Token, failed: R, pushed: bool) -> (woken: Option<WakeRef>)
        requires
            old(self).wf(),
        ensures
            final(self).wf(),
            match token.spec_parts(ID, KIND) {
                Some(key) => if !pushed && in_flight(old(self)@, key) && !canceling(
                    old(self)@,
                    key,
                ) {
                    &&& final(self)@ == restated(old(self)@, key, State::Settled(failed))
                    &&& woken == match old(self)@.entries[key].state {
                        State::Waiting(wake) => Some(wake),
                        _ => None,
                    }
                } else {
                    woken is None && final(self)@ == old(self)@
                },
                None => woken is None && final(self)@ == old(self)@,
            },
    {
        if pushed {
            return None;
        }
        let key = match token.parts(ID, KIND) {
            Some(key) => key,
            None => {
                return None;
            },
        };
        let ghost view = self@;
        let woken = match self.entries.get_mut(key) {
            Some(operation) => match operation.state {
                State::Submitted => {
                    operation.state = State::Settled(failed);
                    None
                },
                State::Waiting(registered) => {
                    operation.state = State::Settled(failed);
                    Some(registered)
                },
                State::CancelPending | State::Settled(_) => None,
            },
            None => None,
        };
        proof {
            if view.entries.contains_key(key) && (canceling(view, key) || !in_flight(view, key)) {
                assert(self@ =~= view);
            }
        }
        woken
    }
}

/// Where an operation stands after a completion that called for `action`.
pub open spec fn completed_state<S, R>(state: State<R>, action: CompletionAction<S, R>) -> State<R> {
    match (state, action) {
        (State::CancelPending, _) => State::CancelPending,
        (_, CompletionAction::Settle(result)) => State::Settled(result),
        (_, CompletionAction::Resubmit { .. }) => state,
    }
}

/// What the driver has to do about a completion that called for `action`.
pub open spec fn completed_next<S, R>(
    state: State<R>,
    action: CompletionAction<S, R>,
) -> Completed<S, R> {
    match (state, action) {
        (State::CancelPending, _) => Completed::Settled(None),
        (State::Waiting(wake), CompletionAction::Settle(_)) => Completed::Settled(Some(wake)),
        (_, CompletionAction::Settle(_)) => Completed::Settled(None),
        (_, CompletionAction::Resubmit { submission, failed }) => Completed::Resubmit {
            submission,
            failed,
        },
    }
}

} // verus!
