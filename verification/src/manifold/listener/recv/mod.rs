//! Received bytes that do not make up a request yet.
//!
//! [`State`] takes the size of a body as its request declares it;
//! [`state::State`] knows heads and bodies only, and keeps a backlog.
use vstd::prelude::*;

pub mod state;

use crate::collections::accumulator::Accumulator;

verus! {

#[derive(Clone, Copy, PartialEq, Eq, Structural, Debug)]
pub enum ExtendOutcome {
    Accepted,
    Overrun,
}

/// The abstract value of a [`State`] or a [`state::State`].
pub struct RecvView {
    /// The bytes, if any are being kept.
    pub accumulated: Option<Seq<u8>>,
    /// Nothing is to be received for now.
    pub frozen: bool,
    /// How many bytes a request may take up.
    pub limit: nat,
}

impl RecvView {
    pub open spec fn bytes(self) -> Seq<u8> {
        match self.accumulated {
            Some(bytes) => bytes,
            None => Seq::empty(),
        }
    }

    pub open spec fn with_limit(self, limit: nat) -> Self {
        RecvView { limit, ..self }
    }

    /// `src` fits within `limit` and the hard cap.
    pub open spec fn fits(self, src: Seq<u8>, limit: nat, hard_cap: nat) -> bool {
        self.bytes().len() + src.len() <= limit && self.bytes().len() + src.len() <= hard_cap
    }

    /// The state after `src` has been added, if it fits; the bytes are kept from
    /// now on in any case.
    pub open spec fn extended(self, src: Seq<u8>, limit: nat, hard_cap: nat) -> Self {
        RecvView {
            accumulated: Some(
                if self.fits(src, limit, hard_cap) {
                    self.bytes() + src
                } else {
                    self.bytes()
                },
            ),
            ..self
        }
    }

    /// The state after the first `amount` bytes have been used up.
    pub open spec fn advanced(self, amount: nat) -> Self {
        match self.accumulated {
            Some(bytes) => RecvView {
                accumulated: if bytes.len() == amount {
                    None
                } else {
                    Some(bytes.skip(amount as int))
                },
                ..self
            },
            None => self,
        }
    }
}

/// Once a body is permitted, what fits is bounded by the hard cap alone; bytes
/// that wait are bounded by it whatever the limit is.
pub proof fn law_limits_are_independent(recv: RecvView, src: Seq<u8>, head_cap: nat, hard_cap: nat)
    ensures
        (RecvView { limit: hard_cap, ..recv }).fits(src, hard_cap, hard_cap) <==> recv.bytes().len()
            + src.len() <= hard_cap,
        recv.extended(src, hard_cap, hard_cap) == (RecvView { limit: head_cap, ..recv }).extended(
            src,
            hard_cap,
            hard_cap,
        ).with_limit(recv.limit),
{
}

/// Bytes come out in the order in which they went in: using up what was there
/// before leaves exactly what was added.
pub proof fn law_first_in_first_out(recv: RecvView, src: Seq<u8>, limit: nat, hard_cap: nat)
    requires
        recv.fits(src, limit, hard_cap),
        src.len() > 0,
    ensures
        recv.extended(src, limit, hard_cap).advanced(recv.bytes().len()).bytes() == src,
{
    assert((recv.bytes() + src).skip(recv.bytes().len() as int) =~= src);
}

/// The limit for a request whose body is declared to be `declared` bytes long.
pub open spec fn body_limit(declared: usize, head_cap: usize, hard_cap: usize) -> usize {
    let bounded = if declared < hard_cap {
        declared
    } else {
        hard_cap
    };
    if bounded < head_cap {
        head_cap
    } else {
        bounded
    }
}

/// Whatever is declared, a request may take up a head's worth of bytes, and no
/// more than the larger of the two caps.
pub proof fn law_body_limit_is_bounded(declared: usize, head_cap: usize, hard_cap: usize)
    ensures
        head_cap <= body_limit(declared, head_cap, hard_cap),
        body_limit(declared, head_cap, hard_cap) <= head_cap || body_limit(
            declared,
            head_cap,
            hard_cap,
        ) <= hard_cap,
        head_cap <= declared <= hard_cap ==> body_limit(declared, head_cap, hard_cap) == declared,
{
}

/// Whatever is declared, the limit is what is declared where that lies between the
/// caps, and else the cap that it lies beyond; where a head may take up more than the
/// hard cap, it is what a head may take up.
pub proof fn law_body_limit_is_what_is_declared(declared: usize, head_cap: usize, hard_cap: usize)
    ensures
        declared <= head_cap ==> body_limit(declared, head_cap, hard_cap) == head_cap,
        hard_cap <= head_cap ==> body_limit(declared, head_cap, hard_cap) == head_cap,
        head_cap <= hard_cap <= declared ==> body_limit(declared, head_cap, hard_cap) == hard_cap,
{
}

/// Bytes are added behind those that wait exactly if all together stay within both
/// limits; else none of them is, and none of those that wait is lost.
pub proof fn law_added_in_full_or_not_at_all(
    recv: RecvView,
    src: Seq<u8>,
    limit: nat,
    hard_cap: nat,
)
    ensures
        ({
            let was = match recv.accumulated {
                Some(bytes) => bytes,
                None => Seq::empty(),
            };
            let after = recv.extended(src, limit, hard_cap);
            &&& recv.fits(src, limit, hard_cap) <==> was.len() + src.len() <= limit && was.len()
                + src.len() <= hard_cap
            &&& after.accumulated is Some
            &&& recv.fits(src, limit, hard_cap) ==> after.accumulated->0 == was + src
            &&& !recv.fits(src, limit, hard_cap) ==> after.accumulated->0 == was
            &&& after.frozen == recv.frozen
            &&& after.limit == recv.limit
        }),
{
}

/// Using up bytes takes them from the front; when all are used up none are kept any
/// more.
pub proof fn law_used_up_from_the_front(recv: RecvView, amount: nat)
    requires
        recv.accumulated matches Some(bytes) ==> amount <= bytes.len(),
    ensures
        recv.advanced(amount).frozen == recv.frozen,
        recv.advanced(amount).limit == recv.limit,
        recv.accumulated is None ==> recv.advanced(amount).accumulated is None,
        recv.accumulated matches Some(bytes) ==> {
            &&& recv.advanced(amount).accumulated is None <==> amount == bytes.len()
            &&& bytes == bytes.take(amount as int) + recv.advanced(amount).bytes()
        },
{
    if let Some(bytes) = recv.accumulated {
        assert(bytes =~= bytes.take(amount as int) + recv.advanced(amount).bytes());
    }
}

/// The bytes of a connection that wait for the rest of a request.
pub struct State<const HEAD_CAP: usize, const HARD_CAP: usize> {
    accum: Option<Accumulator<HARD_CAP>>,
    frozen: bool,
    limit: usize,
}

impl<const HEAD_CAP: usize, const HARD_CAP: usize> View for State<HEAD_CAP, HARD_CAP> {
    type V = RecvView;

    closed spec fn view(&self) -> RecvView {
        RecvView {
            accumulated: match self.accum {
                Some(accum) => Some(accum@),
                None => None,
            },
            frozen: self.frozen,
            limit: self.limit as nat,
        }
    }
}

impl<const HEAD_CAP: usize, const HARD_CAP: usize> Default for State<HEAD_CAP, HARD_CAP> {
    fn default() -> (state: Self)
        ensures
            HARD_CAP <= u32::MAX ==> state.wf(),
            state@ == (RecvView { accumulated: None, frozen: false, limit: HEAD_CAP as nat }),
    {
        State { accum: None, frozen: false, limit: HEAD_CAP }
    }
}

impl<const HEAD_CAP: usize, const HARD_CAP: usize> State<HEAD_CAP, HARD_CAP> {
    /// The hard cap is one that a buffer can have, and is kept.
    pub closed spec fn wf(self) -> bool {
        &&& HARD_CAP <= u32::MAX
        &&& self.accum matches Some(accum) ==> accum.wf()
    }

    pub fn freeze(&mut self)
        requires
            old(self).wf(),
        ensures
            final(self).wf(),
            final(self)@ == (RecvView { frozen: true, ..old(self)@ }),
    {
        self.frozen = true;
    }

    pub fn unfreeze(&mut self)
        requires
            old(self).wf(),
        ensures
            final(self).wf(),
            final(self)@ == (RecvView { frozen: false, ..old(self)@ }),
    {
        self.frozen = false;
    }

    pub fn is_frozen(&self) -> (frozen: bool)
        ensures
            frozen == self@.frozen,
    {
        self.frozen
    }

    /// Lets a request take up as much as it declares, within the caps.
    pub fn set_body_limit(&mut self, declared: usize)
        requires
            old(self).wf(),
        ensures
            final(self).wf(),
            final(self)@ == old(self)@.with_limit(body_limit(declared, HEAD_CAP, HARD_CAP) as nat),
    {
        let bounded = if declared < HARD_CAP {
            declared
        } else {
            HARD_CAP
        };
        self.limit = if bounded < HEAD_CAP {
            HEAD_CAP
        } else {
            bounded
        };
    }

    pub fn reset_limit(&mut self)
        requires
            old(self).wf(),
        ensures
            final(self).wf(),
            final(self)@ == old(self)@.with_limit(HEAD_CAP as nat),
    {
        self.limit = HEAD_CAP;
    }

    fn extend_capped(
        accum: &mut Accumulator<HARD_CAP>,
        src: &[u8],
        limit: usize,
    ) -> (outcome: ExtendOutcome)
        requires
            old(accum).wf(),
        ensures
            final(accum).wf(),
            ({
                let fits = old(accum)@.len() + src@.len() <= limit && old(accum)@.len() + src@.len()
                    <= HARD_CAP;
                &&& outcome == if fits {
                    ExtendOutcome::Accepted
                } else {
                    ExtendOutcome::Overrun
                }
                &&& final(accum)@ == if fits {
                    old(accum)@ + src@
                } else {
                    old(accum)@
                }
            }),
    {
        if src.len() > limit || accum.len() > limit - src.len() {
            return ExtendOutcome::Overrun;
        }
        if accum.extend(src) {
            ExtendOutcome::Accepted
        } else {
            ExtendOutcome::Overrun
        }
    }

    /// Starts keeping bytes, if none are being kept yet.
    fn start(&mut self)
        requires
            old(self).wf(),
        ensures
            final(self).wf(),
            final(self).accum is Some,
            final(self)@ == (RecvView { accumulated: Some(old(self)@.bytes()), ..old(self)@ }),
    {
        if self.accum.is_none() {
            self.accum = Some(Accumulator::with_capacity(0));
        }
    }

    /// Adds bytes of the request that is being received.
    pub fn extend_accum(&mut self, src: &[u8]) -> (outcome: ExtendOutcome)
        requires
            old(self).wf(),
        ensures
            final(self).wf(),
            final(self)@ == old(self)@.extended(src@, old(self)@.limit, HARD_CAP as nat),
            outcome == if old(self)@.fits(src@, old(self)@.limit, HARD_CAP as nat) {
                ExtendOutcome::Accepted
            } else {
                ExtendOutcome::Overrun
            },
    {
        let limit = self.limit;
        self.start();
        match &mut self.accum {
            Some(accum) => Self::extend_capped(accum, src, limit),
            None => ExtendOutcome::Accepted,
        }
    }

    /// Adds bytes if any are being kept.
    pub fn extend_existing(&mut self, src: &[u8]) -> (outcome: ExtendOutcome)
        requires
            old(self).wf(),
        ensures
            final(self).wf(),
            if old(self)@.accumulated is Some {
                &&& final(self)@ == old(self)@.extended(src@, old(self)@.limit, HARD_CAP as nat)
                &&& outcome == if old(self)@.fits(src@, old(self)@.limit, HARD_CAP as nat) {
                    ExtendOutcome::Accepted
                } else {
                    ExtendOutcome::Overrun
                }
            } else {
                outcome == ExtendOutcome::Accepted && final(self)@ == old(self)@
            },
    {
        let limit = self.limit;
        match &mut self.accum {
            Some(accum) => Self::extend_capped(accum, src, limit),
            None => ExtendOutcome::Accepted,
        }
    }

    /// Makes room for `target` bytes in all, unless the hard cap forbids it.
    pub fn reserve_accum(&mut self, target: usize) -> (reserved: bool)
        requires
            old(self).wf(),
        ensures
            final(self).wf(),
            reserved <==> target <= HARD_CAP,
            final(self)@ == (RecvView { accumulated: Some(old(self)@.bytes()), ..old(self)@ }),
    {
        self.start();
        match &mut self.accum {
            Some(accum) => accum.reserve_to(target),
            None => false,
        }
    }
}

} // verus!
