//! Received bytes with separate limits for heads and bodies.
use vstd::prelude::*;

use crate::collections::accumulator;
use crate::collections::accumulator::Accumulator;
use crate::manifold::listener::recv::{ExtendOutcome, RecvView};

verus! {

pub const INITIAL_CAPACITY: usize = 16384;

/// The bytes of a connection that wait for the rest of a request: at most
/// `HEAD_CAP` of a head, and `HARD_CAP` in any case.
pub struct State<const HEAD_CAP: usize, const HARD_CAP: usize> {
    accumulator: Option<Accumulator<HARD_CAP>>,
    frozen: bool,
    limit: usize,
}

impl<const HEAD_CAP: usize, const HARD_CAP: usize> View for State<HEAD_CAP, HARD_CAP> {
    type V = RecvView;

    closed spec fn view(&self) -> RecvView {
        RecvView {
            accumulated: match self.accumulator {
                Some(accumulator) => Some(accumulator@),
                None => None,
            },
            frozen: self.frozen,
            limit: self.limit as nat,
        }
    }
}

impl<const HEAD_CAP: usize, const HARD_CAP: usize> Default for State<HEAD_CAP, HARD_CAP> {
    fn default() -> (state: Self)
        ensures
            HARD_CAP <= u32::MAX ==> state.wf(),
            state@ == (RecvView { accumulated: None, frozen: false, limit: HEAD_CAP as nat }),
    {
        State { accumulator: None, frozen: false, limit: HEAD_CAP }
    }
}

impl<const HEAD_CAP: usize, const HARD_CAP: usize> State<HEAD_CAP, HARD_CAP> {
    /// The hard cap is one that a buffer can have, and is kept.
    pub closed spec fn wf(self) -> bool {
        &&& HARD_CAP <= u32::MAX
        &&& self.accumulator matches Some(accumulator) ==> accumulator.wf()
        &&& self.limit == HEAD_CAP || self.limit == HARD_CAP
    }

    pub fn freeze(&mut self)
        requires
            old(self).wf(),
        ensures
            final(self).wf(),
            final(self)@ == (RecvView { frozen: true, ..old(self)@ }),
    {
        self.frozen = true;
    }

    pub fn unfreeze(&mut self)
        requires
            old(self).wf(),
        ensures
            final(self).wf(),
            final(self)@ == (RecvView { frozen: false, ..old(self)@ }),
    {
        self.frozen = false;
    }

    pub fn is_frozen(&self) -> (frozen: bool)
        ensures
            frozen == self@.frozen,
    {
        self.frozen
    }

    pub fn is_accumulating(&self) -> (accumulating: bool)
        ensures
            accumulating == self@.accumulated is Some,
    {
        self.accumulator.is_some()
    }

    /// Lets a request take up as much as the hard cap allows.
    pub fn permit_body(&mut self)
        requires
            old(self).wf(),
        ensures
            final(self).wf(),
            final(self)@ == (RecvView { limit: HARD_CAP as nat, ..old(self)@ }),
    {
        self.limit = HARD_CAP;
    }

    /// Lets a request take up no more than a head may.
    pub fn restrict_to_head(&mut self)
        requires
            old(self).wf(),
        ensures
            final(self).wf(),
            final(self)@ == (RecvView { limit: HEAD_CAP as nat, ..old(self)@ }),
    {
        self.limit = HEAD_CAP;
    }

    pub fn clear(&mut self)
        requires
            old(self).wf(),
        ensures
            final(self).wf(),
            final(self)@ == (RecvView { accumulated: None, ..old(self)@ }),
    {
        self.accumulator = None;
    }

    /// The bytes that wait, if there are any.
    pub fn snapshot(&self) -> (shared: Option<o3::buffer::Shared>)
        ensures
            match shared {
                Some(s) => self@.bytes().len() > 0 && accumulator::shared_bytes(s) == self@.bytes(),
                None => self@.bytes().len() == 0,
            },
    {
        match &self.accumulator {
            Some(accumulator) => accumulator.snapshot(),
            None => None,
        }
    }

    /// Uses up the first `amount` bytes.
    pub fn advance(&mut self, amount: usize)
        requires
            old(self).wf(),
            old(self)@.accumulated is Some ==> amount <= old(self)@.bytes().len(),
        ensures
            final(self).wf(),
            final(self)@ == old(self)@.advanced(amount as nat),
    {
        let empty = match &mut self.accumulator {
            Some(accumulator) => {
                let _ = accumulator.advance(amount);
                if accumulator.len() == 0 {
                    true
                } else {
                    accumulator.compact();
                    false
                }
            },
            None => {
                return ;
            },
        };
        if empty {
            self.accumulator = None;
        }
    }

    fn extend_capped(
        accumulator: &mut Accumulator<HARD_CAP>,
        src: &[u8],
        limit: usize,
    ) -> (outcome: ExtendOutcome)
        requires
            old(accumulator).wf(),
        ensures
            final(accumulator).wf(),
            ({
                let fits = old(accumulator)@.len() + src@.len() <= limit && old(accumulator)@.len()
                    + src@.len() <= HARD_CAP;
                &&& outcome == if fits {
                    ExtendOutcome::Accepted
                } else {
                    ExtendOutcome::Overrun
                }
                &&& final(accumulator)@ == if fits {
                    old(accumulator)@ + src@
                } else {
                    old(accumulator)@
                }
            }),
    {
        if src.len() > limit || accumulator.len() > limit - src.len() {
            return ExtendOutcome::Overrun;
        }
        if accumulator.extend(src) {
            ExtendOutcome::Accepted
        } else {
            ExtendOutcome::Overrun
        }
    }

    /// Starts keeping bytes, if none are being kept yet.
    fn start(&mut self)
        requires
            old(self).wf(),
        ensures
            final(self).wf(),
            final(self).accumulator is Some,
            final(self)@ == (RecvView { accumulated: Some(old(self)@.bytes()), ..old(self)@ }),
    {
        if self.accumulator.is_none() {
            self.accumulator = Some(Accumulator::with_capacity(INITIAL_CAPACITY));
        }
    }

    /// Adds bytes of the request that is being received.
    pub fn extend(&mut self, src: &[u8]) -> (outcome: ExtendOutcome)
        requires
            old(self).wf(),
        ensures
            final(self).wf(),
            final(self)@ == old(self)@.extended(src@, old(self)@.limit, HARD_CAP as nat),
            outcome == if old(self)@.fits(src@, old(self)@.limit, HARD_CAP as nat) {
                ExtendOutcome::Accepted
            } else {
                ExtendOutcome::Overrun
            },
    {
        let limit = self.limit;
        self.start();
        match &mut self.accumulator {
            Some(accumulator) => Self::extend_capped(accumulator, src, limit),
            None => ExtendOutcome::Accepted,
        }
    }

    /// Adds bytes if any are being kept.
    pub fn extend_existing(&mut self, src: &[u8]) -> (outcome: ExtendOutcome)
        requires
            old(self).wf(),
        ensures
            final(self).wf(),
            if old(self)@.accumulated is Some {
                &&& final(self)@ == old(self)@.extended(src@, old(self)@.limit, HARD_CAP as nat)
                &&& outcome == if old(self)@.fits(src@, old(self)@.limit, HARD_CAP as nat) {
                    ExtendOutcome::Accepted
                } else {
                    ExtendOutcome::Overrun
                }
            } else {
                outcome == ExtendOutcome::Accepted && final(self)@ == old(self)@
            },
    {
        let limit = self.limit;
        match &mut self.accumulator {
            Some(accumulator) => Self::extend_capped(accumulator, src, limit),
            None => ExtendOutcome::Accepted,
        }
    }

    /// Keeps bytes that cannot be handed on until an outstanding action or egress
    /// is over. They are bounded by the hard cap alone: what was received at once
    /// may hold the end of one request and the beginning of others.
    pub fn extend_backlog(&mut self, src: &[u8]) -> (outcome: ExtendOutcome)
        requires
            old(self).wf(),
        ensures
            final(self).wf(),
            final(self)@ == old(self)@.extended(src@, HARD_CAP as nat, HARD_CAP as nat),
            outcome == if old(self)@.fits(src@, HARD_CAP as nat, HARD_CAP as nat) {
                ExtendOutcome::Accepted
            } else {
                ExtendOutcome::Overrun
            },
    {
        self.start();
        match &mut self.accumulator {
            Some(accumulator) => Self::extend_capped(accumulator, src, HARD_CAP),
            None => ExtendOutcome::Accepted,
        }
    }

    /// Makes room for `target` bytes in all, unless the hard cap forbids it.
    pub fn try_reserve_to(&mut self, target: usize) -> (reserved: bool)
        requires
            old(self).wf(),
        ensures
            final(self).wf(),
            reserved <==> target <= HARD_CAP,
            final(self)@ == (RecvView { accumulated: Some(old(self)@.bytes()), ..old(self)@ }),
    {
        self.start();
        match &mut self.accumulator {
            Some(accumulator) => accumulator.reserve_to(target),
            None => false,
        }
    }
}

} // verus!
