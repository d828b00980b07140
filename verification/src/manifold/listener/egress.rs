//! What is still to be sent on a connection.
use vstd::prelude::*;

use crate::manifold::Reclaim;
use super::send;

verus! {

/// What stands in the way of the next write.
#[derive(Clone, Copy, PartialEq, Eq, Structural, Debug)]
pub enum Egress {
    /// Nothing is to be sent.
    Clear,
    /// A write is in flight.
    Inflight,
    /// Part of an answer is to be handed to the wire.
    Plain,
    /// Part of an answer is to be sent, and the wire takes nothing.
    Stalled,
    /// The wire holds bytes of its own.
    Held,
    /// Bytes wait in the queue.
    Deferred,
}

/// What the driver says of a connection.
#[derive(Clone, Copy, PartialEq, Eq, Structural, Debug)]
pub struct Flow {
    /// A write is in flight.
    pub inflight: bool,
    /// The wire holds bytes of its own.
    pub holds_plain: bool,
    /// Bytes wait in the queue.
    pub deferred: bool,
}

pub open spec fn classify(send: send::State, reclaim: Reclaim, flow: Flow) -> Egress {
    if flow.inflight {
        Egress::Inflight
    } else if send.unfinished() {
        if reclaim is OnSubmit && send.inflight_plain == 0 && !flow.holds_plain {
            Egress::Stalled
        } else {
            Egress::Plain
        }
    } else if flow.holds_plain {
        Egress::Held
    } else if flow.deferred {
        Egress::Deferred
    } else {
        Egress::Clear
    }
}

pub fn egress(send: send::State, reclaim: Reclaim, flow: Flow) -> (egress: Egress)
    ensures
        egress == classify(send, reclaim, flow),
{
    if flow.inflight {
        Egress::Inflight
    } else if send.consumed_plain < send.total_plain {
        if reclaim == Reclaim::OnSubmit && send.inflight_plain == 0 && !flow.holds_plain {
            Egress::Stalled
        } else {
            Egress::Plain
        }
    } else if flow.holds_plain {
        Egress::Held
    } else if flow.deferred {
        Egress::Deferred
    } else {
        Egress::Clear
    }
}

/// A connection is clear exactly when no byte of any kind is left to be sent.
pub proof fn law_clear_owes_nothing(send: send::State, reclaim: Reclaim, flow: Flow)
    ensures
        classify(send, reclaim, flow) is Clear <==> !flow.inflight && !send.unfinished()
            && !flow.holds_plain && !flow.deferred,
{
}

/// Answers are sent one after the other: while one is being sent, nothing from the
/// queue is.
pub proof fn law_answers_do_not_mix(send: send::State, reclaim: Reclaim, flow: Flow)
    requires
        send.unfinished(),
    ensures
        !(classify(send, reclaim, flow) is Deferred),
        !(classify(send, reclaim, flow) is Clear),
{
}
/// What stands in the way of the next write, in the order in which it does: a write
/// in flight, the rest of an answer, what the wire holds, and what is queued.
pub proof fn law_first_in_the_way(send: send::State, reclaim: Reclaim, flow: Flow)
    ensures
        classify(send, reclaim, flow) is Inflight <==> flow.inflight,
        classify(send, reclaim, flow) is Plain || classify(send, reclaim, flow) is Stalled
            <==> !flow.inflight && send.consumed_plain < send.total_plain,
        classify(send, reclaim, flow) is Stalled <==> !flow.inflight && send.consumed_plain
            < send.total_plain && reclaim is OnSubmit && send.inflight_plain == 0
            && !flow.holds_plain,
        classify(send, reclaim, flow) is Held <==> !flow.inflight && send.consumed_plain
            >= send.total_plain && flow.holds_plain,
        classify(send, reclaim, flow) is Deferred <==> !flow.inflight && send.consumed_plain
            >= send.total_plain && !flow.holds_plain && flow.deferred,
{
}


} // verus!
