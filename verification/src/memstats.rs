//! Counters of how much memory is in use, and how much ever was.
use vstd::prelude::*;

verus! {

/// How many buffers of a kind are in use, and how many ever were at once.
#[derive(Clone, Copy, PartialEq, Eq, Structural, Debug)]
pub struct Gauge {
    pub live: u32,
    pub hwm: u32,
}

impl Gauge {
    pub open spec fn zero() -> Self {
        Gauge { live: 0, hwm: 0 }
    }

    pub open spec fn spec_max(a: u32, b: u32) -> u32 {
        if b > a {
            b
        } else {
            a
        }
    }

    pub open spec fn bumped(self) -> Self {
        Gauge {
            live: (self.live + 1) as u32,
            hwm: Gauge::spec_max(self.hwm, (self.live + 1) as u32),
        }
    }

    pub open spec fn dropped(self) -> Self {
        Gauge {
            live: if self.live > 0 {
                (self.live - 1) as u32
            } else {
                0
            },
            ..self
        }
    }

    pub fn new() -> (gauge: Self)
        ensures
            gauge == Gauge::zero(),
    {
        Gauge { live: 0, hwm: 0 }
    }

    /// One more is in use.
    pub fn bump(&mut self)
        requires
            old(self).live < u32::MAX,
        ensures
            *final(self) == old(self).bumped(),
    {
        let n: u32 = self.live + 1;
        self.live = n;
        if n > self.hwm {
            self.hwm = n;
        }
    }

    /// One less is in use.
    pub fn drop_one(&mut self)
        ensures
            *final(self) == old(self).dropped(),
    {
        self.live = self.live.saturating_sub(1);
    }
}

/// The mark is never below what is in use, and never goes down.
pub proof fn law_mark_is_highest(gauge: Gauge)
    requires
        gauge.live <= gauge.hwm,
        gauge.live < u32::MAX,
    ensures
        gauge.bumped().live <= gauge.bumped().hwm,
        gauge.hwm <= gauge.bumped().hwm,
        gauge.dropped().live <= gauge.dropped().hwm,
        gauge.dropped().hwm == gauge.hwm,
{
}

/// One more or one less is in use, and never less than none. The mark rises to what is
/// in use where that is above it, and no further.
pub proof fn law_gauge_counts_by_one(gauge: Gauge)
    requires
        gauge.live < u32::MAX,
    ensures
        gauge.bumped().live == gauge.live + 1,
        gauge.bumped().hwm == gauge.hwm || gauge.bumped().hwm == gauge.live + 1,
        gauge.bumped().hwm >= gauge.hwm,
        gauge.bumped().hwm >= gauge.live + 1,
        gauge.live > 0 ==> gauge.dropped().live == gauge.live - 1,
        gauge.live == 0 ==> gauge.dropped().live == 0,
        gauge.dropped().hwm == gauge.hwm,
        Gauge::zero().live == 0,
        Gauge::zero().hwm == 0,
{
}

/// The larger of two numbers is one of them and not below the other.
pub proof fn law_larger_of_two(a: u32, b: u32)
    ensures
        Gauge::spec_max(a, b) >= a,
        Gauge::spec_max(a, b) >= b,
        Gauge::spec_max(a, b) == a || Gauge::spec_max(a, b) == b,
{
}

/// The counters of one thread.
#[derive(Clone, Copy, PartialEq, Eq, Structural, Debug)]
pub struct MemStats {
    pub provided: Gauge,
    /// How often a receive found no buffer.
    pub enobufs: u64,
    /// How often a receive had to wait for one.
    pub starved_rearm: u64,
    /// How many buffers of the write arena were ever in use at once.
    pub arena_hwm: u32,
    pub send: Gauge,
    pub tls_egress: Gauge,
    pub tls_recv: Gauge,
    pub tls_send: Gauge,
}

impl MemStats {
    pub fn new() -> (stats: Self)
        ensures
            stats == (MemStats {
                provided: Gauge::zero(),
                enobufs: 0,
                starved_rearm: 0,
                arena_hwm: 0,
                send: Gauge::zero(),
                tls_egress: Gauge::zero(),
                tls_recv: Gauge::zero(),
                tls_send: Gauge::zero(),
            }),
    {
        MemStats {
            provided: Gauge::new(),
            enobufs: 0,
            starved_rearm: 0,
            arena_hwm: 0,
            send: Gauge::new(),
            tls_egress: Gauge::new(),
            tls_recv: Gauge::new(),
            tls_send: Gauge::new(),
        }
    }

    pub fn provided_borrow(&mut self)
        requires
            old(self).provided.live < u32::MAX,
        ensures
            *final(self) == (MemStats { provided: old(self).provided.bumped(), ..*old(self) }),
    {
        self.provided.bump();
    }

    pub fn provided_release(&mut self)
        ensures
            *final(self) == (MemStats { provided: old(self).provided.dropped(), ..*old(self) }),
    {
        self.provided.drop_one();
    }

    pub fn enobufs_inc(&mut self)
        requires
            old(self).enobufs < u64::MAX,
        ensures
            *final(self) == (MemStats { enobufs: (old(self).enobufs + 1) as u64, ..*old(self) }),
    {
        self.enobufs += 1;
    }

    pub fn starved_rearm_inc(&mut self)
        requires
            old(self).starved_rearm < u64::MAX,
        ensures
            *final(self) == (MemStats {
                starved_rearm: (old(self).starved_rearm + 1) as u64,
                ..*old(self)
            }),
    {
        self.starved_rearm += 1;
    }

    /// `live` buffers of the write arena are in use. Numbers are cut to 32 bits.
    pub fn arena_observe(&mut self, live: usize)
        ensures
            *final(self) == (MemStats {
                arena_hwm: Gauge::spec_max(old(self).arena_hwm, live as u32),
                ..*old(self)
            }),
    {
        let live = #[verifier::truncate] (live as u32);
        if live > self.arena_hwm {
            self.arena_hwm = live;
        }
    }

    pub fn send_borrow(&mut self)
        requires
            old(self).send.live < u32::MAX,
        ensures
            *final(self) == (MemStats { send: old(self).send.bumped(), ..*old(self) }),
    {
        self.send.bump();
    }

    pub fn send_release(&mut self)
        ensures
            *final(self) == (MemStats { send: old(self).send.dropped(), ..*old(self) }),
    {
        self.send.drop_one();
    }

    pub fn tls_egress_borrow(&mut self)
        requires
            old(self).tls_egress.live < u32::MAX,
        ensures
            *final(self) == (MemStats { tls_egress: old(self).tls_egress.bumped(), ..*old(self) }),
    {
        self.tls_egress.bump();
    }

    pub fn tls_egress_release(&mut self)
        ensures
            *final(self) == (MemStats { tls_egress: old(self).tls_egress.dropped(), ..*old(self) }),
    {
        self.tls_egress.drop_one();
    }

    pub fn tls_recv_borrow(&mut self)
        requires
            old(self).tls_recv.live < u32::MAX,
        ensures
            *final(self) == (MemStats { tls_recv: old(self).tls_recv.bumped(), ..*old(self) }),
    {
        self.tls_recv.bump();
    }

    pub fn tls_recv_release(&mut self)
        ensures
            *final(self) == (MemStats { tls_recv: old(self).tls_recv.dropped(), ..*old(self) }),
    {
        self.tls_recv.drop_one();
    }

    pub fn tls_send_borrow(&mut self)
        requires
            old(self).tls_send.live < u32::MAX,
        ensures
            *final(self) == (MemStats { tls_send: old(self).tls_send.bumped(), ..*old(self) }),
    {
        self.tls_send.bump();
    }

    pub fn tls_send_release(&mut self)
        ensures
            *final(self) == (MemStats { tls_send: old(self).tls_send.dropped(), ..*old(self) }),
    {
        self.tls_send.drop_one();
    }
}

} // verus!
