use dope::manifold::Idle;
use dope::manifold::timer;
use dope::manifold::timer::growing;
use dope::manifold::timer::starved::{StarvedQueue, StarvedWaiter};
use dope::park::WakeRef;

fn wake(id: u64) -> WakeRef {
    WakeRef { id }
}

#[test]
fn growing_timer_fires_in_order_of_deadlines() {
    let mut timer: growing::Timer<0> = growing::Timer::with_capacity(8);
    assert_eq!(timer.idle(), Idle::Park(None));
    let late = timer.try_arm(30, wake(3)).unwrap();
    let early = timer.try_arm(10, wake(1)).unwrap();
    let middle = timer.try_arm(20, wake(2)).unwrap();
    assert_eq!(timer.earliest(), Some(10));
    assert_eq!(timer.idle(), Idle::Park(Some(10)));
    assert_eq!(timer.expire(9), vec![]);
    assert_eq!(timer.expire(25), vec![wake(1), wake(2)]);
    assert!(timer.is_fired(early));
    assert!(timer.is_fired(middle));
    assert!(!timer.is_fired(late));
    assert_eq!(timer.pre_park(30), vec![wake(3)]);
    assert!(timer.is_fired(late));
    assert_eq!(timer.earliest(), None);
}

#[test]
fn growing_timer_reuses_canceled_slots() {
    let mut timer: growing::Timer<0> = growing::Timer::with_capacity(1);
    let first = timer.try_arm(10, wake(1)).unwrap();
    assert!(timer.try_arm(20, wake(2)).is_none());
    timer.register_starved(wake(2));
    timer.register_starved(wake(2));
    assert_eq!(timer.cancel(first), vec![wake(2)]);
    assert!(!timer.is_fired(first));
    let second = timer.try_arm(20, wake(2)).unwrap();
    assert_eq!(second.slot, first.slot);
    assert_ne!(second.epoch, first.epoch);
    // The old ticket is dead: it cancels nothing.
    assert_eq!(timer.cancel(first), vec![]);
    assert_eq!(timer.expire(20), vec![wake(2)]);
    assert!(timer.is_fired(second));
    assert!(!timer.is_fired(first));
}

#[test]
fn growing_timer_wakes_the_last_caller() {
    let mut timer: growing::Timer<0> = growing::Timer::default();
    let ticket = timer.try_arm(5, wake(1)).unwrap();
    timer.replace_caller(ticket, wake(9));
    assert_eq!(timer.expire(5), vec![wake(9)]);
    timer.replace_caller(ticket, wake(1));
    assert!(timer.is_fired(ticket));
}

#[test]
fn growing_timer_cancels_from_the_middle() {
    let mut timer: growing::Timer<0> = growing::Timer::with_capacity(16);
    let tickets: Vec<growing::Ticket> = (0..10u128)
        .map(|i| timer.try_arm(100 - i * 7, wake(i as u64)).unwrap())
        .collect();
    for i in [3usize, 0, 9] {
        assert_eq!(timer.cancel(tickets[i]), vec![]);
    }
    let woken = timer.expire(1000);
    let ids: Vec<u64> = woken.iter().map(|w| w.id).collect();
    assert_eq!(ids, vec![8, 7, 6, 5, 4, 2, 1]);
}

#[test]
fn timer_fires_what_is_due() {
    let mut timer: timer::Timer<0> = timer::Timer::with_capacity(4);
    let a = timer.try_arm(10, wake(1)).unwrap();
    let b = timer.try_arm(5, wake(2)).unwrap();
    let c = timer.try_arm(20, wake(3)).unwrap();
    assert_eq!(timer.earliest(), Some(5));
    assert_eq!(timer.expire(10), vec![wake(2), wake(1)]);
    assert!(timer.is_fired(a) && timer.is_fired(b) && !timer.is_fired(c));
    assert_eq!(timer.idle(), Idle::Park(Some(20)));
    assert_eq!(timer.cancel(a), None);
    assert!(!timer.is_fired(a));
}

#[test]
fn timer_canceled_before_it_fires_stays_silent() {
    let mut timer: timer::Timer<0> = timer::Timer::with_capacity(2);
    let a = timer.try_arm(10, wake(1)).unwrap();
    assert_eq!(timer.cancel(a), None);
    assert_eq!(timer.expire(100), vec![]);
    assert!(!timer.is_fired(a));
    // The slot is free again, under another epoch.
    let b = timer.try_arm(10, wake(2)).unwrap();
    let c = timer.try_arm(11, wake(3)).unwrap();
    assert!(b != a && c != a);
    assert!(timer.try_arm(12, wake(4)).is_none());
}

#[test]
fn timer_serves_starved_waiters_by_deadline() {
    let mut timer: timer::Timer<0> = timer::Timer::with_capacity(1);
    let held = timer.try_arm(50, wake(1)).unwrap();
    assert!(timer.try_arm(60, wake(2)).is_none());
    let slow = StarvedWaiter { address: 0x20 };
    let fast = StarvedWaiter { address: 0x30 };
    timer.register_starved(slow, 90, wake(20));
    timer.register_starved(fast, 40, wake(30));
    assert_eq!(timer.earliest(), Some(40));
    assert_eq!(timer.expire(50), vec![wake(30), wake(1)]);
    // Giving the fired slot back wakes the one that still waits.
    assert_eq!(timer.cancel(held), Some(wake(20)));
}

#[test]
fn timer_passes_a_free_slot_on() {
    let mut timer: timer::Timer<0> = timer::Timer::with_capacity(1);
    let a = StarvedWaiter { address: 1 };
    let b = StarvedWaiter { address: 2 };
    timer.register_starved(a, 10, wake(1));
    timer.register_starved(b, 20, wake(2));
    // A waiter that gives up hands the free slot to the next.
    assert_eq!(timer.unregister_starved(a), Some(wake(2)));
    assert_eq!(timer.unregister_starved(a), None);
}

#[test]
fn timer_flush_settles_cancellations() {
    let mut timer: timer::Timer<0> = timer::Timer::with_capacity(1);
    let a = timer.try_arm(10, wake(1)).unwrap();
    assert_eq!(timer.flush(), vec![]);
    timer.register_starved(StarvedWaiter { address: 1 }, 99, wake(7));
    assert_eq!(timer.cancel(a), None);
    assert_eq!(timer.flush(), vec![wake(7)]);
    assert!(timer.try_arm(10, wake(1)).is_some());
}

#[test]
fn timer_wakes_the_last_waker() {
    let mut timer: timer::Timer<0> = timer::Timer::with_capacity(1);
    let a = timer.try_arm(10, wake(1)).unwrap();
    timer.replace_waker(a, wake(5));
    assert_eq!(timer.pre_park(10), vec![wake(5)]);
}

#[test]
fn starved_queue_orders_by_deadline_then_address() {
    let mut queue = StarvedQueue::new();
    assert_eq!(queue.min_deadline(), None);
    queue.register(StarvedWaiter { address: 9 }, 5, wake(9));
    queue.register(StarvedWaiter { address: 3 }, 5, wake(3));
    queue.register(StarvedWaiter { address: 1 }, 8, wake(1));
    assert_eq!(queue.min_deadline(), Some(5));
    // Registering again changes who is woken, and not when.
    queue.register(StarvedWaiter { address: 1 }, 2, wake(11));
    assert_eq!(queue.min_deadline(), Some(5));
    assert_eq!(queue.wake_min(), Some(wake(3)));
    queue.unregister(StarvedWaiter { address: 9 });
    assert_eq!(queue.expire(7), vec![]);
    assert_eq!(queue.expire(8), vec![wake(11)]);
    assert_eq!(queue.wake_min(), None);
}
