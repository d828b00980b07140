use dope::collections::accumulator::Accumulator;
use dope::collections::backlog::Backlog;
use dope::collections::ring::KeyQueue;
use dope::collections::slab::{Slab, SlabKey};
use dope::collections::slots::{IndexList, SlotList};
use dope::collections::table::{CounterKey, Counters};

#[test]
fn slab_finds_values_by_key() {
    let mut slab: Slab<&str> = Slab::with_capacity(2);
    assert!(slab.is_empty());
    let a = slab.insert("a").unwrap();
    let b = slab.insert("b").unwrap();
    assert_ne!(a, b);
    assert_eq!(slab.get(a), Some(&"a"));
    assert_eq!(slab.get(b), Some(&"b"));
    assert_eq!(slab.insert("c"), Err("c"));
    *slab.get_mut(a).unwrap() = "aa";
    assert_eq!(slab.remove(a), Some("aa"));
    assert_eq!(slab.remove(b), Some("b"));
    assert!(slab.is_empty());
    assert_eq!(slab.capacity(), 2);
}

#[test]
fn slab_keys_are_spent_by_removal() {
    let mut slab: Slab<u8> = Slab::with_capacity(1);
    let first = slab.insert(1).unwrap();
    assert_eq!(first.generation, 1);
    assert_eq!(slab.remove(first), Some(1));
    assert_eq!(slab.remove(first), None);
    let second = slab.insert(2).unwrap();
    assert_eq!(second.index, first.index);
    assert_eq!(second.generation, 2);
    assert!(!slab.contains(first));
    assert_eq!(slab.get(first), None);
    assert_eq!(slab.key_of(0), Some(second));
    slab.grow_to(3);
    assert_eq!(slab.capacity(), 3);
    assert!(slab.contains(second));
    assert!(slab.insert(3).is_ok());
    assert!(slab.insert(4).is_ok());
    assert!(slab.insert(5).is_err());
    assert!(!slab.contains(SlabKey { index: 0, generation: 1 }));
}

#[test]
fn backlog_takes_values_at_both_ends() {
    let mut backlog: Backlog<u32> = Backlog::with_capacity(3);
    assert_eq!(backlog.push_back(1), None);
    assert_eq!(backlog.push_back(2), None);
    assert_eq!(backlog.push_front(0), None);
    assert_eq!(backlog.len(), 3);
    assert_eq!(backlog.push_back(9), Some(9));
    assert_eq!(backlog.push_front(9), Some(9));
    assert_eq!(backlog.pop_front(), Some(0));
    assert_eq!(backlog.pop_front(), Some(1));
    assert_eq!(backlog.push_front(7), None);
    assert_eq!(backlog.pop_front(), Some(7));
    assert_eq!(backlog.pop_front(), Some(2));
    assert_eq!(backlog.pop_front(), None);
    assert_eq!(backlog.len(), 0);
}

#[test]
fn backlog_without_room_gives_everything_back() {
    let mut backlog: Backlog<u32> = Backlog::with_capacity(0);
    assert_eq!(backlog.push_back(1), Some(1));
    assert_eq!(backlog.push_front(1), Some(1));
    assert_eq!(backlog.pop_front(), None);
}

#[test]
fn backlog_keeps_its_order_over_many_rounds() {
    let mut backlog: Backlog<usize> = Backlog::with_capacity(5);
    let mut next_in = 0;
    let mut next_out = 0;
    for round in 0..100 {
        for _ in 0..(round % 5) + 1 {
            if backlog.push_back(next_in).is_none() {
                next_in += 1;
            }
        }
        for _ in 0..(round % 3) + 1 {
            if let Some(value) = backlog.pop_front() {
                assert_eq!(value, next_out);
                next_out += 1;
            }
        }
    }
    assert!(next_out > 100);
}

#[test]
fn key_queue_is_first_in_first_out() {
    let mut queue = KeyQueue::with_capacity(2);
    let a = SlabKey { index: 1, generation: 10 };
    let b = SlabKey { index: 2, generation: 20 };
    assert!(queue.push_back(a));
    assert!(queue.push_back(b));
    assert!(!queue.push_back(a));
    assert_eq!(queue.pop_front(), Some(a));
    assert_eq!(queue.pop_front(), Some(b));
    assert_eq!(queue.pop_front(), None);
}

#[test]
fn slot_list_holds_each_slot_once() {
    let mut list = SlotList::with_capacity(4);
    assert!(list.push_back(2, 20));
    assert!(list.push_back(0, 5));
    assert!(!list.push_back(2, 30));
    assert!(list.push_front(3, 1));
    assert_eq!(list.front(), Some((3, 1)));
    assert_eq!(list.remove(2), Some(20));
    assert_eq!(list.remove(2), None);
    assert_eq!(list.pop_front(), Some((3, 1)));
    assert_eq!(list.pop_front(), Some((0, 5)));
    assert_eq!(list.pop_front(), None);
    list.grow_to(8);
    assert_eq!(list.capacity(), 8);
    assert!(list.push_back(7, 70));
    assert_eq!(list.front(), Some((7, 70)));
}

#[test]
fn index_list_removes_from_the_middle() {
    let mut list = IndexList::with_capacity(3);
    assert!(list.is_empty());
    assert!(list.push_back(0));
    assert!(list.push_back(1));
    assert!(list.push_front(2));
    assert!(list.remove(0));
    assert!(!list.remove(0));
    assert_eq!(list.pop_front(), Some(2));
    assert_eq!(list.pop_front(), Some(1));
    assert!(list.is_empty());
}

#[test]
fn counters_stop_at_the_limit() {
    let mut counters = Counters::with_capacity(2);
    let a = CounterKey { hash: 7, kind: 4, name: 1 };
    let b = CounterKey { hash: 7, kind: 4, name: 2 };
    let c = CounterKey { hash: 7, kind: 6, name: 1 };
    assert!(counters.acquire(a, 2));
    assert!(counters.acquire(a, 2));
    assert!(!counters.acquire(a, 2));
    assert!(counters.acquire(b, 2));
    // There is room for two counters, and the third has no place.
    assert!(!counters.acquire(c, 2));
    counters.release(a);
    assert!(counters.acquire(a, 2));
    counters.release(b);
    assert!(counters.acquire(c, 2));
    counters.release(b);
    assert!(!counters.acquire(b, 2));
}

#[test]
fn counters_with_the_same_hash_are_told_apart() {
    let mut counters = Counters::with_capacity(8);
    for name in 0..8u128 {
        let key = CounterKey { hash: 3, kind: 4, name };
        assert!(counters.acquire(key, 1));
        assert!(!counters.acquire(key, 1));
    }
    counters.release(CounterKey { hash: 3, kind: 4, name: 5 });
    assert!(counters.acquire(CounterKey { hash: 3, kind: 4, name: 5 }, 1));
    assert!(!counters.acquire(CounterKey { hash: 3, kind: 4, name: 6 }, 1));
}

#[test]
fn accumulator_keeps_unused_bytes() {
    let mut buffer: Accumulator<8> = Accumulator::with_capacity(4);
    assert!(buffer.snapshot().is_none());
    assert!(buffer.extend(b"hello"));
    assert!(!buffer.extend(b"world"));
    assert_eq!(buffer.len(), 5);
    assert_eq!(buffer.snapshot().unwrap().as_slice(), b"hello");
    assert!(buffer.advance(2));
    assert!(!buffer.advance(4));
    assert_eq!(buffer.snapshot().unwrap().as_slice(), b"llo");
    assert!(buffer.reserve_to(8));
    assert!(!buffer.reserve_to(9));
    buffer.compact();
    assert!(buffer.extend(b"world"));
    assert_eq!(buffer.snapshot().unwrap().as_slice(), b"lloworld");
}
