use dope::manifold::listener::arena::Arena;

// Releasing a handle on send-complete returns the buffer to the free list, so
// the next borrow reuses it instead of allocating.
#[test]
fn release_returns_buffer_to_free_list() {
    let mut a = Arena::new(8);
    let h0 = a.borrow().expect("first borrow");
    assert_eq!(a.live(), 1);
    assert_eq!(a.free_len(), 0);

    a.release(h0);
    assert_eq!(a.live(), 0);
    assert_eq!(a.free_len(), 1);

    let _h1 = a.borrow().expect("reuse borrow");
    assert_eq!(a.bufs.len(), 1, "freed buffer must be reused, not grown");
    assert_eq!(a.live(), 1);
}

// Returning on send-complete bounds live buffers to concurrent in-flight
// writers, not live connections.
#[test]
fn serial_writers_reuse_single_buffer() {
    let mut a = Arena::new(1024);
    for _ in 0..1000 {
        let h = a.borrow().expect("borrow");
        a.release(h);
    }
    assert_eq!(a.bufs.len(), 1, "serial writers must share one buffer");
    assert_eq!(a.live(), 0);
}

// The hard cap still guarantees a buffer per concurrent writer: borrow returns
// None only when every cap slot is live at the same time.
#[test]
fn hard_cap_covers_concurrent_writers() {
    let mut a = Arena::new(2);
    let h0 = a.borrow().expect("0");
    // Never released: it keeps the second cap slot occupied.
    let _h1 = a.borrow().expect("1");
    assert!(a.borrow().is_none(), "cap reached -> None");
    a.release(h0);
    assert!(a.borrow().is_some(), "freed slot reusable after release");
}

#[test]
fn borrowed_buffers_are_told_apart() {
    let mut a = Arena::new(2);
    let h0 = a.borrow().expect("0");
    let h1 = a.borrow().expect("1");
    a.slice(&h0)[0] = 7;
    a.slice(&h1)[0] = 9;
    assert_eq!(a.slice(&h0)[0], 7);
    assert_eq!(a.slice(&h1)[0], 9);
    assert_eq!(a.slice(&h0).len(), 16384);
}

#[test]
fn written_bytes_stay_until_they_are_overwritten() {
    let mut a = Arena::new(2);
    let h0 = a.borrow().expect("0");
    assert_eq!(a.slice(&h0)[1], 0);
    a.slice(&h0)[1] = 5;
    let h1 = a.borrow().expect("1");
    a.slice(&h1)[1] = 6;
    a.release(h1);
    assert_eq!(a.slice(&h0)[1], 5);
    a.release(h0);
    let again = a.borrow().expect("0 again");
    assert_eq!(a.slice(&again)[1], 5);
}

#[test]
fn buffers_number_the_most_that_were_borrowed_at_once() {
    let mut a = Arena::new(8);
    let mut held = Vec::new();
    let mut peak = 0;
    for want in [3, 1, 2, 5, 0, 4] {
        while held.len() < want {
            held.push(a.borrow().expect("there is room"));
        }
        while held.len() > want {
            a.release(held.pop().expect("one is held"));
        }
        peak = peak.max(want);
        assert_eq!(a.bufs.len(), peak);
        assert_eq!(a.live(), want);
    }
}
