use fast_async_mutex::inner::{Inner, OrderedInner};
use std::sync::atomic::{AtomicUsize, Ordering};
use std::sync::Arc;
use std::task::{Wake, Waker};

struct Counter(AtomicUsize);

impl Wake for Counter {
    fn wake(self: Arc<Self>) {
        self.0.fetch_add(1, Ordering::SeqCst);
    }
}

#[test]
fn inner_flag_round_trip() {
    let mut inner = Inner::new(5);
    assert!(inner.try_acquire());
    assert!(!inner.try_acquire());
    *inner.data_mut() += 1;
    inner.unlock();
    assert!(inner.try_acquire());
    assert_eq!(*inner.data(), 6);
}

#[test]
fn inner_store_waker_wakes_at_once() {
    let counter = Arc::new(Counter(AtomicUsize::new(0)));
    let waker = Waker::from(counter.clone());
    let inner = Inner::new(());
    inner.store_waker(&waker);
    inner.store_waker(&waker);
    assert_eq!(counter.0.load(Ordering::SeqCst), 2);
    let ordered = OrderedInner::new(());
    ordered.store_waker(&waker);
    assert_eq!(counter.0.load(Ordering::SeqCst), 3);
}

#[test]
fn ordered_inner_tickets() {
    let mut inner = OrderedInner::new("x");
    assert_eq!(inner.generate_id(), 0);
    assert_eq!(inner.generate_id(), 1);
    assert!(inner.try_acquire(0));
    assert!(!inner.try_acquire(1));
    inner.unlock();
    assert!(inner.try_acquire(1));
    assert_eq!(inner.state, 2);
    assert_eq!(inner.current, 1);
}

#[test]
fn ordered_inner_abandoned_tickets_are_skipped() {
    let mut inner = OrderedInner::new(());
    let t0 = inner.generate_id();
    let t1 = inner.generate_id();
    let t2 = inner.generate_id();
    assert!(inner.try_acquire(t0));
    inner.abandon(t1);
    assert_eq!(inner.abandoned, vec![false, true, false]);
    assert_eq!(inner.current, 0);
    inner.unlock();
    assert!(inner.try_acquire(t2));
    assert_eq!(inner.abandoned, vec![false]);
    // A ticket that is not waiting is left alone.
    inner.abandon(t0);
    assert_eq!(inner.current, 2);
    inner.abandon(t2);
    assert_eq!(inner.current, 3);
    assert!(inner.abandoned.is_empty());
}

#[test]
fn ordered_inner_tickets_are_distinct() {
    let mut inner = OrderedInner::new(());
    inner.state = usize::MAX - 2;
    inner.current = usize::MAX - 2;
    let ids: Vec<usize> = (0..6).map(|_| inner.generate_id()).collect();
    assert_eq!(ids, vec![usize::MAX - 2, usize::MAX - 1, usize::MAX, 0, 1, 2]);
    assert_eq!(inner.abandoned.len(), 6);
}

#[test]
fn ordered_inner_counters_wrap() {
    let mut inner = OrderedInner::new(0u8);
    inner.state = usize::MAX;
    inner.current = usize::MAX;
    assert_eq!(inner.generate_id(), usize::MAX);
    assert_eq!(inner.state, 0);
    assert!(inner.try_acquire(usize::MAX));
    inner.unlock();
    assert_eq!(inner.current, 0);
    assert!(inner.try_acquire(0));
}
