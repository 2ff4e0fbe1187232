use fast_async_mutex::rwlock_ordered::{
    OrderedRwLock, OrderedRwLockReadGuard, OrderedRwLockWriteGuard, OrderedRwLockWriteOwnedGuard,
};
use fast_async_mutex::task::Poll;
use std::sync::atomic::{AtomicUsize, Ordering};
use std::sync::Arc;
use std::task::{Wake, Waker};

struct Counter(AtomicUsize);

impl Wake for Counter {
    fn wake(self: Arc<Self>) {
        self.0.fetch_add(1, Ordering::SeqCst);
    }
}

fn counting_waker() -> (Arc<Counter>, Waker) {
    let counter = Arc::new(Counter(AtomicUsize::new(0)));
    (counter.clone(), Waker::from(counter))
}

fn wakes(c: &Arc<Counter>) -> usize {
    c.0.load(Ordering::SeqCst)
}

fn ready<G>(p: Poll<G>) -> G {
    match p {
        Poll::Ready(g) => g,
        Poll::Pending => panic!("the lock refused an attempt that should pass"),
    }
}

fn write<T>(l: &mut OrderedRwLock<T>, w: &Waker) -> OrderedRwLockWriteGuard {
    let mut f = l.write();
    let g = ready(f.poll(l, w));
    f.drop(l);
    g
}

fn read<T>(l: &mut OrderedRwLock<T>, w: &Waker) -> OrderedRwLockReadGuard {
    let mut f = l.read();
    let g = ready(f.poll(l, w));
    f.drop(l);
    g
}

#[test]
fn rwlock_ordered_test_mutex() {
    let (_, w) = counting_waker();
    let mut c = OrderedRwLock::new(0);
    for _ in 0..10000 {
        let co = write(&mut c, &w);
        *co.deref_mut(&mut c) += 1;
        co.drop(&mut c);
    }
    let co = write(&mut c, &w);
    assert_eq!(*co.deref(&c), 10000);
}

#[test]
fn rwlock_ordered_test_mutex_delay() {
    let (_, w) = counting_waker();
    let expected_result = 100;
    let mut c = OrderedRwLock::new(0);
    let mut futures = Vec::new();
    for _ in 0..expected_result {
        futures.push(c.write());
    }
    for mut f in futures {
        let co = ready(f.poll(&mut c, &w));
        f.drop(&mut c);
        *co.deref_mut(&mut c) += 1;
        co.drop(&mut c);
    }
    let co = write(&mut c, &w);
    assert_eq!(*co.deref(&c), expected_result);
}

#[test]
fn rwlock_ordered_test_owned_mutex() {
    let (_, w) = counting_waker();
    let mut c = OrderedRwLock::new(0);
    for _ in 0..10000 {
        let mut f = c.write_owned();
        let co: OrderedRwLockWriteOwnedGuard = ready(f.poll(&mut c, &w));
        f.drop(&mut c);
        *co.deref_mut(&mut c) += 1;
        co.drop(&mut c);
    }
    let mut f = c.write_owned();
    let co = ready(f.poll(&mut c, &w));
    assert_eq!(*co.deref(&c), 10000);
}

#[test]
fn rwlock_ordered_test_container() {
    let (_, w) = counting_waker();
    let mut c = OrderedRwLock::new(String::from("lol"));
    let co = write(&mut c, &w);
    co.deref_mut(&mut c).push_str("lol");
    assert_eq!(*co.deref(&c), "lollol");
}

#[test]
fn rwlock_ordered_test_overflow() {
    let (_, w) = counting_waker();
    let mut c = OrderedRwLock::new(String::from("lol"));
    c.state = usize::MAX;
    c.current = usize::MAX;
    let co = write(&mut c, &w);
    co.deref_mut(&mut c).push_str("lol");
    assert_eq!(*co.deref(&c), "lollol");
    assert_eq!(c.state, 0);
    co.drop(&mut c);
    assert_eq!(c.current, 0);
    let co = read(&mut c, &w);
    assert_eq!(*co.deref(&c), "lollol");
}

#[test]
fn rwlock_ordered_test_timeout() {
    let (_, w) = counting_waker();
    let mut c = OrderedRwLock::new(String::from("lol"));
    let co = write(&mut c, &w);

    for _ in 0..10000i32 {
        let mut timed_out = c.write();
        assert!(matches!(timed_out.poll(&mut c, &w), Poll::Pending), "timout must be");
        timed_out.drop(&mut c);
    }

    co.drop(&mut c);
    let co = write(&mut c, &w);
    co.deref_mut(&mut c).push_str("lol");
    assert_eq!(*co.deref(&c), "lollol");
}

#[test]
fn rwlock_ordered_test_concurrent_reading() {
    let (_, w) = counting_waker();
    let mut c = OrderedRwLock::new(String::from("lol"));
    let co = read(&mut c, &w);

    let mut others = Vec::new();
    for _ in 0..10000i32 {
        let other = read(&mut c, &w);
        assert_eq!(*co.deref(&c), *other.deref(&c));
        others.push(other);
    }
    for other in others {
        other.drop(&mut c);
    }

    let mut writer = c.write();
    assert!(matches!(writer.poll(&mut c, &w), Poll::Pending));
    writer.drop(&mut c);

    let co2 = read(&mut c, &w);
    assert_eq!(*co.deref(&c), *co2.deref(&c));
}

#[test]
fn rwlock_ordered_test_concurrent_reading_writing() {
    let (_, w) = counting_waker();
    let mut c = OrderedRwLock::new(String::from("lol"));

    let co = read(&mut c, &w);
    let co2 = read(&mut c, &w);
    assert_eq!(*co.deref(&c), *co2.deref(&c));
    co.drop(&mut c);
    co2.drop(&mut c);

    let co = write(&mut c, &w);
    let mut reader = c.read();
    assert!(matches!(reader.poll(&mut c, &w), Poll::Pending));
    reader.drop(&mut c);

    co.deref_mut(&mut c).push_str("lol");
    co.drop(&mut c);

    let co = read(&mut c, &w);
    let co2 = read(&mut c, &w);
    assert_eq!(*co.deref(&c), "lollol");
    assert_eq!(*co.deref(&c), *co2.deref(&c));
}

#[test]
fn rwlock_ordered_admits_in_ticket_order() {
    let (_, w) = counting_waker();
    let mut l = OrderedRwLock::new(0);
    let mut r0 = l.read();
    let mut r1 = l.read_owned();
    let mut w2 = l.write();
    let mut r3 = l.read();
    // A reader behind a waiting writer waits for it.
    assert!(matches!(r3.poll(&mut l, &w), Poll::Pending));
    let g0 = ready(r0.poll(&mut l, &w));
    let g1 = ready(r1.poll(&mut l, &w));
    assert_eq!(l.readers, 2);
    assert!(matches!(w2.poll(&mut l, &w), Poll::Pending));
    assert!(matches!(r3.poll(&mut l, &w), Poll::Pending));
    g1.drop(&mut l);
    assert!(matches!(w2.poll(&mut l, &w), Poll::Pending));
    g0.drop(&mut l);
    let gw = ready(w2.poll(&mut l, &w));
    *gw.deref_mut(&mut l) += 5;
    assert!(matches!(r3.poll(&mut l, &w), Poll::Pending));
    gw.drop(&mut l);
    let g3 = ready(r3.poll(&mut l, &w));
    assert_eq!(*g3.deref(&l), 5);
    assert_eq!(l.current, 3);
    assert_eq!(l.readers, 1);
}

#[test]
fn rwlock_ordered_every_waiter_is_woken_by_a_release() {
    let (holder, w0) = counting_waker();
    let (next, w1) = counting_waker();
    let (later, w2) = counting_waker();
    let mut l = OrderedRwLock::new(0);
    let g = write(&mut l, &w0);
    let mut f1 = l.write();
    let mut f2 = l.write();
    // Every refused attempt parks its waker, wherever it stands in line.
    assert!(matches!(f2.poll(&mut l, &w2), Poll::Pending));
    assert!(matches!(f1.poll(&mut l, &w1), Poll::Pending));
    assert_eq!(l.waiters.len(), 2);
    g.drop(&mut l);
    assert_eq!(wakes(&next), 1);
    assert_eq!(wakes(&later), 1);
    assert_eq!(wakes(&holder), 0);
    assert!(l.waiters.is_empty());
    assert!(matches!(f2.poll(&mut l, &w2), Poll::Pending));
    let g1 = ready(f1.poll(&mut l, &w1));
    // An admission wakes nobody; the waiter parked again stays parked.
    assert_eq!(wakes(&later), 1);
    assert_eq!(l.waiters.len(), 1);
    assert!(matches!(f2.poll(&mut l, &w2), Poll::Pending));
    assert_eq!(l.waiters.len(), 2);
    g1.drop(&mut l);
    // The release wakes each parked handle.
    assert_eq!(wakes(&later), 3);
    assert!(l.waiters.is_empty());
    assert!(matches!(f2.poll(&mut l, &w2), Poll::Ready(_)));
}

#[test]
fn rwlock_ordered_reader_after_wraparound_gets_in() {
    let (_, w) = counting_waker();
    let mut c = OrderedRwLock::new(0);
    c.state = usize::MAX;
    c.current = usize::MAX;
    let r1 = read(&mut c, &w);
    assert_eq!(c.readers, 1);
    let mut f2 = c.read();
    let r2 = ready(f2.poll(&mut c, &w));
    assert_eq!(*r1.deref(&c), *r2.deref(&c));
    assert_eq!(*r2.deref(&c), 0);
    assert_eq!(c.readers, 2);
    r1.drop(&mut c);
    r2.drop(&mut c);
    assert_eq!(c.current, 1);
    let wg = write(&mut c, &w);
    wg.drop(&mut c);
}

#[test]
fn rwlock_ordered_abandoned_ticket_does_not_admit_an_earlier_waiter() {
    let (_, w) = counting_waker();
    let mut l = OrderedRwLock::new(0);
    let g0 = write(&mut l, &w);
    let mut f1 = l.write();
    let f2 = l.write();
    assert!(matches!(f1.poll(&mut l, &w), Poll::Pending));
    f2.drop(&mut l);
    assert!(matches!(f1.poll(&mut l, &w), Poll::Pending));
    assert_eq!(l.current, 0);
    g0.drop(&mut l);
    let g1 = ready(f1.poll(&mut l, &w));
    g1.drop(&mut l);
    // Ticket 2 was given up: the next attempt, ticket 3, gets in at once.
    let mut f3 = l.read();
    assert!(matches!(f3.poll(&mut l, &w), Poll::Ready(_)));
    assert_eq!(l.current, 3);
}

#[test]
fn rwlock_ordered_abandoned_head_is_skipped_at_once() {
    let (_, w) = counting_waker();
    let mut l = OrderedRwLock::new(0);
    let r0 = read(&mut l, &w);
    let f1 = l.write();
    let f2 = l.write();
    let mut f3 = l.read();
    assert!(matches!(f3.poll(&mut l, &w), Poll::Pending));
    f2.drop(&mut l);
    assert!(matches!(f3.poll(&mut l, &w), Poll::Pending));
    f1.drop(&mut l);
    // Both writers gave up: the reader behind them joins the reader inside.
    assert_eq!(l.current, 2);
    let r3 = ready(f3.poll(&mut l, &w));
    assert_eq!(l.readers, 2);
    r0.drop(&mut l);
    r3.drop(&mut l);
    assert_eq!(l.current, 4);
}

#[test]
fn rwlock_ordered_write_read_example() {
    let (_, w) = counting_waker();
    let mut mutex = OrderedRwLock::new(10);
    let guard = write(&mut mutex, &w);
    *guard.deref_mut(&mut mutex) += 1;
    assert_eq!(*guard.deref(&mutex), 11);
    guard.drop(&mut mutex);
    let guard = read(&mut mutex, &w);
    let guard2 = read(&mut mutex, &w);
    assert_eq!(*guard.deref(&mutex), *guard2.deref(&mutex));
}
