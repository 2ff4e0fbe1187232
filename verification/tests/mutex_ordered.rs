use fast_async_mutex::mutex_ordered::{OrderedMutex, OrderedMutexGuard, OrderedMutexOwnedGuard};
use fast_async_mutex::task::Poll;
use std::sync::atomic::{AtomicUsize, Ordering};
use std::sync::Arc;
use std::task::{Wake, Waker};

struct Counter(AtomicUsize);

impl Wake for Counter {
    fn wake(self: Arc<Self>) {
        self.0.fetch_add(1, Ordering::SeqCst);
    }
}

fn counting_waker() -> (Arc<Counter>, Waker) {
    let counter = Arc::new(Counter(AtomicUsize::new(0)));
    (counter.clone(), Waker::from(counter))
}

fn ready<G>(p: Poll<G>) -> G {
    match p {
        Poll::Ready(g) => g,
        Poll::Pending => panic!("the lock refused an attempt that should pass"),
    }
}

fn acquire<T>(m: &mut OrderedMutex<T>, w: &Waker) -> OrderedMutexGuard {
    let mut f = m.lock();
    let g = ready(f.poll(m, w));
    f.drop(m);
    g
}

#[test]
fn mutex_ordered_test_mutex() {
    let (_, w) = counting_waker();
    let mut c = OrderedMutex::new(0);
    for _ in 0..10000 {
        let co = acquire(&mut c, &w);
        *co.deref_mut(&mut c) += 1;
        co.drop(&mut c);
    }
    let co = acquire(&mut c, &w);
    assert_eq!(*co.deref(&c), 10000);
}

#[test]
fn mutex_ordered_test_mutex_delay() {
    let (_, w) = counting_waker();
    let expected_result = 100;
    let mut c = OrderedMutex::new(0);
    let mut futures = Vec::new();
    for _ in 0..expected_result {
        futures.push(c.lock());
    }
    for mut f in futures {
        let co = ready(f.poll(&c, &w));
        f.drop(&mut c);
        *co.deref_mut(&mut c) += 1;
        co.drop(&mut c);
    }
    let co = acquire(&mut c, &w);
    assert_eq!(*co.deref(&c), expected_result);
}

#[test]
fn mutex_ordered_test_owned_mutex() {
    let (_, w) = counting_waker();
    let mut c = OrderedMutex::new(0);
    for _ in 0..10000 {
        let mut f = c.lock_owned();
        let co: OrderedMutexOwnedGuard = ready(f.poll(&c, &w));
        f.drop(&mut c);
        *co.deref_mut(&mut c) += 1;
        co.drop(&mut c);
    }
    let mut f = c.lock_owned();
    let co = ready(f.poll(&c, &w));
    assert_eq!(*co.deref(&c), 10000);
}

#[test]
fn mutex_ordered_test_container() {
    let (_, w) = counting_waker();
    let mut c = OrderedMutex::new(String::from("lol"));
    let co = acquire(&mut c, &w);
    co.deref_mut(&mut c).push_str("lol");
    assert_eq!(*co.deref(&c), "lollol");
}

#[test]
fn mutex_ordered_test_overflow() {
    let (_, w) = counting_waker();
    let mut c = OrderedMutex::new(String::from("lol"));
    c.inner.state = usize::MAX;
    c.inner.current = usize::MAX;
    let co = acquire(&mut c, &w);
    co.deref_mut(&mut c).push_str("lol");
    assert_eq!(*co.deref(&c), "lollol");
    assert_eq!(c.inner.state, 0);
    co.drop(&mut c);
    assert_eq!(c.inner.current, 0);
    let co = acquire(&mut c, &w);
    assert_eq!(*co.deref(&c), "lollol");
}

#[test]
fn mutex_ordered_test_timeout() {
    let (counter, w) = counting_waker();
    let mut c = OrderedMutex::new(String::from("lol"));
    let co = acquire(&mut c, &w);

    for i in 0..10000usize {
        let mut timed_out = c.lock();
        assert!(matches!(timed_out.poll(&c, &w), Poll::Pending), "timout must be");
        assert_eq!(counter.0.load(Ordering::SeqCst), i + 1);
        timed_out.drop(&mut c);
    }

    co.drop(&mut c);
    let co = acquire(&mut c, &w);
    co.deref_mut(&mut c).push_str("lol");
    assert_eq!(*co.deref(&c), "lollol");
}

#[test]
fn mutex_ordered_multithreading_test() {
    let (_, w) = counting_waker();
    let num = 100;
    let mut mutex = OrderedMutex::new(0);
    for _ in 0..num {
        let lock = acquire(&mut mutex, &w);
        *lock.deref_mut(&mut mutex) += 1;
        lock.drop(&mut mutex);
    }
    let lock = acquire(&mut mutex, &w);
    assert_eq!(num, *lock.deref(&mutex));
}

#[test]
fn mutex_ordered_admits_in_ticket_order() {
    let (_, w) = counting_waker();
    let mut m = OrderedMutex::new(Vec::new());
    let mut f0 = m.lock();
    let mut f1 = m.lock();
    let mut f2 = m.lock();
    assert_eq!(m.inner.state, 3);
    // Later tickets wait, whatever order they are polled in.
    assert!(matches!(f2.poll(&m, &w), Poll::Pending));
    assert!(matches!(f1.poll(&m, &w), Poll::Pending));
    let g0 = ready(f0.poll(&m, &w));
    g0.deref_mut(&mut m).push(0);
    assert!(matches!(f2.poll(&m, &w), Poll::Pending));
    g0.drop(&mut m);
    assert!(matches!(f2.poll(&m, &w), Poll::Pending));
    let g1 = ready(f1.poll(&m, &w));
    g1.deref_mut(&mut m).push(1);
    g1.drop(&mut m);
    let g2 = ready(f2.poll(&m, &w));
    g2.deref_mut(&mut m).push(2);
    assert_eq!(*g2.deref(&m), vec![0, 1, 2]);
    assert_eq!(m.inner.current, 2);
}

#[test]
fn mutex_ordered_dropping_the_head_passes_the_turn() {
    let (_, w) = counting_waker();
    let mut m = OrderedMutex::new(0);
    let f0 = m.lock();
    let mut f1 = m.lock();
    assert!(matches!(f1.poll(&m, &w), Poll::Pending));
    f0.drop(&mut m);
    assert_eq!(m.inner.current, 1);
    assert!(matches!(f1.poll(&m, &w), Poll::Ready(_)));
    f1.drop(&mut m);
    assert_eq!(m.inner.current, 1);
}

#[test]
fn mutex_ordered_abandoned_ticket_does_not_admit_an_earlier_waiter() {
    let (_, w) = counting_waker();
    let mut m = OrderedMutex::new(0);
    let g0 = acquire(&mut m, &w);
    let mut f1 = m.lock();
    let f2 = m.lock();
    assert!(matches!(f1.poll(&m, &w), Poll::Pending));
    f2.drop(&mut m);
    assert!(matches!(f1.poll(&m, &w), Poll::Pending));
    assert_eq!(m.inner.current, 0);
    g0.drop(&mut m);
    let g1 = ready(f1.poll(&m, &w));
    g1.drop(&mut m);
    // Ticket 2 was given up and is skipped: ticket 3 gets in at once.
    assert_eq!(m.inner.current, 3);
    let g3 = acquire(&mut m, &w);
    g3.drop(&mut m);
}

#[test]
fn mutex_ordered_lock_example() {
    let (_, w) = counting_waker();
    let mut mutex = OrderedMutex::new(10);
    let guard = acquire(&mut mutex, &w);
    assert_eq!(*guard.deref(&mutex), 10);
}
