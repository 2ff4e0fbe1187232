use fast_async_mutex::mutex_unordered::{UnorderedMutex, UnorderedMutexGuard, UnorderedMutexOwnedGuard};
use fast_async_mutex::task::Poll;
use std::sync::atomic::{AtomicUsize, Ordering};
use std::sync::Arc;
use std::task::{Wake, Waker};

struct Counter(AtomicUsize);

impl Wake for Counter {
    fn wake(self: Arc<Self>) {
        self.0.fetch_add(1, Ordering::SeqCst);
    }
}

fn counting_waker() -> (Arc<Counter>, Waker) {
    let counter = Arc::new(Counter(AtomicUsize::new(0)));
    (counter.clone(), Waker::from(counter))
}

fn wakes(c: &Arc<Counter>) -> usize {
    c.0.load(Ordering::SeqCst)
}

fn ready<G>(p: Poll<G>) -> G {
    match p {
        Poll::Ready(g) => g,
        Poll::Pending => panic!("the lock refused an attempt that should pass"),
    }
}

fn acquire<T>(m: &mut UnorderedMutex<T>, w: &Waker) -> UnorderedMutexGuard {
    let mut f = m.lock();
    let g = ready(f.poll(m, w));
    f.drop();
    g
}

#[test]
fn mutex_unordered_test_mutex() {
    let (_, w) = counting_waker();
    let mut c = UnorderedMutex::new(0);
    for _ in 0..10000 {
        let co = acquire(&mut c, &w);
        *co.deref_mut(&mut c) += 1;
        co.drop(&mut c);
    }
    let co = acquire(&mut c, &w);
    assert_eq!(*co.deref(&c), 10000);
}

#[test]
fn mutex_unordered_test_mutex_delay() {
    let (_, w) = counting_waker();
    let expected_result = 100;
    let mut c = UnorderedMutex::new(0);
    for _ in 0..expected_result {
        let co = acquire(&mut c, &w);
        *co.deref_mut(&mut c) += 1;
        co.drop(&mut c);
    }
    let co = acquire(&mut c, &w);
    assert_eq!(*co.deref(&c), expected_result);
}

#[test]
fn mutex_unordered_test_owned_mutex() {
    let (_, w) = counting_waker();
    let mut c = UnorderedMutex::new(0);
    for _ in 0..10000 {
        let mut f = c.lock_owned();
        let co: UnorderedMutexOwnedGuard = ready(f.poll(&mut c, &w));
        f.drop();
        *co.deref_mut(&mut c) += 1;
        co.drop(&mut c);
    }
    let mut f = c.lock_owned();
    let co = ready(f.poll(&mut c, &w));
    assert_eq!(*co.deref(&c), 10000);
}

#[test]
fn mutex_unordered_test_container() {
    let (_, w) = counting_waker();
    let mut c = UnorderedMutex::new(String::from("lol"));
    let co = acquire(&mut c, &w);
    co.deref_mut(&mut c).push_str("lol");
    assert_eq!(*co.deref(&c), "lollol");
}

#[test]
fn mutex_unordered_test_timeout() {
    let (_, w) = counting_waker();
    let mut c = UnorderedMutex::new(String::from("lol"));
    let co = acquire(&mut c, &w);

    let mut timed_out = c.lock();
    assert!(matches!(timed_out.poll(&mut c, &w), Poll::Pending), "timout must be");
    timed_out.drop();

    co.drop(&mut c);
    let co = acquire(&mut c, &w);
    co.deref_mut(&mut c).push_str("lol");
    assert_eq!(*co.deref(&c), "lollol");
}

#[test]
fn mutex_unordered_release_wakes_the_parked_attempt() {
    let (first, w1) = counting_waker();
    let (second, w2) = counting_waker();
    let mut m = UnorderedMutex::new(0);
    let g = acquire(&mut m, &w1);
    assert_eq!(wakes(&first), 0);

    let mut f = m.lock();
    assert!(matches!(f.poll(&mut m, &w2), Poll::Pending));
    // Parking does not wake anyone.
    assert_eq!(wakes(&second), 0);

    g.drop(&mut m);
    assert_eq!(wakes(&second), 1);
    assert_eq!(wakes(&first), 0);

    let g2 = ready(f.poll(&mut m, &w2));
    g2.drop(&mut m);
    // The release took the waker out, so nobody is woken twice.
    assert_eq!(wakes(&second), 1);
}

#[test]
fn mutex_unordered_every_refused_attempt_is_woken() {
    let (_, w0) = counting_waker();
    let (first, w1) = counting_waker();
    let (second, w2) = counting_waker();
    let mut m = UnorderedMutex::new(0);
    let g = acquire(&mut m, &w0);
    let mut a = m.lock();
    let mut b = m.lock_owned();
    assert!(matches!(a.poll(&mut m, &w1), Poll::Pending));
    assert!(matches!(b.poll(&mut m, &w2), Poll::Pending));
    g.drop(&mut m);
    assert_eq!(wakes(&first), 1);
    assert_eq!(wakes(&second), 1);
    let ga = ready(a.poll(&mut m, &w1));
    assert!(matches!(b.poll(&mut m, &w2), Poll::Pending));
    ga.drop(&mut m);
    assert_eq!(wakes(&second), 2);
    assert!(matches!(b.poll(&mut m, &w2), Poll::Ready(_)));
}

#[test]
fn mutex_unordered_dropping_a_refused_attempt_keeps_the_lock_held() {
    let (_, w) = counting_waker();
    let mut m = UnorderedMutex::new(0);
    let _held = acquire(&mut m, &w);
    let mut refused = m.lock();
    assert!(matches!(refused.poll(&mut m, &w), Poll::Pending));
    refused.drop();
    let mut next = m.lock();
    assert!(matches!(next.poll(&mut m, &w), Poll::Pending));
}

#[test]
fn mutex_unordered_second_attempt_waits_for_release() {
    let (_, w) = counting_waker();
    let mut m = UnorderedMutex::new(3);
    let g = acquire(&mut m, &w);
    let mut f = m.lock();
    assert!(matches!(f.poll(&mut m, &w), Poll::Pending));
    assert!(matches!(f.poll(&mut m, &w), Poll::Pending));
    g.drop(&mut m);
    let g2 = ready(f.poll(&mut m, &w));
    assert_eq!(*g2.deref(&m), 3);
}

#[test]
fn mutex_unordered_lock_example() {
    let (_, w) = counting_waker();
    let mut mutex = UnorderedMutex::new(10);
    let guard = acquire(&mut mutex, &w);
    assert_eq!(*guard.deref(&mutex), 10);
}
