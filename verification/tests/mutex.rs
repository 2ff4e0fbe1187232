use fast_async_mutex::mutex::{Mutex, MutexGuard, MutexOwnedGuard};
use fast_async_mutex::task::Poll;
use std::sync::atomic::{AtomicUsize, Ordering};
use std::sync::Arc;
use std::task::{Wake, Waker};

struct Counter(AtomicUsize);

impl Wake for Counter {
    fn wake(self: Arc<Self>) {
        self.0.fetch_add(1, Ordering::SeqCst);
    }
}

fn counting_waker() -> (Arc<Counter>, Waker) {
    let counter = Arc::new(Counter(AtomicUsize::new(0)));
    (counter.clone(), Waker::from(counter))
}

fn ready<G>(p: Poll<G>) -> G {
    match p {
        Poll::Ready(g) => g,
        Poll::Pending => panic!("the lock refused an attempt that should pass"),
    }
}

fn acquire<T>(m: &mut Mutex<T>, w: &Waker) -> MutexGuard {
    let mut f = m.lock();
    let g = ready(f.poll(m, w));
    f.drop();
    g
}

#[test]
fn mutex_test_mutex() {
    let (_, w) = counting_waker();
    let mut c = Mutex::new(0);
    for _ in 0..10000 {
        let co = acquire(&mut c, &w);
        *co.deref_mut(&mut c) += 1;
        co.drop(&mut c);
    }
    let co = acquire(&mut c, &w);
    assert_eq!(*co.deref(&c), 10000);
}

#[test]
fn mutex_test_mutex_delay() {
    let (_, w) = counting_waker();
    let expected_result = 100;
    let mut c = Mutex::new(0);
    for _ in 0..expected_result {
        let mut f = c.lock();
        let co = ready(f.poll(&mut c, &w));
        f.drop();
        *co.deref_mut(&mut c) += 1;
        co.drop(&mut c);
    }
    let co = acquire(&mut c, &w);
    assert_eq!(*co.deref(&c), expected_result);
}

#[test]
fn mutex_test_owned_mutex() {
    let (_, w) = counting_waker();
    let mut c = Mutex::new(0);
    for _ in 0..10000 {
        let mut f = c.lock_owned();
        let co: MutexOwnedGuard = ready(f.poll(&mut c, &w));
        f.drop();
        *co.deref_mut(&mut c) += 1;
        co.drop(&mut c);
    }
    let mut f = c.lock_owned();
    let co = ready(f.poll(&mut c, &w));
    assert_eq!(*co.deref(&c), 10000);
}

#[test]
fn mutex_test_container() {
    let (_, w) = counting_waker();
    let mut c = Mutex::new(String::from("lol"));
    let co = acquire(&mut c, &w);
    co.deref_mut(&mut c).push_str("lol");
    assert_eq!(*co.deref(&c), "lollol");
}

#[test]
fn mutex_test_timeout() {
    let (counter, w) = counting_waker();
    let mut c = Mutex::new(String::from("lol"));
    let co = acquire(&mut c, &w);

    let mut timed_out = c.lock();
    assert!(matches!(timed_out.poll(&mut c, &w), Poll::Pending), "timout must be");
    assert_eq!(counter.0.load(Ordering::SeqCst), 1);
    timed_out.drop();

    co.drop(&mut c);
    let co = acquire(&mut c, &w);
    co.deref_mut(&mut c).push_str("lol");
    assert_eq!(*co.deref(&c), "lollol");
}

#[test]
fn mutex_multithreading_test() {
    let (_, w) = counting_waker();
    let num = 100;
    let mut mutex = Mutex::new(0);
    for _ in 0..num {
        let lock = acquire(&mut mutex, &w);
        *lock.deref_mut(&mut mutex) += 1;
        lock.drop(&mut mutex);
    }
    let lock = acquire(&mut mutex, &w);
    assert_eq!(num, *lock.deref(&mutex));
}

#[test]
fn mutex_second_attempt_waits_for_release() {
    let (counter, w) = counting_waker();
    let mut m = Mutex::new(10);
    let g = acquire(&mut m, &w);
    let mut f = m.lock();
    for i in 1..=3 {
        assert!(matches!(f.poll(&mut m, &w), Poll::Pending));
        assert_eq!(counter.0.load(Ordering::SeqCst), i);
    }
    g.drop(&mut m);
    let g2 = ready(f.poll(&mut m, &w));
    assert_eq!(*g2.deref(&m), 10);
    assert_eq!(counter.0.load(Ordering::SeqCst), 3);
}

#[test]
fn mutex_dropping_a_refused_attempt_keeps_the_lock_held() {
    let (_, w) = counting_waker();
    let mut m = Mutex::new(1);
    let held = acquire(&mut m, &w);
    let mut refused = m.lock();
    assert!(matches!(refused.poll(&mut m, &w), Poll::Pending));
    refused.drop();
    let mut next = m.lock();
    assert!(matches!(next.poll(&mut m, &w), Poll::Pending));
    held.drop(&mut m);
    assert!(matches!(next.poll(&mut m, &w), Poll::Ready(_)));
}

#[test]
fn mutex_dropping_a_granted_attempt_keeps_the_lock() {
    let (_, w) = counting_waker();
    let mut m = Mutex::new(1);
    let mut f = m.lock_owned();
    let g = ready(f.poll(&mut m, &w));
    f.drop();
    let mut other = m.lock();
    assert!(matches!(other.poll(&mut m, &w), Poll::Pending));
    g.drop(&mut m);
    assert!(matches!(other.poll(&mut m, &w), Poll::Ready(_)));
}

#[test]
fn mutex_lock_example() {
    let (_, w) = counting_waker();
    let mut mutex = Mutex::new(10);
    let guard = acquire(&mut mutex, &w);
    assert_eq!(*guard.deref(&mutex), 10);
}
