use fast_async_mutex::rwlock::{RwLock, RwLockReadGuard, RwLockWriteGuard, RwLockWriteOwnedGuard};
use fast_async_mutex::task::Poll;
use std::sync::atomic::{AtomicUsize, Ordering};
use std::sync::Arc;
use std::task::{Wake, Waker};

struct Counter(AtomicUsize);

impl Wake for Counter {
    fn wake(self: Arc<Self>) {
        self.0.fetch_add(1, Ordering::SeqCst);
    }
}

fn counting_waker() -> (Arc<Counter>, Waker) {
    let counter = Arc::new(Counter(AtomicUsize::new(0)));
    (counter.clone(), Waker::from(counter))
}

fn ready<G>(p: Poll<G>) -> G {
    match p {
        Poll::Ready(g) => g,
        Poll::Pending => panic!("the lock refused an attempt that should pass"),
    }
}

fn write<T>(l: &mut RwLock<T>, w: &Waker) -> RwLockWriteGuard {
    let mut f = l.write();
    let g = ready(f.poll(l, w));
    f.drop();
    g
}

fn read<T>(l: &mut RwLock<T>, w: &Waker) -> RwLockReadGuard {
    let mut f = l.read();
    let g = ready(f.poll(l, w));
    f.drop();
    g
}

#[test]
fn rwlock_test_mutex() {
    let (_, w) = counting_waker();
    let mut c = RwLock::new(0);
    for _ in 0..10000 {
        let co = write(&mut c, &w);
        *co.deref_mut(&mut c) += 1;
        co.drop(&mut c);
    }
    let co = write(&mut c, &w);
    assert_eq!(*co.deref(&c), 10000);
}

#[test]
fn rwlock_test_mutex_delay() {
    let (_, w) = counting_waker();
    let expected_result = 100;
    let mut c = RwLock::new(0);
    for _ in 0..expected_result {
        let co = write(&mut c, &w);
        *co.deref_mut(&mut c) += 1;
        co.drop(&mut c);
    }
    let co = write(&mut c, &w);
    assert_eq!(*co.deref(&c), expected_result);
}

#[test]
fn rwlock_test_owned_mutex() {
    let (_, w) = counting_waker();
    let mut c = RwLock::new(0);
    for _ in 0..10000 {
        let mut f = c.write_owned();
        let co: RwLockWriteOwnedGuard = ready(f.poll(&mut c, &w));
        f.drop();
        *co.deref_mut(&mut c) += 1;
        co.drop(&mut c);
    }
    let mut f = c.write_owned();
    let co = ready(f.poll(&mut c, &w));
    assert_eq!(*co.deref(&c), 10000);
}

#[test]
fn rwlock_test_container() {
    let (_, w) = counting_waker();
    let mut c = RwLock::new(String::from("lol"));
    let co = write(&mut c, &w);
    co.deref_mut(&mut c).push_str("lol");
    assert_eq!(*co.deref(&c), "lollol");
}

#[test]
fn rwlock_test_timeout() {
    let (_, w) = counting_waker();
    let mut c = RwLock::new(String::from("lol"));
    let co = write(&mut c, &w);

    let mut timed_out = c.write();
    assert!(matches!(timed_out.poll(&mut c, &w), Poll::Pending), "timout must be");
    timed_out.drop();

    co.drop(&mut c);
    let co = write(&mut c, &w);
    co.deref_mut(&mut c).push_str("lol");
    assert_eq!(*co.deref(&c), "lollol");
}

#[test]
fn rwlock_test_concurrent_reading() {
    let (_, w) = counting_waker();
    let mut c = RwLock::new(String::from("lol"));
    let co = read(&mut c, &w);

    let mut others = Vec::new();
    for _ in 0..10000i32 {
        let other = read(&mut c, &w);
        assert_eq!(*co.deref(&c), *other.deref(&c));
        others.push(other);
    }
    for other in others {
        other.drop(&mut c);
    }

    let mut writer = c.write();
    assert!(matches!(writer.poll(&mut c, &w), Poll::Pending));
    writer.drop();

    let co2 = read(&mut c, &w);
    assert_eq!(*co.deref(&c), *co2.deref(&c));
}

#[test]
fn rwlock_test_concurrent_reading_writing() {
    let (_, w) = counting_waker();
    let mut c = RwLock::new(String::from("lol"));

    let co = read(&mut c, &w);
    let co2 = read(&mut c, &w);
    assert_eq!(*co.deref(&c), *co2.deref(&c));
    co.drop(&mut c);
    co2.drop(&mut c);

    let co = write(&mut c, &w);
    let mut reader = c.read();
    assert!(matches!(reader.poll(&mut c, &w), Poll::Pending));
    reader.drop();

    co.deref_mut(&mut c).push_str("lol");
    co.drop(&mut c);

    let co = read(&mut c, &w);
    let co2 = read(&mut c, &w);
    assert_eq!(*co.deref(&c), "lollol");
    assert_eq!(*co.deref(&c), *co2.deref(&c));
}

#[test]
fn rwlock_multithreading_test() {
    let (_, w) = counting_waker();
    let num = 100;
    let mut mutex = RwLock::new(0);
    for i in 0..num {
        if i % 2 == 0 {
            let lock = write(&mut mutex, &w);
            *lock.deref_mut(&mut mutex) += 1;
            lock.drop(&mut mutex);
        } else {
            let lock1 = read(&mut mutex, &w);
            let lock2 = read(&mut mutex, &w);
            assert_eq!(*lock1.deref(&mutex), *lock2.deref(&mutex));
            lock1.drop(&mut mutex);
            lock2.drop(&mut mutex);
        }
    }
    let lock = read(&mut mutex, &w);
    assert_eq!(num / 2, *lock.deref(&mutex));
}

#[test]
fn rwlock_readers_exclude_writer_until_the_last_leaves() {
    let (counter, w) = counting_waker();
    let mut l = RwLock::new(7);
    let r1 = read(&mut l, &w);
    let mut r2f = l.read_owned();
    let r2 = ready(r2f.poll(&mut l, &w));
    let mut wf = l.write_owned();
    assert!(matches!(wf.poll(&mut l, &w), Poll::Pending));
    assert_eq!(counter.0.load(Ordering::SeqCst), 1);
    r1.drop(&mut l);
    assert!(matches!(wf.poll(&mut l, &w), Poll::Pending));
    r2.drop(&mut l);
    let wg = ready(wf.poll(&mut l, &w));
    let mut rf = l.read();
    assert!(matches!(rf.poll(&mut l, &w), Poll::Pending));
    wg.drop(&mut l);
    let rg = ready(rf.poll(&mut l, &w));
    assert_eq!(*rg.deref(&l), 7);
}

#[test]
fn rwlock_dropping_a_refused_attempt_keeps_the_lock_held() {
    let (_, w) = counting_waker();
    let mut l = RwLock::new(0);
    let writer = write(&mut l, &w);
    let mut refused = l.read();
    assert!(matches!(refused.poll(&mut l, &w), Poll::Pending));
    refused.drop();
    let mut next = l.write();
    assert!(matches!(next.poll(&mut l, &w), Poll::Pending));
    let mut reader = l.read_owned();
    assert!(matches!(reader.poll(&mut l, &w), Poll::Pending));
    writer.drop(&mut l);
    assert!(matches!(reader.poll(&mut l, &w), Poll::Ready(_)));
    assert!(matches!(next.poll(&mut l, &w), Poll::Pending));
}
