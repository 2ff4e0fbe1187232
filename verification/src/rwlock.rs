//! The read-write lock: a flag held by one writer or by the group of readers,
//! and a count of the readers inside.

use vstd::prelude::*;
use std::task::Waker;
use crate::inner::Inner;
use crate::task::{Poll, WakeNote};

verus! {

/// A lock held either by one writer or by any number of readers.
#[derive(Debug)]
pub struct RwLock<T> {
    readers: usize,
    inner: Inner<T>,
    wakes: Vec<WakeNote>,
}

/// Proof that its holder acquired a `RwLock` for writing; release it with `drop`.
#[derive(Debug)]
#[non_exhaustive]
pub struct RwLockWriteGuard {}

/// A pending attempt to acquire a `RwLock` for writing.
#[derive(Debug)]
pub struct RwLockWriteGuardFuture {
    is_realized: bool,
}

/// Proof that its holder acquired a `RwLock` for writing through an owned attempt.
#[derive(Debug)]
#[non_exhaustive]
pub struct RwLockWriteOwnedGuard {}

/// A pending owned attempt to acquire a `RwLock` for writing.
#[derive(Debug)]
pub struct RwLockWriteOwnedGuardFuture {
    is_realized: bool,
}

/// Proof that its holder acquired a `RwLock` for reading; release it with `drop`.
#[derive(Debug)]
#[non_exhaustive]
pub struct RwLockReadGuard {}

/// A pending attempt to acquire a `RwLock` for reading.
#[derive(Debug)]
pub struct RwLockReadGuardFuture {
    is_realized: bool,
}

/// Proof that its holder acquired a `RwLock` for reading through an owned attempt.
#[derive(Debug)]
#[non_exhaustive]
pub struct RwLockReadOwnedGuard {}

/// A pending owned attempt to acquire a `RwLock` for reading.
#[derive(Debug)]
pub struct RwLockReadOwnedGuardFuture {
    is_realized: bool,
}

/// A write attempt: granted exactly when the lock was free; the lock is held
/// afterwards either way; readers and data are untouched. A refused attempt
/// asks for its task to be polled again: one more `wake_by_ref` call is
/// recorded; a granted one records none.
pub open spec fn write_poll_step<T>(before: RwLock<T>, after: RwLock<T>, granted: bool) -> bool {
    &&& granted == !before.locked()
    &&& after.locked()
    &&& after.readers() == before.readers()
    &&& after.value() == before.value()
    &&& after.wakes() == before.wakes() + if granted { 0nat } else { 1nat }
}

/// A read attempt: granted when readers are inside or the lock was free; a
/// free lock is taken for the readers; a granted attempt joins the readers.
/// A refused attempt asks for its task to be polled again: one more
/// `wake_by_ref` call is recorded; a granted one records none.
pub open spec fn read_poll_step<T>(before: RwLock<T>, after: RwLock<T>, granted: bool) -> bool {
    &&& granted == (before.readers() > 0 || !before.locked())
    &&& after.locked() == (before.locked() || before.readers() == 0)
    &&& after.readers() == if granted { before.readers().wrapping_add(1) } else { before.readers() }
    &&& after.value() == before.value()
    &&& after.wakes() == before.wakes() + if granted { 0nat } else { 1nat }
}

/// A writer leaving: the flag is cleared; readers and data are untouched; it
/// wakes nobody.
pub open spec fn write_release_step<T>(before: RwLock<T>, after: RwLock<T>) -> bool {
    &&& !after.locked()
    &&& after.readers() == before.readers()
    &&& after.value() == before.value()
    &&& after.wakes() == before.wakes()
}

/// A reader leaving: the count goes down, and the last reader out clears the
/// flag; it wakes nobody.
pub open spec fn read_release_step<T>(before: RwLock<T>, after: RwLock<T>) -> bool {
    &&& after.readers() == before.readers().wrapping_sub(1)
    &&& after.locked() == if before.readers() == 1 { false } else { before.locked() }
    &&& after.value() == before.value()
    &&& after.wakes() == before.wakes()
}

/// One step of a run of a read-write lock: a read or write attempt with its
/// outcome, a reader or the writer leaving, or the drop of an attempt, which
/// leaves the lock as it is.
pub enum Step {
    Read(bool),
    Write(bool),
    ReadRelease,
    WriteRelease,
    DropAttempt,
}

/// Who is inside after `events`: whether a writer is, and how many readers.
pub open spec fn inside(events: Seq<Step>) -> (bool, int)
    decreases events.len(),
{
    if events.len() == 0 {
        (false, 0)
    } else {
        let (writer, readers) = inside(events.drop_last());
        match events.last() {
            Step::Read(granted) => (writer, if granted { readers + 1 } else { readers }),
            Step::Write(granted) => (writer || granted, readers),
            Step::ReadRelease => (writer, readers - 1),
            Step::WriteRelease => (false, readers),
            Step::DropAttempt => (writer, readers),
        }
    }
}

/// `states` is a run of a read-write lock through `events`: consecutive
/// states are related by the step's contract; only a reader inside leaves as
/// a reader and only the writer inside as a writer; and the reader count
/// stays below the top of its range.
pub open spec fn is_run<T>(states: Seq<RwLock<T>>, events: Seq<Step>) -> bool {
    &&& states.len() == events.len() + 1
    &&& forall|i: int|
        0 <= i < events.len() ==> match #[trigger] events[i] {
            Step::Read(granted) => read_poll_step(states[i], states[i + 1], granted)
                && inside(events.take(i)).1 < usize::MAX,
            Step::Write(granted) => write_poll_step(states[i], states[i + 1], granted),
            Step::ReadRelease => read_release_step(states[i], states[i + 1])
                && inside(events.take(i)).1 >= 1,
            Step::WriteRelease => write_release_step(states[i], states[i + 1])
                && inside(events.take(i)).0,
            Step::DropAttempt => states[i + 1] == states[i],
        }
}

/// The lock stands for `writer` (whether a writer is inside) and `readers`
/// readers inside: the count is exact, a writer excludes readers, and the flag
/// is set exactly when someone is inside.
pub open spec fn rw_model<T>(m: RwLock<T>, writer: bool, readers: nat) -> bool {
    &&& m.readers() == readers
    &&& writer ==> readers == 0
    &&& m.locked() <==> (writer || readers > 0)
}

impl<T> RwLock<T> {
    /// How many readers are inside.
    pub closed spec fn readers(&self) -> usize {
        self.readers
    }

    /// Whether the lock is held, by a writer or by readers.
    pub closed spec fn locked(&self) -> bool {
        self.inner.acquired()
    }

    /// The protected data.
    pub closed spec fn value(&self) -> T {
        self.inner.value()
    }

    /// How many times the lock has called `wake_by_ref` for a refused
    /// attempt (the records take no memory).
    pub closed spec fn wakes(&self) -> nat {
        self.wakes@.len()
    }

    /// A free lock around `data`.
    pub fn new(data: T) -> (r: RwLock<T>)
        ensures
            !r.locked(),
            r.readers() == 0,
            r.value() == data,
            r.wakes() == 0,
    {
        RwLock { readers: 0, inner: Inner::new(data), wakes: Vec::new() }
    }

    /// Starts an attempt to acquire the lock for writing.
    pub fn write(&self) -> (r: RwLockWriteGuardFuture)
        ensures
            !r.realized(),
    {
        RwLockWriteGuardFuture { is_realized: false }
    }

    /// Starts an owned attempt to acquire the lock for writing.
    pub fn write_owned(&self) -> (r: RwLockWriteOwnedGuardFuture)
        ensures
            !r.realized(),
    {
        RwLockWriteOwnedGuardFuture { is_realized: false }
    }

    /// Starts an attempt to acquire the lock for reading.
    pub fn read(&self) -> (r: RwLockReadGuardFuture)
        ensures
            !r.realized(),
    {
        RwLockReadGuardFuture { is_realized: false }
    }

    /// Starts an owned attempt to acquire the lock for reading.
    pub fn read_owned(&self) -> (r: RwLockReadOwnedGuardFuture)
        ensures
            !r.realized(),
    {
        RwLockReadOwnedGuardFuture { is_realized: false }
    }

    /// A reader leaves; the last one out clears the flag.
    fn unlock_reader(&mut self)
        ensures
            read_release_step(*old(self), *final(self)),
    {
        let before = self.readers;
        self.readers = self.readers.wrapping_sub(1);
        if before == 1 {
            self.inner.unlock();
        }
    }

    /// A reader joins.
    fn add_reader(&mut self)
        ensures
            final(self).readers() == old(self).readers().wrapping_add(1),
            final(self).locked() == old(self).locked(),
            final(self).value() == old(self).value(),
            final(self).wakes() == old(self).wakes(),
    {
        self.readers = self.readers.wrapping_add(1);
    }

    /// Whether a reader may enter: readers are inside already, or the flag
    /// was clear and is now set for the readers.
    fn try_acquire_reader(&mut self) -> (r: bool)
        ensures
            r == (old(self).readers() > 0 || !old(self).locked()),
            final(self).locked() == (old(self).locked() || old(self).readers() == 0),
            final(self).readers() == old(self).readers(),
            final(self).value() == old(self).value(),
            final(self).wakes() == old(self).wakes(),
    {
        self.readers > 0 || self.inner.try_acquire()
    }

    /// One read attempt, with its wake-up when refused.
    fn poll_read(&mut self, waker: &Waker) -> (granted: bool)
        ensures
            read_poll_step(*old(self), *final(self), granted),
    {
        if self.try_acquire_reader() {
            self.add_reader();
            true
        } else {
            let note = self.inner.store_waker(waker);
            self.wakes.push(note);
            false
        }
    }

    /// One write attempt, with its wake-up when refused.
    fn poll_write(&mut self, waker: &Waker) -> (granted: bool)
        ensures
            write_poll_step(*old(self), *final(self), granted),
    {
        if self.inner.try_acquire() {
            true
        } else {
            let note = self.inner.store_waker(waker);
            self.wakes.push(note);
            false
        }
    }
}

impl RwLockWriteGuardFuture {
    /// Whether this attempt has been granted.
    pub closed spec fn realized(&self) -> bool {
        self.is_realized
    }

    /// Tries to acquire `lock` for writing; when refused, the task behind
    /// `waker` is asked to poll again at once.
    pub fn poll<T>(&mut self, lock: &mut RwLock<T>, waker: &Waker) -> (r: Poll<RwLockWriteGuard>)
        ensures
            write_poll_step(*old(lock), *final(lock), r is Ready),
            final(self).realized() == (old(self).realized() || r is Ready),
    {
        if lock.poll_write(waker) {
            self.is_realized = true;
            Poll::Ready(RwLockWriteGuard {})
        } else {
            Poll::Pending
        }
    }

    /// Gives up the attempt. The lock is left as it is: an attempt that was
    /// granted has handed its hold to its guard, and one that was not holds nothing.
    pub fn drop(self) {
    }
}

impl RwLockWriteOwnedGuardFuture {
    /// Whether this attempt has been granted.
    pub closed spec fn realized(&self) -> bool {
        self.is_realized
    }

    /// Tries to acquire `lock` for writing; when refused, the task behind
    /// `waker` is asked to poll again at once.
    pub fn poll<T>(&mut self, lock: &mut RwLock<T>, waker: &Waker) -> (r: Poll<RwLockWriteOwnedGuard>)
        ensures
            write_poll_step(*old(lock), *final(lock), r is Ready),
            final(self).realized() == (old(self).realized() || r is Ready),
    {
        if lock.poll_write(waker) {
            self.is_realized = true;
            Poll::Ready(RwLockWriteOwnedGuard {})
        } else {
            Poll::Pending
        }
    }

    /// Gives up the attempt. The lock is left as it is: an attempt that was
    /// granted has handed its hold to its guard, and one that was not holds nothing.
    pub fn drop(self) {
    }
}

impl RwLockReadGuardFuture {
    /// Whether this attempt has been granted.
    pub closed spec fn realized(&self) -> bool {
        self.is_realized
    }

    /// Tries to acquire `lock` for reading; when refused, the task behind
    /// `waker` is asked to poll again at once.
    pub fn poll<T>(&mut self, lock: &mut RwLock<T>, waker: &Waker) -> (r: Poll<RwLockReadGuard>)
        ensures
            read_poll_step(*old(lock), *final(lock), r is Ready),
            final(self).realized() == (old(self).realized() || r is Ready),
    {
        if lock.poll_read(waker) {
            self.is_realized = true;
            Poll::Ready(RwLockReadGuard {})
        } else {
            Poll::Pending
        }
    }

    /// Gives up the attempt. The lock is left as it is: an attempt that was
    /// granted has handed its hold to its guard, and one that was not holds nothing.
    pub fn drop(self) {
    }
}

impl RwLockReadOwnedGuardFuture {
    /// Whether this attempt has been granted.
    pub closed spec fn realized(&self) -> bool {
        self.is_realized
    }

    /// Tries to acquire `lock` for reading; when refused, the task behind
    /// `waker` is asked to poll again at once.
    pub fn poll<T>(&mut self, lock: &mut RwLock<T>, waker: &Waker) -> (r: Poll<RwLockReadOwnedGuard>)
        ensures
            read_poll_step(*old(lock), *final(lock), r is Ready),
            final(self).realized() == (old(self).realized() || r is Ready),
    {
        if lock.poll_read(waker) {
            self.is_realized = true;
            Poll::Ready(RwLockReadOwnedGuard {})
        } else {
            Poll::Pending
        }
    }

    /// Gives up the attempt. The lock is left as it is: an attempt that was
    /// granted has handed its hold to its guard, and one that was not holds nothing.
    pub fn drop(self) {
    }
}

impl RwLockWriteGuard {
    /// Shared access to the data of the lock this guard holds.
    pub fn deref<'a, T>(&self, lock: &'a RwLock<T>) -> (r: &'a T)
        ensures
            *r == lock.value(),
    {
        lock.inner.data()
    }

    /// Exclusive access to the data of the lock this guard holds.
    pub fn deref_mut<'a, T>(&self, lock: &'a mut RwLock<T>) -> (r: &'a mut T)
        ensures
            *r == old(lock).value(),
            final(lock).value() == *final(r),
            final(lock).locked() == old(lock).locked(),
            final(lock).readers() == old(lock).readers(),
            final(lock).wakes() == old(lock).wakes(),
    {
        lock.inner.data_mut()
    }

    /// The writer leaves.
    pub fn drop<T>(self, lock: &mut RwLock<T>)
        ensures
            write_release_step(*old(lock), *final(lock)),
    {
        lock.inner.unlock();
    }
}

impl RwLockWriteOwnedGuard {
    /// Shared access to the data of the lock this guard holds.
    pub fn deref<'a, T>(&self, lock: &'a RwLock<T>) -> (r: &'a T)
        ensures
            *r == lock.value(),
    {
        lock.inner.data()
    }

    /// Exclusive access to the data of the lock this guard holds.
    pub fn deref_mut<'a, T>(&self, lock: &'a mut RwLock<T>) -> (r: &'a mut T)
        ensures
            *r == old(lock).value(),
            final(lock).value() == *final(r),
            final(lock).locked() == old(lock).locked(),
            final(lock).readers() == old(lock).readers(),
            final(lock).wakes() == old(lock).wakes(),
    {
        lock.inner.data_mut()
    }

    /// The writer leaves.
    pub fn drop<T>(self, lock: &mut RwLock<T>)
        ensures
            write_release_step(*old(lock), *final(lock)),
    {
        lock.inner.unlock();
    }
}

impl RwLockReadGuard {
    /// Shared access to the data of the lock this guard reads.
    pub fn deref<'a, T>(&self, lock: &'a RwLock<T>) -> (r: &'a T)
        ensures
            *r == lock.value(),
    {
        lock.inner.data()
    }

    /// The reader leaves.
    pub fn drop<T>(self, lock: &mut RwLock<T>)
        ensures
            read_release_step(*old(lock), *final(lock)),
    {
        lock.unlock_reader();
    }
}

impl RwLockReadOwnedGuard {
    /// Shared access to the data of the lock this guard reads.
    pub fn deref<'a, T>(&self, lock: &'a RwLock<T>) -> (r: &'a T)
        ensures
            *r == lock.value(),
    {
        lock.inner.data()
    }

    /// The reader leaves.
    pub fn drop<T>(self, lock: &mut RwLock<T>)
        ensures
            read_release_step(*old(lock), *final(lock)),
    {
        lock.unlock_reader();
    }
}

/// Readers-writer exclusion: every step keeps the lock's state in line with
/// who is inside. A read attempt (while the reader count has room) is granted
/// exactly when no writer is inside, a write attempt exactly when nobody is,
/// and leaving updates the count.
pub proof fn lemma_rw_exclusion<T>(before: RwLock<T>, after: RwLock<T>, writer: bool, readers: nat, granted: bool)
    requires
        rw_model(before, writer, readers),
    ensures
        read_poll_step(before, after, granted) && readers < usize::MAX ==> (granted <==> !writer) && rw_model(
            after,
            writer,
            readers + if granted { 1nat } else { 0nat },
        ),
        write_poll_step(before, after, granted) ==> (granted <==> !writer && readers == 0)
            && rw_model(after, writer || granted, readers),
        read_release_step(before, after) && readers >= 1 ==> rw_model(after, writer, (readers - 1) as nat),
        write_release_step(before, after) && writer ==> rw_model(after, false, 0),
{
}

/// Readers-writer exclusion over whole runs: from a free lock, through any
/// sequence of attempts, releases by those inside and drops of attempts, a
/// writer is never inside with anyone else, and the lock's count and flag
/// match who is inside at every point.
pub proof fn lemma_run_exclusion<T>(states: Seq<RwLock<T>>, events: Seq<Step>, k: int)
    requires
        is_run(states, events),
        !states[0].locked(),
        states[0].readers() == 0,
        0 <= k <= events.len(),
    ensures
        inside(events.take(k)).1 >= 0,
        rw_model(states[k], inside(events.take(k)).0, inside(events.take(k)).1 as nat),
    decreases k,
{
    if k > 0 {
        lemma_run_exclusion(states, events, k - 1);
        let prefix = events.take(k);
        assert(prefix.drop_last() =~= events.take(k - 1));
        assert(prefix.last() == events[k - 1]);
        let (w, r) = inside(events.take(k - 1));
        lemma_rw_exclusion(states[k - 1], states[k], w, r as nat, match events[k - 1] {
            Step::Read(granted) => granted,
            Step::Write(granted) => granted,
            _ => false,
        });
    } else {
        assert(events.take(0) =~= Seq::<Step>::empty());
    }
}

/// How many read or write polls in `events` were refused.
pub open spec fn refused(events: Seq<Step>) -> nat
    decreases events.len(),
{
    if events.len() == 0 {
        0
    } else {
        refused(events.drop_last()) + match events.last() {
            Step::Read(granted) => if granted { 0nat } else { 1nat },
            Step::Write(granted) => if granted { 0nat } else { 1nat },
            _ => 0nat,
        }
    }
}

/// No refused attempt is left to wait unasked: over any run, the lock calls
/// `wake_by_ref` exactly once per refused read or write poll, and at no other
/// step.
pub proof fn lemma_run_rewakes<T>(states: Seq<RwLock<T>>, events: Seq<Step>, k: int)
    requires
        is_run(states, events),
        0 <= k <= events.len(),
    ensures
        states[k].wakes() == states[0].wakes() + refused(events.take(k)),
    decreases k,
{
    if k > 0 {
        lemma_run_rewakes(states, events, k - 1);
        let prefix = events.take(k);
        assert(prefix.drop_last() =~= events.take(k - 1));
        assert(prefix.last() == events[k - 1]);
        assert(events[k - 1] == events[k - 1]);
    } else {
        assert(events.take(0) =~= Seq::<Step>::empty());
    }
}

} // verus!
