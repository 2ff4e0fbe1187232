//! The plain mutex: one flag, set by the first attempt that finds it clear.
//!
//! A pending attempt asks its task to be polled again at once, so waiting is a
//! spin through the executor.

use vstd::prelude::*;
use std::task::Waker;
use crate::inner::Inner;
use crate::task::{Poll, WakeNote};

verus! {

/// A mutex giving one holder at a time access to its data.
#[derive(Debug)]
pub struct Mutex<T> {
    inner: Inner<T>,
    wakes: Vec<WakeNote>,
}

/// Proof that its holder acquired a `Mutex`; release it with `drop`.
#[derive(Debug)]
#[non_exhaustive]
pub struct MutexGuard {}

/// A pending attempt to acquire a `Mutex`.
#[derive(Debug)]
pub struct MutexGuardFuture {
    is_realized: bool,
}

/// Proof that its holder acquired a `Mutex` through an owned attempt.
#[derive(Debug)]
#[non_exhaustive]
pub struct MutexOwnedGuard {}

/// A pending owned attempt to acquire a `Mutex`.
#[derive(Debug)]
pub struct MutexOwnedGuardFuture {
    is_realized: bool,
}

/// One poll: it is granted exactly when the mutex was free, the mutex is held
/// afterwards either way, and the data is untouched. A refused poll asks for
/// its task to be polled again: one more `wake_by_ref` call is recorded; a
/// granted one records none.
pub open spec fn poll_step<T>(before: Mutex<T>, after: Mutex<T>, granted: bool) -> bool {
    &&& granted == !before.locked()
    &&& after.locked()
    &&& after.value() == before.value()
    &&& after.wakes() == before.wakes() + if granted { 0nat } else { 1nat }
}

/// One release: the mutex is free afterwards and the data is untouched; it
/// wakes nobody.
pub open spec fn release_step<T>(before: Mutex<T>, after: Mutex<T>) -> bool {
    &&& !after.locked()
    &&& after.value() == before.value()
    &&& after.wakes() == before.wakes()
}

/// One step of a run of a mutex: a poll with its outcome, the release of a
/// guard, or the drop of an attempt (granted or not), which leaves the
/// mutex as it is.
pub enum Step {
    Poll(bool),
    Release,
    DropAttempt,
}

/// How many guards are alive after `events`.
pub open spec fn live_guards(events: Seq<Step>) -> int
    decreases events.len(),
{
    if events.len() == 0 {
        0
    } else {
        let before = live_guards(events.drop_last());
        match events.last() {
            Step::Poll(granted) => if granted { before + 1 } else { before },
            Step::Release => before - 1,
            Step::DropAttempt => before,
        }
    }
}

/// `states` is a run of a mutex through `events`: consecutive states are
/// related by the step's contract, and only a live guard is released.
pub open spec fn is_run<T>(states: Seq<Mutex<T>>, events: Seq<Step>) -> bool {
    &&& states.len() == events.len() + 1
    &&& forall|i: int|
        0 <= i < events.len() ==> match #[trigger] events[i] {
            Step::Poll(granted) => poll_step(states[i], states[i + 1], granted),
            Step::Release => release_step(states[i], states[i + 1]) && live_guards(
                events.take(i),
            ) >= 1,
            Step::DropAttempt => states[i + 1] == states[i],
        }
}

/// With `guards` guards alive, at most one is, and the mutex is held exactly
/// when one is.
pub open spec fn exclusive<T>(m: Mutex<T>, guards: nat) -> bool {
    &&& guards <= 1
    &&& m.locked() <==> guards == 1
}

impl<T> Mutex<T> {
    /// Whether the mutex is held.
    pub closed spec fn locked(&self) -> bool {
        self.inner.acquired()
    }

    /// The protected data.
    pub closed spec fn value(&self) -> T {
        self.inner.value()
    }

    /// How many times the mutex has called `wake_by_ref` for a refused
    /// attempt (the records take no memory).
    pub closed spec fn wakes(&self) -> nat {
        self.wakes@.len()
    }

    /// A free mutex around `data`.
    pub fn new(data: T) -> (r: Mutex<T>)
        ensures
            !r.locked(),
            r.value() == data,
            r.wakes() == 0,
    {
        Mutex { inner: Inner::new(data), wakes: Vec::new() }
    }

    /// Starts an attempt to acquire the mutex; nothing changes until it is polled.
    pub fn lock(&self) -> (r: MutexGuardFuture)
        ensures
            !r.realized(),
    {
        MutexGuardFuture { is_realized: false }
    }

    /// Starts an owned attempt to acquire the mutex; nothing changes until it is polled.
    pub fn lock_owned(&self) -> (r: MutexOwnedGuardFuture)
        ensures
            !r.realized(),
    {
        MutexOwnedGuardFuture { is_realized: false }
    }
}

impl MutexGuardFuture {
    /// Whether this attempt has been granted.
    pub closed spec fn realized(&self) -> bool {
        self.is_realized
    }

    /// Tries to acquire `mutex`. When it is held, the task behind `waker` is
    /// asked to poll again at once.
    pub fn poll<T>(&mut self, mutex: &mut Mutex<T>, waker: &Waker) -> (r: Poll<MutexGuard>)
        ensures
            poll_step(*old(mutex), *final(mutex), r is Ready),
            final(self).realized() == (old(self).realized() || r is Ready),
    {
        if mutex.inner.try_acquire() {
            self.is_realized = true;
            Poll::Ready(MutexGuard {})
        } else {
            let note = mutex.inner.store_waker(waker);
            mutex.wakes.push(note);
            Poll::Pending
        }
    }

    /// Gives up the attempt. The lock is left as it is: an attempt that was
    /// granted has handed its hold to its guard, and one that was not holds nothing.
    pub fn drop(self) {
    }
}

impl MutexOwnedGuardFuture {
    /// Whether this attempt has been granted.
    pub closed spec fn realized(&self) -> bool {
        self.is_realized
    }

    /// Tries to acquire `mutex`. When it is held, the task behind `waker` is
    /// asked to poll again at once.
    pub fn poll<T>(&mut self, mutex: &mut Mutex<T>, waker: &Waker) -> (r: Poll<MutexOwnedGuard>)
        ensures
            poll_step(*old(mutex), *final(mutex), r is Ready),
            final(self).realized() == (old(self).realized() || r is Ready),
    {
        if mutex.inner.try_acquire() {
            self.is_realized = true;
            Poll::Ready(MutexOwnedGuard {})
        } else {
            let note = mutex.inner.store_waker(waker);
            mutex.wakes.push(note);
            Poll::Pending
        }
    }

    /// Gives up the attempt. The lock is left as it is: an attempt that was
    /// granted has handed its hold to its guard, and one that was not holds nothing.
    pub fn drop(self) {
    }
}

impl MutexGuard {
    /// Shared access to the data of the mutex this guard holds.
    pub fn deref<'a, T>(&self, mutex: &'a Mutex<T>) -> (r: &'a T)
        ensures
            *r == mutex.value(),
    {
        mutex.inner.data()
    }

    /// Exclusive access to the data of the mutex this guard holds.
    pub fn deref_mut<'a, T>(&self, mutex: &'a mut Mutex<T>) -> (r: &'a mut T)
        ensures
            *r == old(mutex).value(),
            final(mutex).value() == *final(r),
            final(mutex).locked() == old(mutex).locked(),
            final(mutex).wakes() == old(mutex).wakes(),
    {
        mutex.inner.data_mut()
    }

    /// Releases the mutex.
    pub fn drop<T>(self, mutex: &mut Mutex<T>)
        ensures
            release_step(*old(mutex), *final(mutex)),
    {
        mutex.inner.unlock();
    }
}

impl MutexOwnedGuard {
    /// Shared access to the data of the mutex this guard holds.
    pub fn deref<'a, T>(&self, mutex: &'a Mutex<T>) -> (r: &'a T)
        ensures
            *r == mutex.value(),
    {
        mutex.inner.data()
    }

    /// Exclusive access to the data of the mutex this guard holds.
    pub fn deref_mut<'a, T>(&self, mutex: &'a mut Mutex<T>) -> (r: &'a mut T)
        ensures
            *r == old(mutex).value(),
            final(mutex).value() == *final(r),
            final(mutex).locked() == old(mutex).locked(),
            final(mutex).wakes() == old(mutex).wakes(),
    {
        mutex.inner.data_mut()
    }

    /// Releases the mutex.
    pub fn drop<T>(self, mutex: &mut Mutex<T>)
        ensures
            release_step(*old(mutex), *final(mutex)),
    {
        mutex.inner.unlock();
    }
}

/// Mutual exclusion: polling and releasing keep "at most one live guard, and
/// the mutex is held exactly when there is one". While a guard is alive, every
/// poll is refused; once the last guard is released, the next poll is granted.
pub proof fn lemma_exclusion<T>(before: Mutex<T>, after: Mutex<T>, guards: nat, granted: bool)
    requires
        exclusive(before, guards),
    ensures
        poll_step(before, after, granted) ==> exclusive(after, guards + if granted { 1nat } else { 0nat }),
        poll_step(before, after, granted) && guards == 1 ==> !granted,
        poll_step(before, after, granted) && guards == 0 ==> granted,
        release_step(before, after) && guards == 1 ==> exclusive(after, 0),
{
}

/// Mutual exclusion over whole runs: from a free mutex, through any sequence
/// of polls, releases of live guards and drops of attempts, at most
/// one guard is alive at every point, and the mutex is held exactly then.
pub proof fn lemma_run_exclusion<T>(states: Seq<Mutex<T>>, events: Seq<Step>, k: int)
    requires
        is_run(states, events),
        !states[0].locked(),
        0 <= k <= events.len(),
    ensures
        live_guards(events.take(k)) >= 0,
        exclusive(states[k], live_guards(events.take(k)) as nat),
    decreases k,
{
    if k > 0 {
        lemma_run_exclusion(states, events, k - 1);
        let prefix = events.take(k);
        assert(prefix.drop_last() =~= events.take(k - 1));
        assert(prefix.last() == events[k - 1]);
        let g = live_guards(events.take(k - 1)) as nat;
        lemma_exclusion(states[k - 1], states[k], g, match events[k - 1] {
            Step::Poll(granted) => granted,
            _ => false,
        });
    } else {
        assert(events.take(0) =~= Seq::<Step>::empty());
    }
}

/// How many polls in `events` were refused.
pub open spec fn refused(events: Seq<Step>) -> nat
    decreases events.len(),
{
    if events.len() == 0 {
        0
    } else {
        refused(events.drop_last()) + match events.last() {
            Step::Poll(granted) => if granted { 0nat } else { 1nat },
            _ => 0nat,
        }
    }
}

/// No refused attempt is left to wait unasked: over any run, the mutex calls
/// `wake_by_ref` exactly once per refused poll, and at no other step.
pub proof fn lemma_run_rewakes<T>(states: Seq<Mutex<T>>, events: Seq<Step>, k: int)
    requires
        is_run(states, events),
        0 <= k <= events.len(),
    ensures
        states[k].wakes() == states[0].wakes() + refused(events.take(k)),
    decreases k,
{
    if k > 0 {
        lemma_run_rewakes(states, events, k - 1);
        let prefix = events.take(k);
        assert(prefix.drop_last() =~= events.take(k - 1));
        assert(prefix.last() == events[k - 1]);
        assert(events[k - 1] == events[k - 1]);
    } else {
        assert(events.take(0) =~= Seq::<Step>::empty());
    }
}

/// A granted poll followed by the release of its guard leaves the mutex free
/// with its data as the holder left it.
pub proof fn lemma_lock_unlock<T>(m0: Mutex<T>, m1: Mutex<T>, m2: Mutex<T>)
    requires
        !m0.locked(),
        poll_step(m0, m1, true),
        release_step(m1, m2),
    ensures
        !m2.locked(),
        m2.value() == m0.value(),
{
}

} // verus!
