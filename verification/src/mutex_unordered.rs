//! The unordered mutex: one flag, and the wakers of the attempts refused
//! since the last release. A release takes them all out and wakes them, and
//! whichever attempt comes first then gets in.

use vstd::prelude::*;
use std::task::Waker;
use crate::task::{Poll, Woken, woken_wakers, clone_waker};
use crate::inner::wake_all;

verus! {

/// A mutex that admits whichever attempt comes first after a release.
///
/// It keeps the record of every wake-up it made, which takes no memory; that
/// record holds a ghost part, so the type has no `Debug`.
pub struct UnorderedMutex<T> {
    is_acquired: bool,
    waiters: Vec<Waker>,
    woken: Vec<Woken>,
    data: T,
}

/// Proof that its holder acquired an `UnorderedMutex`; release it with `drop`.
#[derive(Debug)]
#[non_exhaustive]
pub struct UnorderedMutexGuard {}

/// A pending attempt to acquire an `UnorderedMutex`.
#[derive(Debug)]
pub struct UnorderedMutexGuardFuture {
    is_realized: bool,
}

/// Proof that its holder acquired an `UnorderedMutex` through an owned attempt.
#[derive(Debug)]
#[non_exhaustive]
pub struct UnorderedMutexOwnedGuard {}

/// A pending owned attempt to acquire an `UnorderedMutex`.
#[derive(Debug)]
pub struct UnorderedMutexOwnedGuardFuture {
    is_realized: bool,
}

/// One poll: granted exactly when the mutex was free; the mutex is held
/// afterwards either way; a refused attempt adds a handle on its waker to the
/// parked ones, a granted one leaves them alone; nobody is woken; the data is
/// untouched.
pub open spec fn poll_step<T>(before: UnorderedMutex<T>, after: UnorderedMutex<T>, granted: bool) -> bool {
    &&& granted == !before.locked()
    &&& after.locked()
    &&& after.value() == before.value()
    &&& after.woken() == before.woken()
    &&& if granted {
        after.parked() == before.parked()
    } else {
        after.parked().len() == before.parked().len() + 1 && after.parked().drop_last() == before.parked()
    }
}

/// One release: the mutex is free, and every parked waker is taken out and
/// woken, oldest first (the woken record grows by exactly the parked wakers);
/// the data is untouched.
pub open spec fn release_step<T>(before: UnorderedMutex<T>, after: UnorderedMutex<T>) -> bool {
    &&& !after.locked()
    &&& after.parked().len() == 0
    &&& after.woken() == before.woken() + before.parked()
    &&& after.value() == before.value()
}

/// One step of a run of an unordered mutex: a poll with its outcome, the release of a
/// guard, or the drop of an attempt (granted or not), which leaves the
/// mutex as it is.
pub enum Step {
    Poll(bool),
    Release,
    DropAttempt,
}

/// How many guards are alive after `events`.
pub open spec fn live_guards(events: Seq<Step>) -> int
    decreases events.len(),
{
    if events.len() == 0 {
        0
    } else {
        let before = live_guards(events.drop_last());
        match events.last() {
            Step::Poll(granted) => if granted { before + 1 } else { before },
            Step::Release => before - 1,
            Step::DropAttempt => before,
        }
    }
}

/// `states` is a run of an unordered mutex through `events`: consecutive states are
/// related by the step's contract, and only a live guard is released.
pub open spec fn is_run<T>(states: Seq<UnorderedMutex<T>>, events: Seq<Step>) -> bool {
    &&& states.len() == events.len() + 1
    &&& forall|i: int|
        0 <= i < events.len() ==> match #[trigger] events[i] {
            Step::Poll(granted) => poll_step(states[i], states[i + 1], granted),
            Step::Release => release_step(states[i], states[i + 1]) && live_guards(
                events.take(i),
            ) >= 1,
            Step::DropAttempt => states[i + 1] == states[i],
        }
}

/// With `guards` guards alive, at most one is, and the mutex is held exactly
/// when one is.
pub open spec fn exclusive<T>(m: UnorderedMutex<T>, guards: nat) -> bool {
    &&& guards <= 1
    &&& m.locked() <==> guards == 1
}

impl<T> UnorderedMutex<T> {
    /// Whether the mutex is held.
    pub closed spec fn locked(&self) -> bool {
        self.is_acquired
    }

    /// The wakers of the attempts refused since the last release, oldest first.
    pub closed spec fn parked(&self) -> Seq<Waker> {
        self.waiters@
    }

    /// The protected data.
    pub closed spec fn value(&self) -> T {
        self.data
    }

    /// The wakers this mutex has woken, in the order it woke them.
    pub closed spec fn woken(&self) -> Seq<Waker> {
        woken_wakers(self.woken@)
    }

    /// A free mutex around `data`, with no waker parked or woken.
    pub fn new(data: T) -> (r: UnorderedMutex<T>)
        ensures
            !r.locked(),
            r.parked().len() == 0,
            r.woken().len() == 0,
            r.value() == data,
    {
        UnorderedMutex { is_acquired: false, waiters: Vec::new(), woken: Vec::new(), data }
    }

    /// Starts an attempt to acquire the mutex; nothing changes until it is polled.
    pub fn lock(&self) -> (r: UnorderedMutexGuardFuture)
        ensures
            !r.realized(),
    {
        UnorderedMutexGuardFuture { is_realized: false }
    }

    /// Starts an owned attempt to acquire the mutex; nothing changes until it is polled.
    pub fn lock_owned(&self) -> (r: UnorderedMutexOwnedGuardFuture)
        ensures
            !r.realized(),
    {
        UnorderedMutexOwnedGuardFuture { is_realized: false }
    }

    /// Sets the flag; tells whether it was clear. A refused attempt parks a
    /// handle on `waker` beside those parked before.
    fn acquire_or_park(&mut self, waker: &Waker) -> (granted: bool)
        ensures
            poll_step(*old(self), *final(self), granted),
    {
        let was_acquired = self.is_acquired;
        self.is_acquired = true;
        if !was_acquired {
            true
        } else {
            self.waiters.push(clone_waker(waker));
            assert(self.waiters@.drop_last() =~= old(self).waiters@);
            false
        }
    }

    /// Clears the flag, and takes every parked waker out and wakes it.
    fn release(&mut self)
        ensures
            release_step(*old(self), *final(self)),
    {
        self.is_acquired = false;
        wake_all(&mut self.waiters, &mut self.woken);
    }
}

impl UnorderedMutexGuardFuture {
    /// Whether this attempt has been granted.
    pub closed spec fn realized(&self) -> bool {
        self.is_realized
    }

    /// Tries to acquire `mutex`; when it is held, parks a handle on `waker`,
    /// to be taken out (and woken) at the next release.
    pub fn poll<T>(&mut self, mutex: &mut UnorderedMutex<T>, waker: &Waker) -> (r: Poll<UnorderedMutexGuard>)
        ensures
            poll_step(*old(mutex), *final(mutex), r is Ready),
            final(self).realized() == (old(self).realized() || r is Ready),
    {
        if mutex.acquire_or_park(waker) {
            self.is_realized = true;
            Poll::Ready(UnorderedMutexGuard {})
        } else {
            Poll::Pending
        }
    }

    /// Gives up the attempt. The lock is left as it is: an attempt that was
    /// granted has handed its hold to its guard, and one that was not holds nothing.
    pub fn drop(self) {
    }
}

impl UnorderedMutexOwnedGuardFuture {
    /// Whether this attempt has been granted.
    pub closed spec fn realized(&self) -> bool {
        self.is_realized
    }

    /// Tries to acquire `mutex`; when it is held, parks a handle on `waker`,
    /// to be taken out (and woken) at the next release.
    pub fn poll<T>(&mut self, mutex: &mut UnorderedMutex<T>, waker: &Waker) -> (r: Poll<UnorderedMutexOwnedGuard>)
        ensures
            poll_step(*old(mutex), *final(mutex), r is Ready),
            final(self).realized() == (old(self).realized() || r is Ready),
    {
        if mutex.acquire_or_park(waker) {
            self.is_realized = true;
            Poll::Ready(UnorderedMutexOwnedGuard {})
        } else {
            Poll::Pending
        }
    }

    /// Gives up the attempt. The lock is left as it is: an attempt that was
    /// granted has handed its hold to its guard, and one that was not holds nothing.
    pub fn drop(self) {
    }
}

impl UnorderedMutexGuard {
    /// Shared access to the data of the mutex this guard holds.
    pub fn deref<'a, T>(&self, mutex: &'a UnorderedMutex<T>) -> (r: &'a T)
        ensures
            *r == mutex.value(),
    {
        &mutex.data
    }

    /// Exclusive access to the data of the mutex this guard holds.
    pub fn deref_mut<'a, T>(&self, mutex: &'a mut UnorderedMutex<T>) -> (r: &'a mut T)
        ensures
            *r == old(mutex).value(),
            final(mutex).value() == *final(r),
            final(mutex).locked() == old(mutex).locked(),
            final(mutex).parked() == old(mutex).parked(),
            final(mutex).woken() == old(mutex).woken(),
    {
        &mut mutex.data
    }

    /// Releases the mutex and wakes every parked waker.
    pub fn drop<T>(self, mutex: &mut UnorderedMutex<T>)
        ensures
            release_step(*old(mutex), *final(mutex)),
    {
        mutex.release();
    }
}

impl UnorderedMutexOwnedGuard {
    /// Shared access to the data of the mutex this guard holds.
    pub fn deref<'a, T>(&self, mutex: &'a UnorderedMutex<T>) -> (r: &'a T)
        ensures
            *r == mutex.value(),
    {
        &mutex.data
    }

    /// Exclusive access to the data of the mutex this guard holds.
    pub fn deref_mut<'a, T>(&self, mutex: &'a mut UnorderedMutex<T>) -> (r: &'a mut T)
        ensures
            *r == old(mutex).value(),
            final(mutex).value() == *final(r),
            final(mutex).locked() == old(mutex).locked(),
            final(mutex).parked() == old(mutex).parked(),
            final(mutex).woken() == old(mutex).woken(),
    {
        &mut mutex.data
    }

    /// Releases the mutex and wakes every parked waker.
    pub fn drop<T>(self, mutex: &mut UnorderedMutex<T>)
        ensures
            release_step(*old(mutex), *final(mutex)),
    {
        mutex.release();
    }
}

/// Mutual exclusion: polling and releasing keep "at most one live guard, and
/// the mutex is held exactly when there is one". While a guard is alive every
/// poll is refused; with none alive the next poll is granted.
pub proof fn lemma_exclusion<T>(before: UnorderedMutex<T>, after: UnorderedMutex<T>, guards: nat, granted: bool)
    requires
        exclusive(before, guards),
    ensures
        poll_step(before, after, granted) ==> exclusive(after, guards + if granted { 1nat } else { 0nat }),
        poll_step(before, after, granted) && guards == 1 ==> !granted,
        poll_step(before, after, granted) && guards == 0 ==> granted,
        release_step(before, after) && guards == 1 ==> exclusive(after, 0),
{
}

/// No parked waker is lost: a refused attempt parks a waker handle behind
/// those parked before, and a parked handle stays until the next release,
/// which wakes every one of them, in order; nothing parked ever leaves the
/// record of parked and woken wakers.
pub proof fn lemma_parked_until_release<T>(m0: UnorderedMutex<T>, m1: UnorderedMutex<T>, granted: bool)
    ensures
        poll_step(m0, m1, granted) ==> m1.parked().len() == m0.parked().len() + if granted { 0nat } else { 1nat },
        poll_step(m0, m1, granted) ==> forall|j: int| 0 <= j < m0.parked().len() ==> m1.parked()[j] == m0.parked()[j],
        release_step(m0, m1) ==> m1.parked().len() == 0,
        poll_step(m0, m1, granted) ==> record(m1) == if granted { record(m0) } else { record(m0).push(m1.parked().last()) },
        release_step(m0, m1) ==> record(m1) == record(m0),
{
    if poll_step(m0, m1, granted) && !granted {
        assert(record(m1) =~= record(m0).push(m1.parked().last()));
    }
    if release_step(m0, m1) {
        assert(record(m1) =~= record(m0));
    }
    if poll_step(m0, m1, granted) && !granted {
        assert forall|j: int| 0 <= j < m0.parked().len() implies m1.parked()[j] == m0.parked()[j] by {
            assert(m1.parked().drop_last()[j] == m1.parked()[j]);
        }
    }
}

/// Everything the mutex has ever parked, in order: the wakers it has woken,
/// then those still parked.
pub open spec fn record<T>(m: UnorderedMutex<T>) -> Seq<Waker> {
    m.woken() + m.parked()
}

/// How many polls in `events` were refused.
pub open spec fn refused(events: Seq<Step>) -> nat
    decreases events.len(),
{
    if events.len() == 0 {
        0
    } else {
        refused(events.drop_last()) + match events.last() {
            Step::Poll(granted) => if granted { 0nat } else { 1nat },
            _ => 0nat,
        }
    }
}

/// How many attempts were refused since the last release in `events`.
pub open spec fn refused_since_release(events: Seq<Step>) -> nat
    decreases events.len(),
{
    if events.len() == 0 {
        0
    } else {
        let before = refused_since_release(events.drop_last());
        match events.last() {
            Step::Poll(granted) => if granted { before } else { before + 1 },
            Step::Release => 0,
            Step::DropAttempt => before,
        }
    }
}

/// Mutual exclusion over whole runs: from a free mutex with nothing parked,
/// through any sequence of polls, releases of live guards and drops of
/// attempts, at most one guard is alive at every point, and the mutex is held
/// exactly then. And no parked waker is ever lost: the parked wakers are
/// exactly one per attempt refused since the last release; what the mutex has
/// parked and woken grows by one waker per refused poll and never loses one,
/// a parked waker moving only to the woken record, which every release
/// brings up to date.
pub proof fn lemma_run_exclusion<T>(states: Seq<UnorderedMutex<T>>, events: Seq<Step>, k: int)
    requires
        is_run(states, events),
        !states[0].locked(),
        states[0].parked().len() == 0,
        0 <= k <= events.len(),
    ensures
        live_guards(events.take(k)) >= 0,
        exclusive(states[k], live_guards(events.take(k)) as nat),
        states[k].parked().len() == refused_since_release(events.take(k)),
        record(states[k]).len() == record(states[0]).len() + refused(events.take(k)),
        forall|j: int| 0 <= j <= k ==> #[trigger] record(states[j]).len() <= record(states[k]).len()
            && record(states[k]).take(record(states[j]).len() as int) == record(states[j]),
    decreases k,
{
    if k > 0 {
        lemma_run_exclusion(states, events, k - 1);
        let prefix = events.take(k);
        assert(prefix.drop_last() =~= events.take(k - 1));
        assert(prefix.last() == events[k - 1]);
        let g = live_guards(events.take(k - 1)) as nat;
        let granted = match events[k - 1] {
            Step::Poll(granted) => granted,
            _ => false,
        };
        lemma_exclusion(states[k - 1], states[k], g, granted);
        lemma_parked_until_release(states[k - 1], states[k], granted);
        let rk = record(states[k]);
        let rk1 = record(states[k - 1]);
        assert(rk.take(rk1.len() as int) =~= rk1);
        assert forall|j: int| 0 <= j <= k implies #[trigger] record(states[j]).len() <= rk.len()
            && rk.take(record(states[j]).len() as int) == record(states[j]) by {
            if j < k {
                let rj = record(states[j]);
                assert(rj.len() <= rk1.len());
                assert(rk1.take(rj.len() as int) == rj);
                assert(rk.take(rj.len() as int) =~= rk1.take(rj.len() as int));
            } else {
                assert(rk.take(rk.len() as int) =~= rk);
            }
        }
    } else {
        assert(events.take(0) =~= Seq::<Step>::empty());
        assert(record(states[0]).take(record(states[0]).len() as int) =~= record(states[0]));
    }
}

} // verus!
