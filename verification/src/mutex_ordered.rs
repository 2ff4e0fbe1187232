//! The ordered mutex: attempts take tickets in the order they start, and the
//! mutex admits them in that order. An attempt given up before its turn has
//! its ticket skipped when the turn comes.

use vstd::prelude::*;
use std::task::Waker;
use crate::inner::{OrderedInner, release_inner, abandon_inner};
use crate::task::{Poll, WakeNote};
use crate::ticket::{
    ticket_space, leading, lemma_leading, lemma_counter_succ, lemma_counter_offset, lemma_counter_add,
    lemma_counter_distance,
};

verus! {

/// A mutex that admits its lockers in the order they asked.
///
/// Its state is open; `wf` says when its parts agree.
#[derive(Debug)]
pub struct OrderedMutex<T> {
    pub inner: OrderedInner<T>,
}

/// Proof that its holder was admitted by an `OrderedMutex`; release it with `drop`.
#[derive(Debug)]
#[non_exhaustive]
pub struct OrderedMutexGuard {}

/// An attempt to acquire an `OrderedMutex`, holding its ticket.
#[derive(Debug)]
pub struct OrderedMutexGuardFuture {
    id: usize,
    is_realized: bool,
    wakes: Vec<WakeNote>,
}

/// Proof that its holder was admitted through an owned attempt.
#[derive(Debug)]
#[non_exhaustive]
pub struct OrderedMutexOwnedGuard {}

/// An owned attempt to acquire an `OrderedMutex`, holding its ticket.
#[derive(Debug)]
pub struct OrderedMutexOwnedGuardFuture {
    id: usize,
    is_realized: bool,
    wakes: Vec<WakeNote>,
}

/// Taking a ticket: the attempt gets the next ticket, the counter moves on,
/// and the ticket gets an unset mark.
pub open spec fn lock_step<T>(before: OrderedMutex<T>, after: OrderedMutex<T>, id: usize) -> bool {
    &&& id == before.inner.state
    &&& after.inner.state == before.inner.state.wrapping_add(1)
    &&& after.inner.current == before.inner.current
    &&& after.inner.abandoned@ == before.inner.abandoned@.push(false)
    &&& after.inner.data == before.inner.data
}

/// Whether ticket `id` is admitted now.
pub open spec fn grants<T>(m: OrderedMutex<T>, id: usize) -> bool {
    id == m.inner.current
}

/// A release: the holder's ticket is done and the turn passes on, past any
/// abandoned tickets.
pub open spec fn release_step<T>(before: OrderedMutex<T>, after: OrderedMutex<T>) -> bool {
    release_inner(before.inner, after.inner)
}

/// Giving up the attempt with ticket `id` before its turn: the ticket is
/// marked, and skipped at once if its turn has come.
pub open spec fn abandon_step<T>(before: OrderedMutex<T>, after: OrderedMutex<T>, id: usize) -> bool {
    abandon_inner(before.inner, after.inner, id)
}

/// The state stands for `issued` tickets handed out, of which the first
/// `done` are done (released, or abandoned and skipped), with fewer tickets
/// out than the counters can tell apart and one mark per ticket out; `held`
/// says whether ticket `done` is in, which needs it handed out and unmarked.
pub open spec fn ticket_model<T>(m: OrderedMutex<T>, issued: nat, done: nat, held: bool) -> bool {
    &&& m.inner.state == issued % ticket_space()
    &&& m.inner.current == done % ticket_space()
    &&& done <= issued
    &&& issued - done < ticket_space()
    &&& m.inner.abandoned@.len() == issued - done
    &&& held ==> done < issued && !m.inner.abandoned@[0]
}

/// One step of a run of an ordered mutex: an attempt takes a ticket; the
/// attempt holding ticket number `t` (counted from the start of the run) is
/// polled, with its outcome; the admitted ticket is released; or the attempt
/// holding ticket number `t` is given up.
pub enum Step {
    Take(usize),
    Poll(nat, bool),
    Release,
    Abandon(nat),
}

/// After `events`, starting with `base` tickets handed out: how many tickets
/// were handed out, and whether one is in.
pub open spec fn counts(events: Seq<Step>, base: nat) -> (nat, bool)
    decreases events.len(),
{
    if events.len() == 0 {
        (base, false)
    } else {
        let (issued, held) = counts(events.drop_last(), base);
        match events.last() {
            Step::Take(_) => (issued + 1, held),
            Step::Poll(_, granted) => (issued, held || granted),
            Step::Release => (issued, false),
            Step::Abandon(_) => (issued, held),
        }
    }
}

/// How many tickets are done in a state of a run: those handed out and no
/// longer marked in the queue.
pub open spec fn done_at<T>(m: OrderedMutex<T>, issued: nat) -> int {
    issued - m.inner.abandoned@.len()
}

/// `states` is a run of an ordered mutex through `events` from `base`: every
/// step is as `step_ok` asks.
pub open spec fn is_run<T>(states: Seq<OrderedMutex<T>>, events: Seq<Step>, base: nat) -> bool {
    &&& states.len() == events.len() + 1
    &&& forall|i: int| 0 <= i < events.len() ==> #[trigger] step_ok(states, events, base, i)
}

/// Step `i` of a run: consecutive states are related by the step's contract;
/// fewer tickets are out than the counters can tell apart; each poll is for a
/// ticket handed out, not done, not given up and not yet admitted; only the
/// admitted ticket is released; and each ticket given up is one handed out,
/// not done and not admitted.
pub open spec fn step_ok<T>(states: Seq<OrderedMutex<T>>, events: Seq<Step>, base: nat, i: int) -> bool {
    let (issued, held) = counts(events.take(i), base);
    let done = done_at(states[i], issued);
    match events[i] {
        Step::Take(id) => lock_step(states[i], states[i + 1], id) && issued + 1 - done < ticket_space(),
        Step::Poll(t, granted) => {
            &&& states[i + 1] == states[i]
            &&& done <= t < issued
            &&& !states[i].inner.abandoned@[t - done]
            &&& !(held && t == done)
            &&& granted == grants(states[i], (t % ticket_space()) as usize)
        },
        Step::Release => release_step(states[i], states[i + 1]) && held,
        Step::Abandon(t) => {
            &&& abandon_step(states[i], states[i + 1], (t % ticket_space()) as usize)
            &&& done <= t < issued
            &&& !(held && t == done)
        },
    }
}

/// What the run law says of step `i`: a ticket taken is numbered by the
/// tickets handed out before it, and a poll is granted exactly for the ticket
/// after all done ones, and only while none is in.
pub open spec fn fifo_at<T>(states: Seq<OrderedMutex<T>>, events: Seq<Step>, base: nat, i: int) -> bool {
    let (issued, held) = counts(events.take(i), base);
    let done = done_at(states[i], issued);
    match events[i] {
        Step::Take(id) => id == issued % ticket_space(),
        Step::Poll(t, granted) => (granted <==> t == done) && (granted ==> !held),
        _ => true,
    }
}

impl<T> OrderedMutex<T> {
    /// The counters and the marks agree.
    pub open spec fn wf(&self) -> bool {
        self.inner.wf()
    }

    /// A fresh mutex around `data`: no tickets handed out.
    pub fn new(data: T) -> (r: OrderedMutex<T>)
        ensures
            r.inner.state == 0,
            r.inner.current == 0,
            r.inner.abandoned@.len() == 0,
            r.inner.data == data,
            r.wf(),
    {
        OrderedMutex { inner: OrderedInner::new(data) }
    }

    /// Starts an attempt, which takes the next ticket.
    pub fn lock(&mut self) -> (r: OrderedMutexGuardFuture)
        ensures
            lock_step(*old(self), *final(self), r.id()),
            !r.realized(),
            r.wakes() == 0,
            old(self).wf() && old(self).inner.abandoned@.len() < usize::MAX ==> final(self).wf(),
    {
        OrderedMutexGuardFuture { id: self.inner.generate_id(), is_realized: false, wakes: Vec::new() }
    }

    /// Starts an owned attempt, which takes the next ticket.
    pub fn lock_owned(&mut self) -> (r: OrderedMutexOwnedGuardFuture)
        ensures
            lock_step(*old(self), *final(self), r.id()),
            !r.realized(),
            r.wakes() == 0,
            old(self).wf() && old(self).inner.abandoned@.len() < usize::MAX ==> final(self).wf(),
    {
        OrderedMutexOwnedGuardFuture { id: self.inner.generate_id(), is_realized: false, wakes: Vec::new() }
    }
}

impl OrderedMutexGuardFuture {
    /// The ticket of this attempt.
    pub closed spec fn id(&self) -> usize {
        self.id
    }

    /// Whether this attempt has been admitted.
    pub closed spec fn realized(&self) -> bool {
        self.is_realized
    }

    /// How many times this attempt has called `wake_by_ref` when refused
    /// (the records take no memory).
    pub closed spec fn wakes(&self) -> nat {
        self.wakes@.len()
    }

    /// Admits the attempt when its ticket is the current one; otherwise the
    /// task behind `waker` is asked to poll again at once.
    pub fn poll<T>(&mut self, mutex: &OrderedMutex<T>, waker: &Waker) -> (r: Poll<OrderedMutexGuard>)
        ensures
            attempt_step(*old(self), *final(self), *mutex, r is Ready),
    {
        if mutex.inner.try_acquire(self.id) {
            self.is_realized = true;
            Poll::Ready(OrderedMutexGuard {})
        } else {
            let note = mutex.inner.store_waker(waker);
            self.wakes.push(note);
            Poll::Pending
        }
    }

    /// Gives up the attempt. One that was admitted leaves the mutex to its
    /// guard; one that was not has its ticket skipped when its turn comes.
    pub fn drop<T>(self, mutex: &mut OrderedMutex<T>)
        ensures
            if self.realized() {
                *final(mutex) == *old(mutex)
            } else {
                abandon_step(*old(mutex), *final(mutex), self.id())
            },
            old(mutex).wf() ==> final(mutex).wf(),
    {
        if !self.is_realized {
            mutex.inner.abandon(self.id);
        }
    }
}

impl OrderedMutexOwnedGuardFuture {
    /// The ticket of this attempt.
    pub closed spec fn id(&self) -> usize {
        self.id
    }

    /// Whether this attempt has been admitted.
    pub closed spec fn realized(&self) -> bool {
        self.is_realized
    }

    /// How many times this attempt has called `wake_by_ref` when refused
    /// (the records take no memory).
    pub closed spec fn wakes(&self) -> nat {
        self.wakes@.len()
    }

    /// Admits the attempt when its ticket is the current one; otherwise the
    /// task behind `waker` is asked to poll again at once.
    pub fn poll<T>(&mut self, mutex: &OrderedMutex<T>, waker: &Waker) -> (r: Poll<OrderedMutexOwnedGuard>)
        ensures
            owned_attempt_step(*old(self), *final(self), *mutex, r is Ready),
    {
        if mutex.inner.try_acquire(self.id) {
            self.is_realized = true;
            Poll::Ready(OrderedMutexOwnedGuard {})
        } else {
            let note = mutex.inner.store_waker(waker);
            self.wakes.push(note);
            Poll::Pending
        }
    }

    /// Gives up the attempt. One that was admitted leaves the mutex to its
    /// guard; one that was not has its ticket skipped when its turn comes.
    pub fn drop<T>(self, mutex: &mut OrderedMutex<T>)
        ensures
            if self.realized() {
                *final(mutex) == *old(mutex)
            } else {
                abandon_step(*old(mutex), *final(mutex), self.id())
            },
            old(mutex).wf() ==> final(mutex).wf(),
    {
        if !self.is_realized {
            mutex.inner.abandon(self.id);
        }
    }
}

impl OrderedMutexGuard {
    /// Shared access to the data of the mutex this guard holds.
    pub fn deref<'a, T>(&self, mutex: &'a OrderedMutex<T>) -> (r: &'a T)
        ensures
            *r == mutex.inner.data,
    {
        mutex.inner.data()
    }

    /// Exclusive access to the data of the mutex this guard holds.
    pub fn deref_mut<'a, T>(&self, mutex: &'a mut OrderedMutex<T>) -> (r: &'a mut T)
        ensures
            *r == old(mutex).inner.data,
            final(mutex).inner.data == *final(r),
            final(mutex).inner.state == old(mutex).inner.state,
            final(mutex).inner.current == old(mutex).inner.current,
            final(mutex).inner.abandoned == old(mutex).inner.abandoned,
    {
        mutex.inner.data_mut()
    }

    /// Releases the mutex to the next ticket that was not given up.
    pub fn drop<T>(self, mutex: &mut OrderedMutex<T>)
        ensures
            release_step(*old(mutex), *final(mutex)),
            old(mutex).wf() ==> final(mutex).wf(),
    {
        mutex.inner.unlock();
    }
}

impl OrderedMutexOwnedGuard {
    /// Shared access to the data of the mutex this guard holds.
    pub fn deref<'a, T>(&self, mutex: &'a OrderedMutex<T>) -> (r: &'a T)
        ensures
            *r == mutex.inner.data,
    {
        mutex.inner.data()
    }

    /// Exclusive access to the data of the mutex this guard holds.
    pub fn deref_mut<'a, T>(&self, mutex: &'a mut OrderedMutex<T>) -> (r: &'a mut T)
        ensures
            *r == old(mutex).inner.data,
            final(mutex).inner.data == *final(r),
            final(mutex).inner.state == old(mutex).inner.state,
            final(mutex).inner.current == old(mutex).inner.current,
            final(mutex).inner.abandoned == old(mutex).inner.abandoned,
    {
        mutex.inner.data_mut()
    }

    /// Releases the mutex to the next ticket that was not given up.
    pub fn drop<T>(self, mutex: &mut OrderedMutex<T>)
        ensures
            release_step(*old(mutex), *final(mutex)),
            old(mutex).wf() ==> final(mutex).wf(),
    {
        mutex.inner.unlock();
    }
}

/// Taking a ticket hands out the ticket numbered by the count of tickets so far.
pub proof fn lemma_issue<T>(m: OrderedMutex<T>, m2: OrderedMutex<T>, id: usize, issued: nat, done: nat, held: bool)
    requires
        ticket_model(m, issued, done, held),
        issued + 1 - done < ticket_space(),
        lock_step(m, m2, id),
    ensures
        id == issued % ticket_space(),
        ticket_model(m2, issued + 1, done, held),
{
    lemma_counter_succ(m.inner.state, issued);
    if held {
        assert(m2.inner.abandoned@[0] == m.inner.abandoned@[0]);
    }
}

/// First come, first served, one at a time: of the tickets handed out, not
/// done and not yet admitted, exactly the one after all done tickets is
/// admitted, and only while no ticket is in; then it is in.
pub proof fn lemma_fifo<T>(m: OrderedMutex<T>, issued: nat, done: nat, held: bool, t: nat)
    requires
        ticket_model(m, issued, done, held),
        done <= t < issued,
        !m.inner.abandoned@[t - done],
        !(held && t == done),
    ensures
        grants(m, (t % ticket_space()) as usize) <==> t == done,
        grants(m, (t % ticket_space()) as usize) ==> !held && ticket_model(m, issued, done, true),
{
    lemma_counter_offset(m.inner.current, done, (t - done) as nat, 0);
}

/// Releasing the admitted ticket makes it done, together with the abandoned
/// tickets right after it; nobody is in afterwards.
pub proof fn lemma_release<T>(m: OrderedMutex<T>, m2: OrderedMutex<T>, issued: nat, done: nat)
    requires
        ticket_model(m, issued, done, true),
        release_step(m, m2),
    ensures
        done_at(m2, issued) >= done + 1,
        ticket_model(m2, issued, done_at(m2, issued) as nat, false),
{
    let q1 = m.inner.abandoned@.drop_first();
    let k = leading(q1);
    lemma_leading(q1);
    lemma_counter_add(m.inner.current, done, 1 + k);
}

/// Giving up a ticket that is out, not done and not in marks it; when it is
/// the head of the line it is done at once, with the marked tickets after it.
pub proof fn lemma_abandon<T>(m: OrderedMutex<T>, m2: OrderedMutex<T>, issued: nat, done: nat, held: bool, t: nat)
    requires
        ticket_model(m, issued, done, held),
        done <= t < issued,
        !(held && t == done),
        abandon_step(m, m2, (t % ticket_space()) as usize),
    ensures
        done_at(m2, issued) >= done,
        held ==> done_at(m2, issued) == done,
        ticket_model(m2, issued, done_at(m2, issued) as nat, held),
{
    let q = m.inner.abandoned@;
    lemma_counter_distance((t % ticket_space()) as usize, m.inner.current, done, t);
    let o = (t - done) as int;
    if !q[o] {
        let q1 = q.update(o, true);
        let k = leading(q1);
        lemma_leading(q1);
        lemma_counter_add(m.inner.current, done, k);
        if held {
            assert(q1[0] == q[0]);
        }
    }
}

/// One step of a run keeps the ticket model and meets `fifo_at`.
proof fn lemma_run_step<T>(states: Seq<OrderedMutex<T>>, events: Seq<Step>, base: nat, i: int)
    requires
        is_run(states, events, base),
        0 <= i < events.len(),
        ({
            let (issued, held) = counts(events.take(i), base);
            done_at(states[i], issued) >= 0 && ticket_model(states[i], issued, done_at(states[i], issued) as nat, held)
        }),
    ensures
        ({
            let (issued, held) = counts(events.take(i + 1), base);
            done_at(states[i + 1], issued) >= 0 && ticket_model(
                states[i + 1],
                issued,
                done_at(states[i + 1], issued) as nat,
                held,
            )
        }),
        fifo_at(states, events, base, i),
{
    let prefix = events.take(i + 1);
    assert(prefix.drop_last() =~= events.take(i));
    assert(prefix.last() == events[i]);
    let (issued, held) = counts(events.take(i), base);
    let (m, m2) = (states[i], states[i + 1]);
    let done = done_at(m, issued) as nat;
    assert(step_ok(states, events, base, i));
    match events[i] {
        Step::Take(id) => lemma_issue(m, m2, id, issued, done, held),
        Step::Poll(t, granted) => lemma_fifo(m, issued, done, held, t),
        Step::Release => lemma_release(m, m2, issued, done),
        Step::Abandon(t) => lemma_abandon(m, m2, issued, done, held, t),
    }
}

/// First come, first served over whole runs: from counters that agree with
/// nothing handed out, every attempt gets the ticket numbered by the tickets
/// handed out before it, and every poll is granted exactly when all earlier
/// tickets are done (released, or given up and skipped), so at most one
/// ticket is ever in, they get in in order, and giving up a ticket, at any
/// point in the line, never lets anyone in beside the holder.
pub proof fn lemma_run_fifo<T>(states: Seq<OrderedMutex<T>>, events: Seq<Step>, base: nat, k: int)
    requires
        is_run(states, events, base),
        states[0].inner.state == states[0].inner.current,
        states[0].inner.abandoned@.len() == 0,
        base == states[0].inner.state,
        0 <= k <= events.len(),
    ensures
        ({
            let (issued, held) = counts(events.take(k), base);
            done_at(states[k], issued) >= 0 && ticket_model(states[k], issued, done_at(states[k], issued) as nat, held)
        }),
        forall|i: int| 0 <= i < k ==> #[trigger] fifo_at(states, events, base, i),
    decreases k,
{
    if k > 0 {
        lemma_run_fifo(states, events, base, k - 1);
        lemma_run_step(states, events, base, k - 1);
        assert forall|i: int| 0 <= i < k implies #[trigger] fifo_at(states, events, base, i) by {
            if i < k - 1 {
                assert(fifo_at(states, events, base, i));
            }
        }
    } else {
        assert(events.take(0) =~= Seq::<Step>::empty());
        vstd::arithmetic::div_mod::lemma_small_mod(base, ticket_space());
    }
}

/// One poll of an attempt: it is admitted exactly when its ticket is the
/// current one, keeps its ticket, becomes admitted when it is, and, when
/// refused, asks for its task to be polled again: one more `wake_by_ref`
/// call is recorded (none when admitted).
pub open spec fn attempt_step<T>(before: OrderedMutexGuardFuture, after: OrderedMutexGuardFuture, m: OrderedMutex<T>, granted: bool) -> bool {
    &&& granted == grants(m, before.id())
    &&& after.id() == before.id()
    &&& after.realized() == (before.realized() || granted)
    &&& after.wakes() == before.wakes() + if granted { 0nat } else { 1nat }
}

/// How many of `outcomes` are refusals.
pub open spec fn attempt_refusals(outcomes: Seq<bool>) -> nat
    decreases outcomes.len(),
{
    if outcomes.len() == 0 {
        0
    } else {
        attempt_refusals(outcomes.drop_last()) + if outcomes.last() { 0nat } else { 1nat }
    }
}

/// An attempt is never left to wait unasked: over any sequence of polls of
/// one attempt (against any states of the mutex), it keeps its ticket, it has
/// asked for exactly one re-poll per refused poll, and each poll is granted
/// exactly when its ticket is the current one.
pub proof fn lemma_attempt_rewakes<T>(attempts: Seq<OrderedMutexGuardFuture>, mutexes: Seq<OrderedMutex<T>>, outcomes: Seq<bool>, k: int)
    requires
        attempts.len() == outcomes.len() + 1,
        mutexes.len() == outcomes.len(),
        forall|i: int| 0 <= i < outcomes.len() ==> #[trigger] attempt_step(attempts[i], attempts[i + 1], mutexes[i], outcomes[i]),
        0 <= k <= outcomes.len(),
    ensures
        attempts[k].id() == attempts[0].id(),
        attempts[k].wakes() == attempts[0].wakes() + attempt_refusals(outcomes.take(k)),
        forall|i: int| 0 <= i < k ==> (outcomes[i] <==> attempts[0].id() == #[trigger] mutexes[i].inner.current),
    decreases k,
{
    if k > 0 {
        lemma_attempt_rewakes(attempts, mutexes, outcomes, k - 1);
        let j = k - 1;
        assert(attempt_step(attempts[j], attempts[j + 1], mutexes[j], outcomes[j]));
        let prefix = outcomes.take(k);
        assert(prefix.drop_last() =~= outcomes.take(k - 1));
        assert(prefix.last() == outcomes[k - 1]);
    } else {
        assert(outcomes.take(0) =~= Seq::<bool>::empty());
    }
}

/// One poll of an attempt: it is admitted exactly when its ticket is the
/// current one, keeps its ticket, becomes admitted when it is, and, when
/// refused, asks for its task to be polled again: one more `wake_by_ref`
/// call is recorded (none when admitted).
pub open spec fn owned_attempt_step<T>(before: OrderedMutexOwnedGuardFuture, after: OrderedMutexOwnedGuardFuture, m: OrderedMutex<T>, granted: bool) -> bool {
    &&& granted == grants(m, before.id())
    &&& after.id() == before.id()
    &&& after.realized() == (before.realized() || granted)
    &&& after.wakes() == before.wakes() + if granted { 0nat } else { 1nat }
}

/// How many of `outcomes` are refusals.
pub open spec fn owned_attempt_refusals(outcomes: Seq<bool>) -> nat
    decreases outcomes.len(),
{
    if outcomes.len() == 0 {
        0
    } else {
        owned_attempt_refusals(outcomes.drop_last()) + if outcomes.last() { 0nat } else { 1nat }
    }
}

/// An attempt is never left to wait unasked: over any sequence of polls of
/// one attempt (against any states of the mutex), it keeps its ticket, it has
/// asked for exactly one re-poll per refused poll, and each poll is granted
/// exactly when its ticket is the current one.
pub proof fn lemma_owned_attempt_rewakes<T>(attempts: Seq<OrderedMutexOwnedGuardFuture>, mutexes: Seq<OrderedMutex<T>>, outcomes: Seq<bool>, k: int)
    requires
        attempts.len() == outcomes.len() + 1,
        mutexes.len() == outcomes.len(),
        forall|i: int| 0 <= i < outcomes.len() ==> #[trigger] owned_attempt_step(attempts[i], attempts[i + 1], mutexes[i], outcomes[i]),
        0 <= k <= outcomes.len(),
    ensures
        attempts[k].id() == attempts[0].id(),
        attempts[k].wakes() == attempts[0].wakes() + owned_attempt_refusals(outcomes.take(k)),
        forall|i: int| 0 <= i < k ==> (outcomes[i] <==> attempts[0].id() == #[trigger] mutexes[i].inner.current),
    decreases k,
{
    if k > 0 {
        lemma_owned_attempt_rewakes(attempts, mutexes, outcomes, k - 1);
        let j = k - 1;
        assert(owned_attempt_step(attempts[j], attempts[j + 1], mutexes[j], outcomes[j]));
        let prefix = outcomes.take(k);
        assert(prefix.drop_last() =~= outcomes.take(k - 1));
        assert(prefix.last() == outcomes[k - 1]);
    } else {
        assert(outcomes.take(0) =~= Seq::<bool>::empty());
    }
}

} // verus!
