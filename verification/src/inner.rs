//! The two acquisition states that several locks share: a single flag, and a
//! ticket counter pair.

use vstd::prelude::*;
use std::task::Waker;
use crate::task::{wake_by_ref, wake, WakeNote, Woken, woken_wakers};
use crate::ticket::{
    ticket_space, leading, lemma_leading, lemma_leading_is, lemma_counter_succ, lemma_counter_add,
    lemma_wrapping_sub_advance, lemma_counter_offset_wrapping,
};
use vstd::arithmetic::div_mod::{lemma_small_mod, lemma_mod_bound};

verus! {

/// A lock flag beside the protected data.
#[derive(Debug)]
pub struct Inner<T> {
    is_acquired: bool,
    data: T,
}

impl<T> Inner<T> {
    /// Whether the flag is set.
    pub closed spec fn acquired(&self) -> bool {
        self.is_acquired
    }

    /// The protected data.
    pub closed spec fn value(&self) -> T {
        self.data
    }

    /// A free flag around `data`.
    pub fn new(data: T) -> (r: Inner<T>)
        ensures
            !r.acquired(),
            r.value() == data,
    {
        Inner { is_acquired: false, data }
    }

    /// Clears the flag.
    pub fn unlock(&mut self)
        ensures
            !final(self).acquired(),
            final(self).value() == old(self).value(),
    {
        self.is_acquired = false;
    }

    /// Asks the task to be polled again at once: a pending attempt on this
    /// flag is retried by the executor rather than parked. Returns the record
    /// of the `wake_by_ref` call.
    pub fn store_waker(&self, waker: &Waker) -> WakeNote {
        wake_by_ref(waker)
    }

    /// Sets the flag if it was clear; tells whether it did.
    pub fn try_acquire(&mut self) -> (r: bool)
        ensures
            r == !old(self).acquired(),
            final(self).acquired(),
            final(self).value() == old(self).value(),
    {
        if !self.is_acquired {
            self.is_acquired = true;
            true
        } else {
            false
        }
    }

    /// Shared access to the data.
    pub fn data(&self) -> (r: &T)
        ensures
            *r == self.value(),
    {
        &self.data
    }

    /// Exclusive access to the data; the flag is untouched.
    pub fn data_mut(&mut self) -> (r: &mut T)
        ensures
            *r == old(self).value(),
            final(self).value() == *final(r),
            final(self).acquired() == old(self).acquired(),
    {
        &mut self.data
    }
}

/// A ticket counter beside the protected data: `state` is the next ticket to
/// hand out and `current` the ticket now allowed in. Both count modulo the
/// word size. `abandoned` has one mark per ticket from `current` on that was
/// handed out: set when the attempt holding it was given up before its turn,
/// so the ticket is skipped when its turn comes. The fields are open; `wf`
/// says when they agree.
#[derive(Debug)]
pub struct OrderedInner<T> {
    pub state: usize,
    pub current: usize,
    pub abandoned: Vec<bool>,
    pub data: T,
}

/// The marks left after skipping the marked run at the head of `q`.
pub open spec fn skip_marked(q: Seq<bool>) -> Seq<bool> {
    q.skip(leading(q) as int)
}

impl<T> OrderedInner<T> {
    /// One mark per ticket handed out from `current` on, and the ticket whose
    /// turn it is has not been abandoned.
    pub open spec fn wf(&self) -> bool {
        &&& self.abandoned@.len() == self.state.wrapping_sub(self.current)
        &&& self.abandoned@.len() > 0 ==> !self.abandoned@[0]
    }

    /// Both counters at zero around `data`, nothing handed out.
    pub fn new(data: T) -> (r: OrderedInner<T>)
        ensures
            r.state == 0,
            r.current == 0,
            r.abandoned@.len() == 0,
            r.data == data,
            r.wf(),
    {
        OrderedInner { state: 0, current: 0, abandoned: Vec::new(), data }
    }

    /// Hands out the next ticket and advances `state`, wrapping at the top.
    pub fn generate_id(&mut self) -> (id: usize)
        ensures
            issue_step(*old(self), *final(self), id),
            old(self).wf() && old(self).abandoned@.len() < usize::MAX ==> final(self).wf(),
    {
        let id = self.state;
        self.state = self.state.wrapping_add(1);
        self.abandoned.push(false);
        proof {
            if old(self).wf() && old(self).abandoned@.len() < usize::MAX {
                lemma_wrapping_sub_succ(old(self).state, old(self).current);
                assert(self.abandoned@[0] == old(self).abandoned@.push(false)[0]);
            }
        }
        id
    }

    /// Skips the marked run at the head: each of those tickets counts as
    /// having had its turn.
    fn skip_abandoned(&mut self)
        ensures
            final(self).abandoned@ == skip_marked(old(self).abandoned@),
            final(self).current as int == (old(self).current + leading(old(self).abandoned@)) % (
            ticket_space() as int),
            final(self).state == old(self).state,
            final(self).data == old(self).data,
    {
        skip_abandoned(&mut self.abandoned, &mut self.current);
    }

    /// The holder leaves: its ticket is done and the turn passes on, past any
    /// abandoned tickets. With no ticket handed out there is no holder, and
    /// nothing changes.
    pub fn unlock(&mut self)
        ensures
            release_inner(*old(self), *final(self)),
            old(self).wf() ==> final(self).wf(),
    {
        if self.abandoned.len() > 0 {
            let ghost q = self.abandoned@;
            let ghost c = self.current;
            self.abandoned.remove(0);
            self.current = self.current.wrapping_add(1);
            assert(self.abandoned@ =~= q.drop_first());
            let ghost c1 = self.current;
            self.skip_abandoned();
            proof {
                let k = leading(q.drop_first());
                lemma_leading(q.drop_first());
                lemma_small_mod(c as nat, ticket_space());
                lemma_counter_succ(c, c as nat);
                lemma_counter_add(c1, (c + 1) as nat, k);
                if old(self).wf() {
                    lemma_wrapping_sub_advance(old(self).state, c, 1 + k);
                    if k < q.drop_first().len() {
                        assert(self.abandoned@[0] == q.drop_first()[k as int]);
                    }
                }
            }
        }
    }

    /// Gives up ticket `id` before its turn: it is marked, and skipped at once
    /// if its turn has come. A ticket that is not waiting is left alone.
    pub fn abandon(&mut self, id: usize)
        ensures
            abandon_inner(*old(self), *final(self), id),
            old(self).wf() ==> final(self).wf(),
    {
        let offset = id.wrapping_sub(self.current);
        if offset < self.abandoned.len() && !self.abandoned[offset] {
            let ghost c = self.current;
            self.abandoned.set(offset, true);
            let ghost q1 = self.abandoned@;
            self.skip_abandoned();
            proof {
                let k = leading(q1);
                lemma_leading(q1);
                if old(self).wf() {
                    lemma_wrapping_sub_advance(old(self).state, c, k);
                    if k < q1.len() {
                        assert(self.abandoned@[0] == q1[k as int]);
                    }
                }
            }
        }
    }

    /// Asks the task to be polled again at once. Returns the record of the
    /// `wake_by_ref` call.
    pub fn store_waker(&self, waker: &Waker) -> WakeNote {
        wake_by_ref(waker)
    }

    /// Whether ticket `id` is the one now allowed in.
    pub fn try_acquire(&self, id: usize) -> (r: bool)
        ensures
            r == (id == self.current),
    {
        id == self.current
    }

    /// Shared access to the data.
    pub fn data(&self) -> (r: &T)
        ensures
            *r == self.data,
    {
        &self.data
    }

    /// Exclusive access to the data; the counters and marks are untouched.
    pub fn data_mut(&mut self) -> (r: &mut T)
        ensures
            *r == old(self).data,
            final(self).data == *final(r),
            final(self).state == old(self).state,
            final(self).current == old(self).current,
            final(self).abandoned == old(self).abandoned,
    {
        &mut self.data
    }
}

/// Handing out a ticket: the ticket is the old `state`, which moves on (with
/// wrapping); the new ticket gets an unset mark; nothing else changes.
pub open spec fn issue_step<T>(before: OrderedInner<T>, after: OrderedInner<T>, id: usize) -> bool {
    &&& id == before.state
    &&& after.state == before.state.wrapping_add(1)
    &&& after.current == before.current
    &&& after.abandoned@ == before.abandoned@.push(false)
    &&& after.data == before.data
}

/// Tickets are handed out in sequence and stay distinct until the counter
/// wraps: over any run of ticket hand-outs, the `i`-th ticket is the first
/// counter value advanced by `i` (with wrapping), and no two of the first
/// `ticket_space()` tickets are equal.
pub proof fn lemma_tickets_distinct<T>(states: Seq<OrderedInner<T>>, ids: Seq<usize>)
    requires
        states.len() == ids.len() + 1,
        ids.len() <= ticket_space(),
        forall|i: int| 0 <= i < ids.len() ==> #[trigger] issue_step(states[i], states[i + 1], ids[i]),
    ensures
        forall|i: int| 0 <= i < ids.len() ==> #[trigger] ids[i] as int == (states[0].state + i) % (ticket_space() as int),
        forall|i: int, j: int| 0 <= i < j < ids.len() ==> ids[i] != ids[j],
{
    lemma_ticket_sequence(states, ids, ids.len() as int);
    assert forall|i: int, j: int| 0 <= i < j < ids.len() implies ids[i] != ids[j] by {
        let x = ids[i];
        lemma_ticket_sequence(states, ids, j + 1);
        lemma_mod_bound((states[0].state + i) as int, ticket_space() as int);
        lemma_small_mod(x as nat, ticket_space());
        lemma_counter_offset_wrapping(x, (states[0].state + i) as nat, (j - i) as nat, 0);
    }
}

/// The `i`-th ticket of a run of hand-outs, for every `i` below `k`.
proof fn lemma_ticket_sequence<T>(states: Seq<OrderedInner<T>>, ids: Seq<usize>, k: int)
    requires
        states.len() == ids.len() + 1,
        0 <= k <= ids.len(),
        forall|i: int| 0 <= i < ids.len() ==> #[trigger] issue_step(states[i], states[i + 1], ids[i]),
    ensures
        forall|i: int| 0 <= i < k ==> #[trigger] ids[i] as int == (states[0].state + i) % (ticket_space() as int),
        states[k].state as int == (states[0].state + k) % (ticket_space() as int),
    decreases k,
{
    if k == 0 {
        lemma_small_mod(states[0].state as nat, ticket_space());
    } else {
        lemma_ticket_sequence(states, ids, k - 1);
        let j = k - 1;
        assert(issue_step(states[j], states[j + 1], ids[j]));
        assert(j + 1 == k);
        lemma_counter_succ(states[j].state, (states[0].state + j) as nat);
    }
}

/// The holder leaving: with a ticket handed out, the head ticket is done,
/// the turn passes to the next one and then past the marked run after it.
pub open spec fn release_inner<T>(before: OrderedInner<T>, after: OrderedInner<T>) -> bool {
    let q = before.abandoned@;
    &&& after.state == before.state
    &&& after.data == before.data
    &&& if q.len() > 0 {
        &&& after.abandoned@ == skip_marked(q.drop_first())
        &&& after.current as int == (before.current + 1 + leading(q.drop_first())) % (ticket_space() as int)
    } else {
        after.current == before.current && after.abandoned@ == q
    }
}

/// Giving up ticket `id`: when it is handed out and unmarked, it is marked and
/// the marked run at the head is skipped; otherwise nothing changes.
pub open spec fn abandon_inner<T>(before: OrderedInner<T>, after: OrderedInner<T>, id: usize) -> bool {
    let q = before.abandoned@;
    let offset = id.wrapping_sub(before.current) as int;
    &&& after.state == before.state
    &&& after.data == before.data
    &&& if offset < q.len() && !q[offset] {
        &&& after.abandoned@ == skip_marked(q.update(offset, true))
        &&& after.current as int == (before.current + leading(q.update(offset, true))) % (ticket_space() as int)
    } else {
        after.current == before.current && after.abandoned@ == q
    }
}

/// Skips the marked run at the head of `abandoned`, advancing `current` (with
/// wrapping) once per ticket skipped.
pub(crate) fn skip_abandoned(abandoned: &mut Vec<bool>, current: &mut usize)
    ensures
        final(abandoned)@ == skip_marked(old(abandoned)@),
        *final(current) as int == (*old(current) + leading(old(abandoned)@)) % (ticket_space() as int),
{
    let ghost q = abandoned@;
    let ghost c = *current;
    proof {
        lemma_small_mod(c as nat, ticket_space());
    }
    let mut k: usize = 0;
    assert(q.len() == abandoned.len());
    while abandoned.len() > 0 && abandoned[0]
        invariant
            k <= q.len(),
            q.len() <= usize::MAX,
            abandoned@ == q.skip(k as int),
            forall|i: int| 0 <= i < k ==> q[i],
            *current as int == (c + k) % (ticket_space() as int),
        decreases abandoned@.len(),
    {
        proof {
            assert(q[k as int] == abandoned@[0]);
            lemma_counter_succ(*current, (c + k) as nat);
        }
        abandoned.remove(0);
        *current = current.wrapping_add(1);
        k = k + 1;
        assert(abandoned@ =~= q.skip(k as int));
    }
    proof {
        if k < q.len() {
            assert(q[k as int] == abandoned@[0]);
        }
        lemma_leading_is(q, k as nat);
    }
}

/// Takes every waker out of `waiters`, oldest first, and wakes it, adding the
/// record of each wake-up to `log`.
pub(crate) fn wake_all(waiters: &mut Vec<Waker>, log: &mut Vec<Woken>)
    ensures
        final(waiters)@.len() == 0,
        woken_wakers(final(log)@) == woken_wakers(old(log)@) + old(waiters)@,
{
    let ghost parked = waiters@;
    let ghost start = log@;
    let mut i: usize = 0;
    assert(parked.len() == waiters.len());
    while waiters.len() > 0
        invariant
            i <= parked.len(),
            parked.len() <= usize::MAX,
            waiters@ == parked.skip(i as int),
            woken_wakers(log@) == woken_wakers(start) + parked.take(i as int),
        decreases waiters.len(),
    {
        let waker = waiters.remove(0);
        proof {
            assert(waker == parked[i as int]);
        }
        let woken = wake(waker);
        let ghost l0 = log@;
        log.push(woken);
        proof {
            assert(woken_wakers(log@) =~= woken_wakers(l0).push(parked[i as int]));
            assert(parked.take(i as int + 1) =~= parked.take(i as int).push(parked[i as int]));
        }
        i = i + 1;
        assert(waiters@ =~= parked.skip(i as int));
        assert(woken_wakers(log@) =~= woken_wakers(start) + parked.take(i as int));
    }
    assert(parked.take(i as int) =~= parked);
}

/// Handing out a ticket widens the wrapped distance between the counters by one,
/// while that distance stays below the top of the range.
proof fn lemma_wrapping_sub_succ(state: usize, current: usize)
    requires
        state.wrapping_sub(current) < usize::MAX,
    ensures
        state.wrapping_add(1).wrapping_sub(current) == state.wrapping_sub(current) + 1,
{
}

} // verus!
