//! The ordered read-write lock: attempts take tickets in the order they
//! start; a writer is admitted when every earlier ticket is done, a reader
//! when every earlier ticket is done or is a reader still inside. An attempt
//! given up before its turn has its ticket skipped when the turn comes.
//! Every refused attempt parks its waker; every release, and every attempt
//! given up, takes all parked wakers out and wakes them.

use vstd::prelude::*;
use std::task::Waker;
use crate::inner::{skip_abandoned, skip_marked};
use crate::task::{Poll, Woken, woken_wakers, clone_waker};
use crate::inner::wake_all;
use crate::ticket::{
    ticket_space, leading, lemma_leading, lemma_counter_succ, lemma_counter_offset,
    lemma_counter_offset_wrapping, lemma_counter_add, lemma_counter_distance,
    lemma_wrapping_add_counter, lemma_reduce_once, lemma_wrapping_sub_advance,
};
use vstd::arithmetic::div_mod::lemma_small_mod;

verus! {

/// A read-write lock that admits its lockers in the order they asked.
///
/// `state` is the next ticket to hand out; `current` counts the tickets that
/// are done; `readers` counts the readers inside and `writer` says whether a
/// writer is. `abandoned` has one mark per ticket handed out and not yet
/// admitted, set when its attempt was given up; `waiters` holds the wakers of
/// the attempts refused since the last release or give-up, and `woken` the
/// record of every wake-up the lock made (it takes no memory, and holds a
/// ghost part, so the type has no `Debug`). The fields are open; `wf` says
/// when they agree.
pub struct OrderedRwLock<T> {
    pub state: usize,
    pub current: usize,
    pub readers: usize,
    pub writer: bool,
    pub abandoned: Vec<bool>,
    pub waiters: Vec<Waker>,
    pub woken: Vec<Woken>,
    pub data: T,
}

/// Proof that its holder was admitted to write; release it with `drop`.
#[derive(Debug)]
#[non_exhaustive]
pub struct OrderedRwLockWriteGuard {}

/// A write attempt on an `OrderedRwLock`, holding its ticket.
#[derive(Debug)]
pub struct OrderedRwLockWriteGuardFuture {
    id: usize,
    is_realized: bool,
}

/// Proof that its holder was admitted to write through an owned attempt.
#[derive(Debug)]
#[non_exhaustive]
pub struct OrderedRwLockWriteOwnedGuard {}

/// An owned write attempt on an `OrderedRwLock`, holding its ticket.
#[derive(Debug)]
pub struct OrderedRwLockWriteOwnedGuardFuture {
    id: usize,
    is_realized: bool,
}

/// Proof that its holder was admitted to read; release it with `drop`.
#[derive(Debug)]
#[non_exhaustive]
pub struct OrderedRwLockReadGuard {}

/// A read attempt on an `OrderedRwLock`, holding its ticket.
#[derive(Debug)]
pub struct OrderedRwLockReadGuardFuture {
    id: usize,
    is_realized: bool,
}

/// Proof that its holder was admitted to read through an owned attempt.
#[derive(Debug)]
#[non_exhaustive]
pub struct OrderedRwLockReadOwnedGuard {}

/// An owned read attempt on an `OrderedRwLock`, holding its ticket.
#[derive(Debug)]
pub struct OrderedRwLockReadOwnedGuardFuture {
    id: usize,
    is_realized: bool,
}

/// The next ticket to admit: past every ticket done and every one inside.
pub open spec fn front<T>(m: OrderedRwLock<T>) -> usize {
    m.current.wrapping_add(m.readers).wrapping_add(if m.writer { 1usize } else { 0usize })
}

/// The marks after admitting the head ticket: it leaves the queue, and the
/// marked run behind it is skipped.
pub open spec fn admit_queue(q: Seq<bool>) -> Seq<bool> {
    if q.len() > 0 { skip_marked(q.drop_first()) } else { q }
}

/// How many tickets are skipped when the head ticket is admitted.
pub open spec fn admit_skips(q: Seq<bool>) -> nat {
    if q.len() > 0 { leading(q.drop_first()) } else { 0 }
}

/// Taking a ticket: the attempt gets the next ticket, the counter moves on,
/// and the ticket gets an unset mark.
pub open spec fn lock_step<T>(before: OrderedRwLock<T>, after: OrderedRwLock<T>, id: usize) -> bool {
    &&& id == before.state
    &&& after.state == before.state.wrapping_add(1)
    &&& after.abandoned@ == before.abandoned@.push(false)
    &&& after.current == before.current
    &&& after.readers == before.readers
    &&& after.writer == before.writer
    &&& after.waiters == before.waiters
    &&& after.woken == before.woken
    &&& after.data == before.data
}

/// A refused attempt: nothing changes but that a handle on its waker is
/// parked behind the others.
pub open spec fn refused_step<T>(before: OrderedRwLock<T>, after: OrderedRwLock<T>) -> bool {
    &&& after.state == before.state
    &&& after.current == before.current
    &&& after.readers == before.readers
    &&& after.writer == before.writer
    &&& after.abandoned == before.abandoned
    &&& after.woken == before.woken
    &&& after.data == before.data
    &&& after.waiters@.len() == before.waiters@.len() + 1
    &&& after.waiters@.drop_last() == before.waiters@
}

/// An admission: the head ticket leaves the queue, the marked run behind it
/// is skipped (each skipped ticket counts as done); the parked wakers stay.
pub open spec fn admit_step<T>(before: OrderedRwLock<T>, after: OrderedRwLock<T>) -> bool {
    let q = before.abandoned@;
    &&& after.state == before.state
    &&& after.abandoned@ == admit_queue(q)
    &&& after.current as int == (before.current + admit_skips(q)) % (ticket_space() as int)
    &&& after.waiters == before.waiters
    &&& after.woken == before.woken
    &&& after.data == before.data
}

/// A write attempt with ticket `id`: admitted exactly when `id` is the count
/// of tickets done; then the writer is inside.
pub open spec fn write_poll_step<T>(before: OrderedRwLock<T>, after: OrderedRwLock<T>, id: usize, granted: bool) -> bool {
    &&& granted == (id == before.current)
    &&& if granted {
        &&& admit_step(before, after)
        &&& after.writer
        &&& after.readers == before.readers
    } else {
        refused_step(before, after)
    }
}

/// A read attempt with ticket `id`: admitted exactly when `id` is the count
/// of tickets done plus the readers inside (with wrapping); then it is
/// counted among the readers.
pub open spec fn read_poll_step<T>(before: OrderedRwLock<T>, after: OrderedRwLock<T>, id: usize, granted: bool) -> bool {
    &&& granted == (before.current.wrapping_add(before.readers) == id)
    &&& if granted {
        &&& admit_step(before, after)
        &&& after.writer == before.writer
        &&& after.readers == before.readers.wrapping_add(1)
    } else {
        refused_step(before, after)
    }
}

/// The writer leaving: one more ticket is done, no writer is inside, and
/// every parked waker is taken out and woken, oldest first.
pub open spec fn write_release_step<T>(before: OrderedRwLock<T>, after: OrderedRwLock<T>) -> bool {
    &&& after.current == before.current.wrapping_add(1)
    &&& !after.writer
    &&& after.state == before.state
    &&& after.readers == before.readers
    &&& after.abandoned == before.abandoned
    &&& after.waiters@.len() == 0
    &&& woken_wakers(after.woken@) == woken_wakers(before.woken@) + before.waiters@
    &&& after.data == before.data
}

/// A reader leaving: one more ticket is done, one reader fewer is inside,
/// and every parked waker is taken out and woken, oldest first.
pub open spec fn read_release_step<T>(before: OrderedRwLock<T>, after: OrderedRwLock<T>) -> bool {
    &&& after.current == before.current.wrapping_add(1)
    &&& after.readers == before.readers.wrapping_sub(1)
    &&& after.writer == before.writer
    &&& after.state == before.state
    &&& after.abandoned == before.abandoned
    &&& after.waiters@.len() == 0
    &&& woken_wakers(after.woken@) == woken_wakers(before.woken@) + before.waiters@
    &&& after.data == before.data
}

/// Giving up the attempt with ticket `id` before its turn: when the ticket
/// is waiting and unmarked it is marked, and the marked run at the head is
/// skipped (each skipped ticket counts as done); every parked waker is taken
/// out and woken, oldest first.
pub open spec fn abandon_step<T>(before: OrderedRwLock<T>, after: OrderedRwLock<T>, id: usize) -> bool {
    let q = before.abandoned@;
    let offset = id.wrapping_sub(front(before)) as int;
    &&& after.state == before.state
    &&& after.readers == before.readers
    &&& after.writer == before.writer
    &&& after.waiters@.len() == 0
    &&& woken_wakers(after.woken@) == woken_wakers(before.woken@) + before.waiters@
    &&& after.data == before.data
    &&& if offset < q.len() && !q[offset] {
        &&& after.abandoned@ == skip_marked(q.update(offset, true))
        &&& after.current as int == (before.current + leading(q.update(offset, true))) % (ticket_space() as int)
    } else {
        after.current == before.current && after.abandoned@ == q
    }
}

/// The state stands for `issued` tickets handed out, of which the first
/// `admitted` were admitted (or skipped) in ticket order and `done` are done;
/// the readers and the writer inside make up the difference, a writer is
/// inside alone, the marks cover exactly the tickets not yet admitted, and
/// fewer tickets are out than the counters can tell apart.
pub open spec fn ticket_model<T>(m: OrderedRwLock<T>, issued: nat, done: nat, admitted: nat) -> bool {
    &&& m.state == issued % ticket_space()
    &&& m.current == done % ticket_space()
    &&& admitted == done + m.readers + if m.writer { 1nat } else { 0nat }
    &&& admitted <= issued
    &&& issued - done < ticket_space()
    &&& m.writer ==> m.readers == 0
    &&& m.abandoned@.len() == issued - admitted
}

/// Ticket `id` is waiting on a well-formed lock: handed out and not yet admitted.
pub open spec fn waiting<T>(m: OrderedRwLock<T>, id: usize) -> bool {
    m.wf() && (id.wrapping_sub(front(m)) as int) < m.abandoned@.len()
}

/// An admission of a waiting ticket keeps the lock well formed: the admitted
/// ticket is the head of the line, and a writer is admitted only with nobody
/// inside.
proof fn lemma_wf_admit<T>(before: OrderedRwLock<T>, after: OrderedRwLock<T>)
    requires
        before.wf(),
        before.abandoned@.len() > 0,
        admit_step(before, after),
        after.writer ==> after.readers == 0,
        after.readers + (if after.writer { 1int } else { 0int }) == before.readers + (if before.writer {
            1int
        } else {
            0int
        }) + 1,
    ensures
        after.wf(),
{
    let q1 = before.abandoned@.drop_first();
    lemma_leading(q1);
    lemma_small_mod(before.current as nat, ticket_space());
    lemma_wrapping_sub_advance(before.state, before.current, leading(q1));
    if leading(q1) < q1.len() {
        assert(after.abandoned@[0] == q1[leading(q1) as int]);
    }
}

impl<T> OrderedRwLock<T> {
    /// The tickets out but not done are exactly the marked ones (those not
    /// yet admitted), the readers and the writer inside; the ticket whose turn
    /// it is has not been given up; and a writer is inside alone.
    pub open spec fn wf(&self) -> bool {
        &&& self.state.wrapping_sub(self.current) == self.abandoned@.len() + self.readers + if self.writer {
            1int
        } else {
            0int
        }
        &&& self.abandoned@.len() > 0 ==> !self.abandoned@[0]
        &&& self.writer ==> self.readers == 0
    }

    /// A fresh lock around `data`: no tickets handed out, nobody inside.
    pub fn new(data: T) -> (r: OrderedRwLock<T>)
        ensures
            r.state == 0,
            r.current == 0,
            r.readers == 0,
            !r.writer,
            r.abandoned@.len() == 0,
            r.waiters@.len() == 0,
            r.woken@.len() == 0,
            r.data == data,
            r.wf(),
    {
        let r = OrderedRwLock {
            state: 0,
            current: 0,
            readers: 0,
            writer: false,
            abandoned: Vec::new(),
            waiters: Vec::new(),
            woken: Vec::new(),
            data,
        };
        assert(front(r) == 0);
        r
    }

    /// Hands out the next ticket.
    fn next_id(&mut self) -> (id: usize)
        ensures
            lock_step(*old(self), *final(self), id),
            old(self).wf() && old(self).state.wrapping_sub(old(self).current) < usize::MAX ==> final(self).wf(),
    {
        let id = self.state;
        self.state = self.state.wrapping_add(1);
        self.abandoned.push(false);
        proof {
            if old(self).wf() && old(self).state.wrapping_sub(old(self).current) < usize::MAX {
                assert(self.abandoned@[0] == old(self).abandoned@.push(false)[0]);
            }
        }
        id
    }

    /// Starts a write attempt, which takes the next ticket.
    pub fn write(&mut self) -> (r: OrderedRwLockWriteGuardFuture)
        ensures
            lock_step(*old(self), *final(self), r.id()),
            !r.realized(),
            old(self).wf() && old(self).state.wrapping_sub(old(self).current) < usize::MAX ==> final(self).wf(),
    {
        OrderedRwLockWriteGuardFuture { id: self.next_id(), is_realized: false }
    }

    /// Starts an owned write attempt, which takes the next ticket.
    pub fn write_owned(&mut self) -> (r: OrderedRwLockWriteOwnedGuardFuture)
        ensures
            lock_step(*old(self), *final(self), r.id()),
            !r.realized(),
            old(self).wf() && old(self).state.wrapping_sub(old(self).current) < usize::MAX ==> final(self).wf(),
    {
        OrderedRwLockWriteOwnedGuardFuture { id: self.next_id(), is_realized: false }
    }

    /// Starts a read attempt, which takes the next ticket.
    pub fn read(&mut self) -> (r: OrderedRwLockReadGuardFuture)
        ensures
            lock_step(*old(self), *final(self), r.id()),
            !r.realized(),
            old(self).wf() && old(self).state.wrapping_sub(old(self).current) < usize::MAX ==> final(self).wf(),
    {
        OrderedRwLockReadGuardFuture { id: self.next_id(), is_realized: false }
    }

    /// Starts an owned read attempt, which takes the next ticket.
    pub fn read_owned(&mut self) -> (r: OrderedRwLockReadOwnedGuardFuture)
        ensures
            lock_step(*old(self), *final(self), r.id()),
            !r.realized(),
            old(self).wf() && old(self).state.wrapping_sub(old(self).current) < usize::MAX ==> final(self).wf(),
    {
        OrderedRwLockReadOwnedGuardFuture { id: self.next_id(), is_realized: false }
    }

    /// Parks a handle on `waker` behind the parked ones.
    fn park(&mut self, waker: &Waker)
        ensures
            refused_step(*old(self), *final(self)),
    {
        self.waiters.push(clone_waker(waker));
        assert(self.waiters@.drop_last() =~= old(self).waiters@);
    }

    /// Admits the head ticket: it leaves the queue, the marked run behind it
    /// is skipped.
    fn admit_head(&mut self)
        ensures
            admit_step(*old(self), *final(self)),
            final(self).readers == old(self).readers,
            final(self).writer == old(self).writer,
            final(self).readers == old(self).readers,
    {
        if self.abandoned.len() > 0 {
            let ghost q = self.abandoned@;
            self.abandoned.remove(0);
            assert(self.abandoned@ =~= q.drop_first());
            skip_abandoned(&mut self.abandoned, &mut self.current);
        } else {
            proof {
                lemma_small_mod(self.current as nat, ticket_space());
            }
        }
    }

    /// One write attempt with ticket `id`.
    fn poll_write(&mut self, id: usize, waker: &Waker) -> (granted: bool)
        ensures
            write_poll_step(*old(self), *final(self), id, granted),
            waiting(*old(self), id) ==> final(self).wf(),
    {
        let ghost before = *self;
        if self.current == id {
            self.writer = true;
            self.admit_head();
            proof {
                if waiting(before, id) {
                    lemma_wf_admit(before, *self);
                }
            }
            true
        } else {
            self.park(waker);
            false
        }
    }

    /// One read attempt with ticket `id`.
    fn poll_read(&mut self, id: usize, waker: &Waker) -> (granted: bool)
        ensures
            read_poll_step(*old(self), *final(self), id, granted),
            waiting(*old(self), id) ==> final(self).wf(),
    {
        let ghost before = *self;
        if self.current.wrapping_add(self.readers) == id {
            self.readers = self.readers.wrapping_add(1);
            self.admit_head();
            proof {
                if waiting(before, id) {
                    lemma_wf_admit(before, *self);
                }
            }
            true
        } else {
            self.park(waker);
            false
        }
    }

    /// The writer leaves; every parked waker is woken.
    fn release_writer(&mut self)
        ensures
            write_release_step(*old(self), *final(self)),
            old(self).wf() && old(self).writer ==> final(self).wf(),
    {
        self.current = self.current.wrapping_add(1);
        self.writer = false;
        wake_all(&mut self.waiters, &mut self.woken);
    }

    /// A reader leaves; every parked waker is woken.
    fn release_reader(&mut self)
        ensures
            read_release_step(*old(self), *final(self)),
            old(self).wf() && old(self).readers > 0 ==> final(self).wf(),
    {
        self.readers = self.readers.wrapping_sub(1);
        self.current = self.current.wrapping_add(1);
        wake_all(&mut self.waiters, &mut self.woken);
    }

    /// Gives up ticket `id`: marks it when it is waiting and unmarked, skips
    /// the marked run at the head, and wakes every parked waker.
    fn abandon(&mut self, id: usize)
        ensures
            abandon_step(*old(self), *final(self), id),
            old(self).wf() ==> final(self).wf(),
    {
        let ghost before = *self;
        let front = self.current.wrapping_add(self.readers).wrapping_add(if self.writer { 1 } else { 0 });
        let offset = id.wrapping_sub(front);
        if offset < self.abandoned.len() && !self.abandoned[offset] {
            self.abandoned.set(offset, true);
            skip_abandoned(&mut self.abandoned, &mut self.current);
            proof {
                if before.wf() {
                    let q1 = before.abandoned@.update(offset as int, true);
                    lemma_leading(q1);
                    lemma_small_mod(before.current as nat, ticket_space());
                    lemma_wrapping_sub_advance(before.state, before.current, leading(q1));
                    if leading(q1) < q1.len() {
                        assert(self.abandoned@[0] == q1[leading(q1) as int]);
                    }
                }
            }
        }
        wake_all(&mut self.waiters, &mut self.woken);
    }
}

impl OrderedRwLockWriteGuardFuture {
    /// The ticket of this attempt.
    pub closed spec fn id(&self) -> usize {
        self.id
    }

    /// Whether this attempt has been admitted.
    pub closed spec fn realized(&self) -> bool {
        self.is_realized
    }

    /// Admits the attempt when its turn has come; otherwise parks `waker`, to
    /// be taken out and woken by the next release or give-up.
    pub fn poll<T>(&mut self, lock: &mut OrderedRwLock<T>, waker: &Waker) -> (r: Poll<OrderedRwLockWriteGuard>)
        ensures
            write_poll_step(*old(lock), *final(lock), old(self).id(), r is Ready),
            waiting(*old(lock), old(self).id()) ==> final(lock).wf(),
            final(self).id() == old(self).id(),
            final(self).realized() == (old(self).realized() || r is Ready),
    {
        if lock.poll_write(self.id, waker) {
            self.is_realized = true;
            Poll::Ready(OrderedRwLockWriteGuard {})
        } else {
            Poll::Pending
        }
    }

    /// Gives up the attempt. One that was admitted leaves the lock to its
    /// guard; one that was not has its ticket skipped when its turn comes.
    pub fn drop<T>(self, lock: &mut OrderedRwLock<T>)
        ensures
            if self.realized() {
                *final(lock) == *old(lock)
            } else {
                abandon_step(*old(lock), *final(lock), self.id())
            },
            old(lock).wf() ==> final(lock).wf(),
    {
        if !self.is_realized {
            lock.abandon(self.id);
        }
    }
}

impl OrderedRwLockWriteOwnedGuardFuture {
    /// The ticket of this attempt.
    pub closed spec fn id(&self) -> usize {
        self.id
    }

    /// Whether this attempt has been admitted.
    pub closed spec fn realized(&self) -> bool {
        self.is_realized
    }

    /// Admits the attempt when its turn has come; otherwise parks `waker`, to
    /// be taken out and woken by the next release or give-up.
    pub fn poll<T>(&mut self, lock: &mut OrderedRwLock<T>, waker: &Waker) -> (r: Poll<OrderedRwLockWriteOwnedGuard>)
        ensures
            write_poll_step(*old(lock), *final(lock), old(self).id(), r is Ready),
            waiting(*old(lock), old(self).id()) ==> final(lock).wf(),
            final(self).id() == old(self).id(),
            final(self).realized() == (old(self).realized() || r is Ready),
    {
        if lock.poll_write(self.id, waker) {
            self.is_realized = true;
            Poll::Ready(OrderedRwLockWriteOwnedGuard {})
        } else {
            Poll::Pending
        }
    }

    /// Gives up the attempt. One that was admitted leaves the lock to its
    /// guard; one that was not has its ticket skipped when its turn comes.
    pub fn drop<T>(self, lock: &mut OrderedRwLock<T>)
        ensures
            if self.realized() {
                *final(lock) == *old(lock)
            } else {
                abandon_step(*old(lock), *final(lock), self.id())
            },
            old(lock).wf() ==> final(lock).wf(),
    {
        if !self.is_realized {
            lock.abandon(self.id);
        }
    }
}

impl OrderedRwLockReadGuardFuture {
    /// The ticket of this attempt.
    pub closed spec fn id(&self) -> usize {
        self.id
    }

    /// Whether this attempt has been admitted.
    pub closed spec fn realized(&self) -> bool {
        self.is_realized
    }

    /// Admits the attempt when its turn has come; otherwise parks `waker`, to
    /// be taken out and woken by the next release or give-up.
    pub fn poll<T>(&mut self, lock: &mut OrderedRwLock<T>, waker: &Waker) -> (r: Poll<OrderedRwLockReadGuard>)
        ensures
            read_poll_step(*old(lock), *final(lock), old(self).id(), r is Ready),
            waiting(*old(lock), old(self).id()) ==> final(lock).wf(),
            final(self).id() == old(self).id(),
            final(self).realized() == (old(self).realized() || r is Ready),
    {
        if lock.poll_read(self.id, waker) {
            self.is_realized = true;
            Poll::Ready(OrderedRwLockReadGuard {})
        } else {
            Poll::Pending
        }
    }

    /// Gives up the attempt. One that was admitted leaves the lock to its
    /// guard; one that was not has its ticket skipped when its turn comes.
    pub fn drop<T>(self, lock: &mut OrderedRwLock<T>)
        ensures
            if self.realized() {
                *final(lock) == *old(lock)
            } else {
                abandon_step(*old(lock), *final(lock), self.id())
            },
            old(lock).wf() ==> final(lock).wf(),
    {
        if !self.is_realized {
            lock.abandon(self.id);
        }
    }
}

impl OrderedRwLockReadOwnedGuardFuture {
    /// The ticket of this attempt.
    pub closed spec fn id(&self) -> usize {
        self.id
    }

    /// Whether this attempt has been admitted.
    pub closed spec fn realized(&self) -> bool {
        self.is_realized
    }

    /// Admits the attempt when its turn has come; otherwise parks `waker`, to
    /// be taken out and woken by the next release or give-up.
    pub fn poll<T>(&mut self, lock: &mut OrderedRwLock<T>, waker: &Waker) -> (r: Poll<OrderedRwLockReadOwnedGuard>)
        ensures
            read_poll_step(*old(lock), *final(lock), old(self).id(), r is Ready),
            waiting(*old(lock), old(self).id()) ==> final(lock).wf(),
            final(self).id() == old(self).id(),
            final(self).realized() == (old(self).realized() || r is Ready),
    {
        if lock.poll_read(self.id, waker) {
            self.is_realized = true;
            Poll::Ready(OrderedRwLockReadOwnedGuard {})
        } else {
            Poll::Pending
        }
    }

    /// Gives up the attempt. One that was admitted leaves the lock to its
    /// guard; one that was not has its ticket skipped when its turn comes.
    pub fn drop<T>(self, lock: &mut OrderedRwLock<T>)
        ensures
            if self.realized() {
                *final(lock) == *old(lock)
            } else {
                abandon_step(*old(lock), *final(lock), self.id())
            },
            old(lock).wf() ==> final(lock).wf(),
    {
        if !self.is_realized {
            lock.abandon(self.id);
        }
    }
}

impl OrderedRwLockWriteGuard {
    /// Shared access to the data of the lock this guard holds.
    pub fn deref<'a, T>(&self, lock: &'a OrderedRwLock<T>) -> (r: &'a T)
        ensures
            *r == lock.data,
    {
        &lock.data
    }

    /// Exclusive access to the data of the lock this guard holds.
    pub fn deref_mut<'a, T>(&self, lock: &'a mut OrderedRwLock<T>) -> (r: &'a mut T)
        ensures
            *r == old(lock).data,
            final(lock).data == *final(r),
            final(lock).state == old(lock).state,
            final(lock).current == old(lock).current,
            final(lock).readers == old(lock).readers,
            final(lock).writer == old(lock).writer,
            final(lock).abandoned == old(lock).abandoned,
            final(lock).waiters == old(lock).waiters,
            final(lock).woken == old(lock).woken,
    {
        &mut lock.data
    }

    /// The writer leaves and wakes every parked waker.
    pub fn drop<T>(self, lock: &mut OrderedRwLock<T>)
        ensures
            write_release_step(*old(lock), *final(lock)),
            old(lock).wf() && old(lock).writer ==> final(lock).wf(),
    {
        lock.release_writer();
    }
}

impl OrderedRwLockWriteOwnedGuard {
    /// Shared access to the data of the lock this guard holds.
    pub fn deref<'a, T>(&self, lock: &'a OrderedRwLock<T>) -> (r: &'a T)
        ensures
            *r == lock.data,
    {
        &lock.data
    }

    /// Exclusive access to the data of the lock this guard holds.
    pub fn deref_mut<'a, T>(&self, lock: &'a mut OrderedRwLock<T>) -> (r: &'a mut T)
        ensures
            *r == old(lock).data,
            final(lock).data == *final(r),
            final(lock).state == old(lock).state,
            final(lock).current == old(lock).current,
            final(lock).readers == old(lock).readers,
            final(lock).writer == old(lock).writer,
            final(lock).abandoned == old(lock).abandoned,
            final(lock).waiters == old(lock).waiters,
            final(lock).woken == old(lock).woken,
    {
        &mut lock.data
    }

    /// The writer leaves and wakes every parked waker.
    pub fn drop<T>(self, lock: &mut OrderedRwLock<T>)
        ensures
            write_release_step(*old(lock), *final(lock)),
            old(lock).wf() && old(lock).writer ==> final(lock).wf(),
    {
        lock.release_writer();
    }
}

impl OrderedRwLockReadGuard {
    /// Shared access to the data of the lock this guard reads.
    pub fn deref<'a, T>(&self, lock: &'a OrderedRwLock<T>) -> (r: &'a T)
        ensures
            *r == lock.data,
    {
        &lock.data
    }

    /// The reader leaves and wakes every parked waker.
    pub fn drop<T>(self, lock: &mut OrderedRwLock<T>)
        ensures
            read_release_step(*old(lock), *final(lock)),
            old(lock).wf() && old(lock).readers > 0 ==> final(lock).wf(),
    {
        lock.release_reader();
    }
}

impl OrderedRwLockReadOwnedGuard {
    /// Shared access to the data of the lock this guard reads.
    pub fn deref<'a, T>(&self, lock: &'a OrderedRwLock<T>) -> (r: &'a T)
        ensures
            *r == lock.data,
    {
        &lock.data
    }

    /// The reader leaves and wakes every parked waker.
    pub fn drop<T>(self, lock: &mut OrderedRwLock<T>)
        ensures
            read_release_step(*old(lock), *final(lock)),
            old(lock).wf() && old(lock).readers > 0 ==> final(lock).wf(),
    {
        lock.release_reader();
    }
}

/// How many tickets a state has admitted (or skipped), out of `issued`
/// handed out: those no longer marked in the queue.
pub open spec fn admitted_at<T>(m: OrderedRwLock<T>, issued: nat) -> int {
    issued - m.abandoned@.len()
}

/// How many tickets a state has done, out of `issued` handed out: those
/// admitted, less the readers and the writer inside.
pub open spec fn done_at<T>(m: OrderedRwLock<T>, issued: nat) -> int {
    admitted_at(m, issued) - m.readers - if m.writer { 1int } else { 0int }
}

/// The state after a step stands for the tickets it counts itself.
pub open spec fn model_at<T>(m: OrderedRwLock<T>, issued: nat) -> bool {
    &&& done_at(m, issued) >= 0
    &&& ticket_model(m, issued, done_at(m, issued) as nat, admitted_at(m, issued) as nat)
}

/// Taking a ticket hands out the ticket numbered by the count of tickets so far.
pub proof fn lemma_issue<T>(m: OrderedRwLock<T>, m2: OrderedRwLock<T>, id: usize, issued: nat, done: nat, admitted: nat)
    requires
        ticket_model(m, issued, done, admitted),
        issued + 1 - done < ticket_space(),
        lock_step(m, m2, id),
    ensures
        id == issued % ticket_space(),
        ticket_model(m2, issued + 1, done, admitted),
{
    lemma_counter_succ(m.state, issued);
}

/// Tickets are admitted in order: a write attempt with a ticket not yet
/// admitted gets in exactly when it is the next ticket and every admitted
/// ticket is done; then it is inside alone, and the given-up tickets right
/// behind it are skipped.
pub proof fn lemma_write_admission<T>(m: OrderedRwLock<T>, m2: OrderedRwLock<T>, issued: nat, done: nat, admitted: nat, t: nat, granted: bool)
    requires
        ticket_model(m, issued, done, admitted),
        admitted <= t < issued,
        write_poll_step(m, m2, (t % ticket_space()) as usize, granted),
    ensures
        granted <==> (t == admitted && admitted == done),
        granted ==> m2.writer && ticket_model(m2, issued, done + admit_skips(m.abandoned@), admitted + 1 + admit_skips(m.abandoned@)),
        !granted ==> ticket_model(m2, issued, done, admitted),
{
    lemma_counter_offset(m.current, done, (t - done) as nat, 0);
    if granted {
        let q1 = m.abandoned@.drop_first();
        lemma_leading(q1);
        lemma_counter_add(m.current, done, leading(q1));
    }
}

/// Tickets are admitted in order: a read attempt with a ticket not yet
/// admitted gets in exactly when it is the next ticket and no writer is
/// inside, whatever the counters' wrap-around; then it is counted among the
/// readers, and the given-up tickets right behind it are skipped.
pub proof fn lemma_read_admission<T>(m: OrderedRwLock<T>, m2: OrderedRwLock<T>, issued: nat, done: nat, admitted: nat, t: nat, granted: bool)
    requires
        ticket_model(m, issued, done, admitted),
        admitted <= t < issued,
        read_poll_step(m, m2, (t % ticket_space()) as usize, granted),
    ensures
        granted <==> (t == admitted && !m.writer),
        granted ==> ticket_model(m2, issued, done + admit_skips(m.abandoned@), admitted + 1 + admit_skips(m.abandoned@)),
        !granted ==> ticket_model(m2, issued, done, admitted),
{
    lemma_counter_offset_wrapping(m.current, done, (t - done) as nat, m.readers as nat);
    lemma_reduce_once((m.current + m.readers) as nat);
    if granted {
        let q1 = m.abandoned@.drop_first();
        lemma_leading(q1);
        lemma_counter_add(m.current, done, leading(q1));
    }
}

/// The writer leaving makes one more ticket done and nobody inside.
pub proof fn lemma_write_release<T>(m: OrderedRwLock<T>, m2: OrderedRwLock<T>, issued: nat, done: nat, admitted: nat)
    requires
        ticket_model(m, issued, done, admitted),
        m.writer,
        write_release_step(m, m2),
    ensures
        ticket_model(m2, issued, done + 1, admitted),
{
    lemma_counter_succ(m.current, done);
}

/// A reader leaving makes one more ticket done and one reader fewer inside.
pub proof fn lemma_read_release<T>(m: OrderedRwLock<T>, m2: OrderedRwLock<T>, issued: nat, done: nat, admitted: nat)
    requires
        ticket_model(m, issued, done, admitted),
        m.readers >= 1,
        !m.writer,
        read_release_step(m, m2),
    ensures
        ticket_model(m2, issued, done + 1, admitted),
{
    lemma_counter_succ(m.current, done);
}

/// Giving up a ticket not yet admitted marks it; the marked tickets at the
/// head of the line are skipped, each counting as admitted and done, and who
/// is inside does not change.
pub proof fn lemma_abandon<T>(m: OrderedRwLock<T>, m2: OrderedRwLock<T>, issued: nat, done: nat, admitted: nat, t: nat)
    requires
        ticket_model(m, issued, done, admitted),
        admitted <= t < issued,
        abandon_step(m, m2, (t % ticket_space()) as usize),
    ensures
        admitted_at(m2, issued) >= admitted,
        ticket_model(
            m2,
            issued,
            (done + (admitted_at(m2, issued) - admitted)) as nat,
            admitted_at(m2, issued) as nat,
        ),
        m2.readers == m.readers && m2.writer == m.writer,
{
    let w: usize = if m.writer { 1 } else { 0 };
    lemma_wrapping_add_counter(m.current, done, m.readers);
    lemma_mod_bound_usize((done + m.readers) as nat);
    lemma_wrapping_add_counter(m.current.wrapping_add(m.readers), (done + m.readers) as nat, w);
    lemma_counter_distance((t % ticket_space()) as usize, front(m), admitted, t);
    let q = m.abandoned@;
    let o = (t - admitted) as int;
    if !q[o] {
        let q1 = q.update(o, true);
        lemma_leading(q1);
        lemma_counter_add(m.current, done, leading(q1));
    }
}

/// A count taken modulo the ticket space fits a counter.
proof fn lemma_mod_bound_usize(n: nat)
    ensures
        n % ticket_space() <= usize::MAX,
{
    vstd::arithmetic::div_mod::lemma_mod_bound(n as int, ticket_space() as int);
}

/// One step of a run of an ordered read-write lock: an attempt takes a
/// ticket; the read or write attempt holding ticket number `t` (counted from
/// the start of the run) is polled, with its outcome; a reader or the writer
/// leaves; or the attempt holding ticket number `t` is given up.
pub enum Step {
    Take(usize),
    Read(nat, bool),
    Write(nat, bool),
    ReadRelease,
    WriteRelease,
    Abandon(nat),
}

/// After `events`, starting with `base` tickets handed out: how many tickets
/// were handed out, and how many attempts were refused since the last
/// release or give-up.
pub open spec fn counts(events: Seq<Step>, base: nat) -> (nat, nat)
    decreases events.len(),
{
    if events.len() == 0 {
        (base, 0)
    } else {
        let (issued, refused) = counts(events.drop_last(), base);
        match events.last() {
            Step::Take(_) => (issued + 1, refused),
            Step::Read(_, granted) => (issued, if granted { refused } else { refused + 1 }),
            Step::Write(_, granted) => (issued, if granted { refused } else { refused + 1 }),
            _ => (issued, 0),
        }
    }
}

/// `states` is a run of an ordered read-write lock through `events` from
/// `base`: every step is as `step_ok` asks.
pub open spec fn is_run<T>(states: Seq<OrderedRwLock<T>>, events: Seq<Step>, base: nat) -> bool {
    &&& states.len() == events.len() + 1
    &&& forall|i: int| 0 <= i < events.len() ==> #[trigger] step_ok(states, events, base, i)
}

/// Step `i` of a run: consecutive states are related by the step's contract;
/// fewer tickets are out than the counters can tell apart; each poll and each
/// ticket given up is for a ticket handed out and not yet admitted; only a
/// reader inside leaves as a reader and only the writer as a writer.
pub open spec fn step_ok<T>(states: Seq<OrderedRwLock<T>>, events: Seq<Step>, base: nat, i: int) -> bool {
    let (issued, refused) = counts(events.take(i), base);
    let (m, m2) = (states[i], states[i + 1]);
    let admitted = admitted_at(m, issued);
    match events[i] {
        Step::Take(id) => lock_step(m, m2, id) && issued + 1 - done_at(m, issued) < ticket_space(),
        Step::Read(t, granted) => admitted <= t < issued && read_poll_step(m, m2, (t % ticket_space()) as usize, granted),
        Step::Write(t, granted) => admitted <= t < issued && write_poll_step(m, m2, (t % ticket_space()) as usize, granted),
        Step::ReadRelease => read_release_step(m, m2) && m.readers >= 1 && !m.writer,
        Step::WriteRelease => write_release_step(m, m2) && m.writer,
        Step::Abandon(t) => admitted <= t < issued && abandon_step(m, m2, (t % ticket_space()) as usize),
    }
}

/// What the run law says of step `i`: a ticket taken is numbered by the
/// tickets handed out before it; a read poll is granted exactly for the next
/// ticket while no writer is inside; a write poll exactly for the next ticket
/// while every admitted ticket is done.
pub open spec fn fifo_at<T>(states: Seq<OrderedRwLock<T>>, events: Seq<Step>, base: nat, i: int) -> bool {
    let (issued, refused) = counts(events.take(i), base);
    let m = states[i];
    let admitted = admitted_at(m, issued);
    match events[i] {
        Step::Take(id) => id == issued % ticket_space(),
        Step::Read(t, granted) => granted <==> (t == admitted && !m.writer),
        Step::Write(t, granted) => granted <==> (t == admitted && admitted == done_at(m, issued)),
        _ => true,
    }
}

/// One step of a run keeps the ticket model and the parked count, and meets `fifo_at`.
proof fn lemma_run_step<T>(states: Seq<OrderedRwLock<T>>, events: Seq<Step>, base: nat, i: int)
    requires
        is_run(states, events, base),
        0 <= i < events.len(),
        model_at(states[i], counts(events.take(i), base).0),
        states[i].waiters@.len() == counts(events.take(i), base).1,
    ensures
        model_at(states[i + 1], counts(events.take(i + 1), base).0),
        states[i + 1].waiters@.len() == counts(events.take(i + 1), base).1,
        fifo_at(states, events, base, i),
{
    let prefix = events.take(i + 1);
    assert(prefix.drop_last() =~= events.take(i));
    assert(prefix.last() == events[i]);
    let (issued, refused) = counts(events.take(i), base);
    let (m, m2) = (states[i], states[i + 1]);
    let done = done_at(m, issued) as nat;
    let admitted = admitted_at(m, issued) as nat;
    assert(step_ok(states, events, base, i));
    match events[i] {
        Step::Take(id) => lemma_issue(m, m2, id, issued, done, admitted),
        Step::Read(t, granted) => lemma_read_admission(m, m2, issued, done, admitted, t, granted),
        Step::Write(t, granted) => lemma_write_admission(m, m2, issued, done, admitted, t, granted),
        Step::ReadRelease => lemma_read_release(m, m2, issued, done, admitted),
        Step::WriteRelease => lemma_write_release(m, m2, issued, done, admitted),
        Step::Abandon(t) => lemma_abandon(m, m2, issued, done, admitted, t),
    }
}

/// First come, first served over whole runs: from counters that agree, with
/// nothing handed out, nobody inside and nothing parked, every attempt gets the ticket numbered by the tickets handed out
/// before it; tickets are admitted strictly in order, given-up tickets being
/// skipped wherever they stood in the line; a reader gets in only while no
/// writer is inside, and a writer only once every admitted ticket is done, so
/// a writer is always inside alone. And the parked wakers are exactly one
/// per attempt refused since the last release or give-up, which takes them
/// all out.
pub proof fn lemma_run_fifo<T>(states: Seq<OrderedRwLock<T>>, events: Seq<Step>, base: nat, k: int)
    requires
        is_run(states, events, base),
        states[0].state == states[0].current,
        states[0].readers == 0,
        !states[0].writer,
        states[0].abandoned@.len() == 0,
        states[0].waiters@.len() == 0,
        base == states[0].state,
        0 <= k <= events.len(),
    ensures
        model_at(states[k], counts(events.take(k), base).0),
        states[k].waiters@.len() == counts(events.take(k), base).1,
        forall|i: int| 0 <= i < k ==> #[trigger] fifo_at(states, events, base, i),
    decreases k,
{
    if k > 0 {
        lemma_run_fifo(states, events, base, k - 1);
        lemma_run_step(states, events, base, k - 1);
        assert forall|i: int| 0 <= i < k implies #[trigger] fifo_at(states, events, base, i) by {
            if i < k - 1 {
                assert(fifo_at(states, events, base, i));
            }
        }
    } else {
        assert(events.take(0) =~= Seq::<Step>::empty());
        lemma_small_mod(base, ticket_space());
    }
}

/// Everything the lock has ever parked, in order: the wakers it has woken,
/// then those still parked.
pub open spec fn record<T>(m: OrderedRwLock<T>) -> Seq<Waker> {
    woken_wakers(m.woken@) + m.waiters@
}

/// How many read or write polls in `events` were refused.
pub open spec fn refused_total(events: Seq<Step>) -> nat
    decreases events.len(),
{
    if events.len() == 0 {
        0
    } else {
        refused_total(events.drop_last()) + match events.last() {
            Step::Read(_, granted) => if granted { 0nat } else { 1nat },
            Step::Write(_, granted) => if granted { 0nat } else { 1nat },
            _ => 0nat,
        }
    }
}

/// One step of a run keeps every parked waker in the record, and adds one
/// for a refused poll.
proof fn lemma_record_step<T>(states: Seq<OrderedRwLock<T>>, events: Seq<Step>, base: nat, i: int)
    requires
        is_run(states, events, base),
        0 <= i < events.len(),
    ensures
        record(states[i + 1]).len() == record(states[i]).len() + refused_total(events.take(i + 1))
            - refused_total(events.take(i)),
        record(states[i + 1]).take(record(states[i]).len() as int) == record(states[i]),
        refused_total(events.take(i + 1)) >= refused_total(events.take(i)),
{
    let prefix = events.take(i + 1);
    assert(prefix.drop_last() =~= events.take(i));
    assert(prefix.last() == events[i]);
    assert(step_ok(states, events, base, i));
    let (m, m2) = (states[i], states[i + 1]);
    let r = record(m);
    let r2 = record(m2);
    match events[i] {
        Step::Read(_, granted) => {
            if !granted {
                assert(woken_wakers(m2.woken@) == woken_wakers(m.woken@));
                assert(r2 =~= r.push(m2.waiters@.last()));
            }
        },
        Step::Write(_, granted) => {
            if !granted {
                assert(woken_wakers(m2.woken@) == woken_wakers(m.woken@));
                assert(r2 =~= r.push(m2.waiters@.last()));
            }
        },
        _ => {},
    }
    assert(r2.take(r.len() as int) =~= r);
}

/// No parked waker is lost, over whole runs: what the lock has parked and
/// woken grows by exactly one waker per refused poll and never loses one: a
/// parked waker leaves the parked list only to be woken, and every release
/// or give-up wakes all of them, in order.
pub proof fn lemma_run_no_lost_wakeup<T>(states: Seq<OrderedRwLock<T>>, events: Seq<Step>, base: nat, k: int)
    requires
        is_run(states, events, base),
        0 <= k <= events.len(),
    ensures
        record(states[k]).len() == record(states[0]).len() + refused_total(events.take(k)),
        forall|j: int| 0 <= j <= k ==> #[trigger] record(states[j]).len() <= record(states[k]).len()
            && record(states[k]).take(record(states[j]).len() as int) == record(states[j]),
    decreases k,
{
    if k > 0 {
        lemma_run_no_lost_wakeup(states, events, base, k - 1);
        lemma_record_step(states, events, base, k - 1);
        let rk = record(states[k]);
        let rk1 = record(states[k - 1]);
        assert forall|j: int| 0 <= j <= k implies #[trigger] record(states[j]).len() <= rk.len()
            && rk.take(record(states[j]).len() as int) == record(states[j]) by {
            if j < k {
                let rj = record(states[j]);
                assert(rj.len() <= rk1.len());
                assert(rk1.take(rj.len() as int) == rj);
                assert(rk.take(rj.len() as int) =~= rk1.take(rj.len() as int));
            } else {
                assert(rk.take(rk.len() as int) =~= rk);
            }
        }
    } else {
        assert(events.take(0) =~= Seq::<Step>::empty());
        assert(record(states[0]).take(record(states[0]).len() as int) =~= record(states[0]));
    }
}

} // verus!
