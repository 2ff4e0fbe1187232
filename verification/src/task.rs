//! The task-facing pieces shared by every lock: the result of a poll, and the
//! calls made on a task's `Waker`.

use vstd::prelude::*;
use std::task::Waker;

verus! {

#[verifier::external_type_specification]
#[verifier::external_body]
pub struct ExWaker(std::task::Waker);

/// The outcome of one attempt to acquire a lock.
pub enum Poll<G> {
    /// The lock was acquired; the guard proves it.
    Ready(G),
    /// The lock is held elsewhere; try again after a wake-up.
    Pending,
}

/// The record of one call of `Waker::wake_by_ref`. Only `wake_by_ref` below
/// makes one (its field is private to this module, which holds nothing but
/// the calls on `Waker`), so each record in a log stands for one such call.
/// It takes no memory.
#[derive(Debug)]
pub struct WakeNote {
    made_by_wake_by_ref: (),
}

/// The record of one call of `Waker::wake`, naming the waker it consumed.
/// Only `wake` below makes one, so each record in a log stands for one
/// wake-up of the waker it names. It takes no memory.
pub struct Woken {
    waker: Ghost<Waker>,
}

impl Woken {
    /// The waker that was woken.
    pub closed spec fn waker(&self) -> Waker {
        self.waker@
    }
}

/// The wakers that a log of wake-ups names, in order.
pub open spec fn woken_wakers(log: Seq<Woken>) -> Seq<Waker> {
    log.map_values(|n: Woken| n.waker())
}

/// Calls `Waker::wake_by_ref` on `waker`: schedules the task behind it to be
/// polled again, leaving `waker` usable. Returns the record of the call.
/// Nothing is stated of what the executor then does.
#[verifier::external_body]
pub(crate) fn wake_by_ref(waker: &Waker) -> (note: WakeNote) {
    waker.wake_by_ref();
    WakeNote { made_by_wake_by_ref: () }
}

/// Calls `Waker::wake` on `waker`: schedules the task behind it, consuming
/// `waker`. Returns the record of the call, naming `waker`. Nothing is stated
/// of what the executor then does.
#[verifier::external_body]
pub(crate) fn wake(waker: Waker) -> (woken: Woken)
    ensures
        woken.waker() == waker,
{
    let woken = Woken { waker: Ghost(waker) };
    waker.wake();
    woken
}

/// Calls `Waker::clone`: a new handle on the same task. Nothing is stated of
/// the result, which is an opaque handle.
#[verifier::external_body]
pub(crate) fn clone_waker(waker: &Waker) -> (r: Waker) {
    waker.clone()
}

} // verus!
