# fast_async_mutex

Asynchronous locks that spin through the executor: an attempt that finds the
lock taken returns `Pending` and gets its task woken, either at once or when
the lock is released.

The library (`src/`) holds the verified logic of five locks:

- `mutex`: a flag; the first attempt after a release gets in.
- `mutex_ordered`: a ticket counter; attempts get in in the order they started.
- `mutex_unordered`: a flag plus the wakers of the attempts refused since the
  last release; the next release takes them all out and wakes them.
- `rwlock`: a flag held by one writer or by a group of readers, with a reader count.
- `rwlock_ordered`: tickets for readers and writers; a reader joins readers ahead of it,
  a writer waits for everyone ahead of it; every refused attempt parks its waker, and
  every release (or give-up) takes them all out and wakes them.

On the ordered locks, an attempt given up before its turn has its ticket
marked and skipped when the turn comes; on the flag locks, giving up an
attempt changes nothing.

Each lock is a plain value. Attempts (`...GuardFuture`) and guards are tokens:
`poll` runs one attempt against the lock, `drop` gives an attempt up or
releases a guard, and `deref`/`deref_mut` reach the data. Every step has a
contract, and each module proves its laws as `lemma_*` proof functions, both
step by step and over whole runs of steps (`lemma_run_*`): mutual exclusion
and readers-writer exclusion whatever attempts are given up, first come first
served across counter wrap-around, distinct tickets until the counter
wraps, and, where wakers are parked, one parked waker per refused attempt
until the next release takes them out. That a waker taken out is then woken
is done by the code (a call of `Waker::wake`) but is not a proved property.

`app/` shares a lock between tasks and implements `Future` on top of these
steps; each step runs under a `std::sync::Mutex` held for that step only.
`tests/` drives the steps by hand.
