//! Ticket arithmetic: the counters of the ordered locks count modulo the word
//! size, and these facts relate them to the unbounded counts they stand for.

use vstd::prelude::*;
use vstd::arithmetic::div_mod::{
    lemma_add_mod_noop, lemma_small_mod, lemma_mod_bound, lemma_mod_self_0, lemma_mod_add_multiples_vanish,
    lemma_fundamental_div_mod,
};

verus! {

/// How many distinct values a ticket counter takes.
pub open spec fn ticket_space() -> nat {
    usize::MAX as nat + 1
}

/// Advancing a counter with `wrapping_add(1)` advances the count it stands for.
pub proof fn lemma_counter_succ(x: usize, n: nat)
    requires
        x == n % ticket_space(),
    ensures
        x.wrapping_add(1) == (n + 1) % ticket_space(),
{
    let m = ticket_space() as int;
    lemma_add_mod_noop(n as int, 1, m);
    lemma_small_mod(1, m as nat);
    if x + 1 < m {
        lemma_small_mod((x + 1) as nat, m as nat);
    } else {
        lemma_mod_self_0(m);
    }
}

/// A counter `x` standing for the count `d`, plus `r` without overflow, meets
/// the counter of `d + k` (for `k` less than the ticket space) exactly when `k == r`.
pub proof fn lemma_counter_offset(x: usize, d: nat, k: nat, r: nat)
    requires
        x == d % ticket_space(),
        k < ticket_space(),
        x + r < ticket_space(),
    ensures
        ((d + k) % ticket_space() == x + r) <==> k == r,
{
    let m = ticket_space() as int;
    lemma_add_mod_noop(d as int, k as int, m);
    lemma_small_mod(k, m as nat);
    lemma_mod_bound(d as int, m);
    if x + k < m {
        lemma_small_mod((x + k) as nat, m as nat);
    } else {
        lemma_add_mod_noop((x + k - m) as int, m, m);
        lemma_mod_self_0(m);
        lemma_small_mod((x + k - m) as nat, m as nat);
        assert(((x + k - m) + m) % m == (x + k - m) % m);
    }
}

/// A counter `x` standing for the count `d`, advanced by `r` with wrapping,
/// meets the counter of `d + k` exactly when `k == r` (both below the ticket space).
pub proof fn lemma_counter_offset_wrapping(x: usize, d: nat, k: nat, r: nat)
    requires
        x == d % ticket_space(),
        k < ticket_space(),
        r < ticket_space(),
    ensures
        ((d + k) % ticket_space() == (x + r) % (ticket_space() as int)) <==> k == r,
{
    let m = ticket_space() as int;
    lemma_add_mod_noop(d as int, k as int, m);
    lemma_small_mod(k, m as nat);
    lemma_mod_bound(d as int, m);
    lemma_mod_bound((x + k) as int, m);
    lemma_mod_bound((x + r) as int, m);
    // x + k and x + r both lie in [0, 2m); reduce each to below m.
    lemma_reduce_once((x + k) as nat);
    lemma_reduce_once((x + r) as nat);
}

/// A value below twice the ticket space reduces by at most one subtraction.
pub proof fn lemma_reduce_once(v: nat)
    requires
        v < 2 * ticket_space(),
    ensures
        v < ticket_space() ==> v % ticket_space() == v,
        v >= ticket_space() ==> v % ticket_space() == v - ticket_space(),
{
    let m = ticket_space() as int;
    if v < m {
        lemma_small_mod(v, m as nat);
    } else {
        lemma_mod_add_multiples_vanish((v - m) as int, m);
        lemma_small_mod((v - m) as nat, m as nat);
    }
}

/// The distance between two counters, taken with wrapping, is the distance
/// between the counts they stand for, when it is below the ticket space.
pub proof fn lemma_counter_distance(a: usize, b: usize, d: nat, t: nat)
    requires
        a == t % ticket_space(),
        b == d % ticket_space(),
        d <= t < d + ticket_space(),
    ensures
        a.wrapping_sub(b) == t - d,
{
    let m = ticket_space() as int;
    lemma_counter_offset_wrapping(b, d, (t - d) as nat, (t - d) as nat);
    lemma_mod_bound(d as int, m);
    lemma_reduce_once((b + (t - d)) as nat);
}

/// Advancing a counter standing for `n` by `k`, with wrapping, gives the
/// counter standing for `n + k`.
pub proof fn lemma_counter_add(x: usize, n: nat, k: nat)
    requires
        x == n % ticket_space(),
    ensures
        (x + k) % (ticket_space() as int) == ((n + k) as int) % (ticket_space() as int),
{
    let m = ticket_space() as int;
    lemma_add_mod_noop(n as int, k as int, m);
    lemma_add_mod_noop(x as int, k as int, m);
    lemma_mod_bound(n as int, m);
    lemma_small_mod(x as nat, m as nat);
}

/// How many tickets at the head of a queue of "abandoned" marks are marked.
pub open spec fn leading(q: Seq<bool>) -> nat
    decreases q.len(),
{
    if q.len() > 0 && q[0] {
        1 + leading(q.drop_first())
    } else {
        0
    }
}

/// `leading` counts exactly the marked run at the head: every mark before it
/// is set, and the one right after it, if any, is not.
pub proof fn lemma_leading(q: Seq<bool>)
    ensures
        leading(q) <= q.len(),
        forall|i: int| 0 <= i < leading(q) ==> q[i],
        leading(q) < q.len() ==> !q[leading(q) as int],
    decreases q.len(),
{
    if q.len() > 0 && q[0] {
        lemma_leading(q.drop_first());
        assert forall|i: int| 0 <= i < leading(q) implies q[i] by {
            if i > 0 {
                assert(q[i] == q.drop_first()[i - 1]);
            }
        }
    }
}

/// A marked run of length `k` at the head, followed by an unmarked mark or
/// the end of the queue, is what `leading` counts.
pub proof fn lemma_leading_is(q: Seq<bool>, k: nat)
    requires
        k <= q.len(),
        forall|i: int| 0 <= i < k ==> q[i],
        k < q.len() ==> !q[k as int],
    ensures
        leading(q) == k,
    decreases k,
{
    if k > 0 {
        let q1 = q.drop_first();
        assert forall|i: int| 0 <= i < k - 1 implies q1[i] by {
            assert(q1[i] == q[i + 1]);
        }
        if (k - 1) < q1.len() {
            assert(q1[k - 1] == q[k as int]);
        }
        lemma_leading_is(q1, (k - 1) as nat);
        assert(q[0]);
    }
}

/// Advancing the lower counter by `j`, no further than the upper one, shrinks
/// their wrapped distance by `j`.
pub proof fn lemma_wrapping_sub_advance(s: usize, c: usize, j: nat)
    requires
        j <= s.wrapping_sub(c),
    ensures
        s.wrapping_sub(((c + j) % (ticket_space() as int)) as usize) == s.wrapping_sub(c) - j,
{
    lemma_reduce_once((c + j) as nat);
}

/// A counter standing for `n`, advanced by `y` with `wrapping_add`, stands
/// for `n + y`.
pub proof fn lemma_wrapping_add_counter(x: usize, n: nat, y: usize)
    requires
        x == n % ticket_space(),
    ensures
        x.wrapping_add(y) == ((n + y) as int) % (ticket_space() as int),
{
    lemma_counter_add(x, n, y as nat);
    lemma_reduce_once((x + y) as nat);
}

} // verus!
