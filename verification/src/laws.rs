//! Laws of whole runs of queue operations: what a sequence of joins
//! builds, and what a run of single advances yields.

use crate::queue::distinct;
use vstd::prelude::*;

verus! {

/// A join succeeds exactly when no member of that name stands in the line.
pub open spec fn join_ok(ms: Seq<Seq<char>>, p: Seq<char>) -> bool {
    !ms.contains(p)
}

/// The line after the players of `ps` joined in order, each at the tail.
pub open spec fn join_all(ms: Seq<Seq<char>>, ps: Seq<Seq<char>>) -> Seq<Seq<char>>
    decreases ps.len(),
{
    if ps.len() == 0 {
        ms
    } else {
        join_all(ms.push(ps[0]), ps.drop_first())
    }
}

/// Holds when each join of `ps`, made in order, succeeds.
pub open spec fn joins_all_ok(ms: Seq<Seq<char>>, ps: Seq<Seq<char>>) -> bool
    decreases ps.len(),
{
    if ps.len() == 0 {
        true
    } else {
        join_ok(ms, ps[0]) && joins_all_ok(ms.push(ps[0]), ps.drop_first())
    }
}

/// Joining players with fresh names, one after the other, succeeds each
/// time and appends them in order.
proof fn lemma_joins_from(ms: Seq<Seq<char>>, ps: Seq<Seq<char>>)
    requires
        distinct(ms + ps),
    ensures
        joins_all_ok(ms, ps),
        join_all(ms, ps) == ms + ps,
    decreases ps.len(),
{
    if ps.len() == 0 {
        assert(join_all(ms, ps) =~= ms + ps);
    } else {
        if ms.contains(ps[0]) {
            let i = choose|i: int| 0 <= i < ms.len() && ms[i] == ps[0];
            assert((ms + ps)[i] == (ms + ps)[ms.len() as int]);
            assert(false);
        }
        assert(ms.push(ps[0]) + ps.drop_first() =~= ms + ps);
        lemma_joins_from(ms.push(ps[0]), ps.drop_first());
    }
}

/// FIFO order: players of pairwise different names who join an empty
/// line, one after the other, all succeed and stand in the line in
/// exactly their join order.
pub proof fn lemma_fifo_joins(ps: Seq<Seq<char>>)
    requires
        distinct(ps),
    ensures
        joins_all_ok(Seq::empty(), ps),
        join_all(Seq::empty(), ps) == ps,
{
    assert(Seq::<Seq<char>>::empty() + ps =~= ps);
    lemma_joins_from(Seq::empty(), ps);
}

/// What `n` single advances yield: the head removed again and again,
/// until the line is empty and nothing more comes.
pub open spec fn drained(ms: Seq<Seq<char>>, n: nat) -> Seq<Seq<char>>
    decreases n,
{
    if n == 0 || ms.len() == 0 {
        Seq::empty()
    } else {
        seq![ms[0]] + drained(ms.drop_first(), (n - 1) as nat)
    }
}

/// Advancing drains the line head-first: `n` single advances yield the
/// first `n` members in line order — all of them once `n` reaches the
/// length, and nothing more thereafter.
pub proof fn lemma_advance_drains(ms: Seq<Seq<char>>, n: nat)
    ensures
        drained(ms, n) == ms.take(vstd::math::min(n as int, ms.len() as int)),
    decreases n,
{
    if n == 0 || ms.len() == 0 {
        assert(drained(ms, n) =~= ms.take(vstd::math::min(n as int, ms.len() as int)));
    } else {
        lemma_advance_drains(ms.drop_first(), (n - 1) as nat);
        assert(drained(ms, n) =~= ms.take(vstd::math::min(n as int, ms.len() as int)));
    }
}

} // verus!
