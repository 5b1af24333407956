//! Rotation of a waiting line, modelled on plain sequences.
//!
//! A rotation moves players from the head of the line to its tail without
//! losing or repeating anyone. The queue operations state their effect with
//! these functions, and the lemmas here relate single steps, blocks of
//! steps, and whole rounds of steps.

use vstd::prelude::*;

verus! {

/// The line after its first `k` entries moved, in order, to the tail.
pub open spec fn rotate_by<T>(ms: Seq<T>, k: int) -> Seq<T>
    recommends
        0 <= k <= ms.len(),
{
    ms.skip(k) + ms.take(k)
}

/// One entry moves from the head to the tail; an empty line stays empty.
pub open spec fn rotate_once<T>(ms: Seq<T>) -> Seq<T> {
    if ms.len() == 0 {
        ms
    } else {
        ms.drop_first().push(ms.first())
    }
}

/// `n` single head-to-tail steps, one after the other.
pub open spec fn iter_rotate<T>(ms: Seq<T>, n: nat) -> Seq<T>
    decreases n,
{
    if n == 0 {
        ms
    } else {
        iter_rotate(rotate_once(ms), (n - 1) as nat)
    }
}

/// Rotating by nothing changes nothing, and rotating by the whole line
/// brings it back unchanged.
pub proof fn lemma_rotate_by_ends<T>(ms: Seq<T>)
    ensures
        rotate_by(ms, 0) == ms,
        rotate_by(ms, ms.len() as int) == ms,
{
    assert(rotate_by(ms, 0) =~= ms);
    assert(rotate_by(ms, ms.len() as int) =~= ms);
}

/// A single step is a rotation by one.
pub proof fn lemma_rotate_once_is_rotate_by<T>(ms: Seq<T>)
    requires
        ms.len() > 0,
    ensures
        rotate_once(ms) == rotate_by(ms, 1),
{
    assert(rotate_once(ms) =~= rotate_by(ms, 1));
}

/// Two rotations in a row amount to one rotation by the sum, as long as
/// together they do not exceed the line.
pub proof fn lemma_rotate_by_compose<T>(ms: Seq<T>, a: int, b: int)
    requires
        0 <= a,
        0 <= b,
        a + b <= ms.len(),
    ensures
        rotate_by(rotate_by(ms, a), b) == rotate_by(ms, a + b),
{
    assert(rotate_by(rotate_by(ms, a), b) =~= rotate_by(ms, a + b));
}

/// A block of `n` single steps is a rotation by `n`.
pub proof fn lemma_iter_rotate_is_rotate_by<T>(ms: Seq<T>, n: nat)
    requires
        n <= ms.len(),
    ensures
        iter_rotate(ms, n) == rotate_by(ms, n as int),
    decreases n,
{
    if n == 0 {
        lemma_rotate_by_ends(ms);
    } else {
        lemma_rotate_once_is_rotate_by(ms);
        lemma_iter_rotate_is_rotate_by(rotate_once(ms), (n - 1) as nat);
        lemma_rotate_by_compose(ms, 1, n - 1);
    }
}

/// After one single step for every member, the line stands as it did.
pub proof fn lemma_full_cycle<T>(ms: Seq<T>)
    ensures
        iter_rotate(ms, ms.len()) == ms,
{
    lemma_iter_rotate_is_rotate_by(ms, ms.len());
    lemma_rotate_by_ends(ms);
}

/// How many entries one round moves to the tail: a full group of `g`, or
/// everyone left when fewer remain.
pub open spec fn round_size<T>(ms: Seq<T>, g: int) -> int {
    vstd::math::min(g, ms.len() as int)
}

/// The group one round releases, in line order.
pub open spec fn released<T>(ms: Seq<T>, g: int) -> Seq<T> {
    ms.take(round_size(ms, g))
}

/// The line after one round moved its group to the tail.
pub open spec fn group_step<T>(ms: Seq<T>, g: int) -> Seq<T> {
    rotate_by(ms, round_size(ms, g))
}

/// The line after `n` rounds of group rotation.
pub open spec fn rounds_state<T>(ms: Seq<T>, g: int, n: nat) -> Seq<T>
    decreases n,
{
    if n == 0 {
        ms
    } else {
        rounds_state(group_step(ms, g), g, (n - 1) as nat)
    }
}

/// Everything the first `n` rounds release, one group after the other.
pub open spec fn rounds_output<T>(ms: Seq<T>, g: int, n: nat) -> Seq<T>
    decreases n,
{
    if n == 0 {
        Seq::empty()
    } else {
        released(ms, g) + rounds_output(group_step(ms, g), g, (n - 1) as nat)
    }
}

/// While whole groups remain, `j` rounds amount to a rotation by `j`
/// groups, and release exactly the first `j` groups of the line.
proof fn lemma_rounds_aligned<T>(ms: Seq<T>, g: int, j: nat)
    requires
        1 <= g <= ms.len(),
        j * g <= ms.len(),
    ensures
        rounds_state(ms, g, j) == rotate_by(ms, j * g),
        rounds_output(ms, g, j) == ms.take(j * g),
    decreases j,
{
    let m = ms.len() as int;
    if j == 0 {
        lemma_rotate_by_ends(ms);
        assert(ms.take(0) =~= Seq::<T>::empty());
    } else {
        assert(g + (j - 1) * g == j * g && 0 <= (j - 1) * g) by (nonlinear_arith)
            requires
                j >= 1,
                g >= 1,
        ;
        let ms1 = group_step(ms, g);
        assert(round_size(ms, g) == g);
        assert(ms1.len() == m);
        lemma_rounds_aligned(ms1, g, (j - 1) as nat);
        lemma_rotate_by_compose(ms, g, (j - 1) * g);
        assert(ms1.take((j - 1) * g) =~= ms.subrange(g, j * g));
        assert(rounds_output(ms, g, j) =~= ms.take(j * g));
    }
}

/// Full-rotation identity: when every round moves a whole group — the
/// group size divides the line, or the whole line is smaller than one
/// group — then after just enough rounds to cycle everyone once, the
/// released groups together list every member exactly once in line order,
/// and the line stands as it did at the start.
pub proof fn lemma_full_rotation<T>(ms: Seq<T>, g: int)
    requires
        g >= 1,
        ms.len() < g || ms.len() as int % g == 0,
    ensures
        ({
            let n = ((ms.len() + g - 1) / g) as nat;
            &&& rounds_output(ms, g, n) == ms
            &&& rounds_state(ms, g, n) == ms
        }),
{
    let m = ms.len() as int;
    let n = ((m + g - 1) / g) as nat;
    if m == 0 {
        vstd::arithmetic::div_mod::lemma_div_multiples_vanish_fancy(0, g - 1, g);
        assert(g * 0 + (g - 1) == m + g - 1);
        assert(n == 0);
        assert(rounds_output(ms, g, 0) =~= ms);
    } else if m < g {
        reveal_with_fuel(rounds_state, 2);
        reveal_with_fuel(rounds_output, 2);
        vstd::arithmetic::div_mod::lemma_div_multiples_vanish_fancy(1, m - 1, g);
        assert(g * 1 + (m - 1) == m + g - 1);
        assert(n == 1);
        assert(round_size(ms, g) == m);
        lemma_rotate_by_ends(ms);
        assert(ms.take(m) =~= ms);
        assert(rounds_output(ms, g, 1) =~= ms);
        assert(rounds_state(ms, g, 1) == ms);
    } else {
        let q = m / g;
        vstd::arithmetic::div_mod::lemma_fundamental_div_mod(m, g);
        assert(m == g * q);
        vstd::arithmetic::div_mod::lemma_div_multiples_vanish_fancy(q, g - 1, g);
        assert(g * q + (g - 1) == m + g - 1);
        assert(n == q);
        assert(q * g == m) by (nonlinear_arith)
            requires
                m == g * q,
        ;
        lemma_rounds_aligned(ms, g, n);
        assert(ms.take(m) =~= ms);
        lemma_rotate_by_ends(ms);
    }
}

} // verus!
