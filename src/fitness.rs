//! How close an individual is to the target.
use vstd::prelude::*;

verus! {

/// Number of positions below `t.len()` at which `g` agrees with `t`.
pub open spec fn count_matches(t: Seq<char>, g: Seq<char>) -> nat
    decreases t.len(),
{
    if t.len() == 0 {
        0
    } else {
        count_matches(t.drop_last(), g) + (if t.last() == g[t.len() - 1] { 1nat } else { 0nat })
    }
}

/// Fitness of `g` against `t` is `count_matches(t, g) / t.len()`; this is
/// its numerator, and `t.len()` its denominator.
pub fn absolute_fitness(target: &Vec<char>, guess: &Vec<char>) -> (r: usize)
    requires
        guess@.len() == target@.len(),
    ensures
        r == count_matches(target@, guess@),
{
    let mut matching: usize = 0;
    let mut i: usize = 0;
    while i < target.len()
        invariant
            i <= target@.len(),
            guess@.len() == target@.len(),
            matching == count_matches(target@.take(i as int), guess@),
            matching <= i,
        decreases target@.len() - i,
    {
        proof {
            assert(target@.take(i + 1).drop_last() =~= target@.take(i as int));
        }
        if target[i] == guess[i] {
            matching = matching + 1;
        }
        i = i + 1;
    }
    proof {
        assert(target@.take(i as int) =~= target@);
    }
    matching
}

/// The number of matches never exceeds the target's length.
pub proof fn lemma_matches_bound(t: Seq<char>, g: Seq<char>)
    ensures
        count_matches(t, g) <= t.len(),
    decreases t.len(),
{
    if t.len() > 0 {
        lemma_matches_bound(t.drop_last(), g);
    }
}

/// Fitness `count_matches(t, g) / t.len()` lies in `[0, 1]`; it is 1 for the
/// target itself, and 0 exactly when no position agrees.
pub proof fn lemma_fitness_range(t: Seq<char>, g: Seq<char>)
    requires
        g.len() == t.len(),
    ensures
        count_matches(t, g) <= t.len(),
        count_matches(t, t) == t.len(),
        count_matches(t, g) == 0 <==> forall|i: int| 0 <= i < t.len() ==> t[i] != g[i],
{
    lemma_matches_bound(t, g);
    lemma_fitness_self(t);
    lemma_zero_matches(t, g);
}

/// The target matches itself everywhere.
proof fn lemma_fitness_self(t: Seq<char>)
    ensures
        count_matches(t, t) == t.len(),
    decreases t.len(),
{
    if t.len() > 0 {
        lemma_prefix_matches(t.drop_last(), t);
        lemma_fitness_self(t.drop_last());
    }
}

/// Only the first `t.len()` characters of `g` count, so `g` may be
/// replaced by a longer sequence that agrees with it there.
proof fn lemma_prefix_matches(t: Seq<char>, g: Seq<char>)
    requires
        t.len() <= g.len(),
    ensures
        count_matches(t, g) == count_matches(t, g.take(t.len() as int)),
    decreases t.len(),
{
    if t.len() > 0 {
        lemma_prefix_matches(t.drop_last(), g);
        lemma_prefix_matches(t.drop_last(), g.take(t.len() as int));
        assert(g.take(t.len() as int).take(t.len() - 1) =~= g.take(t.len() - 1));
    }
}

/// No match means no agreeing position, and the other way round.
proof fn lemma_zero_matches(t: Seq<char>, g: Seq<char>)
    requires
        t.len() <= g.len(),
    ensures
        count_matches(t, g) == 0 <==> forall|i: int| 0 <= i < t.len() ==> t[i] != g[i],
    decreases t.len(),
{
    if t.len() > 0 {
        let tp = t.drop_last();
        lemma_zero_matches(tp, g);
        if count_matches(t, g) == 0 {
            assert forall|i: int| 0 <= i < t.len() implies t[i] != g[i] by {
                if i < t.len() - 1 {
                    assert(tp[i] == t[i]);
                }
            }
        }
        if forall|i: int| 0 <= i < t.len() ==> t[i] != g[i] {
            assert forall|i: int| 0 <= i < tp.len() implies tp[i] != g[i] by {
                assert(tp[i] == t[i]);
            }
        }
    }
}

} // verus!
