//! Fitness-weighted mating pools, and the next generation drawn from them.
use vstd::prelude::*;
use rand::rngs::StdRng;
use crate::alphabet::Alphabet;
use crate::error::EvolveError;
use crate::fitness::{absolute_fitness, count_matches};
use crate::random::pick_index;
use crate::variation::{
    apply_mutations, cross, crossover, draw_flips, draw_mutations, mutated, mutation_draws, RATE_SCALE,
};

verus! {

/// The values of a population.
pub open spec fn values(pop: Seq<Vec<char>>) -> Seq<Seq<char>> {
    pop.map_values(|v: Vec<char>| v@)
}

/// Every individual has the target's length and is made of the alphabet.
pub open spec fn population_fits(target: Seq<char>, pop: Seq<Vec<char>>, alphabet: Alphabet) -> bool {
    forall|i: int|
        0 <= i < pop.len() ==> (#[trigger] pop[i])@.len() == target.len() && alphabet.covers(pop[i]@)
}

/// Copies of an individual with `score` matching positions out of `len`
/// in a pool built with `factor`: `ceil(score / len * factor)`.
pub open spec fn copies(score: nat, factor: nat, len: nat) -> nat {
    if len == 0 {
        0
    } else {
        ((score * factor + (len - 1)) as int / (len as int)) as nat
    }
}

/// The mating pool as population indices: each index `i` repeated
/// `copies(scores[i], factor, len)` times, in population order.
pub open spec fn pool_from(scores: Seq<usize>, factor: nat, len: nat) -> Seq<usize>
    decreases scores.len(),
{
    if scores.len() == 0 {
        Seq::empty()
    } else {
        pool_from(scores.drop_last(), factor, len) + Seq::new(
            copies(scores.last() as nat, factor, len),
            |_j: int| (scores.len() - 1) as usize,
        )
    }
}

/// The scores of a population against a target.
pub open spec fn scores_of(target: Seq<char>, pop: Seq<Vec<char>>) -> Seq<nat> {
    pop.map_values(|v: Vec<char>| count_matches(target, v@))
}

/// No individual matches the target at any position.
pub open spec fn all_unfit(target: Seq<char>, pop: Seq<Vec<char>>) -> bool {
    forall|i: int| 0 <= i < pop.len() ==> count_matches(target, (#[trigger] pop[i])@) == 0
}

/// All individuals that match the target somewhere have the same value.
pub open spec fn one_fit_value(target: Seq<char>, pop: Seq<Vec<char>>) -> bool {
    forall|i: int, j: int|
        0 <= i < pop.len() && 0 <= j < pop.len() && count_matches(target, (#[trigger] pop[i])@) > 0
            && count_matches(target, (#[trigger] pop[j])@) > 0 ==> pop[i]@ == pop[j]@
}

/// A full match gets exactly `factor` copies, no match none, and one or
/// more matches at least one copy.
pub proof fn lemma_copies_bounds(score: nat, factor: nat, len: nat)
    requires
        len > 0,
        score <= len,
    ensures
        copies(score, factor, len) <= factor,
        score == len ==> copies(score, factor, len) == factor,
        score == 0 ==> copies(score, factor, len) == 0,
        factor > 0 ==> (copies(score, factor, len) > 0 <==> score > 0),
{
    let n = score * factor + (len - 1);
    assert(score * factor <= len * factor) by (nonlinear_arith)
        requires score <= len;
    assert(n as int / (len as int) <= factor as int) by (nonlinear_arith)
        requires n == score * factor + (len - 1), score * factor <= len * factor, len > 0;
    if score == len {
        assert(n as int / (len as int) == factor as int) by (nonlinear_arith)
            requires n == len * factor + (len - 1), len > 0;
    }
    if score == 0 {
        assert(n as int / (len as int) == 0) by (nonlinear_arith)
            requires n == 0 * factor + (len - 1), len > 0;
    }
    if factor > 0 && score > 0 {
        assert(n as int / (len as int) >= 1) by (nonlinear_arith)
            requires n == score * factor + (len - 1), len > 0, score > 0, factor > 0;
    }
}

/// An individual with a better score never gets fewer copies.
pub proof fn lemma_copies_monotone(s1: nat, s2: nat, factor: nat, len: nat)
    requires
        len > 0,
        s1 <= s2,
    ensures
        copies(s1, factor, len) <= copies(s2, factor, len),
{
    assert(s1 * factor <= s2 * factor) by (nonlinear_arith)
        requires s1 <= s2;
    let n1 = s1 * factor + (len - 1);
    let n2 = s2 * factor + (len - 1);
    assert(n1 as int / (len as int) <= n2 as int / (len as int)) by (nonlinear_arith)
        requires n1 <= n2, len > 0;
}

/// Index `x` is in the pool exactly when it names an individual that gets
/// at least one copy.
pub proof fn lemma_pool_members(scores: Seq<usize>, factor: nat, len: nat, x: usize)
    requires
        scores.len() <= usize::MAX,
    ensures
        pool_from(scores, factor, len).contains(x) <==> (x < scores.len() && copies(
            scores[x as int] as nat,
            factor,
            len,
        ) > 0),
    decreases scores.len(),
{
    if scores.len() > 0 {
        let pre = scores.drop_last();
        lemma_pool_members(pre, factor, len, x);
        let head = pool_from(pre, factor, len);
        let c = copies(scores.last() as nat, factor, len);
        let tail = Seq::new(c, |_j: int| (scores.len() - 1) as usize);
        let whole = pool_from(scores, factor, len);
        assert(whole == head + tail);
        if whole.contains(x) {
            let k = choose|k: int| 0 <= k < whole.len() && whole[k] == x;
            if k < head.len() {
                assert(head[k] == x);
                assert(head.contains(x));
                assert(pre[x as int] == scores[x as int]);
            } else {
                assert(whole[k] == tail[k - head.len()]);
                assert(tail[k - head.len()] == (scores.len() - 1) as usize);
                assert(x == scores.len() - 1);
                assert(scores[x as int] == scores.last());
            }
        }
        if x < scores.len() && copies(scores[x as int] as nat, factor, len) > 0 {
            if x < scores.len() - 1 {
                assert(pre[x as int] == scores[x as int]);
                let k = choose|k: int| 0 <= k < head.len() && head[k] == x;
                assert(whole[k] == x);
            } else {
                assert(whole[head.len() as int] == x);
            }
        }
    }
}

/// A run of `c` copies of `idx` holds `idx` `c` times and nothing else.
proof fn lemma_repeat_count(c: nat, idx: usize, x: usize)
    ensures
        Seq::new(c, |_j: int| idx).to_multiset().count(x) == if x == idx { c } else { 0 },
    decreases c,
{
    broadcast use vstd::seq_lib::group_to_multiset_ensures;

    let s = Seq::new(c, |_j: int| idx);
    if c > 0 {
        lemma_repeat_count((c - 1) as nat, idx, x);
        assert(s =~= Seq::new((c - 1) as nat, |_j: int| idx).push(idx));
    } else {
        assert(s =~= Seq::<usize>::empty());
    }
}

/// Individual `x` appears in the pool exactly `copies` times for its
/// score; an index past the population does not appear.
pub proof fn lemma_pool_multiplicity(scores: Seq<usize>, factor: nat, len: nat, x: usize)
    requires
        scores.len() <= usize::MAX,
    ensures
        pool_from(scores, factor, len).to_multiset().count(x) == if x < scores.len() {
            copies(scores[x as int] as nat, factor, len)
        } else {
            0
        },
    decreases scores.len(),
{
    broadcast use vstd::seq_lib::group_to_multiset_ensures;

    if scores.len() == 0 {
        assert(pool_from(scores, factor, len) =~= Seq::<usize>::empty());
    } else {
        let pre = scores.drop_last();
        lemma_pool_multiplicity(pre, factor, len, x);
        let c = copies(scores.last() as nat, factor, len);
        let idx = (scores.len() - 1) as usize;
        lemma_repeat_count(c, idx, x);
        let tail = Seq::new(c, |_j: int| idx);
        vstd::seq_lib::lemma_multiset_commutative(pool_from(pre, factor, len), tail);
        if x < pre.len() {
            assert(pre[x as int] == scores[x as int]);
        }
    }
}

/// Every entry of the pool names an individual.
pub proof fn lemma_pool_entries(scores: Seq<usize>, factor: nat, len: nat, k: int)
    requires
        scores.len() <= usize::MAX,
        0 <= k < pool_from(scores, factor, len).len(),
    ensures
        pool_from(scores, factor, len)[k] < scores.len(),
        copies(scores[pool_from(scores, factor, len)[k] as int] as nat, factor, len) > 0,
{
    let x = pool_from(scores, factor, len)[k];
    lemma_pool_members(scores, factor, len, x);
}

/// Number of pool copies for one score, computed without overflow.
fn copies_of(score: usize, factor: usize, len: usize) -> (r: usize)
    requires
        len > 0,
        score <= len,
    ensures
        r == copies(score as nat, factor as nat, len as nat),
{
    proof {
        lemma_copies_bounds(score as nat, factor as nat, len as nat);
        assert((score as u128) * (factor as u128) <= 0xffff_ffff_ffff_ffff * 0xffff_ffff_ffff_ffffu128)
            by (nonlinear_arith)
            requires score <= 0xffff_ffff_ffff_ffffu128, factor <= 0xffff_ffff_ffff_ffffu128;
    }
    let n: u128 = (score as u128) * (factor as u128) + ((len - 1) as u128);
    (n / (len as u128)) as usize
}

/// The score of every individual of the population.
pub fn score_population(target: &Vec<char>, population: &Vec<Vec<char>>) -> (r: Vec<usize>)
    requires
        forall|i: int| 0 <= i < population@.len() ==> (#[trigger] population@[i])@.len() == target@.len(),
    ensures
        r@.len() == population@.len(),
        forall|i: int| 0 <= i < r@.len() ==> #[trigger] r@[i] as nat == count_matches(target@, population@[i]@),
        forall|i: int| 0 <= i < r@.len() ==> #[trigger] r@[i] <= target@.len(),
{
    let mut scores: Vec<usize> = Vec::new();
    let mut i: usize = 0;
    while i < population.len()
        invariant
            i <= population@.len(),
            forall|j: int| 0 <= j < population@.len() ==> (#[trigger] population@[j])@.len() == target@.len(),
            scores@.len() == i,
            forall|j: int| 0 <= j < i ==> #[trigger] scores@[j] as nat == count_matches(target@, population@[j]@),
            forall|j: int| 0 <= j < i ==> #[trigger] scores@[j] <= target@.len(),
        decreases population@.len() - i,
    {
        let s = absolute_fitness(target, &population[i]);
        proof {
            crate::fitness::lemma_matches_bound(target@, population@[i as int]@);
        }
        scores.push(s);
        i = i + 1;
    }
    scores
}

/// The mating pool, as indices into the population: individual `i`
/// appears `ceil(scores[i] / len * factor)` times, so one with no match
/// does not appear and one with any match appears at least once.
pub fn build_mating_pool(scores: &Vec<usize>, factor: usize, len: usize) -> (pool: Vec<usize>)
    requires
        len > 0,
        forall|i: int| 0 <= i < scores@.len() ==> #[trigger] scores@[i] <= len,
    ensures
        pool@ == pool_from(scores@, factor as nat, len as nat),
{
    let mut pool: Vec<usize> = Vec::new();
    let mut i: usize = 0;
    while i < scores.len()
        invariant
            i <= scores@.len(),
            len > 0,
            forall|j: int| 0 <= j < scores@.len() ==> #[trigger] scores@[j] <= len,
            pool@ == pool_from(scores@.take(i as int), factor as nat, len as nat),
        decreases scores@.len() - i,
    {
        let c = copies_of(scores[i], factor, len);
        let ghost start = pool@;
        let mut k: usize = 0;
        while k < c
            invariant
                k <= c,
                pool@ =~= start + Seq::new(k as nat, |_j: int| i),
            decreases c - k,
        {
            pool.push(i);
            k = k + 1;
        }
        proof {
            let next = scores@.take(i + 1);
            assert(next.drop_last() =~= scores@.take(i as int));
            assert(pool@ =~= pool_from(next, factor as nat, len as nat));
        }
        i = i + 1;
    }
    proof {
        assert(scores@.take(i as int) =~= scores@);
    }
    pool
}

/// Whether two individuals have the same value.
fn same_value(a: &Vec<char>, b: &Vec<char>) -> (r: bool)
    ensures
        r == (a@ == b@),
{
    if a.len() != b.len() {
        return false;
    }
    let mut i: usize = 0;
    while i < a.len()
        invariant
            i <= a@.len(),
            a@.len() == b@.len(),
            forall|j: int| 0 <= j < i ==> a@[j] == b@[j],
        decreases a@.len() - i,
    {
        if a[i] != b[i] {
            return false;
        }
        i = i + 1;
    }
    proof {
        assert(a@ =~= b@);
    }
    true
}

/// For each individual, the first index at which its value occurs: two
/// individuals share a class exactly when their values are equal.
fn value_classes(population: &Vec<Vec<char>>) -> (class: Vec<usize>)
    ensures
        class@.len() == population@.len(),
        forall|i: int|
            0 <= i < class@.len() ==> #[trigger] class@[i] <= i && population@[class@[i] as int]@
                == population@[i]@,
        forall|i: int, j: int|
            #![trigger class@[i], population@[j]]
            0 <= i < class@.len() && 0 <= j < class@[i] ==> population@[j]@ != population@[i]@,
{
    let mut class: Vec<usize> = Vec::new();
    let mut i: usize = 0;
    while i < population.len()
        invariant
            i <= population@.len(),
            class@.len() == i,
            forall|p: int|
                0 <= p < i ==> #[trigger] class@[p] <= p && population@[class@[p] as int]@
                    == population@[p]@,
            forall|p: int, j: int|
                #![trigger class@[p], population@[j]]
                0 <= p < i && 0 <= j < class@[p] ==> population@[j]@ != population@[p]@,
        decreases population@.len() - i,
    {
        let mut j: usize = 0;
        while j < i && !same_value(&population[j], &population[i])
            invariant
                j <= i,
                i < population@.len(),
                forall|q: int| 0 <= q < j ==> population@[q]@ != population@[i as int]@,
            decreases i - j,
        {
            j = j + 1;
        }
        proof {
            if j < i {
                assert(population@[j as int]@ == population@[i as int]@);
            }
        }
        class.push(j);
        i = i + 1;
    }
    class
}

/// Equal classes mean equal values, and the other way round.
proof fn lemma_classes(population: Seq<Vec<char>>, class: Seq<usize>, i: int, j: int)
    requires
        class.len() == population.len(),
        forall|p: int|
            0 <= p < class.len() ==> #[trigger] class[p] <= p && population[class[p] as int]@
                == population[p]@,
        forall|p: int, q: int|
            #![trigger class[p], population[q]]
            0 <= p < class.len() && 0 <= q < class[p] ==> population[q]@ != population[p]@,
        0 <= i < class.len(),
        0 <= j < class.len(),
    ensures
        (class[i] == class[j]) <==> (population[i]@ == population[j]@),
{
    let ci = class[i] as int;
    let cj = class[j] as int;
    assert(population[ci]@ == population[i]@);
    assert(population[cj]@ == population[j]@);
    if population[i]@ == population[j]@ {
        if ci < cj {
            assert(population[ci]@ != population[j]@);
        } else if cj < ci {
            assert(population[cj]@ != population[i]@);
        }
    }
}

/// The views of a sequence of vectors.
pub open spec fn seq_views<T>(s: Seq<Vec<T>>) -> Seq<Seq<T>> {
    s.map_values(|v: Vec<T>| v@)
}

/// The score of every individual, as `score_population` returns it.
pub open spec fn score_seq(target: Seq<char>, pop: Seq<Vec<char>>) -> Seq<usize> {
    pop.map_values(|v: Vec<char>| count_matches(target, v@) as usize)
}

/// The mating pool of a population, as population indices.
pub open spec fn mating_pool(target: Seq<char>, pop: Seq<Vec<char>>, factor: nat) -> Seq<usize> {
    pool_from(score_seq(target, pop), factor, target.len())
}

/// The child bred from the pool entries at positions `first` and `second`
/// with the coin flips `flips`, then mutated with the draws `fresh`.
pub open spec fn child(
    pop: Seq<Vec<char>>,
    pool: Seq<usize>,
    first: usize,
    second: usize,
    flips: Seq<bool>,
    fresh: Seq<Option<char>>,
) -> Seq<char> {
    mutated(cross(pop[pool[first as int] as int]@, pop[pool[second as int] as int]@, flips), fresh)
}

/// One child for each set of draws, in order.
pub open spec fn offspring(
    pop: Seq<Vec<char>>,
    pool: Seq<usize>,
    firsts: Seq<usize>,
    seconds: Seq<usize>,
    flips: Seq<Seq<bool>>,
    fresh: Seq<Seq<Option<char>>>,
) -> Seq<Seq<char>> {
    Seq::new(firsts.len(), |k: int| child(pop, pool, firsts[k], seconds[k], flips[k], fresh[k]))
}

/// `n` sets of draws that breeding can make from `pool`: both parents are
/// pool entries of different values, with one flip per position and
/// mutation draws that `rate` allows.
pub open spec fn draws_ok(
    pop: Seq<Vec<char>>,
    pool: Seq<usize>,
    len: nat,
    n: nat,
    firsts: Seq<usize>,
    seconds: Seq<usize>,
    flips: Seq<Seq<bool>>,
    fresh: Seq<Seq<Option<char>>>,
    rate: u32,
    alphabet: Alphabet,
) -> bool {
    &&& firsts.len() == n
    &&& seconds.len() == n
    &&& flips.len() == n
    &&& fresh.len() == n
    &&& forall|k: int|
        0 <= k < n ==> {
            &&& #[trigger] firsts[k] < pool.len()
            &&& seconds[k] < pool.len()
            &&& pool[firsts[k] as int] < pop.len()
            &&& pool[seconds[k] as int] < pop.len()
            &&& pop[pool[firsts[k] as int] as int]@ != pop[pool[seconds[k] as int] as int]@
            &&& flips[k].len() == len
            &&& mutation_draws(fresh[k], len, rate, alphabet)
        }
}

/// `children` is what breeding `children.len()` times from the mating
/// pool of `pop` gives for some draws.
pub open spec fn bred_from_pool(
    target: Seq<char>,
    pop: Seq<Vec<char>>,
    factor: nat,
    rate: u32,
    alphabet: Alphabet,
    children: Seq<Seq<char>>,
) -> bool {
    exists|firsts: Seq<usize>, seconds: Seq<usize>, flips: Seq<Seq<bool>>, fresh: Seq<Seq<Option<char>>>|
        #[trigger] draws_ok(
            pop,
            mating_pool(target, pop, factor),
            target.len(),
            children.len(),
            firsts,
            seconds,
            flips,
            fresh,
            rate,
            alphabet,
        ) && children == offspring(pop, mating_pool(target, pop, factor), firsts, seconds, flips, fresh)
}

/// Breeding with the draws given: child `k` crosses the individuals at pool
/// positions `firsts[k]` and `seconds[k]` with the flips `flips[k]`, then
/// applies the mutation draws `fresh[k]`.
pub fn breed(
    population: &Vec<Vec<char>>,
    pool: &Vec<usize>,
    firsts: &Vec<usize>,
    seconds: &Vec<usize>,
    flips: &Vec<Vec<bool>>,
    fresh: &Vec<Vec<Option<char>>>,
) -> (r: Vec<Vec<char>>)
    requires
        seconds@.len() == firsts@.len(),
        flips@.len() == firsts@.len(),
        fresh@.len() == firsts@.len(),
        forall|k: int|
            0 <= k < firsts@.len() ==> {
                &&& #[trigger] firsts@[k] < pool@.len()
                &&& seconds@[k] < pool@.len()
                &&& pool@[firsts@[k] as int] < population@.len()
                &&& pool@[seconds@[k] as int] < population@.len()
                &&& population@[pool@[seconds@[k] as int] as int]@.len() == population@[pool@[firsts@[k] as int] as int]@.len()
                &&& flips@[k]@.len() == population@[pool@[firsts@[k] as int] as int]@.len()
                &&& fresh@[k]@.len() == population@[pool@[firsts@[k] as int] as int]@.len()
            },
    ensures
        values(r@) == offspring(population@, pool@, firsts@, seconds@, seq_views(flips@), seq_views(fresh@)),
{
    let mut children: Vec<Vec<char>> = Vec::new();
    let mut k: usize = 0;
    while k < firsts.len()
        invariant
            k <= firsts@.len(),
            seconds@.len() == firsts@.len(),
            flips@.len() == firsts@.len(),
            fresh@.len() == firsts@.len(),
            forall|q: int|
                0 <= q < firsts@.len() ==> {
                    &&& #[trigger] firsts@[q] < pool@.len()
                    &&& seconds@[q] < pool@.len()
                    &&& pool@[firsts@[q] as int] < population@.len()
                    &&& pool@[seconds@[q] as int] < population@.len()
                    &&& population@[pool@[seconds@[q] as int] as int]@.len() == population@[pool@[firsts@[q] as int] as int]@.len()
                    &&& flips@[q]@.len() == population@[pool@[firsts@[q] as int] as int]@.len()
                    &&& fresh@[q]@.len() == population@[pool@[firsts@[q] as int] as int]@.len()
                },
            values(children@) =~= offspring(population@, pool@, firsts@, seconds@, seq_views(flips@), seq_views(fresh@)).take(k as int),
        decreases firsts@.len() - k,
    {
        proof {
            assert(firsts@[k as int] < pool@.len());
        }
        let a = pool[firsts[k]];
        let b = pool[seconds[k]];
        let c = crossover(&population[a], &population[b], &flips[k]);
        let m = apply_mutations(&c, &fresh[k]);
        let ghost before = children@;
        children.push(m);
        proof {
            assert(values(children@) =~= values(before).push(m@));
        }
        k = k + 1;
    }
    children
}

/// The child of two individuals of the population is of the target's
/// length and made of the alphabet.
proof fn lemma_child_fits(
    target: Seq<char>,
    pop: Seq<Vec<char>>,
    pool: Seq<usize>,
    first: usize,
    second: usize,
    flips: Seq<bool>,
    fresh: Seq<Option<char>>,
    rate: u32,
    alphabet: Alphabet,
)
    requires
        population_fits(target, pop, alphabet),
        first < pool.len(),
        second < pool.len(),
        pool[first as int] < pop.len(),
        pool[second as int] < pop.len(),
        flips.len() == target.len(),
        mutation_draws(fresh, target.len(), rate, alphabet),
    ensures
        child(pop, pool, first, second, flips, fresh).len() == target.len(),
        alphabet.covers(child(pop, pool, first, second, flips, fresh)),
{
    let a = pop[pool[first as int] as int]@;
    let b = pop[pool[second as int] as int]@;
    let c = child(pop, pool, first, second, flips, fresh);
    assert forall|p: int| 0 <= p < c.len() implies alphabet.has(#[trigger] c[p]) by {
        assert(alphabet.has(a[p]));
        assert(alphabet.has(b[p]));
        if fresh[p] is Some {
            assert(alphabet.has(fresh[p]->0));
        }
    }
}

/// A second parent for the first parent `a`: a pool position drawn
/// uniformly among those whose entry differs in value from `a`, the
/// distribution that redrawing until the values differ would give, without
/// an unbounded loop.
fn pick_partner(rng: &mut StdRng, pool: &Vec<usize>, class: &Vec<usize>, a: usize) -> (b: usize)
    requires
        forall|k: int| 0 <= k < pool@.len() ==> #[trigger] pool@[k] < class@.len(),
        a < class@.len(),
        exists|k: int| 0 <= k < pool@.len() && class@[#[trigger] pool@[k] as int] != class@[a as int],
    ensures
        b < pool@.len(),
        class@[pool@[b as int] as int] != class@[a as int],
{
    let mut others: Vec<usize> = Vec::new();
    let mut k: usize = 0;
    while k < pool.len()
        invariant
            k <= pool@.len(),
            forall|q: int| 0 <= q < pool@.len() ==> #[trigger] pool@[q] < class@.len(),
            a < class@.len(),
            forall|m: int|
                0 <= m < others@.len() ==> #[trigger] others@[m] < pool@.len() && class@[pool@[others@[m] as int] as int]
                    != class@[a as int],
            (exists|m: int| 0 <= m < k && class@[#[trigger] pool@[m] as int] != class@[a as int])
                ==> others@.len() > 0,
        decreases pool@.len() - k,
    {
        if class[pool[k]] != class[a] {
            others.push(k);
        }
        k = k + 1;
    }
    let b = others[pick_index(rng, others.len())];
    b
}

/// The next generation: for each of `population_size` children a parent is
/// drawn from the mating pool, then a partner of a different value from
/// it too; the child takes each position from one of them at random and is
/// then mutated at `rate / RATE_SCALE`. Fails when the pool is empty, or
/// when it holds a single value.
pub fn generate_new_population(
    rng: &mut StdRng,
    target: &Vec<char>,
    population: &Vec<Vec<char>>,
    factor: usize,
    population_size: usize,
    rate: u32,
    alphabet: Alphabet,
) -> (r: Result<Vec<Vec<char>>, EvolveError>)
    requires
        target@.len() > 0,
        factor > 0,
        rate <= RATE_SCALE,
        alphabet.wf(),
        population_fits(target@, population@, alphabet),
    ensures
        (r == Err::<Vec<Vec<char>>, EvolveError>(EvolveError::EmptyMatingPool)) <==> all_unfit(
            target@,
            population@,
        ),
        (r == Err::<Vec<Vec<char>>, EvolveError>(EvolveError::NoDistinctPartner)) <==> (!all_unfit(
            target@,
            population@,
        ) && one_fit_value(target@, population@)),
        r is Ok || r == Err::<Vec<Vec<char>>, EvolveError>(EvolveError::EmptyMatingPool) || r
            == Err::<Vec<Vec<char>>, EvolveError>(EvolveError::NoDistinctPartner),
        r is Ok ==> r->Ok_0@.len() == population_size && population_fits(
            target@,
            r->Ok_0@,
            alphabet,
        ),
        r is Ok ==> bred_from_pool(target@, population@, factor as nat, rate, alphabet, values(r->Ok_0@)),
{
    let scores = score_population(target, population);
    let len = target.len();
    let pool = build_mating_pool(&scores, factor, len);
    let n_scores = scores.len();
    let ghost sc = scores@;
    let ghost f = factor as nat;
    let ghost l = len as nat;
    proof {
        assert(sc =~= score_seq(target@, population@));
        assert forall|x: usize| x < sc.len() implies (pool@.contains(x) <==> count_matches(
            target@,
            population@[x as int]@,
        ) > 0) by {
            lemma_pool_members(sc, f, l, x);
            lemma_copies_bounds(sc[x as int] as nat, f, l);
        }
        assert forall|k: int| 0 <= k < pool@.len() implies #[trigger] pool@[k] < population@.len()
            && count_matches(target@, population@[pool@[k] as int]@) > 0 by {
            lemma_pool_entries(sc, f, l, k);
            lemma_copies_bounds(sc[pool@[k] as int] as nat, f, l);
        }
    }
    if pool.len() == 0 {
        proof {
            assert forall|i: int| 0 <= i < population@.len() implies count_matches(
                target@,
                (#[trigger] population@[i])@,
            ) == 0 by {
                assert(!pool@.contains(i as usize));
            }
        }
        return Err(EvolveError::EmptyMatingPool);
    }
    let class = value_classes(population);
    let first = pool[0];
    let mut w: usize = 1;
    while w < pool.len() && class[pool[w]] == class[first]
        invariant
            1 <= w <= pool@.len(),
            first == pool@[0],
            class@.len() == population@.len(),
            forall|k: int| 0 <= k < pool@.len() ==> #[trigger] pool@[k] < population@.len(),
            forall|k: int| 0 <= k < w ==> class@[#[trigger] pool@[k] as int] == class@[first as int],
        decreases pool@.len() - w,
    {
        w = w + 1;
    }
    proof {
        assert(count_matches(target@, population@[first as int]@) > 0);
    }
    if w == pool.len() {
        proof {
            assert forall|i: int, j: int|
                0 <= i < population@.len() && 0 <= j < population@.len() && count_matches(
                    target@,
                    (#[trigger] population@[i])@,
                ) > 0 && count_matches(target@, (#[trigger] population@[j])@) > 0 implies population@[i]@
                == population@[j]@ by {
                assert(pool@.contains(i as usize));
                assert(pool@.contains(j as usize));
                let ki = choose|k: int| 0 <= k < pool@.len() && pool@[k] == i as usize;
                let kj = choose|k: int| 0 <= k < pool@.len() && pool@[k] == j as usize;
                assert(class@[pool@[ki] as int] == class@[first as int]);
                assert(class@[pool@[kj] as int] == class@[first as int]);
                lemma_classes(population@, class@, i, j);
            }
        }
        return Err(EvolveError::NoDistinctPartner);
    }
    proof {
        let second = pool@[w as int];
        lemma_classes(population@, class@, first as int, second as int);
        assert(count_matches(target@, population@[second as int]@) > 0);
        assert(!one_fit_value(target@, population@));
    }
    let mut firsts: Vec<usize> = Vec::new();
    let mut seconds: Vec<usize> = Vec::new();
    let mut flips: Vec<Vec<bool>> = Vec::new();
    let mut fresh: Vec<Vec<Option<char>>> = Vec::new();
    let mut s: usize = 0;
    while s < population_size
        invariant
            s <= population_size,
            target@.len() == len,
            rate <= RATE_SCALE,
            alphabet.wf(),
            population_fits(target@, population@, alphabet),
            pool@.len() > 0,
            w < pool@.len(),
            first == pool@[0],
            class@.len() == population@.len(),
            class@[pool@[w as int] as int] != class@[first as int],
            forall|k: int| 0 <= k < pool@.len() ==> #[trigger] pool@[k] < population@.len(),
            forall|i: int|
                0 <= i < class@.len() ==> #[trigger] class@[i] <= i && population@[class@[i] as int]@
                    == population@[i]@,
            forall|i: int, j: int|
                #![trigger class@[i], population@[j]]
                0 <= i < class@.len() && 0 <= j < class@[i] ==> population@[j]@ != population@[i]@,
            draws_ok(population@, pool@, len as nat, s as nat, firsts@, seconds@, seq_views(flips@), seq_views(fresh@), rate, alphabet),
        decreases population_size - s,
    {
        let fa = pick_index(rng, pool.len());
        let a = pool[fa];
        proof {
            if class@[first as int] != class@[a as int] {
                assert(class@[pool@[0] as int] != class@[a as int]);
            } else {
                assert(class@[pool@[w as int] as int] != class@[a as int]);
            }
        }
        let fb = pick_partner(rng, &pool, &class, a);
        let fl = draw_flips(rng, len);
        let fr = draw_mutations(rng, len, rate, alphabet);
        proof {
            lemma_classes(population@, class@, a as int, pool@[fb as int] as int);
        }
        let ghost old_flips = seq_views(flips@);
        let ghost old_fresh = seq_views(fresh@);
        firsts.push(fa);
        seconds.push(fb);
        flips.push(fl);
        fresh.push(fr);
        proof {
            assert(seq_views(flips@) =~= old_flips.push(fl@));
            assert(seq_views(fresh@) =~= old_fresh.push(fr@));
        }
        s = s + 1;
    }
    let children = breed(population, &pool, &firsts, &seconds, &flips, &fresh);
    proof {
        let vf = seq_views(flips@);
        let vr = seq_views(fresh@);
        assert(pool@ == mating_pool(target@, population@, factor as nat));
        assert(values(children@).len() == children@.len());
        assert(draws_ok(population@, mating_pool(target@, population@, factor as nat), target@.len(), values(children@).len(), firsts@, seconds@, vf, vr, rate, alphabet));
        assert forall|k: int| 0 <= k < children@.len() implies (#[trigger] children@[k])@.len() == target@.len()
            && alphabet.covers(children@[k]@) by {
            assert(firsts@[k] < pool@.len());
            assert(values(children@)[k] == children@[k]@);
            lemma_child_fits(target@, population@, pool@, firsts@[k], seconds@[k], vf[k], vr[k], rate, alphabet);
        }
    }
    Ok(children)
}

/// A population of fewer than two individuals cannot breed: its pool is
/// empty, or it holds a single value, so no partner of a different value
/// can ever be drawn.
pub proof fn lemma_lone_individual(target: Seq<char>, pop: Seq<Vec<char>>)
    requires
        pop.len() < 2,
    ensures
        all_unfit(target, pop) || one_fit_value(target, pop),
{
    assert forall|i: int, j: int|
        0 <= i < pop.len() && 0 <= j < pop.len() && count_matches(target, (#[trigger] pop[i])@) > 0
            && count_matches(target, (#[trigger] pop[j])@) > 0 implies pop[i]@ == pop[j]@ by {
        assert(i == j);
    }
}

/// In the mating pool that parents are drawn from, individual `x` appears
/// `ceil(score / len * factor)` times: exactly `factor` times for a full
/// match, never for no match, and never fewer times than a less fit one.
pub proof fn lemma_mating_pool_counts(target: Seq<char>, pop: Seq<Vec<char>>, factor: nat, x: usize, y: usize)
    requires
        target.len() > 0,
        target.len() <= usize::MAX,
        pop.len() <= usize::MAX,
        x < pop.len(),
        y < pop.len(),
    ensures
        mating_pool(target, pop, factor).to_multiset().count(x) == copies(count_matches(target, pop[x as int]@), factor, target.len()),
        count_matches(target, pop[x as int]@) == target.len() ==> mating_pool(target, pop, factor).to_multiset().count(x) == factor,
        count_matches(target, pop[x as int]@) == 0 ==> mating_pool(target, pop, factor).to_multiset().count(x) == 0,
        count_matches(target, pop[x as int]@) <= count_matches(target, pop[y as int]@) ==> mating_pool(target, pop, factor).to_multiset().count(x)
            <= mating_pool(target, pop, factor).to_multiset().count(y),
{
    let sc = score_seq(target, pop);
    crate::fitness::lemma_matches_bound(target, pop[x as int]@);
    crate::fitness::lemma_matches_bound(target, pop[y as int]@);
    lemma_pool_multiplicity(sc, factor, target.len(), x);
    lemma_pool_multiplicity(sc, factor, target.len(), y);
    lemma_copies_bounds(count_matches(target, pop[x as int]@), factor, target.len());
    if count_matches(target, pop[x as int]@) <= count_matches(target, pop[y as int]@) {
        lemma_copies_monotone(count_matches(target, pop[x as int]@), count_matches(target, pop[y as int]@), factor, target.len());
    }
}

} // verus!
