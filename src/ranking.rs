//! Ranking a population against the target: its best individual, its
//! average fitness, and its fittest distinct values.
use vstd::prelude::*;
use itertools::Itertools;
use crate::fitness::{absolute_fitness, count_matches, lemma_matches_bound};
use crate::selection::{score_population, values};

verus! {

/// The individuals of `vals` with exactly `k` matches, in order.
pub open spec fn with_score(t: Seq<char>, vals: Seq<Seq<char>>, k: int) -> Seq<Seq<char>> {
    vals.filter(|x: Seq<char>| count_matches(t, x) == k)
}

/// The individuals of `vals` with between `lo` and `hi` matches, best
/// score first, population order kept among equal scores.
pub open spec fn ranked_between(t: Seq<char>, vals: Seq<Seq<char>>, hi: int, lo: int) -> Seq<Seq<char>>
    decreases hi - lo + 1,
{
    if hi < lo {
        Seq::empty()
    } else {
        with_score(t, vals, hi) + ranked_between(t, vals, hi - 1, lo)
    }
}

/// The whole population, best score first, population order kept among
/// equal scores.
pub open spec fn ranked(t: Seq<char>, vals: Seq<Seq<char>>) -> Seq<Seq<char>> {
    ranked_between(t, vals, t.len() as int, 0)
}

/// The values of `s` in the order of their first occurrence, each once.
pub open spec fn dedup(s: Seq<Seq<char>>) -> Seq<Seq<char>>
    decreases s.len(),
{
    if s.len() == 0 {
        Seq::empty()
    } else {
        let d = dedup(s.drop_last());
        if d.contains(s.last()) {
            d
        } else {
            d.push(s.last())
        }
    }
}

/// The `n` fittest distinct values: the distinct values of the ranking,
/// at most `n` of them.
pub open spec fn top_spec(t: Seq<char>, vals: Seq<Seq<char>>, n: nat) -> Seq<Seq<char>> {
    let d = dedup(ranked(t, vals));
    if n <= d.len() {
        d.take(n as int)
    } else {
        d
    }
}

/// Sum of the scores of all individuals.
pub open spec fn total_matches(t: Seq<char>, vals: Seq<Seq<char>>) -> nat
    decreases vals.len(),
{
    if vals.len() == 0 {
        0
    } else {
        total_matches(t, vals.drop_last()) + count_matches(t, vals.last())
    }
}

/// Individual `i` has the highest score, and every earlier one a lower
/// score.
pub open spec fn is_best(t: Seq<char>, vals: Seq<Seq<char>>, i: int) -> bool {
    &&& 0 <= i < vals.len()
    &&& forall|j: int| 0 <= j < vals.len() ==> count_matches(t, #[trigger] vals[j]) <= count_matches(t, vals[i])
    &&& forall|j: int| 0 <= j < i ==> count_matches(t, #[trigger] vals[j]) < count_matches(t, vals[i])
}

/// Relies on itertools' `Itertools::unique`: the values in the order of
/// their first occurrence, each kept once (equality of `Vec<char>` is
/// equality of the characters).
#[verifier::external_body]
fn unique_values(v: Vec<Vec<char>>) -> (r: Vec<Vec<char>>)
    ensures
        values(r@) == dedup(values(v@)),
{
    v.into_iter().unique().collect()
}

/// Relies on itertools' `Itertools::sorted_by_key`, which sorts with std's
/// stable `sort_by_key`: keyed on the score in reverse, the result is the
/// population best score first, population order kept among equal scores.
#[verifier::external_body]
fn sorted_by_score(target: &Vec<char>, population: &Vec<Vec<char>>) -> (r: Vec<Vec<char>>)
    requires
        forall|i: int| 0 <= i < population@.len() ==> (#[trigger] population@[i])@.len() == target@.len(),
    ensures
        values(r@) == ranked(target@, values(population@)),
{
    population.iter().cloned().sorted_by_key(|e| std::cmp::Reverse(absolute_fitness(target, e))).collect()
}

/// The first value of a filter is the first value that passes it.
proof fn lemma_filter_first(vals: Seq<Seq<char>>, f: spec_fn(Seq<char>) -> bool, b: int)
    requires
        0 <= b < vals.len(),
        f(vals[b]),
        forall|j: int| 0 <= j < b ==> !f(#[trigger] vals[j]),
    ensures
        vals.filter(f).len() > 0,
        vals.filter(f)[0] == vals[b],
{
    let pre = vals.take(b);
    let head = vals.take(b + 1);
    let rest = vals.skip(b + 1);
    assert(vals =~= head + rest);
    Seq::filter_distributes_over_add(head, rest, f);
    assert(head =~= pre.push(vals[b]));
    pre.lemma_filter_push(vals[b], f);
    assert forall|j: int| 0 <= j < pre.len() implies !f(#[trigger] pre[j]) by {
        assert(pre[j] == vals[j]);
    }
    pre.lemma_all_neg_filter_empty(f);
    assert(head.filter(f) =~= seq![vals[b]]);
}

/// Scores above the best one add nothing to the ranking.
proof fn lemma_ranked_from_best(t: Seq<char>, vals: Seq<Seq<char>>, hi: int, m: int)
    requires
        0 <= m <= hi,
        forall|j: int| 0 <= j < vals.len() ==> count_matches(t, #[trigger] vals[j]) <= m,
    ensures
        ranked_between(t, vals, hi, 0) == ranked_between(t, vals, m, 0),
    decreases hi - m,
{
    if hi > m {
        lemma_ranked_from_best(t, vals, hi - 1, m);
        let f = |x: Seq<char>| count_matches(t, x) == hi;
        assert(vals.all(|x: Seq<char>| !f(x))) by {
            assert forall|j: int| 0 <= j < vals.len() implies !f(#[trigger] vals[j]) by {}
        }
        vals.lemma_all_neg_filter_empty(f);
        assert(ranked_between(t, vals, hi, 0) =~= ranked_between(t, vals, hi - 1, 0));
    }
}

/// The head of the ranking is the best individual.
pub proof fn lemma_ranked_head(t: Seq<char>, vals: Seq<Seq<char>>, b: int)
    requires
        is_best(t, vals, b),
    ensures
        ranked(t, vals).len() > 0,
        ranked(t, vals)[0] == vals[b],
{
    let m = count_matches(t, vals[b]) as int;
    lemma_matches_bound(t, vals[b]);
    lemma_ranked_from_best(t, vals, t.len() as int, m);
    let f = |x: Seq<char>| count_matches(t, x) == m;
    lemma_filter_first(vals, f, b);
}

/// The ranking gains the scores `lo` last when its lower end moves down to
/// `lo`.
proof fn lemma_ranked_split(t: Seq<char>, vals: Seq<Seq<char>>, hi: int, lo: int)
    requires
        lo <= hi,
    ensures
        ranked_between(t, vals, hi, lo) == ranked_between(t, vals, hi, lo + 1) + with_score(t, vals, lo),
    decreases hi - lo,
{
    if hi == lo {
        assert(ranked_between(t, vals, hi - 1, lo) =~= Seq::<Seq<char>>::empty());
        assert(ranked_between(t, vals, hi, lo + 1) =~= Seq::<Seq<char>>::empty());
        assert(ranked_between(t, vals, hi, lo) =~= ranked_between(t, vals, hi, lo + 1) + with_score(t, vals, lo));
    } else {
        lemma_ranked_split(t, vals, hi - 1, lo);
        assert(ranked_between(t, vals, hi, lo) =~= ranked_between(t, vals, hi, lo + 1) + with_score(t, vals, lo));
    }
}

/// A value is in the ranking between `lo` and `hi` exactly when it is in
/// the population with a score in that range.
pub proof fn lemma_ranked_members(t: Seq<char>, vals: Seq<Seq<char>>, hi: int, lo: int, x: Seq<char>)
    ensures
        ranked_between(t, vals, hi, lo).contains(x) <==> (vals.contains(x) && lo <= count_matches(t, x) <= hi),
    decreases hi - lo + 1,
{
    if hi >= lo {
        lemma_ranked_members(t, vals, hi - 1, lo, x);
        let f = |y: Seq<char>| count_matches(t, y) == hi;
        let a = with_score(t, vals, hi);
        let b = ranked_between(t, vals, hi - 1, lo);
        let w = ranked_between(t, vals, hi, lo);
        assert(w == a + b);
        vals.filter_lemma(f);
        if w.contains(x) {
            let k = choose|k: int| 0 <= k < w.len() && w[k] == x;
            if k < a.len() {
                assert(a[k] == x);
                assert(a.contains(x));
                vals.lemma_filter_contains_rev(f, x);
            } else {
                assert(b[k - a.len()] == x);
                assert(b.contains(x));
            }
        }
        if vals.contains(x) && lo <= count_matches(t, x) <= hi {
            if count_matches(t, x) == hi {
                let i = choose|i: int| 0 <= i < vals.len() && vals[i] == x;
                assert(a.contains(vals[i]));
                let k = choose|k: int| 0 <= k < a.len() && a[k] == x;
                assert(w[k] == x);
            } else {
                assert(b.contains(x));
                let k = choose|k: int| 0 <= k < b.len() && b[k] == x;
                assert(w[a.len() + k] == x);
            }
        }
    }
}

/// The ranking holds the population's values and no others.
pub proof fn lemma_ranked_same_values(t: Seq<char>, vals: Seq<Seq<char>>, x: Seq<char>)
    requires
        forall|i: int| 0 <= i < vals.len() ==> (#[trigger] vals[i]).len() == t.len(),
    ensures
        ranked(t, vals).contains(x) <==> vals.contains(x),
{
    lemma_ranked_members(t, vals, t.len() as int, 0, x);
    lemma_matches_bound(t, x);
}

/// `dedup` keeps each value once, and every value.
pub proof fn lemma_dedup(s: Seq<Seq<char>>)
    ensures
        dedup(s).no_duplicates(),
        forall|x: Seq<char>| dedup(s).contains(x) <==> s.contains(x),
    decreases s.len(),
{
    if s.len() > 0 {
        let pre = s.drop_last();
        lemma_dedup(pre);
        let d = dedup(pre);
        if d.contains(s.last()) {
            assert(dedup(s) == d);
        } else {
            assert(dedup(s) == d.push(s.last()));
            assert forall|i: int, j: int| 0 <= i < j < dedup(s).len() implies dedup(s)[i] != dedup(s)[j] by {
                if j == d.len() {
                    assert(d[i] == dedup(s)[i]);
                    assert(d.contains(d[i]));
                } else {
                    assert(d[i] == dedup(s)[i]);
                    assert(d[j] == dedup(s)[j]);
                }
            }
        }
        assert forall|x: Seq<char>| dedup(s).contains(x) <==> s.contains(x) by {
            if d.contains(x) {
                assert(pre.contains(x));
                let i = choose|i: int| 0 <= i < pre.len() && pre[i] == x;
                assert(s[i] == x);
                assert(s.contains(x));
                let k = choose|k: int| 0 <= k < d.len() && d[k] == x;
                assert(dedup(s)[k] == x);
                assert(dedup(s).contains(x));
            } else {
                if s.contains(x) {
                    let i = choose|i: int| 0 <= i < s.len() && s[i] == x;
                    if i < s.len() - 1 {
                        assert(pre[i] == x);
                        assert(pre.contains(x));
                    }
                    assert(x == s.last());
                    assert(dedup(s)[d.len() as int] == x);
                }
                if dedup(s).contains(x) {
                    let k = choose|k: int| 0 <= k < dedup(s).len() && dedup(s)[k] == x;
                    if k < d.len() {
                        assert(d[k] == x);
                    }
                    assert(s[s.len() - 1] == x);
                    assert(s.contains(x));
                }
            }
        }
    }
}

/// The ranking of a population: every value whose score is the target's
/// length first, then the next lower score, down to no matches; among equal
/// scores the population order is kept.
pub fn rank_by_fitness(target: &Vec<char>, population: &Vec<Vec<char>>) -> (r: Vec<Vec<char>>)
    requires
        forall|i: int| 0 <= i < population@.len() ==> (#[trigger] population@[i])@.len() == target@.len(),
    ensures
        values(r@) == ranked(target@, values(population@)),
{
    let scores = score_population(target, population);
    let ghost vals = values(population@);
    let mut res: Vec<Vec<char>> = Vec::new();
    let mut k: usize = target.len();
    proof {
        assert(values(res@) =~= ranked_between(target@, vals, target@.len() as int, k + 1));
    }
    loop
        invariant_except_break
            values(res@) == ranked_between(target@, vals, target@.len() as int, k + 1),
        invariant
            k <= target@.len(),
            scores@.len() == population@.len(),
            vals == values(population@),
            forall|i: int| 0 <= i < scores@.len() ==> #[trigger] scores@[i] as nat == count_matches(target@, population@[i]@),
        ensures
            values(res@) == ranked_between(target@, vals, target@.len() as int, 0),
        decreases k,
    {
        let ghost start = values(res@);
        let mut i: usize = 0;
        while i < population.len()
            invariant
                i <= population@.len(),
                scores@.len() == population@.len(),
                vals == values(population@),
                forall|q: int| 0 <= q < scores@.len() ==> #[trigger] scores@[q] as nat == count_matches(target@, population@[q]@),
                values(res@) == start + vals.take(i as int).filter(|x: Seq<char>| count_matches(target@, x) == k),
            decreases population@.len() - i,
        {
            let ghost f = |x: Seq<char>| count_matches(target@, x) == k;
            proof {
                assert(vals.take(i + 1) =~= vals.take(i as int).push(vals[i as int]));
                vals.take(i as int).lemma_filter_push(vals[i as int], f);
            }
            if scores[i] == k {
                let e = population[i].clone();
                proof {
                    assert(e@ =~= population@[i as int]@);
                }
                let ghost before = res@;
                res.push(e);
                proof {
                    assert(values(res@) =~= values(before).push(e@));
                }
            }
            i = i + 1;
        }
        proof {
            assert(vals.take(i as int) =~= vals);
            lemma_ranked_split(target@, vals, target@.len() as int, k as int);
        }
        if k == 0 {
            break;
        }
        k = k - 1;
    }
    res
}

/// The `n` fittest distinct values of the population, best first: the
/// ranking with repeated values dropped, cut to at most `n`.
pub fn top(target: &Vec<char>, population: &Vec<Vec<char>>, n: usize) -> (r: Vec<Vec<char>>)
    requires
        forall|i: int| 0 <= i < population@.len() ==> (#[trigger] population@[i])@.len() == target@.len(),
    ensures
        values(r@) == top_spec(target@, values(population@), n as nat),
{
    let ranked = rank_by_fitness(target, population);
    let mut u = unique_values(ranked);
    let ghost before = u@;
    u.truncate(n);
    proof {
        if n <= before.len() {
            assert(values(u@) =~= values(before).take(n as int));
        }
    }
    u
}

/// The top values never repeat a value, and there are `n` of them, or as
/// many as the population has distinct values where that is fewer.
pub proof fn lemma_top_distinct(t: Seq<char>, vals: Seq<Seq<char>>, n: nat)
    requires
        forall|i: int| 0 <= i < vals.len() ==> (#[trigger] vals[i]).len() == t.len(),
    ensures
        top_spec(t, vals, n).no_duplicates(),
        top_spec(t, vals, n).len() == if n <= vals.to_set().len() { n } else { vals.to_set().len() },
{
    let r = ranked(t, vals);
    lemma_dedup(r);
    let d = dedup(r);
    d.unique_seq_to_set();
    assert forall|x: Seq<char>| d.to_set().contains(x) <==> vals.to_set().contains(x) by {
        lemma_ranked_same_values(t, vals, x);
    }
    assert(d.to_set() =~= vals.to_set());
    let top = top_spec(t, vals, n);
    assert forall|i: int, j: int| 0 <= i < j < top.len() implies top[i] != top[j] by {
        assert(top[i] == d[i]);
        assert(top[j] == d[j]);
    }
}

/// A non-empty population has a best individual.
pub proof fn lemma_best_exists(t: Seq<char>, vals: Seq<Seq<char>>)
    requires
        vals.len() > 0,
    ensures
        exists|i: int| is_best(t, vals, i),
    decreases vals.len(),
{
    if vals.len() == 1 {
        assert(is_best(t, vals, 0));
    } else {
        let pre = vals.drop_last();
        lemma_best_exists(t, pre);
        let i = choose|i: int| is_best(t, pre, i);
        let last = vals.len() - 1;
        if count_matches(t, vals[last]) > count_matches(t, pre[i]) {
            assert forall|j: int| 0 <= j < last implies count_matches(t, #[trigger] vals[j]) < count_matches(t, vals[last]) by {
                assert(vals[j] == pre[j]);
            }
            assert(is_best(t, vals, last));
        } else {
            assert forall|j: int| 0 <= j < vals.len() implies count_matches(t, #[trigger] vals[j]) <= count_matches(t, vals[i]) by {
                if j < last {
                    assert(vals[j] == pre[j]);
                }
            }
            assert forall|j: int| 0 <= j < i implies count_matches(t, #[trigger] vals[j]) < count_matches(t, vals[i]) by {
                assert(vals[j] == pre[j]);
            }
            assert(is_best(t, vals, i));
        }
    }
}

/// The best individual: the first one with the highest score, taken as the
/// head of the population sorted best first.
pub fn best(target: &Vec<char>, population: &Vec<Vec<char>>) -> (r: Vec<char>)
    requires
        population@.len() > 0,
        forall|i: int| 0 <= i < population@.len() ==> (#[trigger] population@[i])@.len() == target@.len(),
    ensures
        exists|i: int| #[trigger] is_best(target@, values(population@), i) && r@ == population@[i]@,
{
    let ghost vals = values(population@);
    proof {
        lemma_best_exists(target@, vals);
    }
    let ghost b = choose|i: int| is_best(target@, vals, i);
    let sorted = sorted_by_score(target, population);
    proof {
        lemma_ranked_head(target@, vals, b);
        assert(values(sorted@).len() == sorted@.len());
    }
    let r = sorted[0].clone();
    proof {
        assert(r@ =~= sorted@[0]@);
        assert(values(sorted@)[0] == sorted@[0]@);
        assert(is_best(target@, vals, b) && r@ == population@[b]@);
    }
    r
}

/// The average fitness of a population, as a fraction.
#[derive(Clone, Copy, Debug, PartialEq, Eq, Structural)]
pub struct Fraction {
    pub numerator: u128,
    pub denominator: u128,
}

/// The average fitness: the sum of all scores over the number of
/// individuals times the target's length.
pub fn average_absolute_fitness(target: &Vec<char>, population: &Vec<Vec<char>>) -> (r: Fraction)
    requires
        forall|i: int| 0 <= i < population@.len() ==> (#[trigger] population@[i])@.len() == target@.len(),
    ensures
        r.numerator == total_matches(target@, values(population@)),
        r.denominator == population@.len() * target@.len(),
{
    let ghost vals = values(population@);
    let len = target.len();
    let mut total: u128 = 0;
    let mut i: usize = 0;
    while i < population.len()
        invariant
            i <= population@.len(),
            len == target@.len(),
            vals == values(population@),
            forall|q: int| 0 <= q < population@.len() ==> (#[trigger] population@[q])@.len() == target@.len(),
            total as nat == total_matches(target@, vals.take(i as int)),
            total <= (i as u128) * (len as u128),
        decreases population@.len() - i,
    {
        let s = absolute_fitness(target, &population[i]);
        proof {
            lemma_matches_bound(target@, vals[i as int]);
            assert(vals.take(i + 1).drop_last() =~= vals.take(i as int));
            assert((i as u128) * (len as u128) + (len as u128) == ((i + 1) as u128) * (len as u128))
                by (nonlinear_arith);
            assert(((i + 1) as u128) * (len as u128) <= 0xffff_ffff_ffff_ffffu128 * 0xffff_ffff_ffff_ffffu128)
                by (nonlinear_arith)
                requires i + 1 <= 0xffff_ffff_ffff_ffffu128, len <= 0xffff_ffff_ffff_ffffu128;
        }
        total = total + (s as u128);
        i = i + 1;
    }
    proof {
        assert(vals.take(i as int) =~= vals);
        assert((population@.len() as u128) * (len as u128) <= 0xffff_ffff_ffff_ffffu128 * 0xffff_ffff_ffff_ffffu128)
            by (nonlinear_arith)
            requires population@.len() <= 0xffff_ffff_ffff_ffffu128, len <= 0xffff_ffff_ffff_ffffu128;
    }
    Fraction { numerator: total, denominator: (population.len() as u128) * (len as u128) }
}

} // verus!
