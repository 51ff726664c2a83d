//! Making individuals: from nothing, from two parents, and by mutation.
use vstd::prelude::*;
use rand::rngs::StdRng;
use crate::alphabet::Alphabet;
use crate::random::{chance, pick_index, random_char, sample_distinct, shuffle};

verus! {

/// Mutation rates are given in parts per million: `RATE_SCALE` is certain
/// mutation, zero is none.
pub const RATE_SCALE: u32 = 1000000;

/// A fresh individual: `length` different characters of the alphabet, in
/// random order.
pub fn generate(length: usize, alphabet: Alphabet, rng: &mut StdRng) -> (r: Vec<char>)
    requires
        alphabet.wf(),
        length <= alphabet.size(),
    ensures
        r@.len() == length,
        r@.no_duplicates(),
        alphabet.covers(r@),
{
    let mut a = sample_distinct(rng, alphabet, length);
    let ghost before = a@;
    shuffle(rng, &mut a);
    proof {
        broadcast use vstd::seq_lib::to_multiset_contains;
        before.lemma_multiset_has_no_duplicates();
        a@.lemma_multiset_has_no_duplicates_conv();
        assert forall|i: int| 0 <= i < a@.len() implies alphabet.has(#[trigger] a@[i]) by {
            assert(a@.contains(a@[i]));
            assert(a@.to_multiset().count(a@[i]) > 0);
            assert(before.to_multiset().count(a@[i]) > 0);
            assert(before.contains(a@[i]));
        }
    }
    a
}

/// The child of `e1` and `e2` when position `i` comes from `e2` exactly
/// where `from_second[i]` holds.
pub open spec fn cross(e1: Seq<char>, e2: Seq<char>, from_second: Seq<bool>) -> Seq<char> {
    Seq::new(e1.len(), |i: int| if from_second[i] { e2[i] } else { e1[i] })
}

/// Uniform crossover with the coin flips given: position `i` of the child is
/// taken from `e2` when `from_second[i]`, else from `e1`.
pub fn crossover(e1: &Vec<char>, e2: &Vec<char>, from_second: &Vec<bool>) -> (r: Vec<char>)
    requires
        e2@.len() == e1@.len(),
        from_second@.len() == e1@.len(),
    ensures
        r@ == cross(e1@, e2@, from_second@),
{
    let mut child: Vec<char> = Vec::new();
    let mut i: usize = 0;
    while i < e1.len()
        invariant
            i <= e1@.len(),
            e2@.len() == e1@.len(),
            from_second@.len() == e1@.len(),
            child@ =~= cross(e1@, e2@, from_second@).take(i as int),
        decreases e1@.len() - i,
    {
        if from_second[i] {
            child.push(e2[i]);
        } else {
            child.push(e1[i]);
        }
        i = i + 1;
    }
    child
}

/// `len` coin flips, one per position, each drawn at random.
pub fn draw_flips(rng: &mut StdRng, len: usize) -> (r: Vec<bool>)
    ensures
        r@.len() == len,
{
    let mut flips: Vec<bool> = Vec::new();
    let mut i: usize = 0;
    while i < len
        invariant
            i <= len,
            flips@.len() == i,
        decreases len - i,
    {
        flips.push(pick_index(rng, 2) == 1);
        i = i + 1;
    }
    flips
}

/// Two parents make a child: each position is taken from one of the two
/// parents at random, independently of the others.
pub fn reproduce(rng: &mut StdRng, e1: &Vec<char>, e2: &Vec<char>) -> (r: Vec<char>)
    requires
        e2@.len() == e1@.len(),
    ensures
        exists|f: Seq<bool>| f.len() == e1@.len() && r@ == #[trigger] cross(e1@, e2@, f),
        r@.len() == e1@.len(),
        forall|i: int| 0 <= i < r@.len() ==> #[trigger] r@[i] == e1@[i] || r@[i] == e2@[i],
{
    let flips = draw_flips(rng, e1.len());
    let r = crossover(e1, e2, &flips);
    proof {
        assert(flips@.len() == e1@.len() && r@ == cross(e1@, e2@, flips@));
    }
    r
}

/// `e` after mutation with the draws given: position `i` becomes `c` where
/// `fresh[i]` is `Some(c)`, and keeps its character where it is `None`.
pub open spec fn mutated(e: Seq<char>, fresh: Seq<Option<char>>) -> Seq<char> {
    Seq::new(
        e.len(),
        |i: int|
            match fresh[i] {
                Some(c) => c,
                None => e[i],
            },
    )
}

/// `fresh` is a possible outcome of the mutation draws for `len` positions
/// at `rate`: one entry per position, every new character in the alphabet,
/// none at rate zero and all at certain mutation.
pub open spec fn mutation_draws(fresh: Seq<Option<char>>, len: nat, rate: u32, alphabet: Alphabet) -> bool {
    &&& fresh.len() == len
    &&& forall|i: int| 0 <= i < len && (#[trigger] fresh[i]) is Some ==> alphabet.has(fresh[i]->0)
    &&& rate == 0 ==> forall|i: int| 0 <= i < len ==> (#[trigger] fresh[i]) is None
    &&& rate == RATE_SCALE ==> forall|i: int| 0 <= i < len ==> (#[trigger] fresh[i]) is Some
}

/// Mutation with the draws given: each `Some(c)` of `fresh` replaces the
/// character at its position.
pub fn apply_mutations(element: &Vec<char>, fresh: &Vec<Option<char>>) -> (r: Vec<char>)
    requires
        fresh@.len() == element@.len(),
    ensures
        r@ == mutated(element@, fresh@),
{
    let mut r: Vec<char> = Vec::new();
    let mut i: usize = 0;
    while i < element.len()
        invariant
            i <= element@.len(),
            fresh@.len() == element@.len(),
            r@ =~= mutated(element@, fresh@).take(i as int),
        decreases element@.len() - i,
    {
        match fresh[i] {
            Some(c) => r.push(c),
            None => r.push(element[i]),
        }
        i = i + 1;
    }
    r
}

/// The mutation draws for `len` positions: each position is chosen for
/// mutation with probability `rate / RATE_SCALE`, and then gets a random
/// character of the alphabet.
pub fn draw_mutations(rng: &mut StdRng, len: usize, rate: u32, alphabet: Alphabet) -> (r: Vec<Option<char>>)
    requires
        rate <= RATE_SCALE,
        alphabet.wf(),
    ensures
        mutation_draws(r@, len as nat, rate, alphabet),
{
    let mut fresh: Vec<Option<char>> = Vec::new();
    let mut i: usize = 0;
    while i < len
        invariant
            i <= len,
            rate <= RATE_SCALE,
            alphabet.wf(),
            mutation_draws(fresh@, i as nat, rate, alphabet),
        decreases len - i,
    {
        if chance(rng, rate, RATE_SCALE) {
            let c = random_char(rng, alphabet);
            fresh.push(Some(c));
        } else {
            fresh.push(None);
        }
        i = i + 1;
    }
    fresh
}

/// Each character is replaced, with probability `rate / RATE_SCALE`, by a
/// random character of the alphabet, and kept otherwise.
pub fn mutate(rng: &mut StdRng, element: &Vec<char>, rate: u32, alphabet: Alphabet) -> (r: Vec<char>)
    requires
        rate <= RATE_SCALE,
        alphabet.wf(),
    ensures
        exists|f: Seq<Option<char>>|
            #[trigger] mutation_draws(f, element@.len(), rate, alphabet) && r@ == mutated(element@, f),
        r@.len() == element@.len(),
        rate == 0 ==> r@ == element@,
        rate == RATE_SCALE ==> alphabet.covers(r@),
{
    let fresh = draw_mutations(rng, element.len(), rate, alphabet);
    let r = apply_mutations(element, &fresh);
    proof {
        assert(mutation_draws(fresh@, element@.len(), rate, alphabet) && r@ == mutated(element@, fresh@));
        if rate == 0 {
            assert(r@ =~= element@);
        }
        if rate == RATE_SCALE {
            assert forall|i: int| 0 <= i < r@.len() implies alphabet.has(#[trigger] r@[i]) by {
                assert(fresh@[i] is Some);
            }
        }
    }
    r
}

} // verus!
