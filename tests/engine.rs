use genetic::alphabet::Alphabet;
use genetic::error::EvolveError;
use genetic::fitness::absolute_fitness;
use genetic::ranking::{average_absolute_fitness, best, rank_by_fitness, top};
use genetic::selection::{breed, build_mating_pool, generate_new_population, score_population};
use genetic::state::{State, TOP_COUNT};
use genetic::variation::{
    apply_mutations, crossover, draw_flips, draw_mutations, generate, mutate, reproduce, RATE_SCALE,
};
use rand::rngs::StdRng;
use rand::SeedableRng;

fn w(s: &str) -> Vec<char> {
    s.chars().collect()
}

fn ws(items: &[&str]) -> Vec<Vec<char>> {
    items.iter().map(|s| w(s)).collect()
}

fn rng(seed: u64) -> StdRng {
    StdRng::seed_from_u64(seed)
}

#[test]
fn fitness_counts_matching_positions() {
    assert_eq!(absolute_fitness(&w("cat"), &w("cat")), 3);
    assert_eq!(absolute_fitness(&w("cat"), &w("cot")), 2);
    assert_eq!(absolute_fitness(&w("cat"), &w("xyz")), 0);
    assert_eq!(absolute_fitness(&w("ab"), &w("ba")), 0);
    assert_eq!(absolute_fitness(&w("ab"), &w("aa")), 1);
    assert_eq!(absolute_fitness(&w("ab"), &w("bb")), 1);
}

#[test]
fn crossover_follows_the_coin_flips() {
    let a = w("aa");
    let b = w("bb");
    assert_eq!(crossover(&a, &b, &vec![false, false]), w("aa"));
    assert_eq!(crossover(&a, &b, &vec![true, true]), w("bb"));
    assert_eq!(crossover(&a, &b, &vec![false, true]), w("ab"));
}

#[test]
fn reproduce_only_uses_parent_characters() {
    let a = w("abcdefgh");
    let b = w("ABCDEFGH");
    let mut r = rng(7);
    let mut saw_first = false;
    let mut saw_second = false;
    for _ in 0..50 {
        let child = reproduce(&mut r, &a, &b);
        assert_eq!(child.len(), a.len());
        for i in 0..child.len() {
            assert!(child[i] == a[i] || child[i] == b[i]);
            saw_first |= child[i] == a[i];
            saw_second |= child[i] == b[i];
        }
    }
    assert!(saw_first && saw_second);
}

#[test]
fn mutation_at_rate_zero_is_identity() {
    let mut r = rng(1);
    let e = w("hello world");
    for _ in 0..20 {
        assert_eq!(mutate(&mut r, &e, 0, Alphabet::printable()), e);
    }
}

#[test]
fn mutation_at_full_rate_draws_every_character() {
    let mut r = rng(2);
    let e = w("AAAAAAAAAAAAAAAAAAAA");
    let lower = Alphabet::lowercase();
    let m = mutate(&mut r, &e, RATE_SCALE, lower);
    assert_eq!(m.len(), e.len());
    assert!(m.iter().all(|c| ('a'..='z').contains(c)));
}

#[test]
fn generate_gives_distinct_characters_of_the_alphabet() {
    let mut r = rng(3);
    let e = generate(95, Alphabet::printable(), &mut r);
    assert_eq!(e.len(), 95);
    let mut sorted = e.clone();
    sorted.sort();
    sorted.dedup();
    assert_eq!(sorted.len(), 95);
    assert!(e.iter().all(|c| (' '..='~').contains(c)));
    let f = generate(5, Alphabet::lowercase(), &mut r);
    assert_eq!(f.len(), 5);
    assert!(f.iter().all(|c| ('a'..='z').contains(c)));
}

#[test]
fn generate_shuffles_the_sample() {
    let mut r = rng(4);
    let orders: Vec<Vec<char>> = (0..10).map(|_| generate(26, Alphabet::lowercase(), &mut r)).collect();
    assert!(orders.iter().any(|o| *o != orders[0]));
}

#[test]
fn mating_pool_multiplicity_is_ceiling_of_fitness_times_factor() {
    let pool = build_mating_pool(&vec![3, 0, 1], 50, 3);
    assert_eq!(pool.len(), 50 + 0 + 17);
    assert!(pool[..50].iter().all(|&i| i == 0));
    assert!(pool[50..].iter().all(|&i| i == 2));
    let pool = build_mating_pool(&vec![1, 2], 1, 3);
    assert_eq!(pool, vec![0, 1]);
}

#[test]
fn perfect_individual_gets_factor_copies() {
    let target = w("cat");
    let pop = ws(&["cat", "dog", "cot"]);
    let scores = score_population(&target, &pop);
    assert_eq!(scores, vec![3, 0, 2]);
    let pool = build_mating_pool(&scores, 50, 3);
    assert_eq!(pool.iter().filter(|&&i| i == 0).count(), 50);
    assert_eq!(pool.iter().filter(|&&i| i == 1).count(), 0);
    assert_eq!(pool.iter().filter(|&&i| i == 2).count(), 34);
}

#[test]
fn empty_mating_pool_is_reported() {
    let mut r = rng(5);
    let target = w("ab");
    let pop = ws(&["ba", "cc"]);
    let got = generate_new_population(&mut r, &target, &pop, 10, 2, 0, Alphabet::lowercase());
    assert_eq!(got, Err(EvolveError::EmptyMatingPool));
}

#[test]
fn single_value_pool_is_reported() {
    let mut r = rng(6);
    let target = w("ab");
    let pop = ws(&["aa", "aa", "zz"]);
    let got = generate_new_population(&mut r, &target, &pop, 10, 3, 0, Alphabet::lowercase());
    assert_eq!(got, Err(EvolveError::NoDistinctPartner));
}

#[test]
fn population_of_one_is_a_configuration_error() {
    let got = State::new(&w("cat"), 1, 50, 0, Alphabet::lowercase(), rng(8));
    assert!(matches!(got, Err(EvolveError::PopulationTooSmall)));
    let mut r = rng(9);
    let got = generate_new_population(&mut r, &w("cat"), &ws(&["cax"]), 50, 1, 0, Alphabet::lowercase());
    assert_eq!(got, Err(EvolveError::NoDistinctPartner));
}

#[test]
fn configuration_errors_are_rejected() {
    let lower = Alphabet::lowercase();
    assert!(matches!(State::new(&w(""), 10, 10, 0, lower, rng(0)), Err(EvolveError::EmptyTarget)));
    assert!(matches!(State::new(&w("Cat"), 10, 10, 0, lower, rng(0)), Err(EvolveError::TargetOutsideAlphabet)));
    assert!(matches!(
        State::new(&w("abcdefghijklmnopqrstuvwxyza"), 10, 10, 0, lower, rng(0)),
        Err(EvolveError::TargetTooLong)
    ));
    assert!(matches!(State::new(&w("cat"), 0, 10, 0, lower, rng(0)), Err(EvolveError::PopulationTooSmall)));
    assert!(matches!(State::new(&w("cat"), 10, 0, 0, lower, rng(0)), Err(EvolveError::ZeroPoolFactor)));
    assert!(matches!(
        State::new(&w("cat"), 10, 10, RATE_SCALE + 1, lower, rng(0)),
        Err(EvolveError::RateOutOfRange)
    ));
    assert!(State::new(&w("cat"), 10, 10, RATE_SCALE, lower, rng(0)).is_ok());
}

#[test]
fn new_state_has_generation_zero_and_full_population() {
    let s = State::new(&w("hello"), 200, 200, 10000, Alphabet::printable(), rng(10)).unwrap();
    assert_eq!(s.generation, 0);
    assert_eq!(s.population.len(), 200);
    assert_eq!(s.target, w("hello"));
    assert!(s.population.iter().all(|e| e.len() == 5));
}

#[test]
fn update_keeps_population_size() {
    let mut s = State::new(&w("hello"), 60, 20, 10000, Alphabet::printable(), rng(11)).unwrap();
    let before = s.population.clone();
    let next = s.update().unwrap();
    assert_eq!(next.population.len(), 60);
    assert_eq!(next.generation, 1);
    assert_eq!(next.target, w("hello"));
    assert_eq!(s.population, before);
    assert_eq!(s.generation, 0);
}

#[test]
fn top_lists_distinct_values_best_first() {
    let target = w("cat");
    let pop = ws(&["dog", "cat", "cot", "cat", "cab", "dog"]);
    assert_eq!(top(&target, &pop, 10), ws(&["cat", "cot", "cab", "dog"]));
    assert_eq!(top(&target, &pop, 2), ws(&["cat", "cot"]));
    assert_eq!(top(&target, &pop, 0), Vec::<Vec<char>>::new());
    assert_eq!(rank_by_fitness(&target, &pop), ws(&["cat", "cat", "cot", "cab", "dog", "dog"]));
}

#[test]
fn top_length_is_min_of_k_and_distinct_count() {
    let target = w("ab");
    let pop = ws(&["aa", "aa", "bb", "ab", "ab", "ba"]);
    for k in 0..8 {
        let t = top(&target, &pop, k);
        assert_eq!(t.len(), k.min(4));
        for i in 0..t.len() {
            for j in i + 1..t.len() {
                assert_ne!(t[i], t[j]);
            }
        }
    }
}

#[test]
fn best_is_first_of_highest_score() {
    let target = w("cat");
    assert_eq!(best(&target, &ws(&["dog", "cot", "cab", "cat", "cat"])), w("cat"));
    assert_eq!(best(&target, &ws(&["cot", "cab"])), w("cot"));
    assert_eq!(best(&target, &ws(&["dog", "cab", "cot"])), w("cab"));
}

#[test]
fn average_fitness_is_total_over_size() {
    let target = w("ab");
    let avg = average_absolute_fitness(&target, &ws(&["aa", "bb", "ab", "zz"]));
    assert_eq!(avg.numerator, 4);
    assert_eq!(avg.denominator, 8);
}

#[test]
fn summary_is_repeatable() {
    let s = State::new(&w("cat"), 30, 10, 0, Alphabet::lowercase(), rng(12)).unwrap();
    let a = s.get_render_state();
    let b = s.get_render_state();
    assert_eq!(a.top_word, b.top_word);
    assert_eq!(a.average_fitness, b.average_fitness);
    assert_eq!(a.top_n, b.top_n);
    assert_eq!(a.total_population, 30);
    assert_eq!(a.generation, 0);
    assert!(a.top_n.len() <= TOP_COUNT);
}

#[test]
fn summary_of_known_population() {
    let mut s = State::new(&w("ab"), 2, 10, 0, Alphabet::lowercase(), rng(13)).unwrap();
    s.population = ws(&["aa", "bb", "ab", "ab"]);
    let r = s.get_render_state();
    assert_eq!(r.top_word, w("ab"));
    assert_eq!(r.top_n, ws(&["ab", "aa", "bb"]));
    assert_eq!(r.average_fitness.numerator, 6);
    assert_eq!(r.average_fitness.denominator, 8);
    assert_eq!(r.total_population, 4);
}

fn as_f64(s: &State) -> f64 {
    let a = s.get_render_state().average_fitness;
    a.numerator as f64 / a.denominator as f64
}

#[test]
fn cat_scenario_average_fitness_rises() {
    let runs = 10;
    let generations = 15;
    let mut start = 0.0;
    let mut end = 0.0;
    let mut counted = 0;
    for seed in 0..40u64 {
        if counted == runs {
            break;
        }
        let mut s = State::new(&w("cat"), 50, 50, 0, Alphabet::lowercase(), rng(seed)).unwrap();
        let first = as_f64(&s);
        let mut ok = true;
        for _ in 0..generations {
            match s.update() {
                Ok(next) => {
                    assert_eq!(next.population.len(), 50);
                    s = next;
                }
                Err(EvolveError::NoDistinctPartner) => break,
                Err(_) => {
                    ok = false;
                    break;
                }
            }
        }
        if ok {
            start += first;
            end += as_f64(&s);
            counted += 1;
        }
    }
    assert_eq!(counted, runs);
    assert!(end >= start);
}

#[test]
fn alphabets_have_their_sizes() {
    assert_eq!(Alphabet::printable().len(), 95);
    assert_eq!(Alphabet::lowercase().len(), 26);
    assert!(Alphabet::lowercase().contains('q'));
    assert!(!Alphabet::lowercase().contains('Q'));
    let across_gap = Alphabet { first: '\u{D000}', last: '\u{E000}' };
    assert!(!across_gap.is_valid());
    assert_eq!(across_gap.len(), 0);
    assert!(matches!(
        State::new(&w("\u{D001}"), 10, 10, 0, across_gap, rng(0)),
        Err(EvolveError::TargetOutsideAlphabet)
    ));
}

#[test]
fn apply_mutations_replaces_exactly_the_drawn_positions() {
    let e = w("cat");
    assert_eq!(apply_mutations(&e, &vec![None, None, None]), w("cat"));
    assert_eq!(apply_mutations(&e, &vec![Some('b'), None, Some('r')]), w("bar"));
    assert_eq!(apply_mutations(&e, &vec![Some('d'), Some('o'), Some('g')]), w("dog"));
}

#[test]
fn mutation_draws_follow_the_rate() {
    let mut r = rng(14);
    let lower = Alphabet::lowercase();
    assert!(draw_mutations(&mut r, 30, 0, lower).iter().all(|d| d.is_none()));
    let all = draw_mutations(&mut r, 30, RATE_SCALE, lower);
    assert_eq!(all.len(), 30);
    assert!(all.iter().all(|d| matches!(d, Some(c) if ('a'..='z').contains(c))));
    assert_eq!(draw_flips(&mut r, 12).len(), 12);
}

#[test]
fn mutation_at_full_rate_changes_foreign_characters() {
    let mut r = rng(15);
    let m = mutate(&mut r, &w("ABCDEFGH"), RATE_SCALE, Alphabet::lowercase());
    assert_ne!(m, w("ABCDEFGH"));
    assert!(m.iter().all(|c| ('a'..='z').contains(c)));
}

#[test]
fn breed_uses_the_given_draws() {
    let pop = ws(&["aa", "bb", "cc"]);
    let pool = vec![0, 0, 1, 2];
    let children = breed(
        &pop,
        &pool,
        &vec![0, 2, 3],
        &vec![2, 3, 2],
        &vec![vec![false, true], vec![true, true], vec![false, false]],
        &vec![vec![None, None], vec![None, Some('z')], vec![Some('q'), None]],
    );
    assert_eq!(children, ws(&["ab", "cz", "qc"]));
}

#[test]
fn update_on_a_lone_individual_reports_an_error() {
    let mut s = State::new(&w("cat"), 2, 10, 0, Alphabet::lowercase(), rng(16)).unwrap();
    s.population = ws(&["cax"]);
    assert!(matches!(s.update(), Err(EvolveError::NoDistinctPartner)));
    s.population = ws(&["dog"]);
    assert!(matches!(s.update(), Err(EvolveError::EmptyMatingPool)));
}

#[test]
fn update_reports_a_full_generation_counter() {
    let mut s = State::new(&w("cat"), 10, 10, 0, Alphabet::lowercase(), rng(17)).unwrap();
    s.generation = usize::MAX;
    assert!(matches!(s.update(), Err(EvolveError::GenerationLimit)));
}
