// The search engine: scores, exploration, best-word selection.

use wordle_mcts::cache::generate_cache;
use wordle_mcts::guess::FeedBack;
use wordle_mcts::guess::Guess;
use wordle_mcts::math::{floor_log2, isqrt};
use wordle_mcts::mcts::{explore_one_solution, select_best_word, UNVISITED_SCORE};
use wordle_mcts::state::{Node, StateSpace};

fn dict(words: &[&str]) -> Vec<String> {
    words.iter().map(|w| w.to_string()).collect()
}

#[test]
fn isqrt_exact_values() {
    assert_eq!(isqrt(0), 0);
    assert_eq!(isqrt(1), 1);
    assert_eq!(isqrt(15), 3);
    assert_eq!(isqrt(16), 4);
    assert_eq!(isqrt(u64::MAX), 4294967295);
}

#[test]
fn floor_log2_exact_values() {
    assert_eq!(floor_log2(1), 0);
    assert_eq!(floor_log2(2), 1);
    assert_eq!(floor_log2(3), 1);
    assert_eq!(floor_log2(1024), 10);
    assert_eq!(floor_log2(u64::MAX), 63);
}

#[test]
fn score_of_unvisited_node_is_the_sentinel() {
    let n = Node {
        guess: Guess::from_string("11"),
        cumulative_score: 0,
        num_simulations: 0,
        num_guess: 1,
    };
    assert_eq!(n.score(5), UNVISITED_SCORE);
    assert_eq!(UNVISITED_SCORE, 65536000);
}

#[test]
fn score_exact_values() {
    // pure exploitation: mean 2 in fixed point, no exploration with one
    // parent visit (log2(1) = 0)
    let n = Node {
        guess: Guess::from_string("11"),
        cumulative_score: 2,
        num_simulations: 1,
        num_guess: 1,
    };
    assert_eq!(n.score(1), 131072);
    // pure exploration: sqrt(2 * log2(2) * ln 2) in fixed point
    let n = Node {
        guess: Guess::from_string("11"),
        cumulative_score: 0,
        num_simulations: 1,
        num_guess: 1,
    };
    assert_eq!(n.score(2), 77162);
}

#[test]
fn root_visits_equal_the_iteration_budget() {
    // from an empty state space, after N iterations the root records
    // exactly N simulations
    let d = dict(&["abcde", "fghij", "klmno"]);
    let cache = generate_cache(&d);
    let g = Guess::new(&d);
    let ss = StateSpace::new();
    let result = explore_one_solution(ss, g.clone(), "fghij", 0, 6, &d, 25, &cache);
    let root = result.get(&g, "").unwrap();
    assert_eq!(root.num_simulations, 25);
    assert_eq!(root.num_guess, 0);
    // every still-possible word has a root child holding the refined set
    // for that word at the next turn
    for w in g.solutions(&d) {
        let child = result.get(&g, &w).unwrap();
        let fb = FeedBack::evaluate(&w, "fghij", &cache);
        let expected = g.refine(&w, &fb, &d);
        assert!(child.guess.same_as(&expected));
        assert_eq!(child.num_guess, 1);
    }
}

#[test]
fn exploration_resumes_from_loaded_state() {
    let d = dict(&["abcde", "fghij"]);
    let cache = generate_cache(&d);
    let g = Guess::new(&d);
    let first = explore_one_solution(StateSpace::new(), g.clone(), "abcde", 0, 6, &d, 10, &cache);
    let keys_before = first.len();
    let first_root_score = first.get(&g, "").unwrap().cumulative_score;
    let second = explore_one_solution(first, g.clone(), "abcde", 0, 6, &d, 7, &cache);
    // the root accumulates: the loaded count plus the new budget
    let root = second.get(&g, "").unwrap();
    assert_eq!(root.num_simulations, 17);
    assert!(root.cumulative_score >= first_root_score);
    assert!(second.len() >= keys_before);
}

#[test]
fn retain_compatible_drops_foreign_nodes() {
    // a loaded file may hold nodes sized to another dictionary or below the
    // search's starting turn; only the fitting ones survive, unchanged
    let g = Guess::from_string("11");
    let mut ss = StateSpace::new();
    let fitting = Node {
        guess: Guess::from_string("01"),
        cumulative_score: 5,
        num_simulations: 2,
        num_guess: 3,
    };
    let wrong_size = Node {
        guess: Guess::from_string("011"),
        cumulative_score: 1,
        num_simulations: 1,
        num_guess: 3,
    };
    let too_early = Node {
        guess: Guess::from_string("10"),
        cumulative_score: 1,
        num_simulations: 1,
        num_guess: 1,
    };
    ss.insert(g.clone(), "abcde".to_string(), fitting);
    ss.insert(g.clone(), "fghij".to_string(), wrong_size);
    ss.insert(g.clone(), "klmno".to_string(), too_early);
    let kept = ss.retain_compatible(2, 2);
    assert_eq!(kept.len(), 1);
    let n = kept.get(&g, "abcde").unwrap();
    assert_eq!(n.cumulative_score, 5);
    assert_eq!(n.num_simulations, 2);
    assert!(kept.get(&g, "fghij").is_none());
    assert!(kept.get(&g, "klmno").is_none());
}

#[test]
fn select_best_word_takes_the_greatest_mean() {
    let d = dict(&["abcde", "fghij", "klmno"]);
    let g = Guess::new(&d);
    let mut ss = StateSpace::new();
    let child = |cs: u64, ns: u64| Node {
        guess: Guess::from_string("100"),
        cumulative_score: cs,
        num_simulations: ns,
        num_guess: 1,
    };
    ss.insert(g.clone(), "abcde".to_string(), child(3, 2));
    ss.insert(g.clone(), "fghij".to_string(), child(9, 3));
    ss.insert(g.clone(), "klmno".to_string(), child(1, 1));
    // means 1.5, 3, 1: the middle word wins
    assert_eq!(select_best_word(&g, &ss, &d), "fghij");
}

#[test]
fn select_best_word_breaks_ties_by_first_order() {
    let d = dict(&["abcde", "fghij"]);
    let g = Guess::new(&d);
    let mut ss = StateSpace::new();
    let child = |cs: u64, ns: u64| Node {
        guess: Guess::from_string("10"),
        cumulative_score: cs,
        num_simulations: ns,
        num_guess: 1,
    };
    ss.insert(g.clone(), "abcde".to_string(), child(4, 2));
    ss.insert(g.clone(), "fghij".to_string(), child(2, 1));
    // equal means: the earlier (dictionary-order) word stays
    assert_eq!(select_best_word(&g, &ss, &d), "abcde");
}

#[test]
fn select_best_word_skips_unvisited_nodes() {
    let d = dict(&["abcde", "fghij"]);
    let g = Guess::new(&d);
    let mut ss = StateSpace::new();
    let child = |cs: u64, ns: u64| Node {
        guess: Guess::from_string("10"),
        cumulative_score: cs,
        num_simulations: ns,
        num_guess: 1,
    };
    // an unvisited node has no readable mean and never wins
    ss.insert(g.clone(), "abcde".to_string(), child(0, 0));
    ss.insert(g.clone(), "fghij".to_string(), child(0, 5));
    assert_eq!(select_best_word(&g, &ss, &d), "fghij");
}

#[test]
fn full_search_on_a_tiny_dictionary() {
    // end to end: explore each possible solution, merge, select; with the
    // evaluator's rules both words are identifiable, and a word is returned
    let d = dict(&["abcde", "fghij"]);
    let cache = generate_cache(&d);
    let g = Guess::new(&d);
    let mut spaces = Vec::new();
    for solution in g.solutions(&d) {
        let ss = explore_one_solution(StateSpace::new(), g.clone(), &solution, 0, 6, &d, 20, &cache);
        spaces.push(ss);
    }
    let combined = wordle_mcts::state::combine_state_spaces(spaces);
    // the root child nodes exist for both words, so selection is safe
    for w in g.solutions(&d) {
        assert!(combined.get(&g, &w).is_some());
    }
    let best = select_best_word(&g, &combined, &d);
    assert!(best == "abcde" || best == "fghij");
}
