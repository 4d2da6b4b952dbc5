// Feedback evaluation and candidate-set refinement.

use wordle_mcts::cache::{generate_cache, FeedbackCache};
use wordle_mcts::guess::{FeedBack, Guess};

fn dict(words: &[&str]) -> Vec<String> {
    words.iter().map(|w| w.to_string()).collect()
}

#[test]
fn evaluate_is_deterministic() {
    let cache = FeedbackCache::new();
    let a = FeedBack::evaluate("abcde", "edcba", &cache);
    let b = FeedBack::evaluate("abcde", "edcba", &cache);
    assert_eq!(a, b);
}

#[test]
fn evaluate_self_is_all_green() {
    let cache = FeedbackCache::new();
    let fb = FeedBack::evaluate("abcde", "abcde", &cache);
    assert_eq!(fb, vec![FeedBack::Green; 5]);
}

#[test]
fn evaluate_through_generated_cache_matches_direct() {
    let d = dict(&["abcde", "fghij"]);
    let cache = generate_cache(&d);
    assert_eq!(cache.len(), 4);
    let direct = FeedBack::compute("abcde", "fghij");
    let cached = FeedBack::evaluate("abcde", "fghij", &cache);
    assert_eq!(direct, cached);
}

#[test]
fn cache_rejects_wrong_entry() {
    let mut cache = FeedbackCache::new();
    let wrong = vec![FeedBack::Yellow; 5];
    assert!(!cache.insert("abcde", "abcde", wrong));
    assert_eq!(cache.len(), 0);
    let right = vec![FeedBack::Green; 5];
    assert!(cache.insert("abcde", "abcde", right));
    assert_eq!(cache.len(), 1);
}

#[test]
fn all_green_and_all_black_scenario() {
    // dictionary {"abcde","fghij"}: the guess against itself collapses to a
    // singleton; against the disjoint word everything is Black and only the
    // other word survives.
    let d = dict(&["abcde", "fghij"]);
    let cache = FeedbackCache::new();
    let g = Guess::new(&d);

    let fb_same = FeedBack::evaluate("abcde", "abcde", &cache);
    assert_eq!(fb_same, vec![FeedBack::Green; 5]);
    let refined = g.refine("abcde", &fb_same, &d);
    assert_eq!(refined.solutions(&d), vec!["abcde".to_string()]);
    assert_eq!(refined.num_solutions(), 1);

    let fb_other = FeedBack::evaluate("abcde", "fghij", &cache);
    assert_eq!(fb_other, vec![FeedBack::Black; 5]);
    let refined = g.refine("abcde", &fb_other, &d);
    assert_eq!(refined.solutions(&d), vec!["fghij".to_string()]);
}

#[test]
fn all_yellow_scenario() {
    // guess "abcde" against solution "edcba": every letter occurs elsewhere,
    // so the feedback is all Yellow; the guess itself dies, the anagram
    // survives.
    let d = dict(&["abcde", "edcba"]);
    let cache = FeedbackCache::new();
    let fb = FeedBack::evaluate("abcde", "edcba", &cache);
    // position 2 is 'c' in both words: that one is Green, the rest Yellow
    assert_eq!(
        fb,
        vec![
            FeedBack::Yellow,
            FeedBack::Yellow,
            FeedBack::Green,
            FeedBack::Yellow,
            FeedBack::Yellow,
        ]
    );
    let g = Guess::new(&d);
    let refined = g.refine("abcde", &fb, &d);
    assert_eq!(refined.solutions(&d), vec!["edcba".to_string()]);
}

#[test]
fn refine_shrinks_monotonically() {
    let d = dict(&["aaaaa", "abcde", "edcba", "zzzzz"]);
    let cache = FeedbackCache::new();
    let g = Guess::new(&d);
    let fb = FeedBack::evaluate("abcde", "edcba", &cache);
    let refined = g.refine("abcde", &fb, &d);
    let before = g.solutions(&d);
    for w in refined.solutions(&d) {
        assert!(before.contains(&w));
    }
    // and a second refinement shrinks again
    let fb2 = FeedBack::evaluate("edcba", "edcba", &cache);
    let refined2 = refined.refine("edcba", &fb2, &d);
    let mid = refined.solutions(&d);
    for w in refined2.solutions(&d) {
        assert!(mid.contains(&w));
    }
}

#[test]
fn membership_string_round_trip() {
    let g = Guess::from_string("1010");
    assert_eq!(g.to_string(), "1010");
    assert_eq!(g.num_solutions(), 2);
    let d = dict(&["aa", "bb", "cc", "dd"]);
    assert_eq!(g.solutions(&d), vec!["aa".to_string(), "cc".to_string()]);
}

#[test]
fn new_guess_has_every_word_possible() {
    let d = dict(&["abcde", "fghij", "klmno"]);
    let g = Guess::new(&d);
    assert_eq!(g.num_solutions(), 3);
    assert_eq!(g.to_string(), "111");
}
