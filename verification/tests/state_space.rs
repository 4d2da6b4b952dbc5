// State-space bookkeeping: insert, merge, persistence codec.

use wordle_mcts::guess::Guess;
use wordle_mcts::state::{
    combine_state_spaces, parse_state_line, state_space_from_lines, Node, StateSpace,
};

fn node(bits: &str, cs: u64, ns: u64, ng: u8) -> Node {
    Node {
        guess: Guess::from_string(bits),
        cumulative_score: cs,
        num_simulations: ns,
        num_guess: ng,
    }
}

#[test]
fn insert_and_get() {
    let mut ss = StateSpace::new();
    let g = Guess::from_string("11");
    ss.insert(g.clone(), "abcde".to_string(), node("01", 3, 2, 1));
    assert_eq!(ss.len(), 1);
    let n = ss.get(&g, "abcde").unwrap();
    assert_eq!(n.cumulative_score, 3);
    assert_eq!(n.num_simulations, 2);
    assert_eq!(n.num_guess, 1);
    assert!(ss.get(&g, "fghij").is_none());
    // a second insert under the same key replaces the node
    ss.insert(g.clone(), "abcde".to_string(), node("01", 9, 9, 2));
    assert_eq!(ss.len(), 1);
    assert_eq!(ss.get(&g, "abcde").unwrap().cumulative_score, 9);
}

#[test]
fn add_visit_accumulates() {
    let mut ss = StateSpace::new();
    let g = Guess::from_string("11");
    ss.insert(g.clone(), "".to_string(), node("11", 0, 0, 0));
    ss.add_visit(&g, "", 4);
    ss.add_visit(&g, "", 2);
    let n = ss.get(&g, "").unwrap();
    assert_eq!(n.cumulative_score, 6);
    assert_eq!(n.num_simulations, 2);
}

#[test]
fn merge_sums_statistics_on_shared_keys() {
    let g = Guess::from_string("11");
    let mut a = StateSpace::new();
    a.insert(g.clone(), "abcde".to_string(), node("01", 3, 2, 1));
    a.insert(g.clone(), "only_a".to_string(), node("10", 1, 1, 1));
    let mut b = StateSpace::new();
    b.insert(g.clone(), "abcde".to_string(), node("01", 5, 7, 1));
    b.insert(g.clone(), "only_b".to_string(), node("10", 2, 2, 1));
    let merged = combine_state_spaces(vec![a, b]);
    assert_eq!(merged.len(), 3);
    let n = merged.get(&g, "abcde").unwrap();
    assert_eq!(n.cumulative_score, 8);
    assert_eq!(n.num_simulations, 9);
    assert_eq!(merged.get(&g, "only_a").unwrap().cumulative_score, 1);
    assert_eq!(merged.get(&g, "only_b").unwrap().cumulative_score, 2);
}

#[test]
fn merge_is_commutative_and_associative_on_statistics() {
    let g = Guess::from_string("11");
    let mk = |cs: u64, ns: u64| {
        let mut s = StateSpace::new();
        s.insert(g.clone(), "w".to_string(), node("01", cs, ns, 1));
        s
    };
    let ab = combine_state_spaces(vec![mk(1, 2), mk(10, 20)]);
    let ba = combine_state_spaces(vec![mk(10, 20), mk(1, 2)]);
    let n_ab = ab.get(&g, "w").unwrap();
    let n_ba = ba.get(&g, "w").unwrap();
    assert_eq!(n_ab.cumulative_score, n_ba.cumulative_score);
    assert_eq!(n_ab.num_simulations, n_ba.num_simulations);

    let abc1 = combine_state_spaces(vec![mk(1, 2), mk(10, 20), mk(100, 200)]);
    let bc = combine_state_spaces(vec![mk(10, 20), mk(100, 200)]);
    let abc2 = combine_state_spaces(vec![mk(1, 2), bc]);
    let n1 = abc1.get(&g, "w").unwrap();
    let n2 = abc2.get(&g, "w").unwrap();
    assert_eq!(n1.cumulative_score, 111);
    assert_eq!(n2.cumulative_score, 111);
    assert_eq!(n1.num_simulations, 222);
    assert_eq!(n2.num_simulations, 222);
}

#[test]
fn lines_round_trip() {
    let g = Guess::from_string("110");
    let mut ss = StateSpace::new();
    ss.insert(g.clone(), "".to_string(), node("110", 7, 3, 0));
    ss.insert(g.clone(), "abc".to_string(), node("010", 4, 1, 1));
    let lines = ss.to_lines();
    assert_eq!(lines.len(), 2);
    assert_eq!(lines[0], "110,,110,7,3,0");
    assert_eq!(lines[1], "110,abc,010,4,1,1");
    let loaded = state_space_from_lines(&lines);
    assert_eq!(loaded.len(), 2);
    let n = loaded.get(&g, "abc").unwrap();
    assert_eq!(n.cumulative_score, 4);
    assert_eq!(n.num_simulations, 1);
    assert_eq!(n.num_guess, 1);
    assert_eq!(n.guess.to_string(), "010");
}

#[test]
fn corrupt_line_is_dropped_and_the_rest_load() {
    // one line carries a non-numeric simulation count: it is skipped, the
    // valid lines before and after it all load
    let lines: Vec<String> = vec![
        "110,abc,010,4,1,1".to_string(),
        "110,def,001,2,oops,1".to_string(),
        "110,,110,7,3,0".to_string(),
    ];
    let loaded = state_space_from_lines(&lines);
    assert_eq!(loaded.len(), 2);
    let g = Guess::from_string("110");
    assert!(loaded.get(&g, "abc").is_some());
    assert!(loaded.get(&g, "def").is_none());
    assert!(loaded.get(&g, "").is_some());
}

#[test]
fn short_line_is_dropped() {
    let lines: Vec<String> = vec!["110,abc,010,4,1".to_string()];
    let loaded = state_space_from_lines(&lines);
    assert_eq!(loaded.len(), 0);
}

#[test]
fn parse_state_line_accepts_and_rejects() {
    assert!(parse_state_line("10,w,01,1,2,3").is_some());
    let (g, w, n) = parse_state_line("10,w,01,1,2,3").unwrap();
    assert_eq!(g.to_string(), "10");
    assert_eq!(w, "w");
    assert_eq!(n.guess.to_string(), "01");
    assert_eq!(n.cumulative_score, 1);
    assert_eq!(n.num_simulations, 2);
    assert_eq!(n.num_guess, 3);
    // turn index past a byte is rejected
    assert!(parse_state_line("10,w,01,1,2,256").is_none());
    // a negative or non-numeric score is rejected
    assert!(parse_state_line("10,w,01,-1,2,3").is_none());
    assert!(parse_state_line("10,w,01,x,2,3").is_none());
    // extra fields are tolerated
    assert!(parse_state_line("10,w,01,1,2,3,extra").is_some());
}
