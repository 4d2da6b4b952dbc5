// Text helpers: decimal codec, comma splitting, cache marks, word hygiene.

use wordle_mcts::cache::{feedback_to_marks, marks_from_string};
use wordle_mcts::guess::FeedBack;
use wordle_mcts::numtext::{parse_u64, parse_u8, split_commas, u64_to_string};
use wordle_mcts::word::is_clean;

#[test]
fn parse_u64_accepts_digits() {
    assert_eq!(parse_u64("0"), Some(0));
    assert_eq!(parse_u64("12345"), Some(12345));
    assert_eq!(parse_u64("18446744073709551615"), Some(u64::MAX));
}

#[test]
fn parse_u64_rejects_bad_input() {
    assert_eq!(parse_u64(""), None);
    assert_eq!(parse_u64("12a"), None);
    assert_eq!(parse_u64("-1"), None);
    assert_eq!(parse_u64("1.5"), None);
    // one past the limit overflows
    assert_eq!(parse_u64("18446744073709551616"), None);
}

#[test]
fn parse_u8_bounds() {
    assert_eq!(parse_u8("255"), Some(255));
    assert_eq!(parse_u8("256"), None);
}

#[test]
fn u64_to_string_round_trip() {
    assert_eq!(u64_to_string(0), "0");
    assert_eq!(u64_to_string(12345), "12345");
    assert_eq!(u64_to_string(u64::MAX), "18446744073709551615");
    assert_eq!(parse_u64(&u64_to_string(987654321)), Some(987654321));
}

#[test]
fn split_commas_fields() {
    assert_eq!(split_commas(""), vec!["".to_string()]);
    assert_eq!(split_commas("a"), vec!["a".to_string()]);
    assert_eq!(
        split_commas("a,,b"),
        vec!["a".to_string(), "".to_string(), "b".to_string()]
    );
    assert_eq!(
        split_commas("x,y,"),
        vec!["x".to_string(), "y".to_string(), "".to_string()]
    );
}

#[test]
fn marks_round_trip() {
    let fb = vec![FeedBack::Green, FeedBack::Yellow, FeedBack::Black];
    let marks = feedback_to_marks(&fb);
    assert_eq!(marks, "gyb");
    assert_eq!(marks_from_string(&marks), Some(fb));
}

#[test]
fn invalid_mark_is_rejected() {
    assert_eq!(marks_from_string("gxb"), None);
}

#[test]
fn clean_words() {
    assert!(is_clean("abcde"));
    assert!(!is_clean("Abcde"));
    assert!(!is_clean("ab1de"));
    assert!(!is_clean("ab-de"));
    // only the first character's case is examined
    assert!(is_clean("aBCDE"));
}
