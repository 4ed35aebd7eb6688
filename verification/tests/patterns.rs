use dryad::pattern::{anchor, anchor_line, settle};
use dryad::{BKTree, Levenshtein, PatternError};
use regex::Regex;

fn numbers_and_words() -> BKTree<Levenshtein> {
    let mut t = BKTree::new(Levenshtein, false);
    t.read_vec(vec!["book", "boo", "cake", "12"]).unwrap();
    t
}

#[test]
fn anchor_wraps_the_pattern() {
    assert_eq!(anchor("a|ab"), "^(?:a|ab)$");
    assert_eq!(anchor("[0-9]+"), "^(?:[0-9]+)$");
    assert_eq!(anchor(""), "^(?:)$");
}

#[test]
fn settle_takes_the_anchored_pattern() {
    let taken = settle(Regex::new("a|ab"), Regex::new("^(?:a|ab)$")).unwrap();
    assert_eq!(taken.as_str(), "^(?:a|ab)$");
    assert!(taken.is_match("ab"));
    assert!(!taken.is_match("abc"));
}

#[test]
fn settle_refuses_what_does_not_compile_as_it_stands() {
    let said = Regex::new("a)(?:b").unwrap_err().to_string();
    let refused = settle(Regex::new("a)(?:b"), Regex::new("^(?:a)(?:b)$")).unwrap_err();
    assert_eq!(refused.reason, said);
}

#[test]
fn settle_refuses_what_does_not_compile_in_its_anchored_form() {
    let said = Regex::new("^(?:(?x)a # b)$").unwrap_err().to_string();
    let refused = settle(Regex::new("(?x)a # b"), Regex::new("^(?:(?x)a # b)$")).unwrap_err();
    assert_eq!(refused.reason, said);
}

#[test]
fn anchor_line_closes_on_a_new_line() {
    assert_eq!(anchor_line("a|ab"), "^(?:a|ab\n)$");
    assert_eq!(anchor_line("(?x)a # b"), "^(?:(?x)a # b\n)$");
    assert_eq!(anchor_line(""), "^(?:\n)$");
}

#[test]
fn a_comment_at_the_end_is_closed_by_the_line_break() {
    assert!(Regex::new(&anchor("(?x)a # b")).is_err());
    let taken = settle(Regex::new("(?x)a # b"), Regex::new(&anchor_line("(?x)a # b"))).unwrap();
    assert!(taken.is_match("a"));
    assert!(!taken.is_match("ab"));
    assert!(!taken.is_match("a\n"));
    assert!(!taken.is_match("a # b"));
}

#[test]
fn settle_refuses_with_the_first_answer_where_both_fail() {
    let said = Regex::new("(").unwrap_err().to_string();
    let refused = settle(Regex::new("("), Regex::new("[")).unwrap_err();
    assert_eq!(refused.reason, said);
}

#[test]
fn ignore_given_sets_the_pattern() {
    let mut t = numbers_and_words();
    assert_eq!(t.query("12", 1).unwrap().map(|s| s.as_str()), Some("12"));
    t.ignore_given(Ok(Regex::new("^[0-9]+$").unwrap())).unwrap();
    assert_eq!(t.query("12", 1).unwrap(), None);
    assert_eq!(t.query("boo", 1).unwrap().map(|s| s.as_str()), Some("boo"));
    assert_eq!(t.len(), 4);
}

#[test]
fn ignore_given_hands_a_refusal_on_and_keeps_the_pattern() {
    let mut t = numbers_and_words();
    t.ignore_given(Ok(Regex::new("^[0-9]+$").unwrap())).unwrap();
    let refused = t.ignore_given(Err(PatternError { reason: "no".to_string() })).unwrap_err();
    assert_eq!(refused.reason, "no");
    assert_eq!(t.query("12", 1).unwrap(), None);
    assert_eq!(t.query("cak", 1).unwrap().map(|s| s.as_str()), Some("cake"));
}

#[test]
fn ignore_refuses_with_what_the_compiler_said() {
    let mut t = numbers_and_words();
    let said = Regex::new("foo(bar").unwrap_err().to_string();
    assert_eq!(t.ignore("foo(bar").unwrap_err().reason, said);
    assert_eq!(t.query("12", 1).unwrap().map(|s| s.as_str()), Some("12"));
}

#[test]
fn ignore_takes_a_pattern_that_ends_in_a_comment() {
    let mut t = numbers_and_words();
    t.add_word("1").unwrap();
    t.ignore("(?x)[0-9]+ # numbers").unwrap();
    assert_eq!(t.query("12", 1).unwrap(), None);
    assert_eq!(t.query("1", 1).unwrap(), None);
    assert_eq!(t.query("12a", 1).unwrap().map(|s| s.as_str()), Some("12"));
    assert_eq!(t.query("a12", 1).unwrap().map(|s| s.as_str()), Some("12"));
    assert_eq!(t.query("boo", 1).unwrap().map(|s| s.as_str()), Some("boo"));
}

#[test]
fn ignore_takes_verbose_patterns_of_several_lines() {
    let mut t = numbers_and_words();
    t.ignore("(?x)\n  b  # the first letter\n  o+ # and the rest").unwrap();
    assert_eq!(t.query("boo", 1).unwrap(), None);
    assert_eq!(t.query("book", 1).unwrap().map(|s| s.as_str()), Some("book"));
}

#[test]
fn a_pattern_without_comments_is_not_given_a_line_break() {
    let mut t = numbers_and_words();
    t.add_word("12\n").unwrap();
    t.ignore("[0-9]+").unwrap();
    assert_eq!(t.query("12", 1).unwrap(), None);
    assert_eq!(t.query("12\n", 1).unwrap().map(|s| s.as_str()), Some("12\n"));
}

fn nested(depth: usize) -> String {
    let mut re = String::new();
    for _ in 0..depth {
        re.push('(');
    }
    re.push('a');
    for _ in 0..depth {
        re.push(')');
    }
    re
}

#[test]
fn ignore_refuses_what_the_anchors_take_over_the_nesting_limit() {
    let mut deepest = 0;
    let mut deepest_anchored = 0;
    for depth in 1..2000 {
        if Regex::new(&nested(depth)).is_err() {
            break;
        }
        deepest = depth;
        if Regex::new(&anchor(&nested(depth))).is_ok() {
            deepest_anchored = depth;
        }
    }
    assert!(0 < deepest_anchored && deepest_anchored < deepest && deepest < 1999);
    let mut t = numbers_and_words();
    assert!(t.ignore(&nested(deepest_anchored)).is_ok());
    assert_eq!(t.query("a", 1).unwrap(), None);
    let said = Regex::new(&anchor_line(&nested(deepest))).unwrap_err().to_string();
    assert_eq!(t.ignore(&nested(deepest)).unwrap_err().reason, said);
    assert_eq!(t.query("a", 1).unwrap(), None);
    assert_eq!(t.query("12", 1).unwrap().map(|s| s.as_str()), Some("12"));
}

#[test]
fn ignore_takes_a_pattern_that_compiles() {
    let mut t = numbers_and_words();
    assert!(t.ignore("[0-9]+").is_ok());
    assert_eq!(t.query("12", 1).unwrap(), None);
    assert_eq!(t.corrections("12", 0).unwrap(), vec![("12", 0)]);
}

#[test]
fn an_ignored_word_is_not_compared() {
    let mut t = BKTree::new(dryad::Hamming, false);
    t.read_vec(vec!["0000", "0011"]).unwrap();
    t.ignore("x+").unwrap();
    assert_eq!(t.query("xxxxx", 1), Ok(None));
    assert_eq!(t.query("00000", 1), Err(dryad::MetricError::LengthMismatch));
    assert_eq!(t.query("0001", 1).unwrap().map(|s| s.as_str()), Some("0000"));
}

#[test]
fn a_later_pattern_takes_the_place_of_an_earlier_one() {
    let mut t = numbers_and_words();
    t.ignore("[0-9]+").unwrap();
    t.ignore("b.*").unwrap();
    assert_eq!(t.query("12", 1).unwrap().map(|s| s.as_str()), Some("12"));
    assert_eq!(t.query("boo", 1).unwrap(), None);
}
