use dryad::{lev, BKNode, BKTree, Folded, Hamming, Levenshtein, Metric, MetricError};

const WORDS: [&str; 9] = ["book", "books", "cake", "boo", "boon", "cook", "cake", "cape", "cart"];

fn sample(ignore_case: bool) -> BKTree<Levenshtein> {
    let mut t = BKTree::new(Levenshtein, ignore_case);
    t.read_vec(WORDS.to_vec()).unwrap();
    t
}

fn names(found: Vec<(&str, usize)>) -> Vec<String> {
    found.into_iter().map(|(w, _)| w.to_string()).collect()
}

#[test]
fn lev_test() {
    let mut t = BKTree::new(Levenshtein, true);
    t.read_vec(vec![
        "book", "books", "cake", "boo", "boon", "cook", "cake", "cape", "cart",
    ])
    .unwrap();

    let corrections = t.corrections("bo", 2).unwrap();

    let (strs, _): (Vec<&str>, Vec<usize>) = corrections.into_iter().unzip();
    assert_eq!(strs, ["book", "boo", "boon"]);
}

#[test]
fn end_to_end_corrections() {
    let t = sample(true);
    let mut bo = names(t.corrections("bo", 2).unwrap());
    bo.sort();
    assert_eq!(bo, ["boo", "book", "boon"]);
    let mut ca = names(t.corrections("ca", 2).unwrap());
    ca.sort();
    assert_eq!(ca, ["cake", "cape", "cart"]);
}

#[test]
fn corrections_carry_the_distances() {
    let t = sample(false);
    assert_eq!(t.corrections("bo", 2).unwrap(), vec![("book", 2), ("boo", 1), ("boon", 2)]);
    assert_eq!(t.corrections("ca", 2).unwrap(), vec![("cake", 2), ("cape", 2), ("cart", 2)]);
}

#[test]
fn corrections_come_in_breadth_first_order() {
    let t = sample(false);
    let all = names(t.corrections("book", 10).unwrap());
    assert_eq!(all, ["book", "books", "cake", "boo", "cape", "cart", "boon", "cook"]);
}

#[test]
fn corrections_on_empty_tree_are_empty() {
    let t = BKTree::new(Levenshtein, false);
    assert_eq!(t.corrections("anything", 3).unwrap(), Vec::<(&str, usize)>::new());
    assert_eq!(t.len(), 0);
}

#[test]
fn single_word_is_its_own_correction() {
    let mut t = BKTree::new(Levenshtein, false);
    t.add_word("word").unwrap();
    assert_eq!(t.corrections("word", 0).unwrap(), vec![("word", 0)]);
    assert_eq!(t.len(), 1);
}

#[test]
fn inserting_twice_is_inserting_once() {
    let mut once = BKTree::new(Levenshtein, false);
    let mut twice = BKTree::new(Levenshtein, false);
    for w in ["book", "boo", "cake"] {
        once.add_word(w).unwrap();
        twice.add_word(w).unwrap();
        twice.add_word(w).unwrap();
    }
    assert_eq!(once.len(), 3);
    assert_eq!(twice.len(), 3);
    for q in ["bo", "book", "cak", "zzz"] {
        for k in 0..5 {
            assert_eq!(once.corrections(q, k).unwrap(), twice.corrections(q, k).unwrap());
        }
        assert_eq!(once.query(q, 1).unwrap(), twice.query(q, 1).unwrap());
    }
}

#[test]
fn count_ignores_duplicates() {
    let t = sample(false);
    assert_eq!(t.len(), 8);
}

fn pseudo_words(seed: u64, n: usize) -> Vec<String> {
    let mut state = seed;
    let mut out = Vec::new();
    for _ in 0..n {
        state = state.wrapping_mul(6364136223846793005).wrapping_add(1442695040888963407);
        let len = 1 + ((state >> 33) % 5) as usize;
        let mut w = String::new();
        for _ in 0..len {
            state = state.wrapping_mul(6364136223846793005).wrapping_add(1442695040888963407);
            w.push((b'a' + ((state >> 33) % 4) as u8) as char);
        }
        out.push(w);
    }
    out
}

#[test]
fn corrections_agree_with_a_linear_scan() {
    for seed in 1..6u64 {
        let dict = pseudo_words(seed, 40);
        let mut t = BKTree::new(Levenshtein, false);
        t.read_dict(dict.clone()).unwrap();
        let mut distinct: Vec<String> = dict.clone();
        distinct.sort();
        distinct.dedup();
        assert_eq!(t.len(), distinct.len());
        for q in pseudo_words(seed + 100, 10) {
            for k in 0..4usize {
                let mut expect: Vec<(String, usize)> = distinct
                    .iter()
                    .filter(|w| lev(w, &q) <= k)
                    .map(|w| (w.clone(), lev(w, &q)))
                    .collect();
                expect.sort();
                let mut got: Vec<(String, usize)> = t
                    .corrections(&q, k)
                    .unwrap()
                    .into_iter()
                    .map(|(w, d)| (w.to_string(), d))
                    .collect();
                got.sort();
                assert_eq!(got, expect);
            }
        }
    }
}

#[test]
fn query_finds_a_nearest_word() {
    for seed in 1..6u64 {
        let dict = pseudo_words(seed, 40);
        let mut t = BKTree::new(Levenshtein, false);
        t.read_dict(dict.clone()).unwrap();
        for q in pseudo_words(seed + 200, 10) {
            let best = dict.iter().map(|w| lev(w, &q)).min().unwrap();
            let found = t.query(&q, 1).unwrap().unwrap();
            assert_eq!(lev(found, &q), best);
        }
    }
}

#[test]
fn query_breaks_ties_by_breadth_first_order() {
    let t = sample(false);
    let order = names(t.corrections("book", 10).unwrap());
    for q in ["bo", "ca", "coo", "boom", "x", "cake"] {
        let best = order.iter().map(|w| lev(w, q)).min().unwrap();
        let first = order.iter().find(|w| lev(w, q) == best).unwrap();
        assert_eq!(t.query(q, 1).unwrap(), Some(first));
        assert_eq!(t.nearest(q).unwrap(), Some(first));
    }
}

#[test]
fn query_is_deterministic() {
    let a = sample(false);
    let b = sample(false);
    for q in ["bo", "ca", "coo", "boom", "x"] {
        assert_eq!(a.query(q, 1).unwrap(), b.query(q, 1).unwrap());
        assert_eq!(a.query(q, 1).unwrap(), a.query(q, 7).unwrap());
    }
}

#[test]
fn query_returns_an_indexed_word_itself() {
    let t = sample(false);
    assert_eq!(t.query("cape", 1).unwrap().map(|s| s.as_str()), Some("cape"));
}

#[test]
fn query_on_empty_tree_finds_nothing() {
    let t = BKTree::new(Levenshtein, false);
    assert_eq!(t.query("word", 1).unwrap(), None);
    assert_eq!(t.nearest("word").unwrap(), None);
}

#[test]
fn ignored_words_yield_no_match() {
    let mut t = sample(false);
    t.add_word("1234").unwrap();
    t.ignore("[0-9]+").unwrap();
    assert_eq!(t.query("1234", 1).unwrap(), None);
    assert_eq!(t.query("7", 1).unwrap(), None);
    assert_eq!(t.query("boo", 1).unwrap().map(|s| s.as_str()), Some("boo"));
}

#[test]
fn ignore_pattern_must_match_the_whole_word() {
    let mut t = sample(false);
    t.ignore("[0-9]+").unwrap();
    assert_eq!(t.query("b00k", 1).unwrap().map(|s| s.as_str()), Some("book"));
    assert_eq!(t.query("12a", 1).unwrap().is_some(), true);
    t.ignore("a|ab").unwrap();
    assert_eq!(t.query("ab", 1).unwrap(), None);
    assert_eq!(t.query("abc", 1).unwrap().is_some(), true);
}

#[test]
fn ignored_words_yield_no_match_on_empty_tree() {
    let mut t = BKTree::new(Levenshtein, false);
    t.ignore("[0-9]+").unwrap();
    assert_eq!(t.query("42", 1).unwrap(), None);
}

#[test]
fn query_given_decides_by_the_flag() {
    let t = sample(false);
    assert_eq!(t.query_given("boo", true).unwrap(), None);
    assert_eq!(t.query_given("boo", false).unwrap().map(|s| s.as_str()), Some("boo"));
}

#[test]
fn ignore_does_not_affect_corrections() {
    let mut t = sample(false);
    t.add_word("12").unwrap();
    t.ignore("[0-9]+").unwrap();
    assert_eq!(t.corrections("12", 0).unwrap(), vec![("12", 0)]);
}

#[test]
fn malformed_pattern_is_refused_at_once() {
    let mut t = sample(false);
    assert!(t.ignore("foo(bar").is_err());
    assert!(t.ignore("a)(?:b").is_err());
    assert_eq!(t.query("foo(bar", 1).unwrap().is_some(), true);
    t.ignore("[0-9]+").unwrap();
    assert!(t.ignore("(").is_err());
    assert_eq!(t.query("12", 1).unwrap(), None);
    assert!(!t.ignore("[").unwrap_err().reason.is_empty());
}

#[test]
fn case_is_ignored_where_asked() {
    let mut t = BKTree::new(Levenshtein, true);
    t.add_word("Book").unwrap();
    t.add_word("BOOK").unwrap();
    t.add_word("cake").unwrap();
    assert_eq!(t.len(), 2);
    assert_eq!(t.corrections("bOOk", 0).unwrap(), vec![("Book", 0)]);
    assert_eq!(t.query("CAKE", 1).unwrap().map(|s| s.as_str()), Some("cake"));
}

#[test]
fn case_matters_where_not_asked() {
    let mut t = BKTree::new(Levenshtein, false);
    t.add_word("Book").unwrap();
    t.add_word("BOOK").unwrap();
    assert_eq!(t.len(), 2);
    assert_eq!(t.corrections("bOOk", 0).unwrap(), Vec::<(&str, usize)>::new());
    assert_eq!(t.corrections("BOOK", 3).unwrap(), vec![("Book", 3), ("BOOK", 0)]);
}

#[test]
fn read_vec_stores_lower_case_where_case_is_ignored() {
    let mut t = BKTree::new(Levenshtein, true);
    t.read_vec(vec!["Book", "CAKE"]).unwrap();
    assert_eq!(t.corrections("book", 0).unwrap(), vec![("book", 0)]);
    assert_eq!(t.corrections("cake", 0).unwrap(), vec![("cake", 0)]);
    let mut s = BKTree::new(Levenshtein, false);
    s.read_vec(vec!["Book", "CAKE"]).unwrap();
    assert_eq!(s.corrections("Book", 0).unwrap(), vec![("Book", 0)]);
}

#[test]
fn read_dict_inserts_every_line() {
    let mut t = BKTree::new(Levenshtein, false);
    let lines: Vec<String> = WORDS.iter().map(|w| w.to_string()).collect();
    t.read_dict(lines).unwrap();
    assert_eq!(t.len(), 8);
    assert_eq!(t.corrections("bo", 2).unwrap(), vec![("book", 2), ("boo", 1), ("boon", 2)]);
}

#[test]
fn hamming_tree_answers_queries() {
    let mut t = BKTree::new(Hamming, false);
    t.read_vec(vec!["0000", "0001", "0011", "0111", "1111", "1010"]).unwrap();
    assert_eq!(t.len(), 6);
    let mut near: Vec<(String, usize)> = t
        .corrections("0010", 1)
        .unwrap()
        .into_iter()
        .map(|(w, d)| (w.to_string(), d))
        .collect();
    near.sort();
    assert_eq!(
        near,
        vec![("0000".to_string(), 1), ("0011".to_string(), 1), ("1010".to_string(), 1)]
    );
    assert_eq!(t.query("1110", 1).unwrap().map(|s| Hamming.distance(s, "1110")), Some(Ok(1)));
}

#[test]
fn hamming_tree_reports_length_mismatch() {
    let mut t = BKTree::new(Hamming, false);
    t.add_word("0000").unwrap();
    assert_eq!(t.add_word("000"), Err(MetricError::LengthMismatch));
    assert_eq!(t.len(), 1);
    assert_eq!(t.corrections("00", 1), Err(MetricError::LengthMismatch));
    assert_eq!(t.query("00000", 1), Err(MetricError::LengthMismatch));
    assert_eq!(t.corrections("0001", 1).unwrap(), vec![("0000", 1)]);
}

#[test]
fn read_vec_stops_at_the_first_rejected_word() {
    let mut t = BKTree::new(Hamming, false);
    assert_eq!(t.read_vec(vec!["00", "01", "011", "11"]), Err(MetricError::LengthMismatch));
    assert_eq!(t.len(), 2);
    assert_eq!(t.corrections("11", 2).unwrap(), vec![("00", 2), ("01", 1)]);
}

#[test]
fn folded_metric_compares_lower_case_forms() {
    let folded = Folded { metric: Levenshtein, fold: true };
    assert_eq!(folded.distance("HeLLo", "hello"), Ok(0));
    assert_eq!(folded.key_of("HeLLo"), "hello");
    let plain = Folded { metric: Levenshtein, fold: false };
    assert_eq!(plain.distance("HeLLo", "hello"), Ok(3));
    assert_eq!(plain.key_of("HeLLo"), "HeLLo");
}

#[test]
fn a_new_node_can_be_made() {
    let _node: BKNode = BKNode::new("word");
}
