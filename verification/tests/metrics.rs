use dryad::{hamming, lev, Hamming, Levenshtein, Metric, MetricError};

#[test]
fn lev_known_values() {
    assert_eq!(lev("sitting", "kitten"), 3);
    assert_eq!(lev("Truck", "Track"), 1);
    assert_eq!(lev("kitten", "sitting"), 3);
    assert_eq!(lev("flaw", "lawn"), 2);
}

#[test]
fn lev_with_empty_strings() {
    assert_eq!(lev("", ""), 0);
    assert_eq!(lev("", "abc"), 3);
    assert_eq!(lev("abcd", ""), 4);
}

#[test]
fn lev_counts_characters_not_bytes() {
    assert_eq!(lev("né", "ne"), 1);
    assert_eq!(lev("日本語", "日本"), 1);
}

#[test]
fn lev_is_symmetric_on_samples() {
    let words = ["", "a", "book", "books", "cake", "boo", "boon", "cook", "cape", "cart"];
    for a in words.iter() {
        for b in words.iter() {
            assert_eq!(lev(a, b), lev(b, a));
        }
    }
}

#[test]
fn lev_is_zero_exactly_on_equal_strings() {
    let words = ["", "a", "ab", "ba", "book", "boo"];
    for a in words.iter() {
        for b in words.iter() {
            assert_eq!(lev(a, b) == 0, a == b);
        }
    }
}

#[test]
fn lev_obeys_the_triangle_inequality_on_samples() {
    let words = ["", "a", "book", "books", "cake", "boo", "cart"];
    for a in words.iter() {
        for b in words.iter() {
            for c in words.iter() {
                assert!(lev(a, c) <= lev(a, b) + lev(b, c));
            }
        }
    }
}

#[test]
fn hamming_known_values() {
    assert_eq!(hamming("01", "11"), Ok(1));
    assert_eq!(hamming("101", "000"), Ok(2));
    assert_eq!(hamming("", ""), Ok(0));
    assert_eq!(hamming("karolin", "kathrin"), Ok(3));
}

#[test]
fn hamming_reports_length_mismatch() {
    assert_eq!(hamming("ab", "abc"), Err(MetricError::LengthMismatch));
    assert_eq!(hamming("abc", "ab"), Err(MetricError::LengthMismatch));
    assert_eq!(hamming("", "a"), Err(MetricError::LengthMismatch));
}

#[test]
fn hamming_is_symmetric_and_zero_on_equal() {
    let words = ["000", "001", "010", "111", "101"];
    for a in words.iter() {
        for b in words.iter() {
            assert_eq!(hamming(a, b), hamming(b, a));
            assert_eq!(hamming(a, b) == Ok(0), a == b);
        }
    }
}

#[test]
fn hamming_counts_characters_not_bytes() {
    assert_eq!(hamming("né", "ne"), Ok(1));
}

#[test]
fn metric_objects_agree_with_the_functions() {
    assert_eq!(Levenshtein.distance("sitting", "kitten"), Ok(3));
    assert_eq!(Hamming.distance("101", "000"), Ok(2));
    assert_eq!(Hamming.distance("ab", "abc"), Err(MetricError::LengthMismatch));
}
