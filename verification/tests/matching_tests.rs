use dmenu_core::matching::classify;
use dmenu_core::matching::find_first;
use dmenu_core::matching::gen_matches;
use dmenu_core::matching::gen_matches_fuzzy;
use dmenu_core::matching::Item;
use dmenu_core::matching::MatchCode;

fn items(texts: &[&str]) -> Vec<Item> {
    texts.iter().map(|t| Item::new(t.to_string())).collect()
}

fn texts(items: &[Item]) -> Vec<String> {
    items.iter().map(|it| it.text.clone()).collect()
}

fn chars(s: &str) -> Vec<char> {
    s.chars().collect()
}

#[test]
fn classification_orders_exact_prefix_substring() {
    let candidates = items(&["foo", "foobar", "barfoo"]);
    let ranked = gen_matches(&candidates, &"foo".to_string(), true);
    assert_eq!(texts(&ranked), vec!["foo", "foobar", "barfoo"]);
}

#[test]
fn classification_excludes_non_matches() {
    let candidates = items(&["alpha", "beta", "gamma"]);
    let ranked = gen_matches(&candidates, &"et".to_string(), true);
    assert_eq!(texts(&ranked), vec!["beta"]);
}

#[test]
fn classification_is_stable_within_groups() {
    let candidates = items(&["xab", "ab", "yab", "abz", "ab"]);
    let ranked = gen_matches(&candidates, &"ab".to_string(), true);
    assert_eq!(texts(&ranked), vec!["ab", "ab", "abz", "xab", "yab"]);
}

#[test]
fn empty_input_ranks_everything() {
    let candidates = items(&["b", "a"]);
    let ranked = gen_matches(&candidates, &"".to_string(), true);
    // the empty input matches every candidate, in candidate order; only
    // the empty candidate would be an exact match
    assert_eq!(texts(&ranked), vec!["b", "a"]);
}

#[test]
fn case_insensitive_mode_folds_both_sides() {
    let candidates = items(&["foo", "FOOBAR"]);
    let ranked = gen_matches(&candidates, &"FOO".to_string(), false);
    assert_eq!(texts(&ranked), vec!["foo", "FOOBAR"]);
    // in sensitive mode the same input matches neither
    let strict = gen_matches(&candidates, &"FOO".to_string(), true);
    assert_eq!(texts(&strict), vec!["FOOBAR"]);
}

#[test]
fn classify_each_code_once() {
    assert_eq!(classify(&chars("foo"), &chars("foo")), MatchCode::Exact);
    assert_eq!(classify(&chars("foobar"), &chars("foo")), MatchCode::Prefix);
    assert_eq!(classify(&chars("barfoo"), &chars("foo")), MatchCode::Substring);
    assert_eq!(classify(&chars("bar"), &chars("foo")), MatchCode::NoMatch);
}

#[test]
fn find_first_reports_first_occurrence() {
    assert_eq!(find_first(&chars("abcabc"), &chars("bc")), Some(1));
    assert_eq!(find_first(&chars("abc"), &chars("")), Some(0));
    assert_eq!(find_first(&chars("abc"), &chars("cd")), None);
    assert_eq!(find_first(&chars("ab"), &chars("abc")), None);
}

#[test]
fn fuzzy_excludes_unmatched_candidates() {
    let candidates = items(&["alpha", "beta"]);
    let ranked = gen_matches_fuzzy(&candidates, &"lp".to_string());
    assert_eq!(texts(&ranked), vec!["alpha"]);
    let none = gen_matches_fuzzy(&candidates, &"zz".to_string());
    assert!(none.is_empty());
}

#[test]
fn fuzzy_tie_break_prefers_shorter_candidate() {
    let candidates = items(&["xaxbx", "ab"]);
    let ranked = gen_matches_fuzzy(&candidates, &"ab".to_string());
    assert_eq!(texts(&ranked), vec!["ab", "xaxbx"]);
}

#[test]
fn fuzzy_empty_input_keeps_all_shortest_first() {
    let candidates = items(&["bbb", "a", "cc"]);
    let ranked = gen_matches_fuzzy(&candidates, &"".to_string());
    assert_eq!(texts(&ranked), vec!["a", "cc", "bbb"]);
}

#[test]
fn fuzzy_ranks_better_scores_first() {
    // an adjacent match scores above a scattered one
    let candidates = items(&["xaxbx", "abxxx"]);
    let ranked = gen_matches_fuzzy(&candidates, &"ab".to_string());
    assert_eq!(texts(&ranked), vec!["abxxx", "xaxbx"]);
}
