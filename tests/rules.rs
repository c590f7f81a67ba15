use dupdb::rules::{context_contains_words, rule_applies, Relation};
use std::cmp::Ordering;

#[test]
fn relations_hold_on_the_matching_ordering_only() {
    assert!(Relation::GT.holds(0.6f64.partial_cmp(&0.25)));
    assert!(!Relation::GT.holds(0.25f64.partial_cmp(&0.6)));
    assert!(Relation::LT.holds(Some(Ordering::Less)));
    assert!(Relation::EQ.holds(0.0f64.partial_cmp(&-0.0)));
    assert!(!Relation::EQ.holds(f64::NAN.partial_cmp(&f64::NAN)));
}

#[test]
fn word_checks_need_one_listed_word() {
    let words = Some(vec!["word".to_string(), "yay".to_string()]);
    assert_eq!(context_contains_words(&words, "no match here"), Some(false));
    assert_eq!(context_contains_words(&words, "a wordy thing"), Some(true));
    assert_eq!(context_contains_words(&None, "word"), None);
}

#[test]
fn a_rule_needs_a_defined_check_and_no_failed_one() {
    assert!(!rule_applies(&[None, None, None]));
    assert!(rule_applies(&[Some(true), None, Some(true)]));
    assert!(!rule_applies(&[Some(true), Some(false), None]));
}
