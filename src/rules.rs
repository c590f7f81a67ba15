//! Sentiment rules: which image an avatar shows, decided by the words of
//! what was said and by how positive, negative or neutral it sounded. The
//! polarity scores are floating point and are compared by the caller; the
//! decisions on the outcomes of those comparisons are made here.

use crate::nav::{has_pattern, has_sub};
use crate::text::chars_of;
use std::cmp::Ordering;
use vstd::prelude::*;

verus! {

/// What to do when a rule applies: show the image at `show`.
#[derive(Debug, Clone)]
pub struct SentimentAction {
    pub show: String,
}

/// One of the three polarity scores.
#[derive(Debug, Clone, Copy, PartialEq, Eq)]
pub enum SentimentField {
    Positive,
    Negative,
    Neutral,
}

/// How two polarity scores must compare.
#[derive(Debug, Clone, Copy, PartialEq, Eq)]
pub enum Relation {
    /// Greater than
    GT,
    /// Less than
    LT,
    /// Equal to
    EQ,
}

impl Relation {
    /// Whether the relation holds between two scores that compare as
    /// `left_vs_right` (`None` when they are unordered, as a NaN is).
    pub fn holds(&self, left_vs_right: Option<Ordering>) -> (r: bool)
        ensures
            r == match self {
                Relation::GT => left_vs_right == Some(Ordering::Greater),
                Relation::LT => left_vs_right == Some(Ordering::Less),
                Relation::EQ => left_vs_right == Some(Ordering::Equal),
            },
    {
        match (self, left_vs_right) {
            (Relation::GT, Some(Ordering::Greater)) => true,
            (Relation::LT, Some(Ordering::Less)) => true,
            (Relation::EQ, Some(Ordering::Equal)) => true,
            _ => false,
        }
    }
}

/// A condition that the `left` score stands in `relation` to the `right`.
#[derive(Debug, Clone, Copy, PartialEq, Eq)]
pub struct PolarityRelation {
    pub relation: Relation,
    pub left: SentimentField,
    pub right: SentimentField,
}

/// Some word of `words` occurs in `sentence`.
pub open spec fn mentions_any(words: Seq<String>, sentence: Seq<char>) -> bool {
    exists|i: int| 0 <= i < words.len() && has_sub(sentence, (#[trigger] words[i])@)
}

/// The word check of a condition: `None` when the condition lists no words,
/// otherwise whether one of them occurs in `sentence`.
pub fn context_contains_words(words: &Option<Vec<String>>, sentence: &str) -> (r: Option<bool>)
    ensures
        match *words {
            None => r is None,
            Some(list) => r == Some(mentions_any(list@, sentence@)),
        },
{
    match words {
        None => None,
        Some(list) => Some(mentions_word(list, sentence)),
    }
}

fn mentions_word(list: &Vec<String>, sentence: &str) -> (r: bool)
    ensures
        r == mentions_any(list@, sentence@),
{
    let text = chars_of(sentence);
    let mut i: usize = 0;
    while i < list.len()
        invariant
            text@ == sentence@,
            i <= list@.len(),
            forall|k: int| 0 <= k < i ==> !has_sub(sentence@, (#[trigger] list@[k])@),
        decreases list@.len() - i,
    {
        let word = chars_of(list[i].as_str());
        if has_pattern(&text, &word) {
            assert(has_sub(sentence@, list@[i as int]@));
            return true;
        }
        i = i + 1;
    }
    false
}

/// A rule applies when at least one of its checks is defined and every
/// defined check passed.
pub fn rule_applies(checks: &[Option<bool>]) -> (r: bool)
    ensures
        r == ((exists|i: int| 0 <= i < checks@.len() && checks@[i] is Some) && forall|i: int|
            0 <= i < checks@.len() && (#[trigger] checks@[i]) is Some ==> checks@[i] == Some(true)),
{
    let mut any = false;
    let mut i: usize = 0;
    while i < checks.len()
        invariant
            i <= checks@.len(),
            any == exists|k: int| 0 <= k < i && checks@[k] is Some,
            forall|k: int| 0 <= k < i && (#[trigger] checks@[k]) is Some ==> checks@[k] == Some(true),
        decreases checks@.len() - i,
    {
        match checks[i] {
            Some(false) => {
                return false;
            },
            Some(true) => {
                any = true;
            },
            None => {},
        }
        i = i + 1;
    }
    any
}

} // verus!
