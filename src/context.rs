//! What was said lately: the transcript pieces of the last few seconds,
//! joined and lower-cased, and the action chosen for it. Times are
//! milliseconds on a clock the caller reads.

use crate::rules::SentimentAction;
use std::collections::VecDeque;
use vstd::prelude::*;

verus! {

/// How long a transcript piece counts, unless set otherwise.
pub const DEFAULT_RETENTION_SECONDS: u64 = 10;

/// The image shown when no rule applies.
pub const NEUTRAL_IMAGE: &'static str = "./data/neutral.png";

/// The text that `str::to_lowercase` gives for `s`.
pub uninterp spec fn lower_of(s: Seq<char>) -> Seq<char>;

/// Relies on `str::to_lowercase`: the text with each character mapped to
/// its Unicode lower case, which depends on the characters alone.
#[verifier::external_body]
fn lowercase(s: &str) -> (r: String)
    ensures
        r@ == lower_of(s@),
{
    s.to_lowercase()
}

/// The earliest time still kept at `now_ms` with a window of `seconds`;
/// zero when the window reaches back past zero.
pub open spec fn cutoff(now_ms: u64, seconds: u64) -> int {
    if seconds * 1000 >= now_ms {
        0
    } else {
        now_ms - seconds * 1000
    }
}

/// The pieces of `entries` stamped at or after `from`, in order.
pub open spec fn kept(entries: Seq<(u64, Seq<char>)>, from: int) -> Seq<(u64, Seq<char>)>
    decreases entries.len(),
{
    if entries.len() == 0 {
        entries
    } else if entries.last().0 >= from {
        kept(entries.drop_last(), from).push(entries.last())
    } else {
        kept(entries.drop_last(), from)
    }
}

/// The texts of `entries`, one after another.
pub open spec fn joined(entries: Seq<(u64, Seq<char>)>) -> Seq<char>
    decreases entries.len(),
{
    if entries.len() == 0 {
        Seq::empty()
    } else {
        joined(entries.drop_last()) + entries.last().1
    }
}

/// The transcript pieces still in the window, with their times.
pub struct ContextWindow {
    text_context: VecDeque<(u64, String)>,
    current_context: String,
    context_retention_seconds: u64,
}

impl ContextWindow {
    pub closed spec fn entries(&self) -> Seq<(u64, Seq<char>)> {
        self.text_context@.map_values(|e: (u64, String)| (e.0, e.1@))
    }

    pub closed spec fn retention(&self) -> u64 {
        self.context_retention_seconds
    }

    /// The pieces joined and lower-cased, as of the last piece added.
    pub closed spec fn current(&self) -> Seq<char> {
        self.current_context@
    }

    /// An empty window of the default length.
    pub fn new() -> (r: Self)
        ensures
            r.entries().len() == 0,
            r.current().len() == 0,
            r.retention() == DEFAULT_RETENTION_SECONDS,
    {
        let r = ContextWindow {
            text_context: VecDeque::new(),
            current_context: String::new(),
            context_retention_seconds: DEFAULT_RETENTION_SECONDS,
        };
        assert(r.entries() =~= Seq::<(u64, Seq<char>)>::empty());
        r
    }

    /// Sets how many seconds a piece counts for.
    pub fn set_context_duration(&mut self, seconds: u64)
        ensures
            final(self).retention() == seconds,
            final(self).entries() == old(self).entries(),
            final(self).current() == old(self).current(),
    {
        self.context_retention_seconds = seconds;
    }

    /// Adds the piece `new_content` heard at `now_ms`, drops the pieces that
    /// are older than the window, and recomputes the current text.
    pub fn add_context(&mut self, now_ms: u64, new_content: String)
        ensures
            final(self).retention() == old(self).retention(),
            final(self).entries() == kept(
                old(self).entries().push((now_ms, new_content@)),
                cutoff(now_ms, old(self).retention()),
            ),
            final(self).current() == lower_of(joined(final(self).entries())),
    {
        let ghost all = self.entries().push((now_ms, new_content@));
        let seconds = self.context_retention_seconds;
        let drop_time = if seconds > u64::MAX / 1000 {
            0
        } else if seconds * 1000 >= now_ms {
            0
        } else {
            now_ms - seconds * 1000
        };
        assert(drop_time == cutoff(now_ms, self.context_retention_seconds));
        self.text_context.push_back((now_ms, new_content));
        assert(self.entries() =~= all);
        let mut kept_pieces: VecDeque<(u64, String)> = VecDeque::new();
        let mut text = String::new();
        let mut i: usize = 0;
        let ghost from = cutoff(now_ms, self.context_retention_seconds);
        proof {
            assert(all.take(0) =~= Seq::<(u64, Seq<char>)>::empty());
            assert(kept_pieces@.map_values(|e: (u64, String)| (e.0, e.1@)) =~= Seq::<(u64, Seq<char>)>::empty());
        }
        while i < self.text_context.len()
            invariant
                i <= self.text_context@.len(),
                all == self.text_context@.map_values(|e: (u64, String)| (e.0, e.1@)),
                drop_time == from,
                kept_pieces@.map_values(|e: (u64, String)| (e.0, e.1@)) == kept(all.take(i as int), from),
                text@ == joined(kept(all.take(i as int), from)),
            decreases self.text_context@.len() - i,
        {
            proof {
                assert(all.take(i + 1).drop_last() =~= all.take(i as int));
                assert(all.take(i + 1).last() == all[i as int]);
            }
            let time = self.text_context[i].0;
            if time >= drop_time {
                let ghost before = kept_pieces@;
                text.append(self.text_context[i].1.as_str());
                kept_pieces.push_back((time, self.text_context[i].1.clone()));
                assert(kept_pieces@.map_values(|e: (u64, String)| (e.0, e.1@)) =~= before.map_values(
                    |e: (u64, String)| (e.0, e.1@),
                ).push(all[i as int]));
                proof {
                    let grown = kept(all.take(i + 1), from);
                    assert(grown == kept(all.take(i as int), from).push(all[i as int]));
                    assert(grown.drop_last() =~= kept(all.take(i as int), from));
                    assert(joined(grown) == joined(grown.drop_last()) + grown.last().1);
                }
            }
            i = i + 1;
        }
        proof {
            assert(all.take(i as int) =~= all);
        }
        self.text_context = kept_pieces;
        self.current_context = lowercase(text.as_str());
    }

    /// The text that the rules are checked against.
    pub fn current_context(&self) -> (r: &str)
        ensures
            r@ == self.current(),
    {
        self.current_context.as_str()
    }
}

/// Where the first `true` of `applies` stands, if any.
pub open spec fn first_true(applies: Seq<bool>) -> Option<int>
    decreases applies.len(),
{
    if applies.len() == 0 {
        None
    } else if applies[0] {
        Some(0)
    } else {
        match first_true(applies.drop_first()) {
            Some(k) => Some(k + 1),
            None => None,
        }
    }
}

/// The action of the first rule that applies, rules being listed in order
/// of precedence; the neutral image when none does.
pub fn get_action(rules_apply: &Vec<bool>, actions: &Vec<SentimentAction>) -> (r: SentimentAction)
    requires
        rules_apply@.len() == actions@.len(),
    ensures
        match first_true(rules_apply@) {
            Some(k) => r.show@ == actions@[k].show@,
            None => r.show@ == NEUTRAL_IMAGE@,
        },
{
    let mut i: usize = 0;
    while i < rules_apply.len()
        invariant
            i <= rules_apply@.len(),
            rules_apply@.len() == actions@.len(),
            forall|k: int| 0 <= k < i ==> !rules_apply@[k],
        decreases rules_apply@.len() - i,
    {
        if rules_apply[i] {
            proof {
                lemma_first_true(rules_apply@, i as int);
            }
            return SentimentAction { show: actions[i].show.clone() };
        }
        i = i + 1;
    }
    proof {
        lemma_first_true(rules_apply@, i as int);
    }
    SentimentAction { show: NEUTRAL_IMAGE.to_owned() }
}

proof fn lemma_first_true(applies: Seq<bool>, i: int)
    requires
        0 <= i <= applies.len(),
        forall|k: int| 0 <= k < i ==> !applies[k],
        i == applies.len() || applies[i],
    ensures
        first_true(applies) == if i < applies.len() { Some(i) } else { None::<int> },
    decreases i,
{
    if i > 0 {
        assert forall|k: int| 0 <= k < i - 1 implies !applies.drop_first()[k] by {
            assert(applies.drop_first()[k] == applies[k + 1]);
        }
        if i < applies.len() {
            assert(applies.drop_first()[i - 1] == applies[i]);
        }
        lemma_first_true(applies.drop_first(), i - 1);
    }
}

} // verus!
