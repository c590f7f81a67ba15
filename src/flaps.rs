//! A talking face's mouth: each word is turned into a queue of open and
//! closed mouth states, each held for a time, which a clock then plays out.
//! Times are whole milliseconds.

use crate::phones::{Phoneme, PhonemeSet};
use std::collections::VecDeque;
use vstd::prelude::*;

verus! {

/// How long one phoneme keeps the mouth in its state, in milliseconds.
pub const PHONEME_MS: u64 = 50;

/// The mouth, with the milliseconds it stays so.
#[derive(Debug, Clone, Copy, PartialEq, Eq, Structural)]
pub enum SimpleFaceState {
    Neutral,
    FlapOpen(u64),
    FlapClosed(u64),
}

/// An open mouth when `open`, a closed one otherwise, held for `ms`.
pub open spec fn flap(open: bool, ms: u64) -> SimpleFaceState {
    if open {
        SimpleFaceState::FlapOpen(ms)
    } else {
        SimpleFaceState::FlapClosed(ms)
    }
}

/// How long a state lasts.
pub open spec fn duration_of(s: SimpleFaceState) -> nat {
    match s {
        SimpleFaceState::Neutral => 0,
        SimpleFaceState::FlapOpen(ms) => ms as nat,
        SimpleFaceState::FlapClosed(ms) => ms as nat,
    }
}

/// `s` held for `ms` longer; a neutral face stays neutral.
pub open spec fn lengthened(s: SimpleFaceState, ms: nat) -> SimpleFaceState {
    match s {
        SimpleFaceState::Neutral => SimpleFaceState::Neutral,
        SimpleFaceState::FlapOpen(t) => SimpleFaceState::FlapOpen((t + ms) as u64),
        SimpleFaceState::FlapClosed(t) => SimpleFaceState::FlapClosed((t + ms) as u64),
    }
}

/// The mouth states for a word: the first phoneme, and each vowel after it,
/// starts a new state, alternately open and closed (open first); every other
/// phoneme holds the latest state longer.
pub open spec fn face_states(set: Seq<Phoneme>) -> Seq<SimpleFaceState>
    decreases set.len(),
{
    if set.len() == 0 {
        Seq::empty()
    } else {
        let before = face_states(set.drop_last());
        let next = flap(before.len() % 2 == 0, PHONEME_MS);
        if before.len() == 0 {
            seq![next]
        } else if set.last().phone.is_vowel() {
            before.push(next)
        } else {
            before.update(before.len() - 1, lengthened(before.last(), PHONEME_MS as nat))
        }
    }
}

/// The total of the durations of `states`.
pub open spec fn total_ms(states: Seq<SimpleFaceState>) -> nat
    decreases states.len(),
{
    if states.len() == 0 {
        0
    } else {
        total_ms(states.drop_last()) + duration_of(states.last())
    }
}

proof fn lemma_face_states_bounded(set: Seq<Phoneme>)
    ensures
        face_states(set).len() <= set.len(),
        forall|k: int|
            0 <= k < face_states(set).len() ==> duration_of(#[trigger] face_states(set)[k])
                <= PHONEME_MS * set.len(),
        forall|k: int| 0 <= k < face_states(set).len() ==> !(#[trigger] face_states(set)[k] is Neutral),
    decreases set.len(),
{
    if set.len() > 0 {
        lemma_face_states_bounded(set.drop_last());
    }
}

/// The next queued state and what stays queued; a neutral face when
/// nothing is.
pub open spec fn advanced(messages: Seq<SimpleFaceState>) -> (SimpleFaceState, Seq<SimpleFaceState>) {
    if messages.len() == 0 {
        (SimpleFaceState::Neutral, messages)
    } else {
        (messages[0], messages.drop_first())
    }
}

/// The face after `since` milliseconds: a state with at least that much
/// time left runs down, any other gives way to the next.
pub open spec fn after_tick(state: SimpleFaceState, messages: Seq<SimpleFaceState>, since: u64) -> (
    SimpleFaceState,
    Seq<SimpleFaceState>,
) {
    match state {
        SimpleFaceState::FlapOpen(left) => if left >= since {
            (SimpleFaceState::FlapOpen((left - since) as u64), messages)
        } else {
            advanced(messages)
        },
        SimpleFaceState::FlapClosed(left) => if left >= since {
            (SimpleFaceState::FlapClosed((left - since) as u64), messages)
        } else {
            advanced(messages)
        },
        SimpleFaceState::Neutral => advanced(messages),
    }
}

impl SimpleFaceState {
    /// This state held `additional_ms` longer.
    pub fn add_time(&self, additional_ms: u64) -> (r: Self)
        requires
            duration_of(*self) + additional_ms <= u64::MAX,
        ensures
            r == lengthened(*self, additional_ms as nat),
    {
        match self {
            SimpleFaceState::Neutral => SimpleFaceState::Neutral,
            SimpleFaceState::FlapOpen(previous) => SimpleFaceState::FlapOpen(*previous + additional_ms),
            SimpleFaceState::FlapClosed(previous) => SimpleFaceState::FlapClosed(
                *previous + additional_ms,
            ),
        }
    }

    /// The mouth states for saying `phoneme_set`.
    pub fn from(phoneme_set: &PhonemeSet) -> (r: VecDeque<SimpleFaceState>)
        requires
            PHONEME_MS * phoneme_set.set@.len() <= u64::MAX,
        ensures
            r@ == face_states(phoneme_set.set@),
    {
        let ghost set = phoneme_set.set@;
        let mut acc: VecDeque<SimpleFaceState> = VecDeque::new();
        let mut open_next = true;
        let mut i: usize = 0;
        proof {
            assert(set.take(0) =~= Seq::<Phoneme>::empty());
        }
        while i < phoneme_set.set.len()
            invariant
                set == phoneme_set.set@,
                PHONEME_MS * set.len() <= u64::MAX,
                i <= set.len(),
                acc@ == face_states(set.take(i as int)),
                open_next == (acc@.len() % 2 == 0),
            decreases set.len() - i,
        {
            let ghost before = acc@;
            proof {
                assert(set.take(i + 1).drop_last() =~= set.take(i as int));
                assert(set.take(i + 1).last() == set[i as int]);
                lemma_face_states_bounded(set.take(i as int));
            }
            let next = if open_next {
                SimpleFaceState::FlapOpen(PHONEME_MS)
            } else {
                SimpleFaceState::FlapClosed(PHONEME_MS)
            };
            match acc.pop_back() {
                None => {
                    acc.push_back(next);
                    open_next = !open_next;
                    assert(acc@ =~= seq![next]);
                },
                Some(previous) => {
                    if phoneme_set.set[i].phone.contains_vowel() {
                        acc.push_back(previous);
                        acc.push_back(next);
                        open_next = !open_next;
                        assert(acc@ =~= before.push(next));
                    } else {
                        assert(duration_of(previous) <= PHONEME_MS * i) by {
                            assert(previous == before[before.len() - 1]);
                        }
                        assert(PHONEME_MS * i + PHONEME_MS <= PHONEME_MS * set.len()) by (nonlinear_arith)
                            requires
                                i < set.len(),
                        ;
                        acc.push_back(previous.add_time(PHONEME_MS));
                        assert(acc@ =~= before.update(
                            before.len() - 1,
                            lengthened(before.last(), PHONEME_MS as nat),
                        ));
                    }
                },
            }
            i = i + 1;
        }
        proof {
            assert(set.take(i as int) =~= set);
        }
        acc
    }
}

/// The face, and the states it will show next.
pub struct SimpleFlaps {
    pub state: SimpleFaceState,
    pub messages: VecDeque<SimpleFaceState>,
}

impl SimpleFlaps {
    /// A neutral face with nothing to say.
    pub fn new() -> (r: Self)
        ensures
            r.state == SimpleFaceState::Neutral,
            r.messages@.len() == 0,
    {
        SimpleFlaps { state: SimpleFaceState::Neutral, messages: VecDeque::new() }
    }

    /// The face drawn as text.
    pub fn display(&self) -> (r: String)
        ensures
            r@ == match self.state {
                SimpleFaceState::Neutral => "0 u 0"@,
                SimpleFaceState::FlapClosed(_) => "0 - 0"@,
                SimpleFaceState::FlapOpen(_) => "0 o 0"@,
            },
    {
        match self.state {
            SimpleFaceState::Neutral => "0 u 0",
            SimpleFaceState::FlapClosed(_) => "0 - 0",
            SimpleFaceState::FlapOpen(_) => "0 o 0",
        }.to_owned()
    }

    /// Moves on to the next queued state, or to a neutral face when none is
    /// queued.
    pub fn next_state(&mut self)
        ensures
            (final(self).state, final(self).messages@) == advanced(old(self).messages@),
    {
        if let Some(new_state) = self.messages.pop_front() {
            self.state = new_state;
            assert(self.messages@ =~= old(self).messages@.drop_first());
        } else {
            self.state = SimpleFaceState::Neutral;
        }
    }

    /// Lets `since_last_tick_ms` pass: the current state runs down, and when
    /// it has less time left than that (or is neutral), the next one starts.
    pub fn tick(&mut self, since_last_tick_ms: u64)
        ensures
            (final(self).state, final(self).messages@) == after_tick(
                old(self).state,
                old(self).messages@,
                since_last_tick_ms,
            ),
    {
        match self.state {
            SimpleFaceState::Neutral => self.next_state(),
            SimpleFaceState::FlapOpen(time_left) => {
                match time_left.checked_sub(since_last_tick_ms) {
                    None => self.next_state(),
                    Some(left) => {
                        self.state = SimpleFaceState::FlapOpen(left);
                    },
                }
            },
            SimpleFaceState::FlapClosed(time_left) => {
                match time_left.checked_sub(since_last_tick_ms) {
                    None => self.next_state(),
                    Some(left) => {
                        self.state = SimpleFaceState::FlapClosed(left);
                    },
                }
            },
        }
    }

    /// Queues the mouth states for saying `phoneme_set`.
    pub fn speak(&mut self, phoneme_set: &PhonemeSet)
        requires
            PHONEME_MS * phoneme_set.set@.len() <= u64::MAX,
        ensures
            final(self).state == old(self).state,
            final(self).messages@ == old(self).messages@ + face_states(phoneme_set.set@),
    {
        let states = SimpleFaceState::from(phoneme_set);
        let mut i: usize = 0;
        while i < states.len()
            invariant
                i <= states@.len(),
                self.state == old(self).state,
                self.messages@ == old(self).messages@ + states@.take(i as int),
            decreases states@.len() - i,
        {
            self.messages.push_back(states[i]);
            assert(self.messages@ =~= old(self).messages@ + states@.take(i + 1));
            i = i + 1;
        }
        assert(states@.take(i as int) =~= states@);
    }

    /// How long until everything queued has been shown, current state
    /// included, in milliseconds.
    pub fn time_left_before_finished_speaking(&self) -> (r: u64)
        requires
            duration_of(self.state) + total_ms(self.messages@) <= u64::MAX,
        ensures
            r == duration_of(self.state) + total_ms(self.messages@),
    {
        let mut time_left: u64 = match self.state {
            SimpleFaceState::Neutral => 0,
            SimpleFaceState::FlapOpen(duration) => duration,
            SimpleFaceState::FlapClosed(duration) => duration,
        };
        let mut i: usize = 0;
        while i < self.messages.len()
            invariant
                i <= self.messages@.len(),
                duration_of(self.state) + total_ms(self.messages@) <= u64::MAX,
                time_left == duration_of(self.state) + total_ms(self.messages@.take(i as int)),
            decreases self.messages@.len() - i,
        {
            proof {
                assert(self.messages@.take(i + 1).drop_last() =~= self.messages@.take(i as int));
                lemma_total_prefix(self.messages@, i + 1);
            }
            match self.messages[i] {
                SimpleFaceState::Neutral => {},
                SimpleFaceState::FlapOpen(duration) => {
                    time_left = time_left + duration;
                },
                SimpleFaceState::FlapClosed(duration) => {
                    time_left = time_left + duration;
                },
            }
            i = i + 1;
        }
        assert(self.messages@.take(i as int) =~= self.messages@);
        time_left
    }
}

proof fn lemma_total_prefix(states: Seq<SimpleFaceState>, i: int)
    requires
        0 <= i <= states.len(),
    ensures
        total_ms(states.take(i)) <= total_ms(states),
    decreases states.len(),
{
    if i < states.len() {
        assert(states.drop_last().take(i) =~= states.take(i));
        lemma_total_prefix(states.drop_last(), i);
    } else {
        assert(states.take(i) =~= states);
    }
}

} // verus!
