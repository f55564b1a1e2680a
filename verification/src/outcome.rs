//! Per-letter feedback for one guess against one goal.

use vstd::prelude::*;
use crate::word::Word;

verus! {

/// Feedback for a single position: the guessed letter is at this very
/// position (`Here`), occurs somewhere else in the goal (`Elsewhere`),
/// or does not occur in the goal at all (`Nowhere`).
#[derive(Clone, Copy, Debug, PartialEq, Eq, Structural)]
pub enum LetterOutcome {
    Nowhere,
    Elsewhere,
    Here,
}

/// What position `i` of `guess` scores against `goal`: the simple
/// containment rule, which asks only whether the guessed letter occurs
/// anywhere in the goal, without budgeting for duplicate letters.
pub open spec fn letter_outcome_of(goal: Word, guess: Word, i: int) -> LetterOutcome {
    if goal.bytes@[i] == guess.bytes@[i] {
        LetterOutcome::Here
    } else if goal.bytes@.contains(guess.bytes@[i]) {
        LetterOutcome::Elsewhere
    } else {
        LetterOutcome::Nowhere
    }
}

/// The whole five-position feedback of `guess` against `goal`.
pub open spec fn outcome_of(goal: Word, guess: Word) -> Seq<LetterOutcome> {
    Seq::new(5, |i: int| letter_outcome_of(goal, guess, i))
}

/// An ordered sequence of exactly five per-letter feedback values, one per
/// position of a specific guess against a specific goal.
#[derive(Clone, Copy, Debug, PartialEq, Eq)]
pub struct Outcome(pub [LetterOutcome; 5]);

impl Outcome {
    /// Compute the feedback a goal word gives to a guess, position by
    /// position. A position is `Here` exactly when guess and goal agree
    /// there.
    pub fn compare(goal: Word, guess: Word) -> (o: Outcome)
        ensures
            o.0@ == outcome_of(goal, guess),
            forall|i: int|
                0 <= i < 5 ==> ((#[trigger] o.0@[i]) == LetterOutcome::Here <==> goal.bytes@[i]
                    == guess.bytes@[i]),
    {
        let mut result: [LetterOutcome; 5] = [LetterOutcome::Nowhere; 5];
        let mut i: usize = 0;
        while i < 5
            invariant
                i <= 5,
                forall|k: int| 0 <= k < i ==> #[trigger] result@[k] == letter_outcome_of(goal, guess, k),
            decreases 5 - i,
        {
            result[i] = if goal.bytes[i] == guess.bytes[i] {
                LetterOutcome::Here
            } else if goal.contains_letter(guess.bytes[i]) {
                LetterOutcome::Elsewhere
            } else {
                LetterOutcome::Nowhere
            };
            i += 1;
        }
        proof {
            assert(result@ =~= outcome_of(goal, guess));
        }
        Outcome(result)
    }
}

} // verus!
