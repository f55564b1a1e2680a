//! Worst-case (minimax) guess recommendation: pick the guess that leaves
//! the fewest candidate goals in the worst case over all possible goals.

use vstd::prelude::*;
use crate::outcome::{outcome_of, Outcome};
use crate::pattern::{refined, view_matches, Pattern, PatternView};
use crate::word::Word;

verus! {

/// How many of the goal words are consistent with constraint `v`.
pub open spec fn count_matching(v: PatternView, goals: Seq<Word>) -> int
    decreases goals.len(),
{
    if goals.len() == 0 {
        0
    } else {
        count_matching(v, goals.drop_last()) + if view_matches(v, goals.last()) {
            1int
        } else {
            0int
        }
    }
}

/// Score of playing `guess` when the true goal is `goal`: the number of
/// goal words that survive the resulting feedback, negated so that higher
/// is better.
pub open spec fn outcome_score(v: PatternView, goals: Seq<Word>, guess: Word, goal: Word) -> int {
    -count_matching(refined(v, guess, outcome_of(goal, guess)), goals)
}

/// The worst (least) outcome score of `guess` over the first `n` goals.
pub open spec fn min_score_prefix(v: PatternView, goals: Seq<Word>, guess: Word, n: int) -> int
    decreases n,
{
    if n <= 1 {
        outcome_score(v, goals, guess, goals[0])
    } else {
        let prev = min_score_prefix(v, goals, guess, n - 1);
        let cur = outcome_score(v, goals, guess, goals[n - 1]);
        if cur < prev {
            cur
        } else {
            prev
        }
    }
}

/// The minimax score of one guess: its worst case over every possible
/// goal. Negated counts, so higher is better.
pub open spec fn guess_score(v: PatternView, goals: Seq<Word>, guess: Word) -> int {
    min_score_prefix(v, goals, guess, goals.len() as int)
}

/// The best guess score among the first `n` words of `pool`.
pub open spec fn best_score_prefix(v: PatternView, goals: Seq<Word>, pool: Seq<Word>, n: int) -> int
    decreases n,
{
    if n <= 1 {
        guess_score(v, goals, pool[0])
    } else {
        let prev = best_score_prefix(v, goals, pool, n - 1);
        let cur = guess_score(v, goals, pool[n - 1]);
        if cur > prev {
            cur
        } else {
            prev
        }
    }
}

/// The best guess score found anywhere in `pool`.
pub open spec fn best_score(v: PatternView, goals: Seq<Word>, pool: Seq<Word>) -> int {
    best_score_prefix(v, goals, pool, pool.len() as int)
}

/// `w` is the first word of `pool` attaining the pool's best score `s`:
/// ties are broken by pool order, first seen wins.
pub open spec fn is_first_best(
    v: PatternView,
    goals: Seq<Word>,
    pool: Seq<Word>,
    w: Word,
    s: int,
) -> bool {
    &&& s == best_score(v, goals, pool)
    &&& exists|j: int|
        0 <= j < pool.len() && pool[j] == w && guess_score(v, goals, pool[j]) == s && (forall|
            i: int,
        |
            0 <= i < j ==> guess_score(v, goals, #[trigger] pool[i]) < s)
}

/// A constraint never matches more goal words than there are.
pub proof fn lemma_count_bounds(v: PatternView, goals: Seq<Word>)
    ensures
        0 <= count_matching(v, goals) <= goals.len(),
    decreases goals.len(),
{
    if goals.len() > 0 {
        lemma_count_bounds(v, goals.drop_last());
    }
}

/// The running best over a prefix is at least each member's score.
proof fn lemma_best_prefix_ge(v: PatternView, goals: Seq<Word>, pool: Seq<Word>, n: int, i: int)
    requires
        0 <= i < n <= pool.len(),
    ensures
        guess_score(v, goals, pool[i]) <= best_score_prefix(v, goals, pool, n),
    decreases n,
{
    if i < n - 1 {
        lemma_best_prefix_ge(v, goals, pool, n - 1, i);
    }
}

/// The best over a prefix is attained by some member of it.
proof fn lemma_best_prefix_attained(v: PatternView, goals: Seq<Word>, pool: Seq<Word>, n: int)
    requires
        1 <= n <= pool.len(),
    ensures
        exists|j: int| 0 <= j < n && guess_score(v, goals, #[trigger] pool[j]) == best_score_prefix(
            v,
            goals,
            pool,
            n,
        ),
    decreases n,
{
    if n == 1 {
        assert(guess_score(v, goals, pool[0]) == best_score_prefix(v, goals, pool, n));
    } else {
        lemma_best_prefix_attained(v, goals, pool, n - 1);
        if guess_score(v, goals, pool[n - 1]) > best_score_prefix(v, goals, pool, n - 1) {
            assert(guess_score(v, goals, pool[n - 1]) == best_score_prefix(v, goals, pool, n));
        } else {
            let j = choose|j: int|
                0 <= j < n - 1 && guess_score(v, goals, #[trigger] pool[j]) == best_score_prefix(
                    v,
                    goals,
                    pool,
                    n - 1,
                );
            assert(guess_score(v, goals, pool[j]) == best_score_prefix(v, goals, pool, n));
        }
    }
}

/// Searching a superset of the goal pool can only do as well or better:
/// the best score over any pool containing every goal word is at least the
/// best score over the goal pool itself.
pub proof fn lemma_superset_best_score(v: PatternView, goals: Seq<Word>, dict: Seq<Word>)
    requires
        goals.len() >= 1,
        forall|i: int| 0 <= i < goals.len() ==> dict.contains(#[trigger] goals[i]),
    ensures
        best_score(v, goals, goals) <= best_score(v, goals, dict),
{
    lemma_best_prefix_attained(v, goals, goals, goals.len() as int);
    let j = choose|j: int|
        0 <= j < goals.len() && guess_score(v, goals, #[trigger] goals[j]) == best_score(
            v,
            goals,
            goals,
        );
    assert(dict.contains(goals[j]));
    let k = choose|k: int| 0 <= k < dict.len() && dict[k] == goals[j];
    lemma_best_prefix_ge(v, goals, dict, dict.len() as int, k);
}

/// How many of `goals` the constraint `p` still matches.
pub fn count_goals_matching(p: &Pattern, goals: &Vec<Word>) -> (c: usize)
    requires
        forall|i: int| 0 <= i < goals@.len() ==> (#[trigger] goals@[i]).wf(),
    ensures
        c as int == count_matching(p@, goals@),
        c <= goals@.len(),
{
    let mut c: usize = 0;
    let mut i: usize = 0;
    while i < goals.len()
        invariant
            i <= goals@.len(),
            c <= i,
            forall|k: int| 0 <= k < goals@.len() ==> (#[trigger] goals@[k]).wf(),
            c as int == count_matching(p@, goals@.take(i as int)),
        decreases goals@.len() - i,
    {
        proof {
            assert(goals@.take(i + 1).drop_last() =~= goals@.take(i as int));
            assert(goals@.take(i + 1).last() == goals@[i as int]);
        }
        if p.matches(goals[i]) {
            c += 1;
        }
        i += 1;
    }
    proof {
        assert(goals@.take(goals@.len() as int) =~= goals@);
    }
    c
}

/// The minimax score of one candidate guess: simulate the feedback of
/// every possible goal, fold it into a hypothetical copy of the live
/// constraint, and keep the worst surviving-goal count, negated.
fn score_guess(pattern: &Pattern, goals: &Vec<Word>, guess: Word) -> (s: i32)
    requires
        1 <= goals@.len() <= 0x7FFF_FFFF,
        guess.wf(),
        forall|i: int| 0 <= i < goals@.len() ==> (#[trigger] goals@[i]).wf(),
    ensures
        s as int == guess_score(pattern@, goals@, guess),
        -(goals@.len() as int) <= s as int <= 0,
{
    let ghost v = pattern@;
    let mut best: i32 = 0;
    let mut k: usize = 0;
    // One pass per goal; the k == 0 pass initializes the running minimum.
    while k < goals.len()
        invariant
            k <= goals@.len(),
            1 <= goals@.len() <= 0x7FFF_FFFF,
            guess.wf(),
            forall|i: int| 0 <= i < goals@.len() ==> (#[trigger] goals@[i]).wf(),
            v == pattern@,
            k > 0 ==> best as int == min_score_prefix(v, goals@, guess, k as int),
            -(goals@.len() as int) <= best as int <= 0,
        decreases goals@.len() - k,
    {
        let goal = goals[k];
        let outcome = Outcome::compare(goal, guess);
        let mut hypothetical = *pattern;
        hypothetical.refine(guess, outcome);
        proof {
            assert(outcome.0@ =~= outcome_of(goal, guess));
            lemma_count_bounds(hypothetical@, goals@);
        }
        let c = count_goals_matching(&hypothetical, goals);
        let s = -(c as i32);
        proof {
            assert(s as int == outcome_score(v, goals@, guess, goals@[k as int]));
        }
        if k == 0 || s < best {
            best = s;
        }
        k += 1;
    }
    best
}

/// The best guess in `pool`, with its minimax score; ties are broken by
/// pool order, first seen wins.
fn best_from(pattern: &Pattern, goals: &Vec<Word>, pool: &Vec<Word>) -> (r: (Word, i32))
    requires
        1 <= goals@.len() <= 0x7FFF_FFFF,
        pool@.len() >= 1,
        forall|i: int| 0 <= i < goals@.len() ==> (#[trigger] goals@[i]).wf(),
        forall|i: int| 0 <= i < pool@.len() ==> (#[trigger] pool@[i]).wf(),
    ensures
        is_first_best(pattern@, goals@, pool@, r.0, r.1 as int),
        -(goals@.len() as int) <= r.1 as int <= 0,
{
    let ghost v = pattern@;
    let mut best_word = pool[0];
    let mut best: i32 = score_guess(pattern, goals, best_word);
    let ghost mut best_j: int = 0;
    let mut k: usize = 1;
    while k < pool.len()
        invariant
            1 <= k <= pool@.len(),
            1 <= goals@.len() <= 0x7FFF_FFFF,
            forall|i: int| 0 <= i < goals@.len() ==> (#[trigger] goals@[i]).wf(),
            forall|i: int| 0 <= i < pool@.len() ==> (#[trigger] pool@[i]).wf(),
            v == pattern@,
            0 <= best_j < k,
            pool@[best_j] == best_word,
            guess_score(v, goals@, best_word) == best as int,
            best as int == best_score_prefix(v, goals@, pool@, k as int),
            forall|i: int| 0 <= i < best_j ==> guess_score(v, goals@, #[trigger] pool@[i]) < best as int,
            forall|i: int| 0 <= i < k ==> guess_score(v, goals@, #[trigger] pool@[i]) <= best as int,
            -(goals@.len() as int) <= best as int <= 0,
        decreases pool@.len() - k,
    {
        let candidate = pool[k];
        let s = score_guess(pattern, goals, candidate);
        if s > best {
            best = s;
            best_word = candidate;
            proof {
                best_j = k as int;
            }
        }
        k += 1;
    }
    (best_word, best)
}

/// Recommend the next guess. Both pools are searched: the whole dictionary
/// and the goal pool alone. A goal-pool guess can win outright, so it is
/// preferred unless the dictionary-wide guess is strictly better by more
/// than one surviving candidate in the worst case. Because the dictionary
/// contains every goal word, its best score is never the worse one.
pub fn recommended_guess(pattern: &Pattern, goals: &Vec<Word>, dict: &Vec<Word>) -> (r: (Word, i32))
    requires
        1 <= goals@.len() <= 0x7FFF_FFFF,
        dict@.len() >= 1,
        forall|i: int| 0 <= i < goals@.len() ==> (#[trigger] goals@[i]).wf(),
        forall|i: int| 0 <= i < dict@.len() ==> (#[trigger] dict@[i]).wf(),
        forall|i: int| 0 <= i < goals@.len() ==> dict@.contains(#[trigger] goals@[i]),
    ensures
        ({
            let sd = best_score(pattern@, goals@, dict@);
            let sg = best_score(pattern@, goals@, goals@);
            &&& sg <= sd
            &&& if sg + 1 >= sd {
                is_first_best(pattern@, goals@, goals@, r.0, r.1 as int)
            } else {
                is_first_best(pattern@, goals@, dict@, r.0, r.1 as int)
            }
        }),
{
    let (best_dict, best_dict_score) = best_from(pattern, goals, dict);
    let (best_goal, best_goal_score) = best_from(pattern, goals, goals);
    proof {
        lemma_superset_best_score(pattern@, goals@, dict@);
    }
    if best_goal_score + 1 >= best_dict_score {
        (best_goal, best_goal_score)
    } else {
        (best_dict, best_dict_score)
    }
}

} // verus!
