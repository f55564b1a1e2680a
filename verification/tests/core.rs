use wordguess::outcome::{LetterOutcome, Outcome};
use wordguess::pattern::{filter_matching, Pattern};
use wordguess::search::{count_goals_matching, recommended_guess};
use wordguess::word::{to_letter_mask, Word};

fn all_nowhere() -> Outcome {
    Outcome([LetterOutcome::Nowhere; 5])
}

#[test]
fn letter_masks_are_single_bits() {
    assert_eq!(to_letter_mask(b'a'), 1);
    assert_eq!(to_letter_mask(b'b'), 2);
    assert_eq!(to_letter_mask(b'z'), 1 << 25);
}

#[test]
fn encode_mask_is_or_of_letter_bits() {
    let w = Word::new("apple");
    let expected = (1u32 << (b'a' - b'a')) | (1 << (b'p' - b'a')) | (1 << (b'l' - b'a')) | (1
        << (b'e' - b'a'));
    assert_eq!(w.letters, expected);
    assert_eq!(w.bytes, *b"apple");
}

#[test]
fn encode_duplicate_letters_contribute_one_bit() {
    let single = Word::new("abcde").letters;
    let doubled = Word::new("aabcd").letters | Word::new("bcdee").letters;
    assert_eq!(single, doubled);
    assert_eq!(Word::new("zzzzz").letters, 1 << 25);
}

#[test]
fn compare_here_iff_same_position() {
    let o = Outcome::compare(Word::new("crate"), Word::new("trace"));
    for i in 0..5 {
        let here = o.0[i] == LetterOutcome::Here;
        assert_eq!(here, b"crate"[i] == b"trace"[i]);
    }
}

#[test]
fn compare_apple_against_angle() {
    // Position by position for guess "apple" against goal "angle":
    // 'a' matches exactly; neither 'p' occurs in the goal; 'l' and 'e'
    // match exactly.
    let o = Outcome::compare(Word::new("angle"), Word::new("apple"));
    assert_eq!(
        o.0,
        [
            LetterOutcome::Here,
            LetterOutcome::Nowhere,
            LetterOutcome::Nowhere,
            LetterOutcome::Here,
            LetterOutcome::Here,
        ]
    );
}

#[test]
fn compare_uses_simple_containment_for_duplicates() {
    // Both copies of 'l' in the guess report Elsewhere, although the goal
    // holds a single 'l', already matched nowhere else.
    let o = Outcome::compare(Word::new("whale"), Word::new("llama"));
    assert_eq!(o.0[0], LetterOutcome::Elsewhere);
    assert_eq!(o.0[1], LetterOutcome::Elsewhere);
    assert_eq!(o.0[2], LetterOutcome::Here);
    assert_eq!(o.0[3], LetterOutcome::Nowhere);
    assert_eq!(o.0[4], LetterOutcome::Elsewhere);
}

#[test]
fn empty_pattern_matches_anything() {
    let p = Pattern::new();
    assert!(p.matches(Word::new("apple")));
    assert!(p.matches(Word::new("zzzzz")));
    assert_eq!(p.positive_letters, 0);
    assert_eq!(p.negative_letters, 0);
    assert_eq!(p.per_char, [(1 << 26) - 1; 5]);
}

#[test]
fn refine_all_nowhere_excludes_letter() {
    let mut p = Pattern::new();
    p.refine(Word::new("zzzzz"), all_nowhere());
    assert_eq!(p.negative_letters, 1 << 25);
    assert_eq!(p.positive_letters, 0);
    assert!(!p.matches(Word::new("zebra")));
    assert!(!p.matches(Word::new("fuzzy")));
    assert!(p.matches(Word::new("apple")));
}

#[test]
fn refine_here_pins_position() {
    let mut p = Pattern::new();
    let o = Outcome::compare(Word::new("crate"), Word::new("crate"));
    p.refine(Word::new("crate"), o);
    assert!(p.matches(Word::new("crate")));
    assert!(!p.matches(Word::new("trace")));
    for i in 0..5 {
        assert_eq!(p.per_char[i], to_letter_mask(b"crate"[i]));
    }
}

#[test]
fn refine_elsewhere_bars_only_that_position() {
    let mut p = Pattern::new();
    let mut o = all_nowhere();
    o.0[0] = LetterOutcome::Elsewhere;
    // 'a' is somewhere in the goal but not first; the other letters of
    // "aback" stay unjudged here, so keep them out of the outcome's way.
    o.0[1] = LetterOutcome::Elsewhere;
    o.0[2] = LetterOutcome::Elsewhere;
    o.0[3] = LetterOutcome::Elsewhere;
    o.0[4] = LetterOutcome::Elsewhere;
    p.refine(Word::new("aback"), o);
    assert_eq!(p.positive_letters, Word::new("aback").letters);
    assert_eq!(p.negative_letters, 0);
    assert!(!p.matches(Word::new("amble")));  // 'a' still first
    assert!(!p.matches(Word::new("pride")));  // misses the confirmed letters
}

#[test]
fn refine_on_already_excluded_letters_changes_nothing() {
    let mut p = Pattern::new();
    p.refine(Word::new("qqqqq"), all_nowhere());
    let before = p;
    p.refine(Word::new("qqqqq"), all_nowhere());
    assert_eq!(p.positive_letters, before.positive_letters);
    assert_eq!(p.negative_letters, before.negative_letters);
    assert_eq!(p.per_char, before.per_char);
}

#[test]
fn refine_only_narrows_positions() {
    let mut p = Pattern::new();
    let goal = Word::new("spine");
    let guess = Word::new("snipe");
    let o = Outcome::compare(goal, guess);
    let before = p;
    p.refine(guess, o);
    for i in 0..5 {
        assert_eq!(p.per_char[i] & before.per_char[i], p.per_char[i]);
    }
}

#[test]
fn count_matching_counts_consistent_goals() {
    let mut p = Pattern::new();
    p.refine(Word::new("zzzzz"), all_nowhere());
    let goals = vec![
        Word::new("zebra"),
        Word::new("apple"),
        Word::new("fuzzy"),
        Word::new("crate"),
    ];
    assert_eq!(count_goals_matching(&p, &goals), 2);
}

#[test]
fn filter_keeps_exactly_the_matching_words_in_order() {
    let mut p = Pattern::new();
    p.refine(Word::new("zzzzz"), all_nowhere());
    let pool = vec![
        Word::new("zebra"),
        Word::new("apple"),
        Word::new("fuzzy"),
        Word::new("crate"),
    ];
    let kept = filter_matching(&p, &pool);
    assert_eq!(kept.len(), 2);
    assert_eq!(kept[0].bytes, *b"apple");
    assert_eq!(kept[1].bytes, *b"crate");
}

#[test]
fn recommender_picks_distinguishing_guess() {
    // "bbbbb" tells the two goals apart (worst case one candidate left);
    // "ddddd" leaves both possible (worst case two).
    let goals = vec![Word::new("bbbbb"), Word::new("ccccc")];
    let dict = vec![Word::new("ddddd"), Word::new("bbbbb"), Word::new("ccccc")];
    let p = Pattern::new();
    let (best, score) = recommended_guess(&p, &goals, &dict);
    assert_eq!(best.bytes, *b"bbbbb");
    assert_eq!(score, -1);
}

#[test]
fn recommender_prefers_goal_pool_on_near_tie() {
    // Every guess in the dictionary leaves both goals in the worst case,
    // so the dictionary is no better by more than one and the goal-pool
    // guess must win.
    let goals = vec![Word::new("abbbb"), Word::new("acccc")];
    let dict = vec![
        Word::new("aaaaa"),
        Word::new("abbbb"),
        Word::new("acccc"),
    ];
    let p = Pattern::new();
    let (best, score) = recommended_guess(&p, &goals, &dict);
    assert_eq!(best.bytes, *b"abbbb");
    assert_eq!(score, -1);
}

#[test]
fn recommender_worst_case_bound_holds() {
    // The returned score bounds how many goals can survive the guess: for
    // each possible goal, replay the feedback and recount.
    let goals = vec![
        Word::new("crate"),
        Word::new("trace"),
        Word::new("brace"),
        Word::new("grate"),
    ];
    let dict = goals.clone();
    let p = Pattern::new();
    let (best, score) = recommended_guess(&p, &goals, &dict);
    for &goal in &goals {
        let mut hyp = p;
        hyp.refine(best, Outcome::compare(goal, best));
        let remaining = count_goals_matching(&hyp, &goals) as i32;
        assert!(remaining <= -score);
    }
}
