//! The accumulated constraint: letters known present, letters known absent,
//! and the set of letters still allowed at each position.

use vstd::prelude::*;
use crate::outcome::{LetterOutcome, Outcome};
use crate::word::{is_lower, letter_mask, mask_of, to_letter_mask, Word};

verus! {

/// Mathematical model of a `Pattern`: two 26-bit letter sets and one
/// allowed-letter set per position.
pub struct PatternView {
    pub positive: u32,
    pub negative: u32,
    pub allowed: Seq<u32>,
}

/// The empty constraint: nothing known, all 26 letters allowed everywhere.
pub open spec fn empty_view() -> PatternView {
    PatternView { positive: 0u32, negative: 0u32, allowed: Seq::new(5, |i: int| 0x03FF_FFFFu32) }
}

/// A word is consistent with a constraint iff it holds every confirmed
/// letter, holds no excluded letter, and its letter at each position is
/// still allowed there.
pub open spec fn view_matches(v: PatternView, w: Word) -> bool {
    &&& w.letters & v.positive == v.positive
    &&& w.letters & v.negative == 0
    &&& forall|i: int| 0 <= i < 5 ==> (#[trigger] v.allowed[i]) & letter_mask(w.bytes@[i]) != 0
}

/// One position's worth of feedback folded into a constraint, where `m` is
/// the guessed letter's bit and `i` the position.
pub open spec fn apply_one(v: PatternView, m: u32, o: LetterOutcome, i: int) -> PatternView {
    match o {
        LetterOutcome::Nowhere => PatternView {
            positive: v.positive,
            negative: v.negative | m,
            allowed: Seq::new(v.allowed.len(), |j: int| v.allowed[j] & !m),
        },
        LetterOutcome::Elsewhere => PatternView {
            positive: v.positive | m,
            negative: v.negative,
            allowed: v.allowed.update(i, v.allowed[i] & !m),
        },
        LetterOutcome::Here => PatternView {
            positive: v.positive | m,
            negative: v.negative,
            allowed: v.allowed.update(i, m),
        },
    }
}

/// The first `n` positions of `o` folded into `v`, in slot order.
pub open spec fn refine_prefix(v: PatternView, w: Word, o: Seq<LetterOutcome>, n: int) -> PatternView
    decreases n,
{
    if n <= 0 {
        v
    } else {
        apply_one(refine_prefix(v, w, o, n - 1), letter_mask(w.bytes@[n - 1]), o[n - 1], n - 1)
    }
}

/// The constraint after folding one whole outcome for one guess into `v`,
/// positions applied left to right.
pub open spec fn refined(v: PatternView, w: Word, o: Seq<LetterOutcome>) -> PatternView {
    refine_prefix(v, w, o, 5)
}

/// `a`'s bits all lie inside `b`.
pub open spec fn bits_subset(a: u32, b: u32) -> bool {
    a & b == a
}

/// Bit containment is transitive.
proof fn lemma_subset_trans(a: u32, b: u32, c: u32)
    by (bit_vector)
    requires
        a & b == a,
        b & c == b,
    ensures
        a & c == a,
{
}

/// Clearing bits only shrinks a set.
proof fn lemma_and_not_subset(a: u32, m: u32)
    by (bit_vector)
    ensures
        (a & !m) & a == a & !m,
{
}

/// A letter mask is a single bit: if it meets a set at all, it lies inside it.
proof fn lemma_letter_bit_in(c: u8, x: u32)
    requires
        is_lower(c),
        x & letter_mask(c) != 0,
    ensures
        bits_subset(letter_mask(c), x),
{
    let sh = (c - 97) as u32;
    assert(x & (1u32 << sh) != 0 ==> (1u32 << sh) & x == (1u32 << sh)) by (bit_vector)
        requires
            sh < 26,
    ;
}

/// Each letter of a word has its bit inside the word's mask.
pub proof fn lemma_mask_of_contains(s: Seq<u8>, i: int)
    requires
        0 <= i < s.len(),
    ensures
        letter_mask(s[i]) | mask_of(s) == mask_of(s),
    decreases s.len(),
{
    let l = letter_mask(s[i]);
    let b = mask_of(s.drop_last());
    let l2 = letter_mask(s.last());
    if i == s.len() - 1 {
        assert(l2 | (b | l2) == b | l2) by (bit_vector);
    } else {
        lemma_mask_of_contains(s.drop_last(), i);
        assert(s.drop_last()[i] == s[i]);
        assert(l | b == b ==> l | (b | l2) == b | l2) by (bit_vector);
    }
}

/// No word that still holds an excluded letter is consistent with the
/// constraint: `matches` rejects it, whatever else the constraint says.
pub proof fn lemma_negative_letter_rejected(v: PatternView, w: Word)
    requires
        w.letters & v.negative != 0,
    ensures
        !view_matches(v, w),
{
}

/// An all-`Nowhere` outcome never touches the confirmed-present letters,
/// whatever the guess and whatever the constraint held before.
pub proof fn lemma_nowhere_keeps_positive(v: PatternView, w: Word, o: Seq<LetterOutcome>)
    requires
        o.len() == 5,
        forall|i: int| 0 <= i < 5 ==> #[trigger] o[i] == LetterOutcome::Nowhere,
    ensures
        refined(v, w, o).positive == v.positive,
{
    lemma_nowhere_prefix_keeps_positive(v, w, o, 5);
}

proof fn lemma_nowhere_prefix_keeps_positive(v: PatternView, w: Word, o: Seq<LetterOutcome>, n: int)
    requires
        0 <= n <= 5,
        o.len() == 5,
        forall|i: int| 0 <= i < 5 ==> #[trigger] o[i] == LetterOutcome::Nowhere,
    ensures
        refine_prefix(v, w, o, n).positive == v.positive,
    decreases n,
{
    if n > 0 {
        lemma_nowhere_prefix_keeps_positive(v, w, o, n - 1);
    }
}

/// Folding in an all-`Nowhere` outcome for a guess whose letters are all
/// already excluded, and already cleared from every position, changes
/// nothing: re-excluding known-absent letters is a no-op.
pub proof fn lemma_refine_excluded_noop(v: PatternView, w: Word, o: Seq<LetterOutcome>)
    requires
        v.allowed.len() == 5,
        w.wf(),
        o.len() == 5,
        forall|i: int| 0 <= i < 5 ==> #[trigger] o[i] == LetterOutcome::Nowhere,
        w.letters & v.negative == w.letters,
        forall|j: int| 0 <= j < 5 ==> (#[trigger] v.allowed[j]) & w.letters == 0,
    ensures
        refined(v, w, o) == v,
{
    lemma_refine_prefix_excluded(v, w, o, 5);
}

proof fn lemma_refine_prefix_excluded(v: PatternView, w: Word, o: Seq<LetterOutcome>, n: int)
    requires
        v.allowed.len() == 5,
        w.wf(),
        o.len() == 5,
        0 <= n <= 5,
        forall|i: int| 0 <= i < 5 ==> #[trigger] o[i] == LetterOutcome::Nowhere,
        w.letters & v.negative == w.letters,
        forall|j: int| 0 <= j < 5 ==> (#[trigger] v.allowed[j]) & w.letters == 0,
    ensures
        refine_prefix(v, w, o, n) == v,
    decreases n,
{
    if n > 0 {
        lemma_refine_prefix_excluded(v, w, o, n - 1);
        let m = letter_mask(w.bytes@[n - 1]);
        let l = w.letters;
        let neg = v.negative;
        lemma_mask_of_contains(w.bytes@, n - 1);
        assert(m | l == l);
        assert(neg | m == neg) by (bit_vector)
            requires
                m | l == l,
                l & neg == l,
        ;
        assert forall|j: int| 0 <= j < 5 implies (#[trigger] v.allowed[j]) & !m == v.allowed[j] by {
            let a = v.allowed[j];
            assert(a & !m == a) by (bit_vector)
                requires
                    a & l == 0,
                    m | l == l,
            ;
        }
        assert(apply_one(v, m, LetterOutcome::Nowhere, n - 1).allowed =~= v.allowed);
    }
}

/// Refining only narrows: after folding in any outcome, each position's
/// allowed set is a subset of what it was before. The one proviso is that
/// a `Here` position's letter is still allowed there beforehand, as it
/// always is when the feedback is consistent with the constraint.
pub proof fn lemma_refine_narrows(v: PatternView, w: Word, o: Seq<LetterOutcome>)
    requires
        v.allowed.len() == 5,
        w.wf(),
        o.len() == 5,
        forall|i: int|
            0 <= i < 5 ==> (#[trigger] o[i] == LetterOutcome::Here ==> v.allowed[i] & letter_mask(
                w.bytes@[i],
            ) != 0),
    ensures
        forall|j: int|
            0 <= j < 5 ==> bits_subset(#[trigger] refined(v, w, o).allowed[j], v.allowed[j]),
{
    lemma_refine_prefix_narrows(v, w, o, 5);
}

proof fn lemma_refine_prefix_narrows(v: PatternView, w: Word, o: Seq<LetterOutcome>, n: int)
    requires
        v.allowed.len() == 5,
        w.wf(),
        o.len() == 5,
        0 <= n <= 5,
        forall|i: int|
            0 <= i < 5 ==> (#[trigger] o[i] == LetterOutcome::Here ==> v.allowed[i] & letter_mask(
                w.bytes@[i],
            ) != 0),
    ensures
        refine_prefix(v, w, o, n).allowed.len() == 5,
        forall|j: int|
            0 <= j < 5 ==> bits_subset(
                #[trigger] refine_prefix(v, w, o, n).allowed[j],
                v.allowed[j],
            ),
    decreases n,
{
    if n <= 0 {
        assert forall|j: int| 0 <= j < 5 implies bits_subset(
            #[trigger] refine_prefix(v, w, o, n).allowed[j],
            v.allowed[j],
        ) by {
            let a = v.allowed[j];
            assert(a & a == a) by (bit_vector);
        }
    } else {
        lemma_refine_prefix_narrows(v, w, o, n - 1);
        let prev = refine_prefix(v, w, o, n - 1);
        let cur = refine_prefix(v, w, o, n);
        let i = n - 1;
        let m = letter_mask(w.bytes@[i]);
        assert forall|j: int| 0 <= j < 5 implies bits_subset(
            #[trigger] cur.allowed[j],
            v.allowed[j],
        ) by {
            assert(bits_subset(prev.allowed[j], v.allowed[j]));
            match o[i] {
                LetterOutcome::Nowhere => {
                    lemma_and_not_subset(prev.allowed[j], m);
                    lemma_subset_trans(prev.allowed[j] & !m, prev.allowed[j], v.allowed[j]);
                },
                LetterOutcome::Elsewhere => {
                    if j == i {
                        lemma_and_not_subset(prev.allowed[i], m);
                        lemma_subset_trans(prev.allowed[i] & !m, prev.allowed[i], v.allowed[i]);
                    } else {
                        assert(cur.allowed[j] == prev.allowed[j]);
                    }
                },
                LetterOutcome::Here => {
                    if j == i {
                        assert(is_lower(w.bytes@[i]));
                        lemma_letter_bit_in(w.bytes@[i], v.allowed[i]);
                        assert(cur.allowed[i] == letter_mask(w.bytes@[i]));
                    } else {
                        assert(cur.allowed[j] == prev.allowed[j]);
                    }
                },
            }
        }
    }
}

/// Accumulated knowledge about the goal word over one guessing session.
#[derive(Clone, Copy, Debug)]
pub struct Pattern {
    /// Letters known to be present.
    pub positive_letters: u32,
    /// Letters known to be absent.
    pub negative_letters: u32,
    /// Letter masks allowed per position.
    pub per_char: [u32; 5],
}

impl View for Pattern {
    type V = PatternView;

    open spec fn view(&self) -> PatternView {
        PatternView {
            positive: self.positive_letters,
            negative: self.negative_letters,
            allowed: self.per_char@,
        }
    }
}

impl Pattern {
    /// The empty constraint.
    pub fn new() -> (p: Pattern)
        ensures
            p@ == empty_view(),
    {
        let p = Pattern {
            positive_letters: 0,
            negative_letters: 0,
            per_char: [0x03FF_FFFFu32; 5],
        };
        proof {
            assert(p@.allowed =~= empty_view().allowed);
        }
        p
    }

    /// Whether `word` is still consistent with this constraint.
    pub fn matches(&self, word: Word) -> (r: bool)
        requires
            word.wf(),
        ensures
            r == view_matches(self@, word),
    {
        if word.letters & self.positive_letters != self.positive_letters {
            return false;
        }
        if word.letters & self.negative_letters != 0 {
            return false;
        }
        let mut i: usize = 0;
        while i < 5
            invariant
                i <= 5,
                word.wf(),
                forall|k: int|
                    0 <= k < i ==> (#[trigger] self@.allowed[k]) & letter_mask(word.bytes@[k]) != 0,
            decreases 5 - i,
        {
            proof {
                assert(is_lower(word.bytes@[i as int]));
            }
            if self.per_char[i] & to_letter_mask(word.bytes[i]) == 0 {
                proof {
                    assert(self@.allowed[i as int] & letter_mask(word.bytes@[i as int]) == 0);
                }
                return false;
            }
            i += 1;
        }
        true
    }

    /// Fold one round of feedback for `word` into the constraint, position
    /// by position: `Nowhere` excludes the letter everywhere, `Elsewhere`
    /// confirms it but bars it from this position, `Here` pins this
    /// position to exactly that letter.
    pub fn refine(&mut self, word: Word, outcome: Outcome)
        requires
            word.wf(),
        ensures
            final(self)@ == refined(old(self)@, word, outcome.0@),
    {
        let mut i: usize = 0;
        while i < 5
            invariant
                i <= 5,
                word.wf(),
                self@ == refine_prefix(old(self)@, word, outcome.0@, i as int),
            decreases 5 - i,
        {
            let ghost pre = self@;
            let m = to_letter_mask(word.bytes[i]);
            match outcome.0[i] {
                LetterOutcome::Nowhere => {
                    self.negative_letters = self.negative_letters | m;
                    let mut j: usize = 0;
                    while j < 5
                        invariant
                            j <= 5,
                            self.positive_letters == pre.positive,
                            self.negative_letters == pre.negative | m,
                            self@.allowed.len() == 5,
                            pre.allowed.len() == 5,
                            forall|k: int| 0 <= k < j ==> self@.allowed[k] == (#[trigger] pre.allowed[k]) & !m,
                            forall|k: int| j <= k < 5 ==> self@.allowed[k] == #[trigger] pre.allowed[k],
                        decreases 5 - j,
                    {
                        self.per_char[j] = self.per_char[j] & !m;
                        j += 1;
                    }
                    proof {
                        assert(self@.allowed =~= apply_one(pre, m, LetterOutcome::Nowhere, i as int).allowed);
                    }
                },
                LetterOutcome::Elsewhere => {
                    self.positive_letters = self.positive_letters | m;
                    self.per_char[i] = self.per_char[i] & !m;
                    proof {
                        assert(self@.allowed =~= apply_one(pre, m, LetterOutcome::Elsewhere, i as int).allowed);
                    }
                },
                LetterOutcome::Here => {
                    self.positive_letters = self.positive_letters | m;
                    self.per_char[i] = m;
                    proof {
                        assert(self@.allowed =~= apply_one(pre, m, LetterOutcome::Here, i as int).allowed);
                    }
                },
            }
            i += 1;
        }
    }
}

/// The words of `pool` still consistent with constraint `p`, in pool
/// order: one round of narrowing the live goal pool.
pub fn filter_matching(p: &Pattern, pool: &Vec<Word>) -> (r: Vec<Word>)
    requires
        forall|i: int| 0 <= i < pool@.len() ==> (#[trigger] pool@[i]).wf(),
    ensures
        r@ == pool@.filter(|w: Word| view_matches(p@, w)),
{
    let mut r: Vec<Word> = Vec::new();
    let mut i: usize = 0;
    proof {
        reveal(Seq::filter);
    }
    while i < pool.len()
        invariant
            i <= pool@.len(),
            forall|k: int| 0 <= k < pool@.len() ==> (#[trigger] pool@[k]).wf(),
            r@ == pool@.take(i as int).filter(|w: Word| view_matches(p@, w)),
        decreases pool@.len() - i,
    {
        proof {
            reveal(Seq::filter);
            assert(pool@.take(i + 1).drop_last() =~= pool@.take(i as int));
            assert(pool@.take(i + 1).last() == pool@[i as int]);
        }
        if p.matches(pool[i]) {
            r.push(pool[i]);
        }
        i += 1;
    }
    proof {
        assert(pool@.take(pool@.len() as int) =~= pool@);
    }
    r
}

} // verus!
