//! The entropy-maximizing solver: candidate-set state, hard-mode
//! constraints, guess ranking and solve loops.

use vstd::prelude::*;
use crate::WORD_LENGTH;
use crate::valid_word;
use crate::feedback::Feedback;
use crate::feedback::FeedbackPattern;
use crate::feedback::decode_spec;
use crate::feedback::pattern_spec;
use crate::feedback::feedback_spec;
use crate::feedback::lemma_pattern_digit;
use vstd::pervasive::cloned;

verus! {

/// The mathematical content of a set of hard-mode constraints: a fixed
/// letter for some positions, and letters that must appear somewhere.
pub struct ConsV {
    /// Letter fixed at each position, from correct feedback.
    pub pos: Seq<Option<char>>,
    /// Letters that must appear somewhere, from present feedback.
    pub letters: Seq<char>,
}

/// Well-formed constraints carry one optional fixed letter per position.
pub open spec fn cons_wf(c: ConsV) -> bool {
    c.pos.len() == WORD_LENGTH
}

/// No position is fixed and no letter is required.
pub open spec fn cons_empty(c: ConsV) -> bool {
    (forall|i: int| 0 <= i < c.pos.len() ==> c.pos[i] is None) && c.letters.len() == 0
}

/// A word satisfies the constraints: it has every fixed letter in place and
/// contains every required letter at least once.
pub open spec fn cons_ok(c: ConsV, w: Seq<char>) -> bool {
    &&& forall|i: int|
        0 <= i < c.pos.len() ==> (#[trigger] c.pos[i] matches Some(l) ==> w[i] == l)
    &&& forall|l: char| c.letters.contains(l) ==> w.contains(l)
}

/// The fixed-position constraints after applying one guess and its decoded
/// pattern: correct positions take the guess letter, the rest are kept.
pub open spec fn cons_update_pos(c: ConsV, g: Seq<char>, p: int) -> Seq<Option<char>> {
    Seq::new(
        WORD_LENGTH as nat,
        |i: int|
            if decode_spec(p, i) == Feedback::Correct {
                Some(g[i])
            } else {
                c.pos[i]
            },
    )
}

/// The required letters after scanning the first `upto` positions of one
/// guess and its decoded pattern: each present position adds its letter
/// unless already required.
pub open spec fn cons_update_letters(c: ConsV, g: Seq<char>, p: int, upto: int) -> Seq<char>
    decreases upto,
{
    if upto <= 0 {
        c.letters
    } else {
        let prev = cons_update_letters(c, g, p, upto - 1);
        if decode_spec(p, upto - 1) == Feedback::Present && !prev.contains(g[upto - 1]) {
            prev.push(g[upto - 1])
        } else {
            prev
        }
    }
}

/// The constraints after applying one guess and its pattern.
pub open spec fn cons_update(c: ConsV, g: Seq<char>, p: int) -> ConsV {
    ConsV { pos: cons_update_pos(c, g, p), letters: cons_update_letters(c, g, p, WORD_LENGTH as int) }
}

/// Hard mode constraints accumulated from previous guesses.
#[derive(Debug, Clone)]
pub struct HardModeConstraints {
    /// Letters that must be in specific positions (from correct feedback).
    pub required_positions: [Option<char>; WORD_LENGTH],
    /// Letters that must appear somewhere in the word (from present
    /// feedback).
    pub required_letters: Vec<char>,
}

impl View for HardModeConstraints {
    type V = ConsV;

    open spec fn view(&self) -> ConsV {
        ConsV { pos: self.required_positions@, letters: self.required_letters@ }
    }
}

/// Whether a character vector holds a given character.
fn contains_char(v: &Vec<char>, c: char) -> (r: bool)
    ensures
        r == v@.contains(c),
{
    let mut i: usize = 0;
    let n = v.len();
    while i < n
        invariant
            n == v@.len(),
            0 <= i <= n,
            forall|j: int| 0 <= j < i ==> v@[j] != c,
        decreases n - i,
    {
        if v[i] == c {
            return true;
        }
        i += 1;
    }
    false
}

/// Whether a word holds a given character.
fn word_contains_char(w: &str, c: char) -> (r: bool)
    ensures
        r == w@.contains(c),
{
    let mut i: usize = 0;
    let n = w.unicode_len();
    while i < n
        invariant
            n == w@.len(),
            0 <= i <= n,
            forall|j: int| 0 <= j < i ==> w@[j] != c,
        decreases n - i,
    {
        if w.get_char(i) == c {
            return true;
        }
        i += 1;
    }
    false
}

impl HardModeConstraints {
    /// Fresh, empty constraints.
    pub fn new() -> (r: Self)
        ensures
            cons_wf(r@),
            cons_empty(r@),
    {
        HardModeConstraints { required_positions: [None, None, None, None, None], required_letters: Vec::new() }
    }

    /// Record the hints revealed by one guess and its feedback pattern:
    /// every correct position fixes its letter, and every present position
    /// adds its letter to the required set.
    pub fn update(&mut self, guess: &str, pattern: FeedbackPattern)
        requires
            valid_word(guess@),
            cons_wf(old(self)@),
        ensures
            cons_wf(final(self)@),
            final(self)@ == cons_update(old(self)@, guess@, pattern.0 as int),
    {
        let ghost c0 = self@;
        let ghost g = guess@;
        let ghost p = pattern.0 as int;
        let feedbacks = pattern.to_feedbacks();
        let mut i: usize = 0;
        while i < WORD_LENGTH
            invariant
                valid_word(g),
                g == guess@,
                p == pattern.0 as int,
                cons_wf(self@),
                0 <= i <= WORD_LENGTH,
                forall|j: int| 0 <= j < WORD_LENGTH ==> feedbacks@[j] == decode_spec(p, j),
                forall|j: int|
                    0 <= j < i ==> self@.pos[j] == cons_update_pos(c0, g, p)[j],
                forall|j: int| i <= j < WORD_LENGTH ==> self@.pos[j] == c0.pos[j],
                self@.letters == cons_update_letters(c0, g, p, i as int),
            decreases WORD_LENGTH - i,
        {
            match feedbacks[i] {
                Feedback::Correct => {
                    self.required_positions[i] = Some(guess.get_char(i));
                },
                Feedback::Present => {
                    let c = guess.get_char(i);
                    if !contains_char(&self.required_letters, c) {
                        self.required_letters.push(c);
                    }
                },
                Feedback::Absent => {},
            }
            i += 1;
        }
        proof {
            assert(self@.pos =~= cons_update_pos(c0, g, p));
        }
    }

    /// Check whether a word satisfies every accumulated constraint.
    pub fn is_valid(&self, word: &str) -> (r: bool)
        requires
            valid_word(word@),
            cons_wf(self@),
        ensures
            r == cons_ok(self@, word@),
    {
        let mut i: usize = 0;
        while i < WORD_LENGTH
            invariant
                valid_word(word@),
                cons_wf(self@),
                0 <= i <= WORD_LENGTH,
                forall|j: int|
                    0 <= j < i ==> (#[trigger] self@.pos[j] matches Some(l) ==> word@[j] == l),
            decreases WORD_LENGTH - i,
        {
            match self.required_positions[i] {
                Some(c) => {
                    if word.get_char(i) != c {
                        return false;
                    }
                },
                None => {},
            }
            i += 1;
        }
        let n = self.required_letters.len();
        let mut i: usize = 0;
        while i < n
            invariant
                valid_word(word@),
                cons_wf(self@),
                n == self@.letters.len(),
                0 <= i <= n,
                forall|j: int|
                    0 <= j < self@.pos.len() ==> (#[trigger] self@.pos[j] matches Some(l)
                        ==> word@[j] == l),
                forall|j: int| 0 <= j < i ==> word@.contains(#[trigger] self@.letters[j]),
            decreases n - i,
        {
            if !word_contains_char(word, self.required_letters[i]) {
                return false;
            }
            i += 1;
        }
        proof {
            assert forall|l: char| self@.letters.contains(l) implies word@.contains(l) by {
                let j = choose|j: int| 0 <= j < self@.letters.len() && self@.letters[j] == l;
                assert(word@.contains(self@.letters[j]));
            }
        }
        true
    }

    /// Whether no constraint has been recorded.
    pub fn is_empty(&self) -> (r: bool)
        requires
            cons_wf(self@),
        ensures
            r == cons_empty(self@),
    {
        let mut i: usize = 0;
        while i < WORD_LENGTH
            invariant
                cons_wf(self@),
                0 <= i <= WORD_LENGTH,
                forall|j: int| 0 <= j < i ==> self@.pos[j] is None,
            decreases WORD_LENGTH - i,
        {
            match self.required_positions[i] {
                Some(_) => {
                    return false;
                },
                None => {},
            }
            i += 1;
        }
        self.required_letters.len() == 0
    }
}

/// A word that matches a guess's revealed pattern satisfies every
/// constraint that the pattern adds.
pub proof fn lemma_match_preserves_cons(c: ConsV, g: Seq<char>, w: Seq<char>, p: int)
    requires
        cons_wf(c),
        cons_ok(c, w),
        valid_word(g),
        valid_word(w),
        pattern_spec(g, w) == p,
    ensures
        cons_ok(cons_update(c, g, p), w),
{
    let c2 = cons_update(c, g, p);
    assert forall|i: int|
        0 <= i < c2.pos.len() implies (#[trigger] c2.pos[i] matches Some(l) ==> w[i] == l) by {
        lemma_pattern_digit(g, w, i);
    }
    lemma_letters_stay_ok(c, g, w, p, WORD_LENGTH as int);
}

/// Every letter required after scanning a prefix of a matching guess occurs
/// in the word.
proof fn lemma_letters_stay_ok(c: ConsV, g: Seq<char>, w: Seq<char>, p: int, upto: int)
    requires
        cons_ok(c, w),
        valid_word(g),
        valid_word(w),
        pattern_spec(g, w) == p,
        0 <= upto <= WORD_LENGTH,
    ensures
        forall|l: char| cons_update_letters(c, g, p, upto).contains(l) ==> w.contains(l),
    decreases upto,
{
    if upto > 0 {
        lemma_letters_stay_ok(c, g, w, p, upto - 1);
        let prev = cons_update_letters(c, g, p, upto - 1);
        let cur = cons_update_letters(c, g, p, upto);
        if decode_spec(p, upto - 1) == Feedback::Present && !prev.contains(g[upto - 1]) {
            assert(w.contains(g[upto - 1])) by {
                lemma_pattern_digit(g, w, upto - 1);
                assert(feedback_spec(g, w, upto - 1) == Feedback::Present);
                crate::feedback::lemma_count_prior_bounds(g, w, g[upto - 1], upto - 1);
                crate::feedback::lemma_avail_pos_implies_contains(
                    g,
                    w,
                    g[upto - 1],
                    WORD_LENGTH as int,
                );
            }
            assert forall|l: char| cur.contains(l) implies w.contains(l) by {
                let j = choose|j: int| 0 <= j < cur.len() && cur[j] == l;
                if j < prev.len() {
                    assert(prev.contains(l));
                } else {
                    assert(l == g[upto - 1]);
                }
            }
        }
    }
}

/// The candidates from `words`, in order, whose feedback pattern against
/// the guess `g` is exactly `p`.
pub open spec fn filter_matching(words: Seq<Seq<char>>, g: Seq<char>, p: int) -> Seq<Seq<char>>
    decreases words.len(),
{
    if words.len() == 0 {
        Seq::empty()
    } else {
        filter_matching(words.drop_last(), g, p) + if pattern_spec(g, words.last()) == p {
            seq![words.last()]
        } else {
            Seq::empty()
        }
    }
}

/// Filtering never grows a candidate list, and every kept word comes from
/// the list and matches the pattern.
pub proof fn lemma_filter_matching_props(words: Seq<Seq<char>>, g: Seq<char>, p: int)
    ensures
        filter_matching(words, g, p).len() <= words.len(),
        forall|i: int|
            0 <= i < filter_matching(words, g, p).len() ==> words.contains(
                #[trigger] filter_matching(words, g, p)[i],
            ) && pattern_spec(g, filter_matching(words, g, p)[i]) == p,
    decreases words.len(),
{
    if words.len() > 0 {
        let f = filter_matching(words, g, p);
        let fp = filter_matching(words.drop_last(), g, p);
        lemma_filter_matching_props(words.drop_last(), g, p);
        assert forall|i: int|
            0 <= i < f.len() implies words.contains(#[trigger] f[i]) && pattern_spec(g, f[i])
            == p by {
            if i < fp.len() {
                assert(fp.contains(fp[i]));
                let j = choose|j: int|
                    0 <= j < words.drop_last().len() && words.drop_last()[j] == fp[i];
                assert(words[j] == fp[i]);
            } else {
                assert(f[i] == words.last());
                assert(words[words.len() - 1] == words.last());
            }
        }
    }
}

/// The mathematical content of the solver's state.
pub struct SolverV {
    /// The full word list, fixed at construction.
    pub all: Seq<Seq<char>>,
    /// The candidate answers still consistent with all feedback so far.
    pub poss: Seq<Seq<char>>,
    /// Whether hard mode restricts the suggested guesses.
    pub hard: bool,
    /// The hard-mode constraints accumulated so far.
    pub cons: ConsV,
}

/// The solver's invariant: bounded, valid words; candidates drawn from the
/// full list; and every candidate consistent with the accumulated
/// constraints.
pub open spec fn solver_wf(s: SolverV) -> bool {
    &&& s.all.len() <= crate::entropy::MAX_WORDS
    &&& s.poss.len() <= s.all.len()
    &&& forall|i: int| 0 <= i < s.all.len() ==> valid_word(#[trigger] s.all[i])
    &&& forall|i: int| 0 <= i < s.poss.len() ==> valid_word(#[trigger] s.poss[i])
    &&& forall|i: int| 0 <= i < s.poss.len() ==> s.all.contains(#[trigger] s.poss[i])
    &&& cons_wf(s.cons)
    &&& forall|i: int| 0 <= i < s.poss.len() ==> cons_ok(s.cons, #[trigger] s.poss[i])
}

/// The entropy-maximizing solver.
#[derive(Debug)]
pub struct WordleSolver {
    all_words: Vec<String>,
    possible_answers: Vec<String>,
    hard_mode: bool,
    constraints: HardModeConstraints,
}

impl View for WordleSolver {
    type V = SolverV;

    closed spec fn view(&self) -> SolverV {
        SolverV {
            all: self.all_words.deep_view(),
            poss: self.possible_answers.deep_view(),
            hard: self.hard_mode,
            cons: self.constraints@,
        }
    }
}

/// Clone a word list, preserving its contents.
fn clone_words(v: &Vec<String>) -> (r: Vec<String>)
    ensures
        r.deep_view() == v.deep_view(),
        r@.len() == v@.len(),
{
    let r = v.clone();
    proof {
        assert forall|i: int| 0 <= i < v@.len() implies r@[i]@ == v@[i]@ by {
            assert(cloned::<String>(v@[i], r@[i]));
        }
        assert(r.deep_view() =~= v.deep_view());
    }
    r
}

impl Clone for WordleSolver {
    /// Duplicate the solver's state, for independent simulations.
    fn clone(&self) -> (r: Self)
        ensures
            r@ == self@,
    {
        let r = WordleSolver {
            all_words: clone_words(&self.all_words),
            possible_answers: clone_words(&self.possible_answers),
            hard_mode: self.hard_mode,
            constraints: HardModeConstraints {
                required_positions: self.constraints.required_positions,
                required_letters: self.constraints.required_letters.clone(),
            },
        };
        proof {
            assert(r.constraints.required_letters@ =~= self.constraints.required_letters@);
        }
        r
    }
}

impl WordleSolver {
    /// Build a solver over a dictionary of valid words; the candidate set
    /// starts as the whole dictionary.
    pub fn new(words: Vec<String>) -> (r: Self)
        requires
            words@.len() <= crate::entropy::MAX_WORDS,
            forall|i: int| 0 <= i < words@.len() ==> valid_word(#[trigger] words@[i]@),
        ensures
            solver_wf(r@),
            r@.all == words.deep_view(),
            r@.poss == words.deep_view(),
            r@.hard == false,
            cons_empty(r@.cons),
    {
        let possible = clone_words(&words);
        let r = WordleSolver {
            all_words: words,
            possible_answers: possible,
            hard_mode: false,
            constraints: HardModeConstraints::new(),
        };
        proof {
            assert forall|i: int| 0 <= i < r@.poss.len() implies r@.all.contains(
                #[trigger] r@.poss[i],
            ) by {
                assert(r@.all[i] == r@.poss[i]);
            }
        }
        r
    }

    /// Switch hard mode on or off.
    pub fn set_hard_mode(&mut self, enabled: bool)
        requires
            solver_wf(old(self)@),
        ensures
            solver_wf(final(self)@),
            final(self)@ == (SolverV { hard: enabled, ..old(self)@ }),
    {
        self.hard_mode = enabled;
    }

    /// Whether hard mode is on.
    pub fn is_hard_mode(&self) -> (r: bool)
        ensures
            r == self@.hard,
    {
        self.hard_mode
    }

    /// The number of candidate answers still possible.
    pub fn remaining_count(&self) -> (r: usize)
        ensures
            r == self@.poss.len(),
    {
        self.possible_answers.len()
    }

    /// The candidate answers still possible.
    pub fn possible_answers(&self) -> (r: &Vec<String>)
        ensures
            r.deep_view() == self@.poss,
    {
        &self.possible_answers
    }

    /// The full word list.
    pub fn all_words(&self) -> (r: &Vec<String>)
        ensures
            r.deep_view() == self@.all,
    {
        &self.all_words
    }

    /// Restore the candidate set to the full word list and clear all
    /// hard-mode constraints.
    pub fn reset(&mut self)
        requires
            solver_wf(old(self)@),
        ensures
            solver_wf(final(self)@),
            final(self)@.all == old(self)@.all,
            final(self)@.poss == old(self)@.all,
            final(self)@.hard == old(self)@.hard,
            cons_empty(final(self)@.cons),
    {
        self.possible_answers = clone_words(&self.all_words);
        self.constraints = HardModeConstraints::new();
        proof {
            assert forall|i: int| 0 <= i < self@.poss.len() implies self@.all.contains(
                #[trigger] self@.poss[i],
            ) by {
                assert(self@.all[i] == self@.poss[i]);
            }
        }
    }

    /// Narrow the candidate set to the words whose own feedback against the
    /// guess is exactly the given pattern; in hard mode, first record the
    /// pattern's hints.  The candidate set never grows.
    pub fn apply_feedback(&mut self, guess: &str, pattern: FeedbackPattern)
        requires
            valid_word(guess@),
            solver_wf(old(self)@),
        ensures
            solver_wf(final(self)@),
            final(self)@.all == old(self)@.all,
            final(self)@.hard == old(self)@.hard,
            final(self)@.poss == filter_matching(old(self)@.poss, guess@, pattern.0 as int),
            final(self)@.poss.len() <= old(self)@.poss.len(),
            final(self)@.cons == if old(self)@.hard {
                cons_update(old(self)@.cons, guess@, pattern.0 as int)
            } else {
                old(self)@.cons
            },
    {
        let ghost s0 = self@;
        let ghost g = guess@;
        let ghost p = pattern.0 as int;
        if self.hard_mode {
            self.constraints.update(guess, pattern);
        }
        let mut kept: Vec<String> = Vec::new();
        let n = self.possible_answers.len();
        let mut i: usize = 0;
        while i < n
            invariant
                valid_word(g),
                g == guess@,
                p == pattern.0 as int,
                n == self.possible_answers@.len(),
                self@.poss == s0.poss,
                0 <= i <= n,
                kept.deep_view() == filter_matching(s0.poss.take(i as int), g, p),
                kept@.len() <= i,
                forall|j: int| 0 <= j < s0.poss.len() ==> valid_word(#[trigger] s0.poss[j]),
            decreases n - i,
        {
            let w = &self.possible_answers[i];
            proof {
                assert(w@ == s0.poss[i as int]);
                assert(valid_word(w@));
            }
            let pat = FeedbackPattern::calculate(guess, w.as_str());
            let ghost prev = kept.deep_view();
            if pat.0 == pattern.0 {
                let w2 = w.clone();
                kept.push(w2);
                proof {
                    assert(kept.deep_view() =~= prev.push(s0.poss[i as int]));
                }
            }
            proof {
                let pv = s0.poss;
                assert(pv.take(i + 1).drop_last() =~= pv.take(i as int));
                assert(pv.take(i + 1).last() == pv[i as int]);
                assert(kept.deep_view() =~= filter_matching(pv.take(i + 1), g, p));
            }
            i += 1;
        }
        proof {
            assert(s0.poss.take(n as int) =~= s0.poss);
        }
        self.possible_answers = kept;
        proof {
            let s1 = self@;
            lemma_filter_matching_props(s0.poss, g, p);
            assert forall|j: int| 0 <= j < s1.poss.len() implies valid_word(#[trigger] s1.poss[j])
                && s1.all.contains(s1.poss[j]) && cons_ok(s1.cons, s1.poss[j]) by {
                let w = s1.poss[j];
                assert(s0.poss.contains(w));
                let k = choose|k: int| 0 <= k < s0.poss.len() && s0.poss[k] == w;
                assert(valid_word(w));
                assert(s0.all.contains(w));
                assert(cons_ok(s0.cons, w));
                if s0.hard {
                    lemma_match_preserves_cons(s0.cons, g, w, p);
                }
            }
        }
    }
}

/// Whether two words hold the same characters.
fn words_equal(a: &str, b: &str) -> (r: bool)
    ensures
        r == (a@ == b@),
{
    let na = a.unicode_len();
    let nb = b.unicode_len();
    if na != nb {
        return false;
    }
    let mut i: usize = 0;
    while i < na
        invariant
            na == a@.len(),
            na == b@.len(),
            0 <= i <= na,
            forall|j: int| 0 <= j < i ==> a@[j] == b@[j],
        decreases na - i,
    {
        if a.get_char(i) != b.get_char(i) {
            return false;
        }
        i += 1;
    }
    proof {
        assert(a@ =~= b@);
    }
    true
}

/// Whether a word list holds a given word.
fn contains_word(v: &Vec<String>, w: &str) -> (r: bool)
    ensures
        r == v.deep_view().contains(w@),
{
    let n = v.len();
    let mut i: usize = 0;
    while i < n
        invariant
            n == v@.len(),
            0 <= i <= n,
            forall|j: int| 0 <= j < i ==> v.deep_view()[j] != w@,
        decreases n - i,
    {
        if words_equal(v[i].as_str(), w) {
            proof {
                assert(v.deep_view()[i as int] == w@);
            }
            return true;
        }
        i += 1;
    }
    proof {
        assert forall|j: int| 0 <= j < v.deep_view().len() implies v.deep_view()[j] != w@ by {}
    }
    false
}

/// The pattern histogram of a guess over a candidate set: how many
/// candidates would answer the guess with each pattern value.
pub open spec fn hist_spec(cands: Seq<Seq<char>>, g: Seq<char>) -> Seq<u32> {
    Seq::new(243, |p: int| filter_matching(cands, g, p).len() as u32)
}

/// The scaled Shannon entropy of a guess over a candidate set: the entropy
/// of its pattern histogram, and zero when at most one candidate remains.
pub open spec fn entropy_spec(cands: Seq<Seq<char>>, g: Seq<char>) -> int {
    if cands.len() <= 1 {
        0
    } else {
        crate::entropy::entropy_of_counts(hist_spec(cands, g), cands.len() as int)
    }
}

/// Entropy is never negative, and the entropy of a guess over a candidate
/// set of at most one word is exactly zero.
pub proof fn lemma_entropy_nonnegative(cands: Seq<Seq<char>>, g: Seq<char>)
    ensures
        entropy_spec(cands, g) >= 0,
        cands.len() <= 1 ==> entropy_spec(cands, g) == 0,
{
    if cands.len() > 1 {
        let h = hist_spec(cands, g);
        assert forall|i: int| 0 <= i < h.len() implies #[trigger] h[i] <= cands.len() as int by {
            lemma_filter_matching_props(cands, g, i);
        }
        crate::entropy::lemma_entropy_of_counts_nonneg(h, cands.len() as int);
    }
}

impl WordleSolver {
    /// The scaled Shannon entropy of one guess over the current candidate
    /// set: the information its feedback is expected to reveal, in units of
    /// `1/1024` bit.  It is never negative, and it is zero when at most one
    /// candidate remains.
    pub fn calculate_entropy_for_word(&self, guess: &str) -> (r: u64)
        requires
            valid_word(guess@),
            solver_wf(self@),
        ensures
            r == entropy_spec(self@.poss, guess@),
            self@.poss.len() <= 1 ==> r == 0,
    {
        let ghost cands = self@.poss;
        let ghost g = guess@;
        let n = self.possible_answers.len();
        if n <= 1 {
            return 0;
        }
        let mut counts: Vec<u32> = vec![0u32; 243];
        let mut i: usize = 0;
        while i < n
            invariant
                valid_word(g),
                g == guess@,
                cands == self@.poss,
                solver_wf(self@),
                n == self@.poss.len(),
                counts@.len() == 243,
                0 <= i <= n,
                forall|p: int|
                    0 <= p < 243 ==> counts@[p] == filter_matching(
                        #[trigger] cands.take(i as int),
                        g,
                        p,
                    ).len(),
            decreases n - i,
        {
            let w = &self.possible_answers[i];
            proof {
                assert(w@ == cands[i as int]);
                assert(valid_word(w@));
            }
            let pat = FeedbackPattern::calculate(guess, w.as_str());
            let idx = pat.0 as usize;
            proof {
                lemma_filter_matching_props(cands.take(i as int), g, pat.0 as int);
                assert(cands.take(i as int).len() == i);
            }
            let prev = counts[idx];
            counts[idx] = prev + 1;
            proof {
                assert forall|p: int| 0 <= p < 243 implies counts@[p] == filter_matching(
                    #[trigger] cands.take(i + 1),
                    g,
                    p,
                ).len() by {
                    assert(cands.take(i + 1).drop_last() =~= cands.take(i as int));
                    assert(cands.take(i + 1).last() == cands[i as int]);
                }
            }
            i += 1;
        }
        proof {
            assert(cands.take(n as int) =~= cands);
            assert forall|j: int| 0 <= j < counts@.len() implies #[trigger] counts@[j]
                <= n as u64 by {
                lemma_filter_matching_props(cands, g, j);
            }
            assert(counts@ =~= hist_spec(cands, g));
        }
        crate::entropy::entropy_from_counts(&counts, n as u64)
    }
}

/// Result of analyzing a potential guess.  Entropy is in units of `1/1024`
/// bit; the expected remaining candidate count is in units of `1/1024`
/// word.
#[derive(Debug, Clone)]
pub struct GuessAnalysis {
    /// The analyzed guess word.
    pub word: String,
    /// The scaled Shannon entropy of the guess's feedback distribution.
    pub entropy: u64,
    /// The scaled expected number of candidates left after the guess.
    pub expected_remaining: u64,
    /// Whether the guess itself is still a possible answer.
    pub is_possible_answer: bool,
}

/// The mathematical content of a guess analysis.
pub struct AnalysisV {
    /// The analyzed guess word.
    pub word: Seq<char>,
    /// Its scaled entropy.
    pub entropy: int,
    /// Its scaled expected remaining candidate count.
    pub expected: int,
    /// Whether it is still a possible answer.
    pub is_possible: bool,
}

impl View for GuessAnalysis {
    type V = AnalysisV;

    open spec fn view(&self) -> AnalysisV {
        AnalysisV {
            word: self.word@,
            entropy: self.entropy as int,
            expected: self.expected_remaining as int,
            is_possible: self.is_possible_answer,
        }
    }
}

/// The analysis record of one guess word over a candidate set.
pub open spec fn analysis_of(cands: Seq<Seq<char>>, w: Seq<char>) -> AnalysisV {
    AnalysisV {
        word: w,
        entropy: entropy_spec(cands, w),
        expected: crate::entropy::expected_spec(cands.len() as int, entropy_spec(cands, w)),
        is_possible: cands.contains(w),
    }
}

impl WordleSolver {
    /// Analyze one guess word over the current candidate set.
    fn analyze_word(&self, word: &str) -> (r: GuessAnalysis)
        requires
            valid_word(word@),
            solver_wf(self@),
        ensures
            r@ == analysis_of(self@.poss, word@),
    {
        let entropy = self.calculate_entropy_for_word(word);
        let n = self.possible_answers.len();
        let expected = crate::entropy::expected_remaining_scaled(n as u64, entropy);
        let is_possible = contains_word(&self.possible_answers, word);
        GuessAnalysis {
            word: String::from_str(word),
            entropy,
            expected_remaining: expected,
            is_possible_answer: is_possible,
        }
    }
}

/// The ranking order on analyses: higher entropy first; at equal entropy a
/// possible answer ranks at least as high as one that is not.
pub open spec fn key_ge(a: AnalysisV, b: AnalysisV) -> bool {
    a.entropy > b.entropy || (a.entropy == b.entropy && (a.is_possible || !b.is_possible))
}

/// A list is ranked when every entry ranks at least as high as each later
/// entry.
pub open spec fn sorted_by_rank(s: Seq<AnalysisV>) -> bool {
    forall|i: int, j: int| 0 <= i < j < s.len() ==> key_ge(s[i], s[j])
}

/// Insert an analysis into a ranked list, after every entry that ranks at
/// least as high.
pub open spec fn insert_ranked(s: Seq<AnalysisV>, x: AnalysisV) -> Seq<AnalysisV>
    decreases s.len(),
{
    if s.len() == 0 {
        seq![x]
    } else if key_ge(s[0], x) {
        seq![s[0]] + insert_ranked(s.drop_first(), x)
    } else {
        seq![x] + s
    }
}

/// The stable ranking of a list of analyses, best first.
pub open spec fn rank_sorted(s: Seq<AnalysisV>) -> Seq<AnalysisV>
    decreases s.len(),
{
    if s.len() == 0 {
        Seq::empty()
    } else {
        insert_ranked(rank_sorted(s.drop_last()), s.last())
    }
}

/// Inserting grows the list by one entry.
proof fn lemma_insert_ranked_len(s: Seq<AnalysisV>, x: AnalysisV)
    ensures
        insert_ranked(s, x).len() == s.len() + 1,
    decreases s.len(),
{
    if s.len() > 0 && key_ge(s[0], x) {
        lemma_insert_ranked_len(s.drop_first(), x);
    }
}

/// Every entry of an insertion is the new analysis or one of the old ones.
proof fn lemma_insert_ranked_elems(s: Seq<AnalysisV>, x: AnalysisV)
    ensures
        forall|i: int|
            0 <= i < insert_ranked(s, x).len() ==> #[trigger] insert_ranked(s, x)[i] == x
                || s.contains(insert_ranked(s, x)[i]),
    decreases s.len(),
{
    let r = insert_ranked(s, x);
    if s.len() == 0 {
    } else if key_ge(s[0], x) {
        lemma_insert_ranked_elems(s.drop_first(), x);
        lemma_insert_ranked_len(s.drop_first(), x);
        assert forall|i: int| 0 <= i < r.len() implies #[trigger] r[i] == x || s.contains(
            r[i],
        ) by {
            if i == 0 {
                assert(s[0] == r[i]);
            } else {
                let rr = insert_ranked(s.drop_first(), x);
                assert(r[i] == rr[i - 1]);
                if rr[i - 1] == x {
                } else {
                    let j = choose|j: int|
                        0 <= j < s.drop_first().len() && s.drop_first()[j] == rr[i - 1];
                    assert(s[j + 1] == rr[i - 1]);
                }
            }
        }
    } else {
        assert forall|i: int| 0 <= i < r.len() implies #[trigger] r[i] == x || s.contains(
            r[i],
        ) by {
            if i > 0 {
                assert(s[i - 1] == r[i]);
            }
        }
    }
}

/// Inserting into a ranked list keeps it ranked.
proof fn lemma_insert_ranked_sorted(s: Seq<AnalysisV>, x: AnalysisV)
    requires
        sorted_by_rank(s),
    ensures
        sorted_by_rank(insert_ranked(s, x)),
    decreases s.len(),
{
    let r = insert_ranked(s, x);
    if s.len() == 0 {
    } else if key_ge(s[0], x) {
        assert(sorted_by_rank(s.drop_first()));
        lemma_insert_ranked_sorted(s.drop_first(), x);
        lemma_insert_ranked_elems(s.drop_first(), x);
        lemma_insert_ranked_len(s.drop_first(), x);
        let rr = insert_ranked(s.drop_first(), x);
        assert forall|i: int, j: int| 0 <= i < j < r.len() implies key_ge(r[i], r[j]) by {
            if i == 0 {
                assert(r[j] == rr[j - 1]);
                if rr[j - 1] == x {
                } else {
                    let m = choose|m: int|
                        0 <= m < s.drop_first().len() && s.drop_first()[m] == rr[j - 1];
                    assert(s[m + 1] == rr[j - 1]);
                }
            } else {
                assert(r[i] == rr[i - 1] && r[j] == rr[j - 1]);
            }
        }
    } else {
        assert forall|i: int, j: int| 0 <= i < j < r.len() implies key_ge(r[i], r[j]) by {
            if i == 0 {
                assert(r[j] == s[j - 1]);
                if j == 1 {
                } else {
                    assert(key_ge(x, s[0]) && key_ge(s[0], s[j - 1]));
                }
            } else {
                assert(r[i] == s[i - 1] && r[j] == s[j - 1]);
            }
        }
    }
}

/// Ranking preserves the number of analyses.
proof fn lemma_rank_sorted_len(s: Seq<AnalysisV>)
    ensures
        rank_sorted(s).len() == s.len(),
    decreases s.len(),
{
    if s.len() > 0 {
        lemma_rank_sorted_len(s.drop_last());
        lemma_insert_ranked_len(rank_sorted(s.drop_last()), s.last());
    }
}

/// Every ranked entry is one of the analyses that went in.
proof fn lemma_rank_sorted_elems(s: Seq<AnalysisV>)
    ensures
        forall|i: int|
            0 <= i < rank_sorted(s).len() ==> s.contains(#[trigger] rank_sorted(s)[i]),
    decreases s.len(),
{
    if s.len() > 0 {
        let prev = rank_sorted(s.drop_last());
        lemma_rank_sorted_elems(s.drop_last());
        lemma_insert_ranked_elems(prev, s.last());
        assert forall|i: int| 0 <= i < rank_sorted(s).len() implies s.contains(
            #[trigger] rank_sorted(s)[i],
        ) by {
            let e = rank_sorted(s)[i];
            if e == s.last() {
                assert(s[s.len() - 1] == e);
            } else {
                assert(prev.contains(e));
                let j = choose|j: int| 0 <= j < prev.len() && prev[j] == e;
                assert(s.drop_last().contains(e));
                let m = choose|m: int| 0 <= m < s.drop_last().len() && s.drop_last()[m] == e;
                assert(s[m] == e);
            }
        }
    }
}

/// The ranking of any list of analyses is ranked.
proof fn lemma_rank_sorted_sorted(s: Seq<AnalysisV>)
    ensures
        sorted_by_rank(rank_sorted(s)),
    decreases s.len(),
{
    if s.len() > 0 {
        lemma_rank_sorted_sorted(s.drop_last());
        lemma_insert_ranked_sorted(rank_sorted(s.drop_last()), s.last());
    }
}

/// Inserting at the first index whose entry ranks below the new analysis is
/// what `insert_ranked` does.
proof fn lemma_insert_ranked_at(s: Seq<AnalysisV>, x: AnalysisV, idx: int)
    requires
        0 <= idx <= s.len(),
        forall|j: int| 0 <= j < idx ==> key_ge(s[j], x),
        idx < s.len() ==> !key_ge(s[idx], x),
    ensures
        insert_ranked(s, x) =~= s.take(idx) + seq![x] + s.skip(idx),
    decreases s.len(),
{
    if s.len() == 0 {
    } else if idx == 0 {
        assert(s.take(0) + seq![x] + s.skip(0) =~= seq![x] + s);
    } else {
        lemma_insert_ranked_at(s.drop_first(), x, idx - 1);
        assert(s.drop_first().take(idx - 1) =~= s.take(idx).drop_first());
        assert(s.drop_first().skip(idx - 1) =~= s.skip(idx));
    }
}

/// The analyses of a list of guess words over a candidate set, in order.
pub open spec fn analyses_of(cands: Seq<Seq<char>>, words: Seq<Seq<char>>) -> Seq<AnalysisV> {
    Seq::new(words.len(), |i: int| analysis_of(cands, words[i]))
}

/// The words of the full list that satisfy the constraints, in order.
pub open spec fn filter_valid(words: Seq<Seq<char>>, c: ConsV) -> Seq<Seq<char>>
    decreases words.len(),
{
    if words.len() == 0 {
        Seq::empty()
    } else {
        filter_valid(words.drop_last(), c) + if cons_ok(c, words.last()) {
            seq![words.last()]
        } else {
            Seq::empty()
        }
    }
}

/// Filtering by constraints keeps a sublist: bounded length, every kept
/// word from the list and satisfying the constraints.
pub proof fn lemma_filter_valid_props(words: Seq<Seq<char>>, c: ConsV)
    ensures
        filter_valid(words, c).len() <= words.len(),
        forall|i: int|
            0 <= i < filter_valid(words, c).len() ==> words.contains(
                #[trigger] filter_valid(words, c)[i],
            ) && cons_ok(c, filter_valid(words, c)[i]),
    decreases words.len(),
{
    if words.len() > 0 {
        let f = filter_valid(words, c);
        let fp = filter_valid(words.drop_last(), c);
        lemma_filter_valid_props(words.drop_last(), c);
        assert forall|i: int| 0 <= i < f.len() implies words.contains(#[trigger] f[i])
            && cons_ok(c, f[i]) by {
            if i < fp.len() {
                assert(fp.contains(fp[i]));
                let j = choose|j: int|
                    0 <= j < words.drop_last().len() && words.drop_last()[j] == fp[i];
                assert(words[j] == fp[i]);
            } else {
                assert(f[i] == words.last());
                assert(words[words.len() - 1] == words.last());
            }
        }
    }
}

/// The words eligible to be suggested: the full list, except that in hard
/// mode with non-empty constraints only the words satisfying them remain.
pub open spec fn eligible_spec(s: SolverV) -> Seq<Seq<char>> {
    if s.hard && !cons_empty(s.cons) {
        filter_valid(s.all, s.cons)
    } else {
        s.all
    }
}

/// The ranked analyses that `find_best_guesses` returns: nothing when no
/// candidate remains; the single candidate (entropy zero) when one remains;
/// either of the two (exactly one bit, one expected survivor) when two
/// remain; otherwise the `n` best-ranked analyses of every eligible word.
pub open spec fn ranked_spec(s: SolverV, n: int) -> Seq<AnalysisV> {
    if s.poss.len() == 0 {
        Seq::empty()
    } else if s.poss.len() == 1 {
        seq![AnalysisV { word: s.poss[0], entropy: 0, expected: 1024, is_possible: true }]
    } else if s.poss.len() == 2 {
        seq![AnalysisV { word: s.poss[0], entropy: 1024, expected: 1024, is_possible: true }]
    } else {
        let all = rank_sorted(analyses_of(s.poss, eligible_spec(s)));
        if n <= all.len() {
            all.take(n)
        } else {
            all
        }
    }
}

/// Whether one analysis ranks at least as high as another.
fn rank_at_least(a: &GuessAnalysis, b: &GuessAnalysis) -> (r: bool)
    ensures
        r == key_ge(a@, b@),
{
    a.entropy > b.entropy || (a.entropy == b.entropy && (a.is_possible_answer
        || !b.is_possible_answer))
}

/// Duplicate one analysis record.
fn clone_analysis(a: &GuessAnalysis) -> (r: GuessAnalysis)
    ensures
        r@ == a@,
{
    GuessAnalysis {
        word: a.word.clone(),
        entropy: a.entropy,
        expected_remaining: a.expected_remaining,
        is_possible_answer: a.is_possible_answer,
    }
}

/// The analysis views of a list of analysis records.
pub open spec fn avs(s: Seq<GuessAnalysis>) -> Seq<AnalysisV> {
    Seq::new(s.len(), |i: int| s[i]@)
}

/// Sort analysis records by the ranking order, best first, stably.
fn sort_analyses(input: &Vec<GuessAnalysis>) -> (r: Vec<GuessAnalysis>)
    ensures
        avs(r@) == rank_sorted(avs(input@)),
{
    let n = input.len();
    let mut out: Vec<GuessAnalysis> = Vec::new();
    let mut i: usize = 0;
    while i < n
        invariant
            n == input@.len(),
            0 <= i <= n,
            avs(out@) == rank_sorted(avs(input@).take(i as int)),
            out@.len() == i,
            sorted_by_rank(avs(out@)),
        decreases n - i,
    {
        let x = clone_analysis(&input[i]);
        let mut idx: usize = 0;
        while idx < out.len() && rank_at_least(&out[idx], &x)
            invariant
                0 <= idx <= out@.len(),
                forall|j: int| 0 <= j < idx ==> key_ge(avs(out@)[j], x@),
            decreases out@.len() - idx,
        {
            idx += 1;
        }
        let ghost prev = avs(out@);
        out.insert(idx, x);
        proof {
            lemma_insert_ranked_at(prev, x@, idx as int);
            assert(avs(out@) =~= prev.take(idx as int) + seq![x@] + prev.skip(idx as int));
            assert(avs(out@) == insert_ranked(prev, x@));
            assert(avs(input@).take(i + 1).drop_last() =~= avs(input@).take(i as int));
            assert(avs(input@).take(i + 1).last() == avs(input@)[i as int]);
            assert(avs(input@)[i as int] == x@);
            assert(avs(out@) == rank_sorted(avs(input@).take(i + 1)));
            lemma_insert_ranked_sorted(prev, x@);
            lemma_insert_ranked_len(prev, x@);
        }
        i += 1;
    }
    proof {
        assert(avs(input@).take(n as int) =~= avs(input@));
    }
    out
}

impl WordleSolver {
    /// The words eligible as suggestions: the whole list, or in hard mode
    /// with recorded constraints, only the words satisfying them.
    fn valid_guesses(&self) -> (r: Vec<String>)
        requires
            solver_wf(self@),
        ensures
            r.deep_view() == eligible_spec(self@),
            r@.len() <= self@.all.len(),
            forall|i: int| 0 <= i < r@.len() ==> valid_word(#[trigger] r.deep_view()[i]),
    {
        let ghost s = self@;
        if self.hard_mode && !self.constraints.is_empty() {
            let mut out: Vec<String> = Vec::new();
            let n = self.all_words.len();
            let mut i: usize = 0;
            while i < n
                invariant
                    solver_wf(s),
                    s == self@,
                    n == self@.all.len(),
                    0 <= i <= n,
                    out@.len() <= i,
                    out.deep_view() == filter_valid(s.all.take(i as int), s.cons),
                decreases n - i,
            {
                let w = &self.all_words[i];
                proof {
                    assert(w@ == s.all[i as int]);
                    assert(valid_word(w@));
                }
                let ghost prev = out.deep_view();
                if self.constraints.is_valid(w.as_str()) {
                    let w2 = w.clone();
                    out.push(w2);
                    proof {
                        assert(out.deep_view() =~= prev.push(s.all[i as int]));
                    }
                }
                proof {
                    let av = s.all;
                    assert(av.take(i + 1).drop_last() =~= av.take(i as int));
                    assert(av.take(i + 1).last() == av[i as int]);
                    assert(out.deep_view() =~= filter_valid(av.take(i + 1), s.cons));
                }
                i += 1;
            }
            proof {
                assert(s.all.take(n as int) =~= s.all);
                lemma_filter_valid_props(s.all, s.cons);
                assert forall|i: int| 0 <= i < out@.len() implies valid_word(
                    #[trigger] out.deep_view()[i],
                ) by {
                    assert(s.all.contains(out.deep_view()[i]));
                    let j = choose|j: int| 0 <= j < s.all.len() && s.all[j] == out.deep_view()[i];
                }
            }
            out
        } else {
            clone_words(&self.all_words)
        }
    }
}

impl WordleSolver {
    /// Rank every eligible guess by entropy, best first, and return the top
    /// `n` analyses.  With no candidate left the result is empty; with one
    /// or two candidates the answer is immediate and no search is run.
    /// The result is always ranked: entropies are non-increasing, and at
    /// equal entropy a possible answer never follows an impossible one.
    pub fn find_best_guesses(&self, n: usize) -> (r: Vec<GuessAnalysis>)
        requires
            solver_wf(self@),
        ensures
            r@.len() == ranked_spec(self@, n as int).len(),
            forall|i: int| 0 <= i < r@.len() ==> #[trigger] r@[i]@ == ranked_spec(self@, n as int)[i],
    {
        let ghost s = self@;
        let ghost nn = n as int;
        let m = self.possible_answers.len();
        if m == 0 {
            return Vec::new();
        }
        if m <= 2 {
            let w = self.possible_answers[0].clone();
            proof {
                assert(w@ == s.poss[0]);
            }
            let a = GuessAnalysis {
                word: w,
                entropy: if m == 1 {
                    0
                } else {
                    1024
                },
                expected_remaining: 1024,
                is_possible_answer: true,
            };
            let mut r: Vec<GuessAnalysis> = Vec::new();
            r.push(a);
            proof {
                assert(r@[0]@ == ranked_spec(s, nn)[0]);
            }
            return r;
        }
        let eligible = self.valid_guesses();
        let f = (|w: &String| -> (a: GuessAnalysis)
            requires
                valid_word(w@),
                solver_wf(self@),
            ensures
                a@ == analysis_of(self@.poss, w@),
            {
                self.analyze_word(w.as_str())
            });
        proof {
            assert forall|i: int| 0 <= i < eligible@.len() implies call_requires(
                f,
                (&eligible@[i],),
            ) by {
                assert(valid_word(eligible.deep_view()[i]));
                assert(eligible@[i]@ == eligible.deep_view()[i]);
            }
        }
        let analyses = crate::par::par_map(&eligible, f);
        proof {
            assert forall|i: int| 0 <= i < analyses@.len() implies avs(analyses@)[i]
                == analyses_of(s.poss, eligible.deep_view())[i] by {
                assert(0 <= i < eligible@.len());
                assert(call_ensures(f, (&eligible@[i],), analyses@[i]));
            }
            assert(avs(analyses@) =~= analyses_of(s.poss, eligible.deep_view()));
        }
        let mut result = sort_analyses(&analyses);
        let ghost full = rank_sorted(analyses_of(s.poss, eligible_spec(s)));
        result.truncate(n);
        proof {
            if nn <= full.len() {
                assert(result@.len() == ranked_spec(s, nn).len());
                assert forall|i: int| 0 <= i < result@.len() implies #[trigger] result@[i]@
                    == ranked_spec(s, nn)[i] by {
                    assert(result@[i]@ == avs(result@)[i]);
                    assert(avs(result@) =~= full.take(nn));
                }
            } else {
                assert forall|i: int| 0 <= i < result@.len() implies #[trigger] result@[i]@
                    == ranked_spec(s, nn)[i] by {
                    assert(result@[i]@ == avs(result@)[i]);
                }
            }
        }
        result
    }

    /// The single best-ranked guess, or `None` exactly when no candidate
    /// remains.
    pub fn find_best_guess(&self) -> (r: Option<GuessAnalysis>)
        requires
            solver_wf(self@),
        ensures
            (r is Some) == (self@.poss.len() > 0),
            r matches Some(a) ==> a@ == ranked_spec(self@, 1)[0],
    {
        let mut best = self.find_best_guesses(1);
        proof {
            if self@.poss.len() > 0 {
                assert(ranked_spec(self@, 1).len() > 0) by {
                    if self@.poss.len() > 2 {
                        lemma_rank_sorted_len(analyses_of(self@.poss, eligible_spec(self@)));
                        lemma_eligible_superset_of_possible(self@);
                    }
                }
            }
        }
        if best.len() == 0 {
            None
        } else {
            let a = best.remove(0);
            Some(a)
        }
    }

    /// The top `n` ranked guesses.
    pub fn get_top_guesses(&self, n: usize) -> (r: Vec<GuessAnalysis>)
        requires
            solver_wf(self@),
        ensures
            r@.len() == ranked_spec(self@, n as int).len(),
            forall|i: int| 0 <= i < r@.len() ==> #[trigger] r@[i]@ == ranked_spec(self@, n as int)[i],
    {
        self.find_best_guesses(n)
    }
}

/// With candidates left, some guess is always eligible: every candidate
/// satisfies the accumulated constraints, so the ranking is never empty.
pub proof fn lemma_eligible_superset_of_possible(s: SolverV)
    requires
        solver_wf(s),
    ensures
        s.poss.len() > 0 ==> eligible_spec(s).len() > 0,
{
    if s.poss.len() > 0 {
        let w = s.poss[0];
        assert(s.all.contains(w));
        assert(cons_ok(s.cons, w));
        if s.hard && !cons_empty(s.cons) {
            lemma_filter_valid_keeps_member(s.all, s.cons, w);
        } else {
            let j = choose|j: int| 0 <= j < s.all.len() && s.all[j] == w;
        }
    }
}

/// A word of the list that satisfies the constraints survives the filter.
proof fn lemma_filter_valid_keeps_member(all: Seq<Seq<char>>, c: ConsV, w: Seq<char>)
    requires
        all.contains(w),
        cons_ok(c, w),
    ensures
        filter_valid(all, c).len() > 0,
    decreases all.len(),
{
    if all.len() > 0 {
        if all.last() == w {
        } else {
            assert(all.drop_last().contains(w)) by {
                let j = choose|j: int| 0 <= j < all.len() && all[j] == w;
                assert(all.drop_last()[j] == w);
            }
            lemma_filter_valid_keeps_member(all.drop_last(), c, w);
        }
    }
}

/// Ranking results are sorted: entropies never increase along the list,
/// and at equal entropy a guess that is a possible answer never follows
/// one that is not.
pub proof fn lemma_ranked_results_sorted(s: SolverV, n: int)
    requires
        solver_wf(s),
        0 <= n,
    ensures
        sorted_by_rank(ranked_spec(s, n)),
{
    if s.poss.len() > 2 {
        let a = analyses_of(s.poss, eligible_spec(s));
        lemma_rank_sorted_sorted(a);
        lemma_rank_sorted_len(a);
        let full = rank_sorted(a);
        let r = ranked_spec(s, n);
        assert forall|i: int, j: int| 0 <= i < j < r.len() implies key_ge(r[i], r[j]) by {
            assert(r[i] == full[i] && r[j] == full[j]);
        }
    }
}

/// Every ranked guess word is a valid word of the dictionary's alphabet.
pub proof fn lemma_ranked_words_valid(s: SolverV, n: int)
    requires
        solver_wf(s),
        0 <= n,
    ensures
        forall|i: int|
            0 <= i < ranked_spec(s, n).len() ==> valid_word(#[trigger] ranked_spec(s, n)[i].word),
{
    let r = ranked_spec(s, n);
    if s.poss.len() == 0 {
    } else if s.poss.len() <= 2 {
        assert(r[0].word == s.poss[0]);
    } else {
        let e = eligible_spec(s);
        let a = analyses_of(s.poss, e);
        let full = rank_sorted(a);
        lemma_rank_sorted_elems(a);
        lemma_rank_sorted_len(a);
        if s.hard && !cons_empty(s.cons) {
            lemma_filter_valid_props(s.all, s.cons);
        }
        assert forall|i: int| 0 <= i < r.len() implies valid_word(
            #[trigger] r[i].word,
        ) by {
            assert(r[i] == full[i]);
            assert(a.contains(full[i]));
            let j = choose|j: int| 0 <= j < a.len() && a[j] == full[i];
            assert(a[j] == analysis_of(s.poss, e[j]));
            assert(r[i].word == e[j]);
            if s.hard && !cons_empty(s.cons) {
                assert(s.all.contains(e[j]));
                let m = choose|m: int| 0 <= m < s.all.len() && s.all[m] == e[j];
                assert(valid_word(s.all[m]));
            } else {
                assert(e[j] == s.all[j]);
            }
        }
    }
}

/// With hard mode on, every ranked guess satisfies the accumulated
/// constraints: it keeps every revealed correct letter in place and
/// contains every revealed present letter.
pub proof fn lemma_ranked_guesses_satisfy_constraints(s: SolverV, n: int)
    requires
        solver_wf(s),
        s.hard,
        0 <= n,
    ensures
        forall|i: int|
            0 <= i < ranked_spec(s, n).len() ==> cons_ok(
                s.cons,
                #[trigger] ranked_spec(s, n)[i].word,
            ),
{
    let r = ranked_spec(s, n);
    if s.poss.len() == 0 {
    } else if s.poss.len() <= 2 {
        assert(r[0].word == s.poss[0]);
        assert(cons_ok(s.cons, s.poss[0]));
    } else {
        let e = eligible_spec(s);
        let a = analyses_of(s.poss, e);
        let full = rank_sorted(a);
        lemma_rank_sorted_elems(a);
        lemma_rank_sorted_len(a);
        if !cons_empty(s.cons) {
            lemma_filter_valid_props(s.all, s.cons);
        }
        assert forall|i: int| 0 <= i < r.len() implies cons_ok(
            s.cons,
            #[trigger] r[i].word,
        ) by {
            assert(r[i] == full[i]);
            assert(a.contains(full[i]));
            let j = choose|j: int| 0 <= j < a.len() && a[j] == full[i];
            assert(a[j] == analysis_of(s.poss, e[j]));
            assert(r[i].word == e[j]);
            if !cons_empty(s.cons) {
                assert(cons_ok(s.cons, e[j]));
            } else {
                assert(cons_ok(s.cons, e[j]));
            }
        }
    }
}

/// The word of the single best-ranked guess.
pub open spec fn best_word_spec(s: SolverV) -> Seq<char> {
    ranked_spec(s, 1)[0].word
}

/// The solver state after one feedback application.
pub open spec fn apply_spec(s: SolverV, g: Seq<char>, p: int) -> SolverV {
    SolverV {
        all: s.all,
        poss: filter_matching(s.poss, g, p),
        hard: s.hard,
        cons: if s.hard {
            cons_update(s.cons, g, p)
        } else {
            s.cons
        },
    }
}

/// Whether a recorded run is a faithful solve trace from a state, with the
/// given number of rounds left: while rounds and candidates remain, the
/// best-ranked guess is recorded with the oracle's pattern; a winning
/// pattern ends the run at once, any other is applied and the run goes on.
pub open spec fn is_trace(s: SolverV, tr: Seq<(Seq<char>, int)>, fuel: nat) -> bool
    decreases fuel,
{
    if fuel == 0 || s.poss.len() == 0 {
        tr.len() == 0
    } else {
        tr.len() > 0 && tr[0].0 == best_word_spec(s) && (if tr[0].1
            == FeedbackPattern::all_correct_spec() {
            tr.len() == 1
        } else {
            is_trace(apply_spec(s, tr[0].0, tr[0].1), tr.drop_first(), (fuel - 1) as nat)
        })
    }
}

/// The mathematical content of a recorded run.
pub open spec fn trace_of(r: Seq<(String, FeedbackPattern)>) -> Seq<(Seq<char>, int)> {
    Seq::new(r.len(), |i: int| (r[i].0@, r[i].1.0 as int))
}

/// Whether a recorded pair is a possible question-and-answer of the
/// feedback source: the source, called on the recorded guess, can return
/// the recorded pattern.
pub open spec fn oracle_ok<F: Fn(&str) -> FeedbackPattern>(
    f: F,
    entry: (String, FeedbackPattern),
) -> bool {
    exists|g: &str| g@ == entry.0@ && call_ensures(f, (g,), entry.1)
}

impl WordleSolver {
    /// Run up to six rounds, each asking the feedback source for the
    /// pattern of the best-ranked guess, recording the pair, stopping at
    /// once on a winning pattern and otherwise applying the feedback.  The
    /// run also stops early when no candidate remains.
    pub fn solve_with_feedback<F: Fn(&str) -> FeedbackPattern>(&mut self, get_feedback: F) -> (r:
        Vec<(String, FeedbackPattern)>)
        requires
            solver_wf(old(self)@),
            forall|w: &str| valid_word(w@) ==> call_requires(get_feedback, (w,)),
        ensures
            solver_wf(final(self)@),
            r@.len() <= 6,
            is_trace(old(self)@, trace_of(r@), 6),
            forall|i: int| 0 <= i < r@.len() ==> valid_word(#[trigger] r@[i].0@),
            forall|i: int| 0 <= i < r@.len() ==> oracle_ok(get_feedback, #[trigger] r@[i]),
    {
        let ghost s0 = self@;
        let mut guesses: Vec<(String, FeedbackPattern)> = Vec::new();
        let mut round: usize = 0;
        proof {
            assert forall|tr2: Seq<(Seq<char>, int)>|
                is_trace(self@, tr2, (6 - round) as nat) implies #[trigger] is_trace(
                s0,
                trace_of(guesses@) + tr2,
                6,
            ) by {
                assert(trace_of(guesses@) + tr2 =~= tr2);
            }
        }
        while round < 6
            invariant
                s0 == old(self)@,
                solver_wf(self@),
                0 <= round <= 6,
                guesses@.len() == round,
                forall|w: &str| valid_word(w@) ==> call_requires(get_feedback, (w,)),
                forall|i: int| 0 <= i < guesses@.len() ==> valid_word(#[trigger] guesses@[i].0@),
                forall|i: int|
                    0 <= i < guesses@.len() ==> oracle_ok(get_feedback, #[trigger] guesses@[i]),
                forall|tr2: Seq<(Seq<char>, int)>|
                    is_trace(self@, tr2, (6 - round) as nat) ==> #[trigger] is_trace(
                        s0,
                        trace_of(guesses@) + tr2,
                        6,
                    ),
            decreases 6 - round,
        {
            let ghost cur = self@;
            let best_opt = self.find_best_guess();
            let best = match best_opt {
                Some(b) => b,
                None => {
                    proof {
                        let tr2 = Seq::<(Seq<char>, int)>::empty();
                        assert(is_trace(self@, tr2, (6 - round) as nat));
                        assert(is_trace(s0, trace_of(guesses@) + tr2, 6));
                        assert(trace_of(guesses@) + tr2 =~= trace_of(guesses@));
                    }
                    return guesses;
                },
            };
            proof {
                lemma_ranked_words_valid(cur, 1);
                if cur.poss.len() > 2 {
                    lemma_rank_sorted_len(analyses_of(cur.poss, eligible_spec(cur)));
                    lemma_eligible_superset_of_possible(cur);
                }
                assert(ranked_spec(cur, 1).len() > 0);
                assert(best@.word == best_word_spec(cur));
                assert(valid_word(ranked_spec(cur, 1)[0].word));
                assert(valid_word(best.word@));
            }
            let wstr = best.word.as_str();
            let pattern = get_feedback(wstr);
            let ghost g = best.word@;
            let ghost p = pattern.0 as int;
            let win = pattern.is_win();
            let word_copy = best.word.clone();
            let ghost prev_guesses = guesses@;
            guesses.push((word_copy, pattern));
            proof {
                assert(call_ensures(get_feedback, (wstr,), pattern));
                assert forall|i: int| 0 <= i < guesses@.len() implies oracle_ok(
                    get_feedback,
                    #[trigger] guesses@[i],
                ) by {
                    if i == guesses@.len() - 1 {
                        assert(wstr@ == guesses@[i].0@ && call_ensures(
                            get_feedback,
                            (wstr,),
                            guesses@[i].1,
                        ));
                    } else {
                        assert(guesses@[i] == prev_guesses[i]);
                        assert(oracle_ok(get_feedback, prev_guesses[i]));
                    }
                }
            }
            if win {
                proof {
                    let tr2 = seq![(g, p)];
                    assert(is_trace(cur, tr2, (6 - round) as nat));
                    assert(is_trace(s0, trace_of(prev_guesses) + tr2, 6));
                    assert(trace_of(prev_guesses) =~= trace_of(guesses@.drop_last()));
                    assert(trace_of(guesses@) =~= trace_of(prev_guesses) + tr2);
                }
                return guesses;
            }
            self.apply_feedback(best.word.as_str(), pattern);
            proof {
                assert(self@ == apply_spec(cur, g, p));
                assert forall|tr2: Seq<(Seq<char>, int)>|
                    is_trace(self@, tr2, (6 - (round + 1)) as nat) implies #[trigger] is_trace(
                    s0,
                    trace_of(guesses@) + tr2,
                    6,
                ) by {
                    let step = seq![(g, p)];
                    let tr1 = step + tr2;
                    assert(tr1.drop_first() =~= tr2);
                    assert(is_trace(cur, tr1, (6 - round) as nat));
                    assert(is_trace(s0, trace_of(prev_guesses) + tr1, 6));
                    assert(trace_of(prev_guesses) + tr1 =~= trace_of(guesses@) + tr2);
                }
            }
            round += 1;
        }
        proof {
            let tr2 = Seq::<(Seq<char>, int)>::empty();
            assert(is_trace(self@, tr2, 0));
            assert(is_trace(s0, trace_of(guesses@) + tr2, 6));
            assert(trace_of(guesses@) + tr2 =~= trace_of(guesses@));
        }
        guesses
    }
}

/// The full solve trace against a known target: each round guesses the
/// best-ranked word and receives its true pattern against the target.
pub open spec fn solve_trace_spec(s: SolverV, target: Seq<char>, fuel: nat) -> Seq<
    (Seq<char>, int),
>
    decreases fuel,
{
    if fuel == 0 || s.poss.len() == 0 {
        Seq::empty()
    } else {
        let g = best_word_spec(s);
        let p = pattern_spec(g, target);
        seq![(g, p)] + (if p == FeedbackPattern::all_correct_spec() {
            Seq::<(Seq<char>, int)>::empty()
        } else {
            solve_trace_spec(apply_spec(s, g, p), target, (fuel - 1) as nat)
        })
    }
}

/// A trace whose patterns are the true patterns against a target is the
/// unique solve trace for that target.
proof fn lemma_trace_unique(
    s: SolverV,
    tr: Seq<(Seq<char>, int)>,
    target: Seq<char>,
    fuel: nat,
)
    requires
        is_trace(s, tr, fuel),
        forall|i: int| 0 <= i < tr.len() ==> #[trigger] tr[i].1 == pattern_spec(tr[i].0, target),
    ensures
        tr == solve_trace_spec(s, target, fuel),
    decreases fuel,
{
    if fuel == 0 || s.poss.len() == 0 {
        assert(tr =~= solve_trace_spec(s, target, fuel));
    } else {
        let g = best_word_spec(s);
        let p = pattern_spec(g, target);
        assert(tr[0].0 == g);
        assert(tr[0].1 == p);
        if p == FeedbackPattern::all_correct_spec() {
            assert(tr =~= solve_trace_spec(s, target, fuel));
        } else {
            let rest = tr.drop_first();
            assert forall|i: int| 0 <= i < rest.len() implies #[trigger] rest[i].1
                == pattern_spec(rest[i].0, target) by {
                assert(rest[i] == tr[i + 1]);
            }
            lemma_trace_unique(apply_spec(s, g, p), rest, target, (fuel - 1) as nat);
            assert(tr =~= seq![(g, p)] + rest);
        }
    }
}

impl WordleSolver {
    /// Solve against a known target: the oracle answers each guess with its
    /// true pattern.  The run is exactly the solve trace for the target.
    pub fn solve_for_target(&mut self, target: &str) -> (r: Vec<(String, FeedbackPattern)>)
        requires
            valid_word(target@),
            solver_wf(old(self)@),
        ensures
            solver_wf(final(self)@),
            r@.len() <= 6,
            trace_of(r@) == solve_trace_spec(old(self)@, target@, 6),
            forall|i: int| 0 <= i < r@.len() ==> valid_word(#[trigger] r@[i].0@),
            forall|i: int|
                0 <= i < r@.len() ==> (#[trigger] r@[i].1).0 == pattern_spec(r@[i].0@, target@),
    {
        let ghost s0 = self@;
        let f = (|g: &str| -> (p: FeedbackPattern)
            requires
                valid_word(g@),
            ensures
                p.0 == pattern_spec(g@, target@),
            {
                FeedbackPattern::calculate(g, target)
            });
        let r = self.solve_with_feedback(f);
        proof {
            assert forall|i: int| 0 <= i < r@.len() implies (#[trigger] r@[i].1).0
                == pattern_spec(r@[i].0@, target@) by {
                assert(oracle_ok(f, r@[i]));
                let g = choose|g: &str| g@ == r@[i].0@ && call_ensures(f, (g,), r@[i].1);
            }
            let tr = trace_of(r@);
            assert forall|i: int| 0 <= i < tr.len() implies #[trigger] tr[i].1 == pattern_spec(
                tr[i].0,
                target@,
            ) by {
                assert(tr[i].0 == r@[i].0@ && tr[i].1 == r@[i].1.0 as int);
            }
            lemma_trace_unique(s0, tr, target@, 6);
        }
        r
    }
}

/// The number of guesses a fresh simulation of this solver records when
/// solving for one target.
pub open spec fn solve_len_spec(s: SolverV, target: Seq<char>) -> int {
    solve_trace_spec(s, target, 6).len() as int
}

/// The per-target guess counts of a benchmark over the full word list.
pub open spec fn bench_counts_spec(s: SolverV) -> Seq<usize> {
    Seq::new(s.all.len(), |i: int| solve_len_spec(s, s.all[i]) as usize)
}

/// The sum of the first `upto` guess counts.
pub open spec fn sum_counts(c: Seq<usize>, upto: int) -> int
    decreases upto,
{
    if upto <= 0 {
        0
    } else {
        sum_counts(c, upto - 1) + c[upto - 1]
    }
}

/// How many of the first `upto` counts equal `v`.
pub open spec fn count_eq(c: Seq<usize>, v: int, upto: int) -> int
    decreases upto,
{
    if upto <= 0 {
        0
    } else {
        count_eq(c, v, upto - 1) + if c[upto - 1] == v {
            1int
        } else {
            0int
        }
    }
}

/// The distribution pairs for guess counts below `g`: each count value that
/// occurs, in increasing order, with the number of words taking that many
/// guesses.
pub open spec fn dist_up(c: Seq<usize>, g: int) -> Seq<(usize, usize)>
    decreases g,
{
    if g <= 0 {
        Seq::empty()
    } else {
        dist_up(c, g - 1) + if count_eq(c, g - 1, c.len() as int) > 0 {
            seq![((g - 1) as usize, count_eq(c, g - 1, c.len() as int) as usize)]
        } else {
            Seq::empty()
        }
    }
}

impl WordleSolver {
    /// Solve for one target on a private copy of this solver and return the
    /// number of guesses recorded.
    fn solve_count_for(&self, target: &str) -> (r: usize)
        requires
            valid_word(target@),
            solver_wf(self@),
        ensures
            r == solve_len_spec(self@, target@),
            r <= 6,
    {
        let mut sim = self.clone();
        let guesses = sim.solve_for_target(target);
        proof {
            assert(trace_of(guesses@).len() == guesses@.len());
        }
        guesses.len()
    }

    /// The guess count of an independent solve run for every word of the
    /// full list, in the list's order.
    fn benchmark_counts(&self) -> (r: Vec<usize>)
        requires
            solver_wf(self@),
        ensures
            r@ == bench_counts_spec(self@),
            forall|i: int| 0 <= i < r@.len() ==> #[trigger] r@[i] <= 6,
    {
        let ghost s = self@;
        let f = (|t: &String| -> (c: usize)
            requires
                valid_word(t@),
                solver_wf(self@),
            ensures
                c == solve_len_spec(self@, t@),
                c <= 6,
            {
                self.solve_count_for(t.as_str())
            });
        proof {
            assert forall|i: int| 0 <= i < self.all_words@.len() implies call_requires(
                f,
                (&self.all_words@[i],),
            ) by {
                assert(valid_word(s.all[i]));
                assert(self.all_words@[i]@ == s.all[i]);
            }
        }
        let counts = crate::par::par_map(&self.all_words, f);
        proof {
            assert forall|i: int| 0 <= i < counts@.len() implies #[trigger] counts@[i]
                == bench_counts_spec(s)[i] && counts@[i] <= 6 by {
                assert(call_ensures(f, (&self.all_words@[i],), counts@[i]));
                assert(self.all_words@[i]@ == s.all[i]);
            }
            assert(counts@ =~= bench_counts_spec(s));
        }
        counts
    }

    /// The average number of guesses over a benchmark of every word in the
    /// full list, scaled by `1024`: the total guess count times `1024`,
    /// divided by the number of words.
    pub fn benchmark_average_guesses(&self) -> (r: u64)
        requires
            solver_wf(self@),
            self@.all.len() >= 1,
        ensures
            r == (sum_counts(bench_counts_spec(self@), self@.all.len() as int) * 1024) / (
            self@.all.len() as int),
    {
        let ghost s = self@;
        let counts = self.benchmark_counts();
        let n = counts.len();
        let mut total: u64 = 0;
        let mut i: usize = 0;
        while i < n
            invariant
                counts@ == bench_counts_spec(s),
                forall|j: int| 0 <= j < counts@.len() ==> #[trigger] counts@[j] <= 6,
                n == counts@.len(),
                n <= crate::entropy::MAX_WORDS,
                0 <= i <= n,
                total == sum_counts(counts@, i as int),
                total <= 6 * i,
            decreases n - i,
        {
            total = total + counts[i] as u64;
            i += 1;
        }
        (total * 1024) / (n as u64)
    }

    /// The distribution of guess counts over a benchmark of every word in
    /// the full list: for each guess count that occurs, in increasing
    /// order, the number of words solved in that many guesses.
    pub fn benchmark_guess_distribution(&self) -> (r: Vec<(usize, usize)>)
        requires
            solver_wf(self@),
        ensures
            r@ == dist_up(bench_counts_spec(self@), 7),
    {
        let ghost s = self@;
        let counts = self.benchmark_counts();
        let n = counts.len();
        let mut dist: Vec<(usize, usize)> = Vec::new();
        let mut g: usize = 0;
        while g < 7
            invariant
                counts@ == bench_counts_spec(s),
                n == counts@.len(),
                n <= crate::entropy::MAX_WORDS,
                0 <= g <= 7,
                dist@ == dist_up(counts@, g as int),
            decreases 7 - g,
        {
            let mut cnt: usize = 0;
            let mut i: usize = 0;
            while i < n
                invariant
                    n == counts@.len(),
                    n <= crate::entropy::MAX_WORDS,
                    0 <= i <= n,
                    cnt == count_eq(counts@, g as int, i as int),
                    cnt <= i,
                decreases n - i,
            {
                if counts[i] == g {
                    cnt += 1;
                }
                i += 1;
            }
            let ghost prev = dist@;
            if cnt > 0 {
                dist.push((g, cnt));
                proof {
                    assert(dist@ =~= prev + seq![(g, cnt)]);
                }
            }
            proof {
                assert(dist@ =~= dist_up(counts@, g as int + 1));
            }
            g += 1;
        }
        dist
    }
}

} // verus!
