//! Feedback patterns for guesses: the per-letter classification of a guess
//! against a target, and its compact base-3 integer encoding.

use vstd::prelude::*;
use crate::WORD_LENGTH;
use crate::valid_word;

verus! {

/// The feedback for a single letter position.
#[derive(Debug, Clone, Copy, PartialEq, Eq, Structural, Hash)]
pub enum Feedback {
    /// Correct letter in the correct position.
    Correct,
    /// Letter is in the word but in the wrong position.
    Present,
    /// Letter is not in the word (or all its occurrences are accounted for).
    Absent,
}

/// The display glyph for a single feedback value.
pub open spec fn glyph_spec(f: Feedback) -> char {
    match f {
        Feedback::Correct => '🟩',
        Feedback::Present => '🟨',
        Feedback::Absent => '⬛',
    }
}

/// The feedback value named by a single pattern-text character, if any:
/// letter codes for correct/present/absent or the digit codes 2/1/0,
/// case-insensitive.
pub open spec fn from_char_spec(c: char) -> Option<Feedback> {
    if c == 'g' || c == 'G' || c == '2' {
        Some(Feedback::Correct)
    } else if c == 'y' || c == 'Y' || c == '1' {
        Some(Feedback::Present)
    } else if c == 'b' || c == 'B' || c == 'x' || c == 'X' || c == '0' {
        Some(Feedback::Absent)
    } else {
        None
    }
}

impl Feedback {
    /// Convert to a character for display.
    pub fn to_char(self) -> (r: char)
        ensures
            r == glyph_spec(self),
    {
        match self {
            Feedback::Correct => '🟩',
            Feedback::Present => '🟨',
            Feedback::Absent => '⬛',
        }
    }

    /// Parse from a character: a letter code for each feedback value, or the
    /// digit codes 2/1/0, case-insensitive.
    pub fn from_char(c: char) -> (r: Option<Self>)
        ensures
            r == from_char_spec(c),
    {
        match c {
            'g' | 'G' | '2' => Some(Feedback::Correct),
            'y' | 'Y' | '1' => Some(Feedback::Present),
            'b' | 'B' | 'x' | 'X' | '0' => Some(Feedback::Absent),
            _ => None,
        }
    }
}

/// The base-3 digit encoding a single feedback value.
pub open spec fn fb_digit(f: Feedback) -> int {
    match f {
        Feedback::Absent => 0,
        Feedback::Present => 1,
        Feedback::Correct => 2,
    }
}

/// The feedback value encoded by a base-3 digit.
pub open spec fn digit_fb(d: int) -> Feedback {
    if d == 2 {
        Feedback::Correct
    } else if d == 1 {
        Feedback::Present
    } else {
        Feedback::Absent
    }
}

/// Powers of three, the positional weights of the encoding.
pub open spec fn pow3(n: nat) -> nat
    decreases n,
{
    if n == 0 {
        1
    } else {
        3 * pow3((n - 1) as nat)
    }
}

/// The base-3 encoding of the first `i` feedback values of `s`,
/// with position `j` carrying weight `pow3(j)`.
pub open spec fn encode_prefix(s: Seq<Feedback>, i: int) -> int
    decreases i,
{
    if i <= 0 {
        0
    } else {
        encode_prefix(s, i - 1) + fb_digit(s[i - 1]) * pow3((i - 1) as nat)
    }
}

/// The base-3 encoding of a full feedback sequence.
pub open spec fn encode_spec(s: Seq<Feedback>) -> int {
    encode_prefix(s, s.len() as int)
}

/// Digit `i` of `v` in base 3.
pub open spec fn digit_of(v: int, i: int) -> int {
    (v / pow3(i as nat) as int) % 3
}

/// The feedback value at position `i` decoded from the pattern value `v`.
pub open spec fn decode_spec(v: int, i: int) -> Feedback {
    digit_fb(digit_of(v, i))
}

/// The encoding of a prefix stays within the positional weight of the next
/// position.
pub proof fn lemma_encode_prefix_bound(s: Seq<Feedback>, i: int)
    requires
        0 <= i,
    ensures
        0 <= encode_prefix(s, i) < pow3(i as nat),
    decreases i,
{
    if i > 0 {
        lemma_encode_prefix_bound(s, i - 1);
        assert(fb_digit(s[i - 1]) * pow3((i - 1) as nat) <= 2 * pow3((i - 1) as nat));
    }
}

/// The concrete values of the five positional weights.
pub proof fn lemma_pow3_values()
    ensures
        pow3(0) == 1,
        pow3(1) == 3,
        pow3(2) == 9,
        pow3(3) == 27,
        pow3(4) == 81,
        pow3(5) == 243,
{
    reveal_with_fuel(pow3, 6);
}

/// Powers of three grow monotonically.
pub proof fn lemma_pow3_increases(i: nat, j: nat)
    requires
        i <= j,
    ensures
        pow3(i) <= pow3(j),
    decreases j,
{
    if i < j {
        lemma_pow3_increases(i, (j - 1) as nat);
    }
}

/// A complete feedback pattern for one guess, encoded as a single `u8`
/// (the value of the all-correct pattern is `pow3(WORD_LENGTH) - 1 == 242`).
#[derive(Debug, Clone, Copy, PartialEq, Eq, Structural, Hash)]
pub struct FeedbackPattern(pub u8);

impl FeedbackPattern {
    /// Total number of possible patterns: `pow3(WORD_LENGTH)`.
    pub const NUM_PATTERNS: usize = 243;

    /// The pattern value indicating a win: every position correct.
    pub open spec fn all_correct_spec() -> int {
        242
    }

    /// The pattern indicating all correct (winning).
    pub fn all_correct() -> (r: Self)
        ensures
            r.0 == Self::all_correct_spec(),
    {
        FeedbackPattern(242)
    }

    /// Create a new pattern from individual feedback values.
    pub fn new(feedbacks: [Feedback; WORD_LENGTH]) -> (r: Self)
        ensures
            r.0 == encode_spec(feedbacks@),
    {
        let mut pattern: u8 = 0;
        let mut multiplier: u8 = 1;
        let mut i: usize = 0;
        while i < WORD_LENGTH
            invariant
                0 <= i <= WORD_LENGTH,
                multiplier == pow3(i as nat),
                pattern == encode_prefix(feedbacks@, i as int),
                pow3(i as nat) <= 243,
            decreases WORD_LENGTH - i,
        {
            proof {
                lemma_encode_prefix_bound(feedbacks@, i as int);
                assert(pow3((i + 1) as nat) == 3 * pow3(i as nat));
                assert(pow3((i + 1) as nat) <= 243) by {
                    lemma_pow3_increases((i + 1) as nat, 5);
                    lemma_pow3_values();
                }
            }
            let value: u8 = match feedbacks[i] {
                Feedback::Absent => 0,
                Feedback::Present => 1,
                Feedback::Correct => 2,
            };
            assert(pattern + value * multiplier < pow3((i + 1) as nat));
            pattern = pattern + value * multiplier;
            multiplier = multiplier * 3;
            i += 1;
        }
        FeedbackPattern(pattern)
    }

    /// Convert the pattern to its array of per-position feedback values.
    pub fn to_feedbacks(self) -> (r: [Feedback; WORD_LENGTH])
        ensures
            forall|i: int| 0 <= i < WORD_LENGTH ==> r@[i] == decode_spec(self.0 as int, i),
    {
        let v = self.0;
        let d0 = v % 3;
        let q1 = v / 3;
        let d1 = q1 % 3;
        let q2 = q1 / 3;
        let d2 = q2 % 3;
        let q3 = q2 / 3;
        let d3 = q3 % 3;
        let q4 = q3 / 3;
        let d4 = q4 % 3;
        proof {
            vstd::arithmetic::div_mod::lemma_div_basics(v as int);
            vstd::arithmetic::div_mod::lemma_div_denominator(v as int, 3, 3);
            vstd::arithmetic::div_mod::lemma_div_denominator(v as int, 9, 3);
            vstd::arithmetic::div_mod::lemma_div_denominator(v as int, 27, 3);
            lemma_pow3_values();
            assert(d0 as int == digit_of(v as int, 0));
            assert(d1 as int == digit_of(v as int, 1));
            assert(d2 as int == digit_of(v as int, 2));
            assert(d3 as int == digit_of(v as int, 3));
            assert(d4 as int == digit_of(v as int, 4));
        }
        [
            digit_to_feedback(d0),
            digit_to_feedback(d1),
            digit_to_feedback(d2),
            digit_to_feedback(d3),
            digit_to_feedback(d4),
        ]
    }

    /// Check if this pattern represents a win (all positions correct).
    pub fn is_win(self) -> (r: bool)
        ensures
            r == (self.0 == Self::all_correct_spec()),
    {
        self.0 == 242
    }
}

/// The number of non-correct positions before `upto` at which the target
/// holds the letter `c`: how many occurrences of `c` are available to be
/// credited as `Present`.
pub open spec fn count_avail(g: Seq<char>, t: Seq<char>, c: char, upto: int) -> int
    decreases upto,
{
    if upto <= 0 {
        0
    } else {
        count_avail(g, t, c, upto - 1) + if t[upto - 1] != g[upto - 1] && t[upto - 1] == c {
            1int
        } else {
            0int
        }
    }
}

/// The full availability of letter `c`: occurrences of `c` in the target at
/// positions where the guess does not match the target.
pub open spec fn avail_of(g: Seq<char>, t: Seq<char>, c: char) -> int {
    count_avail(g, t, c, WORD_LENGTH as int)
}

/// The number of non-correct positions before `i` at which the guess holds
/// the letter `c`: how many earlier occurrences of `c` compete for the
/// available target occurrences.
pub open spec fn count_prior(g: Seq<char>, t: Seq<char>, c: char, i: int) -> int
    decreases i,
{
    if i <= 0 {
        0
    } else {
        count_prior(g, t, c, i - 1) + if g[i - 1] != t[i - 1] && g[i - 1] == c {
            1int
        } else {
            0int
        }
    }
}

/// The feedback at position `i` for a guess against a target, under the
/// game's duplicate-letter rule: a position is `Correct` when the letters
/// match; otherwise it is `Present` exactly when fewer earlier non-correct
/// occurrences of its letter exist than the target has available.
pub open spec fn feedback_spec(g: Seq<char>, t: Seq<char>, i: int) -> Feedback {
    if g[i] == t[i] {
        Feedback::Correct
    } else if count_prior(g, t, g[i], i) < avail_of(g, t, g[i]) {
        Feedback::Present
    } else {
        Feedback::Absent
    }
}

/// The full feedback sequence for a guess against a target.
pub open spec fn feedbacks_spec(g: Seq<char>, t: Seq<char>) -> Seq<Feedback> {
    Seq::new(WORD_LENGTH as nat, |i: int| feedback_spec(g, t, i))
}

/// The encoded feedback pattern for a guess against a target.
pub open spec fn pattern_spec(g: Seq<char>, t: Seq<char>) -> int {
    encode_spec(feedbacks_spec(g, t))
}

/// Availability counts lie between 0 and the number of positions scanned.
pub proof fn lemma_count_avail_bounds(g: Seq<char>, t: Seq<char>, c: char, upto: int)
    requires
        0 <= upto,
    ensures
        0 <= count_avail(g, t, c, upto) <= upto,
    decreases upto,
{
    if upto > 0 {
        lemma_count_avail_bounds(g, t, c, upto - 1);
    }
}

/// Prior-occurrence counts lie between 0 and the number of positions scanned.
pub proof fn lemma_count_prior_bounds(g: Seq<char>, t: Seq<char>, c: char, i: int)
    requires
        0 <= i,
    ensures
        0 <= count_prior(g, t, c, i) <= i,
    decreases i,
{
    if i > 0 {
        lemma_count_prior_bounds(g, t, c, i - 1);
    }
}

/// The smaller of `x` and `cap`.
pub open spec fn cap_at(x: int, cap: int) -> int {
    if x <= cap {
        x
    } else {
        cap
    }
}

/// The 0-based alphabet index of a lowercase letter.
fn letter_index(c: char) -> (r: usize)
    requires
        'a' <= c <= 'z',
    ensures
        r == c as int - 97,
        r < 26,
{
    (c as u32 - 97) as usize
}

impl FeedbackPattern {
    /// Calculate the feedback pattern for a guess against a target word,
    /// following the game's official duplicate-letter rules: matching
    /// positions are `Correct`; the remaining guess letters are credited
    /// `Present` left to right, each consuming one unaccounted occurrence of
    /// that letter in the target, until none remain.
    pub fn calculate(guess: &str, target: &str) -> (r: Self)
        requires
            valid_word(guess@),
            valid_word(target@),
        ensures
            r.0 == pattern_spec(guess@, target@),
            0 <= r.0 < 243,
    {
        let ghost g = guess@;
        let ghost t = target@;
        let mut fb: Vec<Feedback> = Vec::new();
        let mut cnt: Vec<u8> = vec![0u8; 26];

        let mut i: usize = 0;
        while i < WORD_LENGTH
            invariant
                valid_word(g),
                valid_word(t),
                g == guess@,
                t == target@,
                0 <= i <= WORD_LENGTH,
                fb@.len() == i,
                cnt@.len() == 26,
                forall|j: int|
                    0 <= j < i ==> fb@[j] == (if g[j] == t[j] {
                        Feedback::Correct
                    } else {
                        Feedback::Absent
                    }),
                forall|c: char|
                    'a' <= c <= 'z' ==> cnt@[c as int - 97] == #[trigger] count_avail(
                        g,
                        t,
                        c,
                        i as int,
                    ),
            decreases WORD_LENGTH - i,
        {
            let gc = guess.get_char(i);
            let tc = target.get_char(i);
            if gc == tc {
                fb.push(Feedback::Correct);
            } else {
                fb.push(Feedback::Absent);
                let idx = letter_index(tc);
                proof {
                    lemma_count_avail_bounds(g, t, tc, i as int);
                }
                let prev = cnt[idx];
                cnt[idx] = prev + 1;
            }
            proof {
                assert forall|c: char| 'a' <= c <= 'z' implies cnt@[c as int - 97]
                    == #[trigger] count_avail(g, t, c, i as int + 1) by {
                    assert(count_avail(g, t, c, i as int + 1) == count_avail(g, t, c, i as int)
                        + if t[i as int] != g[i as int] && t[i as int] == c {
                        1int
                    } else {
                        0int
                    });
                }
            }
            i += 1;
        }

        let mut i: usize = 0;
        while i < WORD_LENGTH
            invariant
                valid_word(g),
                valid_word(t),
                g == guess@,
                t == target@,
                0 <= i <= WORD_LENGTH,
                fb@.len() == WORD_LENGTH,
                cnt@.len() == 26,
                forall|j: int|
                    i <= j < WORD_LENGTH ==> fb@[j] == (if g[j] == t[j] {
                        Feedback::Correct
                    } else {
                        Feedback::Absent
                    }),
                forall|j: int| 0 <= j < i ==> fb@[j] == feedback_spec(g, t, j),
                forall|c: char|
                    'a' <= c <= 'z' ==> cnt@[c as int - 97] == avail_of(g, t, c) - cap_at(
                        #[trigger] count_prior(g, t, c, i as int),
                        avail_of(g, t, c),
                    ),
            decreases WORD_LENGTH - i,
        {
            let gc = guess.get_char(i);
            let tc = target.get_char(i);
            if gc != tc {
                let idx = letter_index(gc);
                proof {
                    lemma_count_prior_bounds(g, t, gc, i as int);
                    lemma_count_avail_bounds(g, t, gc, WORD_LENGTH as int);
                }
                if cnt[idx] > 0 {
                    fb[i] = Feedback::Present;
                    let prev = cnt[idx];
                    cnt[idx] = prev - 1;
                }
            }
            proof {
                assert forall|c: char| 'a' <= c <= 'z' implies cnt@[c as int - 97] == avail_of(
                    g,
                    t,
                    c,
                ) - cap_at(#[trigger] count_prior(g, t, c, i as int + 1), avail_of(g, t, c)) by {
                    assert(count_prior(g, t, c, i as int + 1) == count_prior(g, t, c, i as int)
                        + if g[i as int] != t[i as int] && g[i as int] == c {
                        1int
                    } else {
                        0int
                    });
                }
            }
            i += 1;
        }

        let arr: [Feedback; WORD_LENGTH] = [fb[0], fb[1], fb[2], fb[3], fb[4]];
        proof {
            assert(arr@ =~= feedbacks_spec(g, t));
            lemma_encode_prefix_bound(feedbacks_spec(g, t), WORD_LENGTH as int);
            lemma_pow3_values();
        }
        Self::new(arr)
    }
}

/// Whether a pattern-text string names a pattern: exactly `WORD_LENGTH`
/// characters, each a recognized feedback code.
pub open spec fn parse_ok(s: Seq<char>) -> bool {
    s.len() == WORD_LENGTH && forall|i: int| 0 <= i < s.len() ==> from_char_spec(#[trigger] s[i]) is Some
}

/// The pattern value named by a well-formed pattern-text string.
pub open spec fn parse_val(s: Seq<char>) -> int {
    encode_spec(Seq::new(WORD_LENGTH as nat, |i: int| from_char_spec(s[i])->0))
}

impl FeedbackPattern {
    /// Parse a pattern from text such as a letter-coded or digit-coded
    /// five-character string; `None` on a length mismatch or an
    /// unrecognized character.
    pub fn parse(s: &str) -> (r: Option<Self>)
        ensures
            r is Some <==> parse_ok(s@),
            r matches Some(p) ==> p.0 == parse_val(s@),
    {
        let n = s.unicode_len();
        if n != WORD_LENGTH {
            return None;
        }
        let mut fbs: Vec<Feedback> = Vec::new();
        let mut i: usize = 0;
        while i < WORD_LENGTH
            invariant
                s@.len() == WORD_LENGTH,
                0 <= i <= WORD_LENGTH,
                fbs@.len() == i,
                forall|j: int|
                    0 <= j < i ==> (from_char_spec(#[trigger] s@[j]) matches Some(f) && fbs@[j]
                        == f),
            decreases WORD_LENGTH - i,
        {
            match Feedback::from_char(s.get_char(i)) {
                Some(f) => fbs.push(f),
                None => {
                    return None;
                },
            }
            i += 1;
        }
        let arr: [Feedback; WORD_LENGTH] = [fbs[0], fbs[1], fbs[2], fbs[3], fbs[4]];
        proof {
            assert(arr@ =~= Seq::new(WORD_LENGTH as nat, |i: int| from_char_spec(s@[i])->0));
        }
        Some(Self::new(arr))
    }

    /// Display the pattern as a string of five glyphs, one per position.
    pub fn to_emoji_string(self) -> (r: String)
        ensures
            r@.len() == WORD_LENGTH,
            forall|i: int|
                0 <= i < WORD_LENGTH ==> r@[i] == glyph_spec(decode_spec(self.0 as int, i)),
    {
        let fbs = self.to_feedbacks();
        let mut out = String::new();
        let mut i: usize = 0;
        while i < WORD_LENGTH
            invariant
                out@.len() == i,
                0 <= i <= WORD_LENGTH,
                forall|j: int|
                    0 <= j < i ==> out@[j] == glyph_spec(decode_spec(self.0 as int, j)),
                forall|j: int| 0 <= j < WORD_LENGTH ==> fbs@[j] == decode_spec(self.0 as int, j),
            decreases WORD_LENGTH - i,
        {
            let c = fbs[i].to_char();
            crate::push_char(&mut out, c);
            i += 1;
        }
        out
    }
}

/// The pattern of a word guessed against itself is the all-correct pattern.
pub proof fn lemma_self_guess_is_win(w: Seq<char>)
    requires
        valid_word(w),
    ensures
        pattern_spec(w, w) == FeedbackPattern::all_correct_spec(),
{
    let s = feedbacks_spec(w, w);
    assert(forall|i: int| 0 <= i < WORD_LENGTH ==> s[i] == Feedback::Correct);
    lemma_pow3_values();
    lemma_encode_all_correct(s, WORD_LENGTH as int);
    assert(s.len() == WORD_LENGTH);
}

/// Each base-3 digit of an encoded feedback sequence recovers the value it
/// was built from.
pub proof fn lemma_digits_of_encode(s: Seq<Feedback>, i: int)
    requires
        s.len() == WORD_LENGTH,
        0 <= i < WORD_LENGTH,
    ensures
        decode_spec(encode_spec(s), i) == s[i],
{
    lemma_pow3_values();
    reveal_with_fuel(encode_prefix, 6);
    let d0 = fb_digit(s[0]);
    let d1 = fb_digit(s[1]);
    let d2 = fb_digit(s[2]);
    let d3 = fb_digit(s[3]);
    let d4 = fb_digit(s[4]);
    let t4 = d4;
    let t3 = d3 + 3 * t4;
    let t2 = d2 + 3 * t3;
    let t1 = d1 + 3 * t2;
    let v = encode_spec(s);
    assert(encode_prefix(s, 0) == 0);
    assert(encode_prefix(s, 1) == encode_prefix(s, 0) + d0 * pow3(0));
    assert(encode_prefix(s, 2) == encode_prefix(s, 1) + d1 * pow3(1));
    assert(encode_prefix(s, 3) == encode_prefix(s, 2) + d2 * pow3(2));
    assert(encode_prefix(s, 4) == encode_prefix(s, 3) + d3 * pow3(3));
    assert(encode_prefix(s, 5) == encode_prefix(s, 4) + d4 * pow3(4));
    assert(v == d0 + 3 * t1);
    vstd::arithmetic::div_mod::lemma_fundamental_div_mod_converse(v, 3, t1, d0);
    vstd::arithmetic::div_mod::lemma_fundamental_div_mod_converse(t1, 3, t2, d1);
    vstd::arithmetic::div_mod::lemma_fundamental_div_mod_converse(t2, 3, t3, d2);
    vstd::arithmetic::div_mod::lemma_fundamental_div_mod_converse(t3, 3, t4, d3);
    vstd::arithmetic::div_mod::lemma_div_denominator(v, 3, 3);
    vstd::arithmetic::div_mod::lemma_div_denominator(v, 9, 3);
    vstd::arithmetic::div_mod::lemma_div_denominator(v, 27, 3);
    vstd::arithmetic::div_mod::lemma_div_basics(v);
    vstd::arithmetic::div_mod::lemma_small_mod(t4 as nat, 3);
    assert(v / 9 == t2);
    assert(v / 27 == t3);
    assert(v / 81 == t4);
    assert(digit_of(v, 0) == d0);
    assert(digit_of(v, 1) == d1);
    assert(digit_of(v, 2) == d2);
    assert(digit_of(v, 3) == d3);
    assert(digit_of(v, 4) == d4);
}

/// The decoded digits of a computed pattern are the per-position feedback
/// values of the guess against the target.
pub proof fn lemma_pattern_digit(g: Seq<char>, t: Seq<char>, i: int)
    requires
        valid_word(g),
        valid_word(t),
        0 <= i < WORD_LENGTH,
    ensures
        decode_spec(pattern_spec(g, t), i) == feedback_spec(g, t, i),
{
    lemma_digits_of_encode(feedbacks_spec(g, t), i);
}

/// A letter with availability left occurs somewhere in the target.
pub proof fn lemma_avail_pos_implies_contains(g: Seq<char>, t: Seq<char>, c: char, upto: int)
    requires
        0 <= upto <= t.len(),
        count_avail(g, t, c, upto) > 0,
    ensures
        t.contains(c),
    decreases upto,
{
    if upto > 0 {
        if t[upto - 1] != g[upto - 1] && t[upto - 1] == c {
            assert(0 <= upto - 1 < t.len() && t[upto - 1] == c);
        } else {
            lemma_avail_pos_implies_contains(g, t, c, upto - 1);
        }
    }
}

/// The encoding of an all-correct prefix is one less than the next
/// positional weight.
proof fn lemma_encode_all_correct(s: Seq<Feedback>, i: int)
    requires
        0 <= i,
        forall|j: int| 0 <= j < i ==> s[j] == Feedback::Correct,
    ensures
        encode_prefix(s, i) == pow3(i as nat) - 1,
    decreases i,
{
    if i > 0 {
        lemma_encode_all_correct(s, i - 1);
        assert(pow3(i as nat) == 3 * pow3((i - 1) as nat));
        assert(encode_prefix(s, i) == encode_prefix(s, i - 1) + 2 * pow3((i - 1) as nat));
    }
}

/// Convert one base-3 digit to its feedback value.
fn digit_to_feedback(d: u8) -> (r: Feedback)
    requires
        d < 3,
    ensures
        r == digit_fb(d as int),
{
    match d {
        0 => Feedback::Absent,
        1 => Feedback::Present,
        _ => Feedback::Correct,
    }
}

/// Round trip: every pattern value below `pow3(WORD_LENGTH)` re-encodes to
/// itself after decoding.
pub proof fn lemma_decode_encode_round_trip(v: int)
    requires
        0 <= v < 243,
    ensures
        encode_spec(Seq::new(WORD_LENGTH as nat, |i: int| decode_spec(v, i))) == v,
{
    let s = Seq::new(WORD_LENGTH as nat, |i: int| decode_spec(v, i));
    lemma_pow3_values();
    reveal_with_fuel(encode_prefix, 6);
    assert forall|i: int| 0 <= i < 5 implies fb_digit(s[i]) == digit_of(v, i) by {
        assert(0 <= digit_of(v, i) < 3) by {
            vstd::arithmetic::div_mod::lemma_mod_division_less_than_divisor(
                v / pow3(i as nat) as int,
                3,
            );
        }
    }
    vstd::arithmetic::div_mod::lemma_fundamental_div_mod(v, 3);
    vstd::arithmetic::div_mod::lemma_fundamental_div_mod(v / 3, 3);
    vstd::arithmetic::div_mod::lemma_fundamental_div_mod(v / 9, 3);
    vstd::arithmetic::div_mod::lemma_fundamental_div_mod(v / 27, 3);
    vstd::arithmetic::div_mod::lemma_div_denominator(v, 3, 3);
    vstd::arithmetic::div_mod::lemma_div_denominator(v, 9, 3);
    vstd::arithmetic::div_mod::lemma_div_denominator(v, 27, 3);
    assert(v / 81 < 3) by {
        vstd::arithmetic::div_mod::lemma_div_is_ordered(v, 242, 81);
    }
    assert(v / 81 >= 0) by {
        vstd::arithmetic::div_mod::lemma_div_pos_is_pos(v, 81);
    }
    vstd::arithmetic::div_mod::lemma_small_mod((v / 81) as nat, 3);
    vstd::arithmetic::div_mod::lemma_div_basics(v);
    assert(digit_of(v, 0) == v % 3);
    assert(digit_of(v, 1) == (v / 3) % 3);
    assert(digit_of(v, 2) == (v / 9) % 3);
    assert(digit_of(v, 3) == (v / 27) % 3);
    assert(digit_of(v, 4) == v / 81);
    assert(v == v % 3 + 3 * ((v / 3) % 3) + 9 * ((v / 9) % 3) + 27 * ((v / 27) % 3) + 81 * (v
        / 81));
    assert(encode_prefix(s, 5) == digit_of(v, 0) + 3 * digit_of(v, 1) + 9 * digit_of(v, 2)
        + 27 * digit_of(v, 3) + 81 * digit_of(v, 4));
}

} // verus!
