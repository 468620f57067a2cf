//! An optimal-strategy engine for the fixed-length word-guessing game in
//! which each guess against a hidden target yields per-letter feedback.
//!
//! The solver ranks candidate guesses by the Shannon entropy of the feedback
//! distribution they would induce over the remaining candidate answers.
//! Entropy is measured in fixed-point units of `1/1024` bit, so that the
//! whole engine works on integers.

use vstd::prelude::*;

pub mod entropy;
pub mod feedback;
mod par;
pub mod solver;

pub use feedback::Feedback;
pub use feedback::FeedbackPattern;
pub use solver::WordleSolver;

verus! {

/// Word length for the game.
pub const WORD_LENGTH: usize = 5;

/// A word is valid when it has exactly `WORD_LENGTH` lowercase ASCII letters.
pub open spec fn valid_word(w: Seq<char>) -> bool {
    w.len() == WORD_LENGTH && forall|i: int| 0 <= i < w.len() ==> 'a' <= #[trigger] w[i] <= 'z'
}

/// Check that a word has exactly `WORD_LENGTH` lowercase ASCII letters.
pub fn is_valid_word(w: &str) -> (r: bool)
    ensures
        r == valid_word(w@),
{
    let n = w.unicode_len();
    if n != WORD_LENGTH {
        return false;
    }
    let mut i: usize = 0;
    while i < n
        invariant
            n == w@.len(),
            0 <= i <= n,
            forall|j: int| 0 <= j < i ==> 'a' <= #[trigger] w@[j] <= 'z',
        decreases n - i,
    {
        let c = w.get_char(i);
        if c < 'a' || c > 'z' {
            return false;
        }
        i += 1;
    }
    true
}

/// An uppercase ASCII letter lowered; every other character unchanged.
pub open spec fn normalize_char(c: char) -> char {
    if 'A' <= c <= 'Z' {
        (c as int + 32) as char
    } else {
        c
    }
}

/// A word with its uppercase ASCII letters lowered.
pub open spec fn normalize_word(s: Seq<char>) -> Seq<char> {
    s.map_values(|c: char| normalize_char(c))
}

/// The dictionary loaded from a sequence of raw lines: each line is
/// lowercased, and only the lines that then form valid words are kept, in
/// order.
pub open spec fn load_spec(lines: Seq<Seq<char>>) -> Seq<Seq<char>>
    decreases lines.len(),
{
    if lines.len() == 0 {
        Seq::empty()
    } else {
        load_spec(lines.drop_last()) + if valid_word(normalize_word(lines.last())) {
            seq![normalize_word(lines.last())]
        } else {
            Seq::empty()
        }
    }
}

/// Lowercase the ASCII letters of one line.
fn normalize_line(s: &str) -> (r: String)
    ensures
        r@ == normalize_word(s@),
{
    let n = s.unicode_len();
    let mut out = String::new();
    let mut i: usize = 0;
    while i < n
        invariant
            n == s@.len(),
            0 <= i <= n,
            out@.len() == i,
            forall|j: int| 0 <= j < i ==> out@[j] == normalize_char(#[trigger] s@[j]),
        decreases n - i,
    {
        let c = s.get_char(i);
        let lowered: char = if c >= 'A' && c <= 'Z' {
            ((c as u8) + 32) as char
        } else {
            c
        };
        push_char(&mut out, lowered);
        i += 1;
    }
    proof {
        assert(out@ =~= normalize_word(s@));
    }
    out
}

/// Build the dictionary from raw text lines: lowercase each line's ASCII
/// letters and keep, in order, exactly the lines that then consist of
/// `WORD_LENGTH` lowercase letters.
pub fn load_dictionary(lines: &Vec<String>) -> (r: Vec<String>)
    ensures
        r.deep_view() == load_spec(lines.deep_view()),
        forall|i: int| 0 <= i < r@.len() ==> valid_word(#[trigger] r@[i]@),
{
    let mut out: Vec<String> = Vec::new();
    let n = lines.len();
    let mut i: usize = 0;
    while i < n
        invariant
            n == lines@.len(),
            0 <= i <= n,
            out.deep_view() == load_spec(lines.deep_view().take(i as int)),
            forall|j: int| 0 <= j < out@.len() ==> valid_word(#[trigger] out@[j]@),
        decreases n - i,
    {
        let w = normalize_line(&lines[i]);
        let ghost prev = out.deep_view();
        if is_valid_word(w.as_str()) {
            out.push(w);
            proof {
                assert(out.deep_view() =~= prev.push(w@));
            }
        }
        proof {
            let lv = lines.deep_view();
            assert(lv.take(i + 1).drop_last() =~= lv.take(i as int));
            assert(lv.take(i + 1).last() == lv[i as int]);
            assert(w@ == normalize_word(lv[i as int]));
            if valid_word(w@) {
                assert(out.deep_view() =~= load_spec(lv.take(i + 1)));
            } else {
                assert(out.deep_view() =~= load_spec(lv.take(i + 1)));
            }
        }
        i += 1;
    }
    proof {
        assert(lines.deep_view().take(n as int) =~= lines.deep_view());
    }
    out
}

/// Relies on `String::push` of std: appends exactly one character to the
/// string.
#[verifier::external_body]
pub(crate) fn push_char(s: &mut String, c: char)
    ensures
        final(s)@ == old(s)@.push(c),
{
    s.push(c);
}

} // verus!
