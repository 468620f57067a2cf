use wordle_bot::{Feedback, FeedbackPattern};

#[test]
fn test_all_correct() {
    let pattern = FeedbackPattern::calculate("crane", "crane");
    assert!(pattern.is_win());
    assert_eq!(pattern, FeedbackPattern::all_correct());
}

#[test]
fn test_all_absent() {
    let pattern = FeedbackPattern::calculate("quick", "dream");
    let expected = FeedbackPattern::new([
        Feedback::Absent,
        Feedback::Absent,
        Feedback::Absent,
        Feedback::Absent,
        Feedback::Absent,
    ]);
    assert_eq!(pattern, expected);
}

#[test]
fn test_mixed_feedback() {
    let pattern = FeedbackPattern::calculate("crane", "charm");
    let feedbacks = pattern.to_feedbacks();
    assert_eq!(feedbacks[0], Feedback::Correct);
    assert_eq!(feedbacks[1], Feedback::Present);
    assert_eq!(feedbacks[2], Feedback::Correct);
    assert_eq!(feedbacks[3], Feedback::Absent);
    assert_eq!(feedbacks[4], Feedback::Absent);
}

#[test]
fn test_duplicate_letters_in_guess() {
    let pattern = FeedbackPattern::calculate("speed", "creep");
    let feedbacks = pattern.to_feedbacks();
    assert_eq!(feedbacks[0], Feedback::Absent);
    assert_eq!(feedbacks[1], Feedback::Present);
    assert_eq!(feedbacks[2], Feedback::Correct);
    assert_eq!(feedbacks[3], Feedback::Correct);
    assert_eq!(feedbacks[4], Feedback::Absent);
}

#[test]
fn test_duplicate_letters_in_target() {
    let pattern = FeedbackPattern::calculate("arose", "creep");
    let feedbacks = pattern.to_feedbacks();
    assert_eq!(feedbacks[0], Feedback::Absent);
    assert_eq!(feedbacks[1], Feedback::Correct);
    assert_eq!(feedbacks[2], Feedback::Absent);
    assert_eq!(feedbacks[3], Feedback::Absent);
    assert_eq!(feedbacks[4], Feedback::Present);
}

#[test]
fn test_duplicate_guess_limited_target() {
    let pattern = FeedbackPattern::calculate("geese", "creep");
    let feedbacks = pattern.to_feedbacks();
    assert_eq!(feedbacks[0], Feedback::Absent);
    assert_eq!(feedbacks[1], Feedback::Present);
    assert_eq!(feedbacks[2], Feedback::Correct);
    assert_eq!(feedbacks[3], Feedback::Absent);
    assert_eq!(feedbacks[4], Feedback::Absent);
}

#[test]
fn test_pattern_encoding_decoding() {
    for pattern_val in 0..FeedbackPattern::NUM_PATTERNS {
        let pattern = FeedbackPattern(pattern_val as u8);
        let feedbacks = pattern.to_feedbacks();
        let reconstructed = FeedbackPattern::new(feedbacks);
        assert_eq!(pattern, reconstructed);
    }
}

#[test]
fn test_pattern_parse() {
    let pattern = FeedbackPattern::parse("gybbb").unwrap();
    let feedbacks = pattern.to_feedbacks();
    assert_eq!(feedbacks[0], Feedback::Correct);
    assert_eq!(feedbacks[1], Feedback::Present);
    assert_eq!(feedbacks[2], Feedback::Absent);
    assert_eq!(feedbacks[3], Feedback::Absent);
    assert_eq!(feedbacks[4], Feedback::Absent);

    let pattern2 = FeedbackPattern::parse("21000").unwrap();
    assert_eq!(pattern, pattern2);
}

#[test]
fn test_pattern_parse_invalid() {
    assert!(FeedbackPattern::parse("gybbb1").is_none());
    assert!(FeedbackPattern::parse("gybb").is_none());
    assert!(FeedbackPattern::parse("gybzb").is_none());
}

#[test]
fn test_emoji_display() {
    let pattern = FeedbackPattern::new([
        Feedback::Correct,
        Feedback::Present,
        Feedback::Absent,
        Feedback::Absent,
        Feedback::Correct,
    ]);
    assert_eq!(pattern.to_emoji_string(), "🟩🟨⬛⬛🟩");
}

#[test]
fn test_specific_wordle_cases() {
    let pattern = FeedbackPattern::calculate("sores", "those");
    let feedbacks = pattern.to_feedbacks();
    assert_eq!(feedbacks[0], Feedback::Present);
    assert_eq!(feedbacks[1], Feedback::Present);
    assert_eq!(feedbacks[2], Feedback::Absent);
    assert_eq!(feedbacks[3], Feedback::Present);
    assert_eq!(feedbacks[4], Feedback::Absent);
}

#[test]
fn test_calculate_repeatable() {
    let first = FeedbackPattern::calculate("crane", "charm");
    let second = FeedbackPattern::calculate("crane", "charm");
    assert_eq!(first, second);
    assert_eq!(first.0, second.0);
}

#[test]
fn test_self_guess_always_wins() {
    for word in ["crane", "geese", "fuzzy", "about", "zzzzz"] {
        let pattern = FeedbackPattern::calculate(word, word);
        assert!(pattern.is_win());
    }
}

#[test]
fn test_from_char_codes() {
    assert_eq!(Feedback::from_char('g'), Some(Feedback::Correct));
    assert_eq!(Feedback::from_char('G'), Some(Feedback::Correct));
    assert_eq!(Feedback::from_char('2'), Some(Feedback::Correct));
    assert_eq!(Feedback::from_char('y'), Some(Feedback::Present));
    assert_eq!(Feedback::from_char('1'), Some(Feedback::Present));
    assert_eq!(Feedback::from_char('b'), Some(Feedback::Absent));
    assert_eq!(Feedback::from_char('x'), Some(Feedback::Absent));
    assert_eq!(Feedback::from_char('0'), Some(Feedback::Absent));
    assert_eq!(Feedback::from_char('q'), None);
    assert_eq!(Feedback::from_char('3'), None);
}

#[test]
fn test_parse_case_insensitive() {
    let lower = FeedbackPattern::parse("gybxb").unwrap();
    let upper = FeedbackPattern::parse("GYBXB").unwrap();
    assert_eq!(lower, upper);
}
