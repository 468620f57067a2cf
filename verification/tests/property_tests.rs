use wordle_bot::solver::HardModeConstraints;
use wordle_bot::{load_dictionary, FeedbackPattern, WordleSolver};

#[test]
fn test_entropy_of_single_candidate_is_zero() {
    let solver = WordleSolver::new(vec!["crane".to_string()]);
    assert_eq!(solver.calculate_entropy_for_word("slate"), 0);
    assert_eq!(solver.calculate_entropy_for_word("crane"), 0);
}

#[test]
fn test_two_candidates_exact_entropy() {
    let words = vec!["crane".to_string(), "trace".to_string()];
    let solver = WordleSolver::new(words);

    let best = solver.find_best_guess().unwrap();
    // Exactly one bit of information, in units of 1/1024 bit.
    assert_eq!(best.entropy, 1024);
    // Exactly one expected survivor, in units of 1/1024 word.
    assert_eq!(best.expected_remaining, 1024);
}

#[test]
fn test_four_distinct_candidates_exact_entropy() {
    // Each of the four candidates answers "crane" with a different pattern,
    // so the guess yields exactly two bits.
    let words = vec![
        "crane".to_string(),
        "trace".to_string(),
        "crate".to_string(),
        "slate".to_string(),
    ];
    let solver = WordleSolver::new(words);
    assert_eq!(solver.calculate_entropy_for_word("crane"), 2048);
}

#[test]
fn test_apply_feedback_never_grows_candidates() {
    let words = vec![
        "crane".to_string(),
        "slate".to_string(),
        "trace".to_string(),
        "crate".to_string(),
        "fuzzy".to_string(),
    ];
    for guess in ["crane", "fuzzy", "zzzzz"] {
        for pattern_val in [0u8, 1, 40, 242] {
            let mut solver = WordleSolver::new(words.clone());
            let before = solver.remaining_count();
            solver.apply_feedback(guess, FeedbackPattern(pattern_val));
            assert!(solver.remaining_count() <= before);
        }
    }
}

#[test]
fn test_reset_clears_hard_mode_constraints() {
    let words = vec![
        "crane".to_string(),
        "crate".to_string(),
        "slate".to_string(),
    ];
    let mut solver = WordleSolver::new(words.clone());
    solver.set_hard_mode(true);
    solver.apply_feedback("crane", FeedbackPattern::calculate("crane", "crate"));
    assert!(solver.remaining_count() < words.len());

    solver.reset();
    assert_eq!(solver.remaining_count(), words.len());
    // After a reset, suggestions are no longer restricted: the ranking
    // considers every word again, as for a fresh solver.
    let fresh = WordleSolver::new(words.clone());
    let a = solver.find_best_guess().unwrap();
    let b = fresh.find_best_guess().unwrap();
    assert_eq!(a.word, b.word);
}

#[test]
fn test_ranked_guesses_tie_prefers_possible_answer() {
    let words = get_words();
    let solver = WordleSolver::new(words);
    let ranked = solver.get_top_guesses(20);
    for i in 1..ranked.len() {
        assert!(ranked[i - 1].entropy >= ranked[i].entropy);
        if ranked[i - 1].entropy == ranked[i].entropy {
            // At equal entropy a possible answer never follows an
            // impossible one.
            assert!(ranked[i - 1].is_possible_answer || !ranked[i].is_possible_answer);
        }
    }
}

fn get_words() -> Vec<String> {
    vec![
        "crane".to_string(),
        "slate".to_string(),
        "trace".to_string(),
        "crate".to_string(),
        "raise".to_string(),
        "arise".to_string(),
        "stare".to_string(),
        "roast".to_string(),
        "toast".to_string(),
        "beast".to_string(),
    ]
}

#[test]
fn test_hard_mode_ranked_guesses_satisfy_constraints() {
    let words = get_words();
    let mut solver = WordleSolver::new(words);
    solver.set_hard_mode(true);

    let pattern = FeedbackPattern::calculate("crane", "toast");
    solver.apply_feedback("crane", pattern);

    // Rebuild the same constraints independently and check each ranked
    // guess against them.
    let mut cons = HardModeConstraints::new();
    cons.update("crane", pattern);
    for g in solver.find_best_guesses(20) {
        assert!(cons.is_valid(&g.word), "constraint violation: {}", g.word);
    }
}

#[test]
fn test_constraints_update_and_validity() {
    let mut cons = HardModeConstraints::new();
    assert!(cons.is_empty());

    let pattern = FeedbackPattern::calculate("crane", "charm");
    cons.update("crane", pattern);
    assert!(!cons.is_empty());

    // 'c' fixed first, 'a' fixed third, 'r' present somewhere.
    assert!(cons.is_valid("chard"));
    assert!(!cons.is_valid("shard"));
    assert!(!cons.is_valid("chase"));
}

#[test]
fn test_load_dictionary_normalizes_and_filters() {
    let lines: Vec<String> = [
        "crane", "", "SLATE", "toolong", "abc", "Gr1me", "Trace",
    ]
    .iter()
    .map(|s| s.to_string())
    .collect();
    let words = load_dictionary(&lines);
    assert_eq!(words, vec!["crane".to_string(), "slate".to_string(), "trace".to_string()]);
}

#[test]
fn test_benchmark_single_word() {
    let solver = WordleSolver::new(vec!["crane".to_string()]);
    // The only word is solved in one guess: the scaled average is exactly
    // 1024 and the distribution holds one entry.
    assert_eq!(solver.benchmark_average_guesses(), 1024);
    assert_eq!(solver.benchmark_guess_distribution(), vec![(1, 1)]);
}

#[test]
fn test_benchmark_distribution_totals() {
    let words = get_words();
    let solver = WordleSolver::new(words.clone());
    let dist = solver.benchmark_guess_distribution();

    let total: usize = dist.iter().map(|(_, c)| c).sum();
    assert_eq!(total, words.len());
    for i in 1..dist.len() {
        assert!(dist[i - 1].0 < dist[i].0);
    }
    for (g, c) in &dist {
        assert!(*g <= 6);
        assert!(*c > 0);
    }
}

#[test]
fn test_solve_stops_on_first_win() {
    let words = get_words();
    let mut solver = WordleSolver::new(words);
    let guesses = solver.solve_for_target("beast");
    for (i, (_, pattern)) in guesses.iter().enumerate() {
        if pattern.is_win() {
            assert_eq!(i, guesses.len() - 1);
        }
    }
}

#[test]
fn test_solve_with_feedback_oracle_seam() {
    let words = get_words();
    let mut solver = WordleSolver::new(words);
    // An oracle that always answers all-absent: the run uses all six
    // rounds or stops early, and never reports a win.
    let guesses = solver.solve_with_feedback(|_g| FeedbackPattern(0));
    assert!(guesses.len() <= 6);
    for (_, pattern) in &guesses {
        assert!(!pattern.is_win());
    }
}
