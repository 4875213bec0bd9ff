use wordhint::state::{history_ok, GuessState};

#[test]
fn empty_history_has_empty_constraints() {
    let g = GuessState::parse("");
    assert_eq!(g.exact.len(), 0);
    assert!(g.exactly_not.iter().all(|row| row.is_empty()));
    assert_eq!(g.must_contain.len(), 0);
    assert_eq!(g.does_not_contain.len(), 0);
}

#[test]
fn empty_history_matches_everything() {
    let g = GuessState::parse("");
    for w in ["abet", "dart", "zzzz", "", "apple"] {
        assert!(g.clone().matches(w));
    }
}

#[test]
fn uppercase_letter_becomes_exact_lowercase() {
    let g = GuessState::parse("A");
    assert_eq!(g.exact.len(), 1);
    assert_eq!(g.exact[0], Some('a'));
}

#[test]
fn exact_token_passes_words_with_letter_at_position() {
    let g = GuessState::parse("Apple");
    assert_eq!(g.exact[0], Some('a'));
    // any word with 'a' first and no p/l/e elsewhere passes
    assert!(g.clone().matches("azzzz"));
    // wrong first letter fails the exact check
    assert!(!g.clone().matches("zzzzz"));
    // 'p' is recorded absent, so the guess itself fails
    assert!(!g.clone().matches("apple"));
}

#[test]
fn misplaced_token_rules() {
    let g = GuessState::parse("?x");
    assert_eq!(g.must_contain, vec!['x']);
    assert!(g.exactly_not[0].contains(&'x'));
    // 'x' at position 0 is rejected
    assert!(!g.clone().matches("xab"));
    // a word without 'x' is rejected
    assert!(!g.clone().matches("abc"));
    // 'x' anywhere else is accepted
    assert!(g.clone().matches("axb"));
    assert!(g.clone().matches("abx"));
}

#[test]
fn absent_letter_rejects_words_containing_it() {
    let g = GuessState::parse("z");
    assert_eq!(g.does_not_contain, vec!['z']);
    assert!(!g.clone().matches("fuzzy"));
    assert!(!g.clone().matches("zebra"));
    assert!(g.clone().matches("abc"));
}

#[test]
fn two_token_history_accumulates() {
    let g = GuessState::parse("?a,dog");
    assert_eq!(g.must_contain, vec!['a']);
    assert_eq!(g.does_not_contain, vec!['d', 'o', 'g']);
    assert_eq!(g.exact.len(), 0);
    assert_eq!(g.exactly_not[0], vec!['a', 'd']);
    assert_eq!(g.exactly_not[1], vec!['o']);
    assert_eq!(g.exactly_not[2], vec!['g']);
    // contains 'a' away from position 0, none of d/o/g
    assert!(g.clone().matches("beat"));
    // contains 'd'
    assert!(!g.clone().matches("dart"));
    // carries 'a' at position 0, which `?a` forbids there
    assert!(!g.clone().matches("abet"));
}

#[test]
fn matcher_is_deterministic() {
    let g = GuessState::parse("?a,dog");
    let first = g.clone().matches("beat");
    for _ in 0..5 {
        assert_eq!(g.clone().matches("beat"), first);
    }
}

#[test]
fn history_ok_rejects_trailing_question_mark() {
    assert!(!history_ok("?"));
    assert!(!history_ok("a?"));
    assert!(!history_ok("a,?"));
    assert!(!history_ok("?a,ab?"));
}

#[test]
fn history_ok_accepts_well_formed_histories() {
    assert!(history_ok(""));
    assert!(history_ok("??"));
    assert!(history_ok("?a,dog"));
    assert!(history_ok("Apple"));
    assert!(history_ok("a,b,c"));
}

#[test]
fn question_mark_consumes_the_next_character() {
    // the first '?' takes the second as its letter
    let g = GuessState::parse("??");
    assert_eq!(g.must_contain, vec!['?']);
}

#[test]
fn tokens_restart_position_counting() {
    let g = GuessState::parse("b,c");
    // both letters land on position 0
    assert_eq!(g.exactly_not[0], vec!['b', 'c']);
    assert_eq!(g.does_not_contain, vec!['b', 'c']);
}
