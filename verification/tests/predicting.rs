use wordhint::anagram::build_index;
use wordhint::predict::{best_split, distinct_letters, pick_richest, predict, viable_guesses};
use wordhint::state::GuessState;

fn strings(ws: &[&str]) -> Vec<String> {
    ws.iter().map(|w| w.to_string()).collect()
}

#[test]
fn letters_appear_once_in_first_seen_order() {
    let letters = distinct_letters(&strings(&["ab", "bc", "ca"]));
    assert_eq!(letters, vec!['a', 'b', 'c']);
}

#[test]
fn best_split_picks_most_balanced_letter() {
    // counts over four words: a:3 b:2 c:2 d:1 -> imbalances 2,0,0,2;
    // 'b' is the earliest perfectly balanced letter
    let words = strings(&["ab", "ac", "ad", "bc"]);
    let letters = distinct_letters(&words);
    assert_eq!(letters, vec!['a', 'b', 'c', 'd']);
    assert_eq!(best_split(&words, &letters), Some(1));
}

#[test]
fn single_letter_pool_still_splits() {
    let words = strings(&["aa", "a"]);
    let letters = distinct_letters(&words);
    assert_eq!(letters, vec!['a']);
    assert_eq!(best_split(&words, &letters), Some(0));
}

#[test]
fn no_letters_no_split() {
    let words: Vec<String> = Vec::new();
    let letters = distinct_letters(&words);
    assert_eq!(best_split(&words, &letters), None);
}

#[test]
fn viable_guesses_need_the_letter_and_distinct_letters() {
    let words = strings(&["aba", "ab", "bc", "axy"]);
    assert_eq!(viable_guesses(&words, 'a'), strings(&["ab", "axy"]));
}

#[test]
fn pick_richest_prefers_large_anagram_classes() {
    let words = strings(&["ate", "eat", "tea", "tag"]);
    let idx = build_index(&words, &GuessState::parse(""));
    // "tag" sits in a class of 1, the others in a class of 3; the last
    // maximal candidate wins
    let picked = pick_richest(&words, &idx).unwrap();
    assert_eq!(picked, "tea");
}

#[test]
fn pick_richest_of_nothing_is_none() {
    let idx = build_index(&strings(&[]), &GuessState::parse(""));
    assert_eq!(pick_richest(&Vec::new(), &idx), None);
}

#[test]
fn predict_suggests_a_rich_distinct_word() {
    let words = strings(&["ate", "eat", "tea", "txy"]);
    let idx = build_index(&words, &GuessState::parse(""));
    let p = predict(&words, &idx);
    // imbalances over four words: a 2, t 4, e 2, x 2, y 2 -> 'a' first
    assert_eq!(p.letter, Some('a'));
    assert_eq!(p.suggestion, Some("tea".to_string()));
}

#[test]
fn predict_without_words_gives_nothing() {
    let words: Vec<String> = Vec::new();
    let idx = build_index(&words, &GuessState::parse(""));
    let p = predict(&words, &idx);
    assert_eq!(p.letter, None);
    assert_eq!(p.suggestion, None);
}

#[test]
fn predict_can_name_a_letter_but_no_guess() {
    // every word repeats a letter, so nothing is viable
    let words = strings(&["aa", "aaa"]);
    let idx = build_index(&words, &GuessState::parse(""));
    let p = predict(&words, &idx);
    assert_eq!(p.letter, Some('a'));
    assert_eq!(p.suggestion, None);
}
