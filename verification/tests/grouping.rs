use wordhint::anagram::{build_index, sort_letters};
use wordhint::state::GuessState;

fn strings(ws: &[&str]) -> Vec<String> {
    ws.iter().map(|w| w.to_string()).collect()
}

#[test]
fn sort_letters_gives_canonical_key() {
    assert_eq!(sort_letters("ate"), "aet");
    assert_eq!(sort_letters("eat"), "aet");
    assert_eq!(sort_letters("tea"), "aet");
    assert_eq!(sort_letters("dog"), "dgo");
    assert_eq!(sort_letters(""), "");
    assert_eq!(sort_letters("zza"), "azz");
}

#[test]
fn anagrams_share_a_group() {
    let words = strings(&["ate", "eat", "tea", "dog", "god", "cat"]);
    let idx = build_index(&words, &GuessState::parse(""));
    assert_eq!(idx.keys, vec!["aet", "dgo", "act"]);
    assert_eq!(idx.groups[0], strings(&["ate", "eat", "tea"]));
    assert_eq!(idx.groups[1], strings(&["dog", "god"]));
    assert_eq!(idx.groups[2], strings(&["cat"]));
}

#[test]
fn repeated_dictionary_words_count_once() {
    let words = strings(&["ate", "ate", "ate"]);
    let idx = build_index(&words, &GuessState::parse(""));
    assert_eq!(idx.keys.len(), 1);
    assert_eq!(idx.groups[0], strings(&["ate"]));
}

#[test]
fn index_holds_only_matching_words() {
    let words = strings(&["zebra", "ate", "tea"]);
    let idx = build_index(&words, &GuessState::parse("z"));
    assert_eq!(idx.keys, vec!["aet"]);
    assert_eq!(idx.groups[0], strings(&["ate", "tea"]));
}

#[test]
fn empty_filter_leaves_empty_index() {
    let words = strings(&["dog", "god"]);
    let idx = build_index(&words, &GuessState::parse("o"));
    assert_eq!(idx.keys.len(), 0);
    assert_eq!(idx.groups.len(), 0);
}
