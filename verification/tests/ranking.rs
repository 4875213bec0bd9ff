use wordhint::anagram::build_index;
use wordhint::rank::{rank_order, top_report, winner_members, winning_group};
use wordhint::state::GuessState;

fn strings(ws: &[&str]) -> Vec<String> {
    ws.iter().map(|w| w.to_string()).collect()
}

#[test]
fn order_is_ascending_by_group_size() {
    // group sizes, by key slot: a -> 1, b -> 1, aet -> 3, no -> 2
    let words = strings(&["a", "b", "ate", "eat", "tea", "no", "on"]);
    let idx = build_index(&words, &GuessState::parse(""));
    let order = rank_order(&idx);
    assert_eq!(order, vec![0, 1, 3, 2]);
}

#[test]
fn report_shows_single_words_and_counts() {
    let words = strings(&["a", "b", "ate", "eat", "tea", "no", "on"]);
    let idx = build_index(&words, &GuessState::parse(""));
    let order = rank_order(&idx);
    let report = top_report(&idx, &order);
    // all four classes fit in the top ten; the size-3 class is last
    // with its member count, singleton classes show the word itself
    assert_eq!(
        report,
        vec![
            ("a".to_string(), 1),
            ("b".to_string(), 1),
            ("no".to_string(), 2),
            ("aet".to_string(), 3),
        ]
    );
}

#[test]
fn report_caps_at_ten_classes() {
    let words = strings(&[
        "a", "b", "c", "d", "e", "f", "g", "h", "i", "j", "k", "l",
    ]);
    let idx = build_index(&words, &GuessState::parse(""));
    let order = rank_order(&idx);
    let report = top_report(&idx, &order);
    assert_eq!(report.len(), 10);
}

#[test]
fn winner_is_a_largest_group() {
    let words = strings(&["a", "b", "ate", "eat", "tea", "no", "on"]);
    let idx = build_index(&words, &GuessState::parse(""));
    let k = winning_group(&idx).unwrap();
    assert_eq!(idx.keys[k], "aet");
    let members = winner_members(&idx, k, &GuessState::parse(""));
    assert_eq!(members, strings(&["ate", "eat", "tea"]));
}

#[test]
fn no_candidates_no_winner() {
    let words = strings(&["dog"]);
    let idx = build_index(&words, &GuessState::parse("d"));
    assert_eq!(winning_group(&idx), None);
    assert_eq!(rank_order(&idx), Vec::<usize>::new());
    assert_eq!(top_report(&idx, &rank_order(&idx)).len(), 0);
}

#[test]
fn winner_members_refilter_defensively() {
    let words = strings(&["ate", "eat", "tea"]);
    let idx = build_index(&words, &GuessState::parse(""));
    let k = winning_group(&idx).unwrap();
    // a stricter state than the one the index was built from
    let members = winner_members(&idx, k, &GuessState::parse("T"));
    assert_eq!(members, strings(&["tea"]));
}
