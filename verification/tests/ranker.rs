use wordle_solve::{best_candidates, Knowledge};
use wordle_solve::Info::{Exact, Somewhere, No};

fn words(list: &[&str]) -> Vec<String> {
    list.iter().map(|w| w.to_string()).collect()
}

#[test]
fn tiers_ordered_by_distinct_letters() {
    // Five distinct letters outrank three, whatever the frequencies say.
    let candidates = words(&["aabbc", "abcde", "fghij"]);
    let k = Knowledge::new(5);
    let best = best_candidates(&candidates, &k, &vec![]);
    assert_eq!(best, words(&["abcde", "fghij", "aabbc"]));
}

#[test]
fn frequency_breaks_ties_within_a_tier() {
    let candidates = words(&["ab", "cd"]);
    let freq: Vec<(char, u64)> = vec![('a', 10), ('b', 10), ('c', 1), ('d', 1)];
    let k = Knowledge::new(2);
    assert_eq!(best_candidates(&candidates, &k, &freq), words(&["ab", "cd"]));
}

#[test]
fn known_letters_weigh_nothing() {
    let candidates = words(&["ab", "cd"]);
    let freq: Vec<(char, u64)> = vec![('a', 10), ('b', 10), ('c', 1), ('d', 1)];
    let mut k = Knowledge::new(2);
    k.add_infos(&[Somewhere('a'), Somewhere('b')]).unwrap();
    // 'a' and 'b' are settled now, so "ab" scores nothing and "cd" leads.
    assert_eq!(best_candidates(&candidates, &k, &freq), words(&["cd", "ab"]));
}

#[test]
fn lower_tiers_left_out_once_ten_stand() {
    let candidates = words(&["ab", "ac", "ad", "ae", "af", "ag", "ah", "ai", "aj", "ak", "zz"]);
    let k = Knowledge::new(2);
    let best = best_candidates(&candidates, &k, &vec![]);
    assert_eq!(best, words(&["ab", "ac", "ad", "ae", "af", "ag", "ah", "ai", "aj", "ak"]));
}

#[test]
fn a_tier_is_never_split() {
    // Twelve words in one tier: the whole tier is returned even though ten
    // would have been enough.
    let candidates = words(&[
        "ab", "ac", "ad", "ae", "af", "ag", "ah", "ai", "aj", "ak", "al", "am",
    ]);
    let k = Knowledge::new(2);
    let best = best_candidates(&candidates, &k, &vec![]);
    assert_eq!(best.len(), 12);
    assert_eq!(best, candidates);
}

#[test]
fn empty_candidates_yield_empty_ranking() {
    let k = Knowledge::new(5);
    let best = best_candidates(&vec![], &k, &vec![]);
    assert!(best.is_empty());
}
