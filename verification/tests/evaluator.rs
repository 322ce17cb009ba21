use wordle_solve::check_guess;
use wordle_solve::Info::{Exact, Somewhere, No};

#[test]
fn exact_match_is_all_green() {
    assert_eq!(
        check_guess("robot", "robot"),
        vec![Exact('r'), Exact('o'), Exact('b'), Exact('o'), Exact('t')]
    );
}

#[test]
fn duplicate_letters_capped_at_true_count() {
    // The secret "sorts" holds one 'o': the guess's first 'o' goes green,
    // the second one gray, never a second colored tile for 'o'.
    let infos = check_guess("sorts", "robot");
    assert_eq!(infos, vec![Somewhere('r'), Exact('o'), No('b'), No('o'), Somewhere('t')]);
    let colored_o = infos
        .iter()
        .filter(|i| matches!(i, Exact('o') | Somewhere('o')))
        .count();
    assert_eq!(colored_o, 1);
}

#[test]
fn yellow_budget_spent_left_to_right() {
    // The secret "aab" holds two 'a's; the guess "aaa" matches two and the
    // third 'a' goes gray.
    assert_eq!(check_guess("aab", "aaa"), vec![Exact('a'), Exact('a'), No('a')]);
    // The secret "xa" holds one 'a'; both greens are reserved before any
    // yellow, so the guess's first 'a' goes gray, not yellow.
    assert_eq!(check_guess("xa", "aa"), vec![No('a'), Exact('a')]);
}

#[test]
fn absent_letter_goes_gray() {
    assert_eq!(check_guess("abc", "xyz"), vec![No('x'), No('y'), No('z')]);
}
