use wordle_solve::{Contradiction, Knowledge};
use wordle_solve::Info::{Exact, Somewhere, No};

#[test]
fn contradiction_leaves_state_untouched() {
    let mut k = Knowledge::new(2);
    k.add_infos(&[Exact('a'), Exact('b')]).unwrap();
    assert!(k.check_word("ab"));
    // Re-pinning the first slot to a different letter is rejected whole.
    let err = k.add_infos(&[Exact('c'), Exact('b')]).unwrap_err();
    assert_eq!(err, Contradiction { slot: 0, fixed: 'a' });
    assert!(k.check_word("ab"));
    // A yellow tile on a slot pinned to a different letter is also rejected.
    let err = k.add_infos(&[Somewhere('c')]).unwrap_err();
    assert_eq!(err, Contradiction { slot: 0, fixed: 'a' });
    assert!(k.check_word("ab"));
    // A yellow tile carrying the pinned letter itself is redundant, not a
    // contradiction.
    assert!(k.add_infos(&[Somewhere('a')]).is_ok());
    assert!(k.check_word("ab"));
}

#[test]
fn global_absence_propagates_to_every_open_slot() {
    let mut k = Knowledge::new(3);
    // One gray 'a' at the first position bans 'a' everywhere.
    k.add_infos(&[No('a'), No('b'), No('c')]).unwrap();
    assert!(!k.check_word("xya"));
    assert!(!k.check_word("axy"));
    assert!(!k.check_word("xay"));
    assert!(k.check_word("xyz"));
}

#[test]
fn repeated_feedback_keeps_smaller_count() {
    let mut k = Knowledge::new(4);
    // Two yellow 'a's: the word needs two of them.
    k.add_infos(&[Somewhere('a'), Somewhere('a'), No('z'), No('z')]).unwrap();
    assert!(k.check_word("bcaa"));
    assert!(!k.check_word("bcda"));
    // A later batch vouching for only one 'a' lowers the requirement: the
    // recorded minimum is the smaller of the two counts.
    k.add_infos(&[Somewhere('a'), No('z'), No('z'), No('z')]).unwrap();
    assert!(k.check_word("bcda"));
}

#[test]
fn consistency_fails_closed() {
    let mut k = Knowledge::new(3);
    assert!(!k.check_word("ab"));
    assert!(!k.check_word("abcd"));
    assert!(!k.check_word("aB1"));
    assert!(k.check_word("abc"));
    k.add_infos(&[Exact('a')]).unwrap();
    assert!(!k.check_word("bbc"));
    assert!(k.check_word("abc"));
}

#[test]
fn letters_become_known_through_feedback() {
    let mut k = Knowledge::new(3);
    assert!(!k.is_letter_known('a'));
    assert!(!k.is_letter_known('b'));
    assert!(!k.is_letter_known('c'));
    k.add_infos(&[Exact('a'), Somewhere('b'), No('c')]).unwrap();
    assert!(k.is_letter_known('a'));
    assert!(k.is_letter_known('b'));
    assert!(k.is_letter_known('c'));
    assert!(!k.is_letter_known('d'));
}

#[test]
fn secret_survives_its_own_feedback() {
    let secrets = ["robot", "sorts", "motor", "aabba"];
    let guesses = ["sorts", "robot", "tomor", "ababa"];
    for secret in secrets.iter() {
        for guess in guesses.iter() {
            let mut k = Knowledge::new(5);
            let infos = wordle_solve::check_guess(secret, guess);
            k.add_infos(&infos).unwrap();
            assert!(k.check_word(secret));
        }
    }
}
