use wordle_solve::{check_all_words, check_guess, guess_word, worst_case, Knowledge};
use wordle_solve::Info::{Exact, Somewhere, No};

fn words(list: &[&str]) -> Vec<String> {
    list.iter().map(|w| w.to_string()).collect()
}

fn letter_counts(list: &[&str]) -> Vec<(char, u64)> {
    let mut counts: Vec<(char, u64)> = Vec::new();
    for w in list {
        for c in w.chars() {
            match counts.iter_mut().find(|e| e.0 == c) {
                Some(e) => e.1 += 1,
                None => counts.push((c, 1)),
            }
        }
    }
    counts
}

const DICT: [&str; 5] = ["motor", "palmy", "robot", "sorts", "thorn"];

#[test]
fn end_to_end_hunt_for_robot() {
    let dictionary = words(&DICT);
    let freq = letter_counts(&DICT);

    // The first feedback for the guess "thorn" against "robot".
    let first = check_guess("robot", "thorn");
    assert_eq!(first, vec![Somewhere('t'), No('h'), Somewhere('o'), Somewhere('r'), No('n')]);

    // Replaying the hunt's own feedback by hand: after the third batch,
    // "motor" is excluded and "robot" remains.
    let mut k = Knowledge::new(5);
    k.add_infos(&check_guess("robot", "thorn")).unwrap();
    assert!(k.check_word("motor"));
    assert!(k.check_word("robot"));
    k.add_infos(&check_guess("robot", "sorts")).unwrap();
    assert!(k.check_word("motor"));
    assert!(k.check_word("robot"));
    k.add_infos(&check_guess("robot", "motor")).unwrap();
    assert!(!k.check_word("motor"));
    assert!(k.check_word("robot"));

    // The whole hunt, as the driver records it.
    let trace = guess_word("robot", dictionary, &freq);
    assert_eq!(
        trace,
        vec![
            ("thorn".to_string(), 3),
            ("sorts".to_string(), 2),
            ("motor".to_string(), 1),
            ("robot".to_string(), 1),
        ]
    );
}

#[test]
fn immediate_hit_records_one_guess() {
    let freq = letter_counts(&["robot"]);
    let trace = guess_word("robot", words(&["robot"]), &freq);
    assert_eq!(trace, vec![("robot".to_string(), 1)]);
}

#[test]
fn unreachable_secret_records_failure() {
    let freq = letter_counts(&["robot"]);
    let trace = guess_word("zzzzz", words(&["robot"]), &freq);
    assert_eq!(trace, vec![("robot".to_string(), 0), (String::new(), 0)]);
}

#[test]
fn every_word_hunted_in_turn() {
    let dictionary = words(&DICT);
    let freq = letter_counts(&DICT);
    let reports = check_all_words(&dictionary, &freq);
    assert_eq!(reports.len(), 5);
    for (i, (word, trace)) in reports.iter().enumerate() {
        assert_eq!(word, &dictionary[i]);
        // Every hunt ends either with the secret found or with the failure
        // sentinel.
        let last = trace.last().unwrap();
        assert!(last == &(word.clone(), 1) || last == &(String::new(), 0));
    }
    let robot = &reports[2];
    assert_eq!(robot.0, "robot");
    assert_eq!(
        robot.1,
        vec![
            ("thorn".to_string(), 3),
            ("sorts".to_string(), 2),
            ("motor".to_string(), 1),
            ("robot".to_string(), 1),
        ]
    );
}

#[test]
fn worst_case_collects_all_ties() {
    let reports = vec![
        ("ab".to_string(), vec![("ab".to_string(), 1)]),
        ("cd".to_string(), vec![("x".to_string(), 2), ("cd".to_string(), 1)]),
        ("ef".to_string(), vec![("y".to_string(), 2), ("ef".to_string(), 1)]),
    ];
    assert_eq!(worst_case(&reports), (2, words(&["cd", "ef"])));
    let none: Vec<(String, Vec<(String, usize)>)> = Vec::new();
    assert_eq!(worst_case(&none), (0, Vec::<String>::new()));
}
