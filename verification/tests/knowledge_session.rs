use wordle_solve::{Knowledge, parse_input};
use wordle_solve::Info::{Exact, Somewhere, No};

#[test]
fn test_5() {
    let mut k = Knowledge::new(5);
    k.add_infos(&[No('a'), No('d'), No('i'), No('e'), No('u')]).unwrap();
    assert!(k.check_word("thorn"));
    k.add_infos(&[Somewhere('t'), No('h'), Somewhere('o'), Somewhere('r'), No('n')]).unwrap();
    assert!(k.check_word("sorts"));
    k.add_infos(&[No('s'), Exact('o'), Somewhere('r'), Somewhere('t'), No('s')]).unwrap();
    assert!(!k.check_word("palmy"));
    k.add_infos(&[No('p'), No('a'), No('l'), No('m'), No('y')]).unwrap();
    println!("{:#?}", k);
    assert!(k.check_word("robot"));
    assert!(!k.check_word("motor"));
}

#[test]
fn test_11_1() {
    let mut k = Knowledge::new(11);
    // !u?l*c?e?r?a!t!i*o!n!s
    k.add_infos(&[
        No('u'),
        Somewhere('l'),
        Exact('c'),
        Somewhere('e'),
        Somewhere('r'),
        Somewhere('a'),
        No('t'),
        No('i'),
        Exact('o'),
        No('n'),
        No('s'),
    ])
    .unwrap();
    assert!(k.check_word("archaeology"));
}

#[test]
fn test_parse() {
    assert_eq!(
        parse_input("!u?l*c?e?r?a!t!i*o!n!s", 11),
        Ok(vec![
            No('u'),
            Somewhere('l'),
            Exact('c'),
            Somewhere('e'),
            Somewhere('r'),
            Somewhere('a'),
            No('t'),
            No('i'),
            Exact('o'),
            No('n'),
            No('s'),
        ])
    );
}

#[test]
fn test_11_2() {
    let mut k = Knowledge::new(11);
    k.add_infos(&parse_input("?u!l*c!e?r!a!t?i*o?n*s", 11).unwrap()).unwrap();
    assert!(k.check_word("incongruous"));
}

#[test]
fn test_11_3() {
    let mut k = Knowledge::new(11);
    // symptomatic / masochistic
    k.add_infos(&parse_input("!u!l?c!e!r?a?t?i?o!n?s", 11).unwrap()).unwrap();
    assert!(k.check_word("symptomatic"));
    assert!(k.check_word("masochistic"));
    k.add_infos(&parse_input("?s!y?m!p!t?o!m?a*t*i*c", 11).unwrap()).unwrap();
    assert!(!k.check_word("symptomatic"));
    assert!(k.check_word("masochistic"));
}

#[test]
fn test_11_4() {
    let mut k = Knowledge::new(11);
    // symptomatic / masochistic
    k.add_infos(&parse_input("!u!l?c!e!r?a?t?i?o!n?s", 11).unwrap()).unwrap();
    assert!(k.check_word("symptomatic"));
    assert!(k.check_word("masochistic"));
    k.add_infos(&parse_input("?m?a?s?o!c!h!i!s*t*i*c", 11).unwrap()).unwrap();
    assert!(k.check_word("symptomatic"));
    assert!(!k.check_word("masochistic"));
}
