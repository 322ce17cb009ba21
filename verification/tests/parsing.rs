use wordle_solve::{parse_input, ParseError};
use wordle_solve::Info::{Exact, Somewhere, No};

#[test]
fn empty_input_parses_to_no_tiles() {
    assert_eq!(parse_input("", 5), Ok(vec![]));
}

#[test]
fn whitespace_between_tiles_is_skipped() {
    assert_eq!(
        parse_input("*a ?b\t!c", 3),
        Ok(vec![Exact('a'), Somewhere('b'), No('c')])
    );
}

#[test]
fn fewer_tiles_than_letters_are_accepted() {
    assert_eq!(parse_input("*a", 5), Ok(vec![Exact('a')]));
}

#[test]
fn too_many_tiles_rejected() {
    assert_eq!(parse_input("*a?b", 1), Err(ParseError::TooManyTiles));
}

#[test]
fn unknown_marker_rejected() {
    assert_eq!(parse_input("xa", 5), Err(ParseError::UnknownMarker('x')));
}

#[test]
fn dangling_marker_rejected() {
    assert_eq!(parse_input("*a?", 5), Err(ParseError::TrailingMarker('?')));
}
