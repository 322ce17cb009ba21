//! Parsing of hand-typed feedback lines.
//!
//! Each letter of a guess is prefixed by one marker: `*` for green, `?` for
//! yellow, `!` for gray.  Whitespace between tiles is skipped.

use vstd::prelude::*;
use crate::tile::Info;

verus! {

/// An error in a hand-typed feedback line.
#[derive(Debug, Clone, Copy, PartialEq, Eq, Structural)]
pub enum ParseError {
    /// More tiles than the word has letters.
    TooManyTiles,
    /// A prefix character that is none of `*`, `?`, `!`; carries that
    /// character.
    UnknownMarker(char),
    /// A marker at the end of the input with no letter after it; carries the
    /// marker.
    TrailingMarker(char),
}

/// The whitespace characters skipped between tiles.
pub open spec fn is_space(c: char) -> bool {
    c == ' ' || c == '\t' || c == '\r' || c == '\n'
}

/// The tile a marker makes of the letter after it, if the marker is known.
pub open spec fn marker_tile(flag: char, c: char) -> Option<Info> {
    if flag == '*' {
        Some(Info::Exact(c))
    } else if flag == '?' {
        Some(Info::Somewhere(c))
    } else if flag == '!' {
        Some(Info::No(c))
    } else {
        None
    }
}

/// The parse of the remaining input: `flag` holds a marker still waiting
/// for its letter, `acc` the tiles gathered so far, `n` the word length.
/// Any input left once `n` tiles stand is an error, whitespace included.
pub open spec fn parse_rest(s: Seq<char>, flag: Option<char>, acc: Seq<Info>, n: nat) -> Result<
    Seq<Info>,
    ParseError,
>
    decreases s.len(),
{
    if s.len() == 0 {
        match flag {
            None => Ok(acc),
            Some(f) => Err(ParseError::TrailingMarker(f)),
        }
    } else if acc.len() == n {
        Err(ParseError::TooManyTiles)
    } else {
        let c = s[0];
        if is_space(c) {
            parse_rest(s.drop_first(), flag, acc, n)
        } else {
            match flag {
                None => parse_rest(s.drop_first(), Some(c), acc, n),
                Some(f) => match marker_tile(f, c) {
                    Some(info) => parse_rest(s.drop_first(), None, acc.push(info), n),
                    None => Err(ParseError::UnknownMarker(f)),
                },
            }
        }
    }
}

/// The parse of a whole feedback line for a word of `n` letters.
pub open spec fn parse_spec(s: Seq<char>, n: nat) -> Result<Seq<Info>, ParseError> {
    parse_rest(s, None, Seq::empty(), n)
}

fn space_char(c: char) -> (r: bool)
    ensures
        r == is_space(c),
{
    c == ' ' || c == '\t' || c == '\r' || c == '\n'
}

/// Parses a feedback line: one marker-prefixed tile per letter, in order.
/// A malformed marker, a dangling marker, or more tiles than `num_letters`
/// is an input error; fewer tiles than `num_letters` are accepted.
pub fn parse_input(inp: &str, num_letters: usize) -> (r: Result<Vec<Info>, ParseError>)
    ensures
        match r {
            Ok(v) => parse_spec(inp@, num_letters as nat) == Ok::<Seq<Info>, ParseError>(v@),
            Err(e) => parse_spec(inp@, num_letters as nat) == Err::<Seq<Info>, ParseError>(e),
        },
{
    let len = inp.unicode_len();
    let mut infos: Vec<Info> = Vec::new();
    let mut flag: Option<char> = None;
    proof {
        assert(inp@.skip(0) =~= inp@);
    }
    for i in 0..len
        invariant
            len == inp@.len(),
            parse_rest(inp@.skip(i as int), flag, infos@, num_letters as nat) == parse_spec(
                inp@,
                num_letters as nat,
            ),
    {
        let c = inp.get_char(i);
        proof {
            assert(inp@.skip(i as int).len() > 0);
            assert(inp@.skip(i as int)[0] == inp@[i as int]);
            assert(inp@.skip(i as int).drop_first() =~= inp@.skip(i + 1));
        }
        if infos.len() == num_letters {
            return Err(ParseError::TooManyTiles);
        }
        if !space_char(c) {
            match flag {
                None => {
                    flag = Some(c);
                },
                Some(f) => {
                    let info = if f == '*' {
                        Info::Exact(c)
                    } else if f == '?' {
                        Info::Somewhere(c)
                    } else if f == '!' {
                        Info::No(c)
                    } else {
                        return Err(ParseError::UnknownMarker(f));
                    };
                    infos.push(info);
                    flag = None;
                },
            }
        }
    }
    proof {
        assert(inp@.skip(len as int) =~= Seq::<char>::empty());
    }
    match flag {
        Some(f) => Err(ParseError::TrailingMarker(f)),
        None => Ok(infos),
    }
}

} // verus!
