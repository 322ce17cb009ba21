//! Feedback tiles and the duplicate-letter-aware feedback evaluator.

use vstd::prelude::*;

verus! {

/// Feedback for one letter of a guess: green, yellow, or gray.
#[derive(Debug, Clone, Copy, PartialEq, Eq, Structural)]
pub enum Info {
    /// Green: the guessed letter sits at this exact position.
    Exact(char),
    /// Yellow: the letter occurs elsewhere in the word.
    Somewhere(char),
    /// Gray: no further occurrence of the letter is to be found.
    No(char),
}

/// How many positions of `s` hold the letter `c`.
pub open spec fn count_letter(s: Seq<char>, c: char) -> nat
    decreases s.len(),
{
    if s.len() == 0 {
        0
    } else {
        count_letter(s.drop_last(), c) + if s.last() == c {
            1nat
        } else {
            0nat
        }
    }
}

/// How many of the first `n` positions are exact matches holding `c`.
pub open spec fn matched_upto(word: Seq<char>, guess: Seq<char>, c: char, n: int) -> nat
    decreases n,
{
    if n <= 0 {
        0
    } else {
        matched_upto(word, guess, c, n - 1) + if word[n - 1] == c && guess[n - 1] == c {
            1nat
        } else {
            0nat
        }
    }
}

/// How many `Somewhere(c)` tiles a feedback sequence holds.
pub open spec fn somewhere_count(infos: Seq<Info>, c: char) -> nat
    decreases infos.len(),
{
    if infos.len() == 0 {
        0
    } else {
        somewhere_count(infos.drop_last(), c) + if infos.last() == Info::Somewhere(c) {
            1nat
        } else {
            0nat
        }
    }
}

/// The tile emitted for position `i`, given the tiles already emitted at
/// lower positions.  Greens are reserved first over the whole word; yellow
/// tiles for a letter are capped at its true count minus its greens; the
/// excess goes gray.
pub open spec fn feedback_tile(word: Seq<char>, guess: Seq<char>, i: int, earlier: Seq<Info>) -> Info {
    let c = guess[i];
    if word[i] == c {
        Info::Exact(c)
    } else if count_letter(word, c) > matched_upto(word, guess, c, word.len() as int)
        + somewhere_count(earlier, c) {
        Info::Somewhere(c)
    } else {
        Info::No(c)
    }
}

/// The first `n` feedback tiles for `guess` against `word`.
pub open spec fn feedback_prefix(word: Seq<char>, guess: Seq<char>, n: int) -> Seq<Info>
    decreases n,
{
    if n <= 0 {
        Seq::empty()
    } else {
        let earlier = feedback_prefix(word, guess, n - 1);
        earlier.push(feedback_tile(word, guess, n - 1, earlier))
    }
}

/// The full feedback a player would see for `guess` against the secret `word`.
pub open spec fn feedback(word: Seq<char>, guess: Seq<char>) -> Seq<Info> {
    feedback_prefix(word, guess, guess.len() as int)
}

pub proof fn lemma_feedback_prefix_len(word: Seq<char>, guess: Seq<char>, n: int)
    requires
        n >= 0,
    ensures
        feedback_prefix(word, guess, n).len() == n,
    decreases n,
{
    if n > 0 {
        lemma_feedback_prefix_len(word, guess, n - 1);
    }
}

/// Every tile of a feedback prefix is the tile the evaluator emits at its
/// own position, fed with the tiles before it.
pub proof fn lemma_feedback_prefix_index(word: Seq<char>, guess: Seq<char>, n: int, i: int)
    requires
        0 <= i < n,
    ensures
        feedback_prefix(word, guess, n).len() == n,
        feedback_prefix(word, guess, n)[i] == feedback_tile(
            word,
            guess,
            i,
            feedback_prefix(word, guess, i),
        ),
        feedback_prefix(word, guess, n).take(i) =~= feedback_prefix(word, guess, i),
    decreases n,
{
    lemma_feedback_prefix_len(word, guess, n);
    lemma_feedback_prefix_len(word, guess, i);
    if i == n - 1 {
        if i > 0 {
            lemma_feedback_prefix_index(word, guess, n - 1, i - 1);
        }
        assert(feedback_prefix(word, guess, n).take(i) =~= feedback_prefix(word, guess, i));
    } else {
        lemma_feedback_prefix_index(word, guess, n - 1, i);
        assert(feedback_prefix(word, guess, n).take(i) =~= feedback_prefix(word, guess, n - 1).take(
            i,
        ));
    }
}

/// The letter a tile carries.
pub open spec fn tile_letter(t: Info) -> char {
    match t {
        Info::Exact(c) => c,
        Info::Somewhere(c) => c,
        Info::No(c) => c,
    }
}

/// Each feedback tile carries the guessed letter of its own position, and
/// is green exactly where guess and word agree.
pub proof fn lemma_feedback_tile_shape(word: Seq<char>, guess: Seq<char>, i: int)
    requires
        0 <= i < guess.len(),
    ensures
        feedback(word, guess).len() == guess.len(),
        tile_letter(feedback(word, guess)[i]) == guess[i],
        feedback(word, guess)[i] is Exact <==> word[i] == guess[i],
{
    lemma_feedback_prefix_index(word, guess, guess.len() as int, i);
}

/// Counts the occurrences of the letter `c` among the characters of `s`.
pub(crate) fn count_occurrences(s: &str, c: char) -> (n: usize)
    ensures
        n == count_letter(s@, c),
{
    let len = s.unicode_len();
    let mut n: usize = 0;
    for i in 0..len
        invariant
            len == s@.len(),
            n == count_letter(s@.take(i as int), c),
            n <= i,
    {
        if s.get_char(i) == c {
            n = n + 1;
        }
        proof {
            assert(s@.take(i + 1).drop_last() =~= s@.take(i as int));
            assert(s@.take(i + 1).last() == s@[i as int]);
        }
    }
    proof {
        assert(s@.take(len as int) =~= s@);
    }
    n
}

/// Counts the positions where `word` and `guess` agree on the letter `c`.
fn count_matched(word: &str, guess: &str, c: char) -> (n: usize)
    requires
        word@.len() == guess@.len(),
    ensures
        n == matched_upto(word@, guess@, c, word@.len() as int),
{
    let len = word.unicode_len();
    let mut n: usize = 0;
    for i in 0..len
        invariant
            len == word@.len(),
            word@.len() == guess@.len(),
            n == matched_upto(word@, guess@, c, i as int),
            n <= i,
    {
        if word.get_char(i) == c && guess.get_char(i) == c {
            n = n + 1;
        }
    }
    n
}

/// Counts the `Somewhere(c)` tiles already emitted.
fn count_somewhere(infos: &Vec<Info>, c: char) -> (n: usize)
    ensures
        n == somewhere_count(infos@, c),
{
    let len = infos.len();
    let mut n: usize = 0;
    for i in 0..len
        invariant
            len == infos@.len(),
            n == somewhere_count(infos@.take(i as int), c),
            n <= i,
    {
        if infos[i] == Info::Somewhere(c) {
            n = n + 1;
        }
        proof {
            assert(infos@.take(i + 1).drop_last() =~= infos@.take(i as int));
            assert(infos@.take(i + 1).last() == infos@[i as int]);
        }
    }
    proof {
        assert(infos@.take(len as int) =~= infos@);
    }
    n
}

/// Computes the tile-by-tile feedback for `guess` against the secret `word`,
/// processing positions left to right.  Exact matches are reserved first;
/// yellow tiles for a letter stop once its true count is exhausted.
pub fn check_guess(word: &str, guess: &str) -> (infos: Vec<Info>)
    requires
        word@.len() == guess@.len(),
    ensures
        infos@ == feedback(word@, guess@),
{
    let len = guess.unicode_len();
    let mut infos: Vec<Info> = Vec::new();
    for i in 0..len
        invariant
            len == guess@.len(),
            word@.len() == guess@.len(),
            infos@ == feedback_prefix(word@, guess@, i as int),
    {
        let gc = guess.get_char(i);
        let wc = word.get_char(i);
        let info = if wc == gc {
            Info::Exact(gc)
        } else {
            let total = count_occurrences(word, gc);
            let matched = count_matched(word, guess, gc);
            let elsewhere = count_somewhere(&infos, gc);
            if total > matched && total - matched > elsewhere {
                Info::Somewhere(gc)
            } else {
                Info::No(gc)
            }
        };
        proof {
            assert(info == feedback_tile(word@, guess@, i as int, infos@));
        }
        infos.push(info);
    }
    infos
}

} // verus!
