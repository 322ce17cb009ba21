//! The simulation driver: self-play against a known secret.
//!
//! Each cycle ranks the remaining candidates, takes the top guess, evaluates
//! it against the secret, absorbs the feedback and refilters the candidates,
//! recording one `(guess, remaining)` pair per cycle.  An empty guess in the
//! record signals that the secret was not reachable.

use vstd::prelude::*;
use vstd::pervasive::unreached;
use crate::tile::{check_guess, feedback, lemma_feedback_prefix_len, lemma_feedback_tile_shape};
use crate::knowledge::{
    Knowledge, KnowledgeView, SlotView, empty_knowledge, word_ok, absorbed, agrees_with_fixed,
    slot_evolved, lemma_apply_tiles_shape, lemma_honest_batch_ok,
};
use crate::rank::{best_candidates, rank_spec, freq_map, freq_wf, lemma_rank_members};

verus! {

/// The candidates still consistent with the model, in their original order.
pub open spec fn consistent_words(k: KnowledgeView, words: Seq<Seq<char>>) -> Seq<Seq<char>> {
    words.filter(|w: Seq<char>| word_ok(k, w))
}

proof fn lemma_consistent_push(k: KnowledgeView, words: Seq<Seq<char>>, x: Seq<char>)
    ensures
        consistent_words(k, words.push(x)) == if word_ok(k, x) {
            consistent_words(k, words).push(x)
        } else {
            consistent_words(k, words)
        },
{
    reveal(Seq::filter);
    assert(words.push(x).drop_last() =~= words);
    assert(words.push(x).last() == x);
}

/// Every word that survives the filter is consistent and drawn from the
/// input, and the filter never grows the set.
proof fn lemma_consistent_members(k: KnowledgeView, words: Seq<Seq<char>>)
    ensures
        consistent_words(k, words).len() <= words.len(),
        forall|i: int|
            0 <= i < consistent_words(k, words).len() ==> word_ok(
                k,
                #[trigger] consistent_words(k, words)[i],
            ) && words.contains(consistent_words(k, words)[i]),
    decreases words.len(),
{
    reveal(Seq::filter);
    if words.len() > 0 {
        let prior = words.drop_last();
        lemma_consistent_members(k, prior);
        let out = consistent_words(k, words);
        assert forall|i: int| 0 <= i < out.len() implies word_ok(k, #[trigger] out[i])
            && words.contains(out[i]) by {
            if word_ok(k, words.last()) && i == out.len() - 1 {
                assert(out[i] == words.last());
                assert(words[words.len() - 1] == out[i]);
            } else {
                assert(out[i] == consistent_words(k, prior)[i]);
                assert(prior.contains(out[i]));
                let j = choose|j: int| 0 <= j < prior.len() && prior[j] == out[i];
                assert(words[j] == out[i]);
            }
        }
    }
}

/// The views of a recorded trace: each guess as its character sequence.
pub open spec fn trace_views(r: Seq<(String, usize)>) -> Seq<(Seq<char>, usize)> {
    r.map_values(|p: (String, usize)| (p.0@, p.1))
}

/// Whether `trace` is exactly the record the self-play loop produces from
/// the model `k` and candidate set `cands` when hunting for `word`: the top
/// ranked candidate is guessed; finding the secret records `(word, 1)`; an
/// empty ranking, or a cycle that fails to shrink the candidate set, records
/// an empty guess as failure; otherwise the feedback is absorbed, the
/// candidates refiltered, `(guess, remaining)` recorded, and the hunt goes
/// on.
pub open spec fn solve_trace(
    k: KnowledgeView,
    cands: Seq<Seq<char>>,
    word: Seq<char>,
    freq: Map<char, u64>,
    trace: Seq<(Seq<char>, usize)>,
) -> bool
    decreases trace.len(),
{
    let ranked = rank_spec(cands, k, freq);
    if ranked.len() == 0 {
        trace == seq![(Seq::<char>::empty(), 0usize)]
    } else if ranked[0] == word {
        trace == seq![(word, 1usize)]
    } else {
        let k2 = absorbed(k, feedback(word, ranked[0]));
        let rest = consistent_words(k2, cands);
        if trace.len() == 0 {
            false
        } else {
            trace[0].0 == ranked[0] && trace[0].1 == rest.len() && if rest.len() >= cands.len() {
                trace.len() == 2 && trace[1] == (Seq::<char>::empty(), 0usize)
            } else {
                solve_trace(k2, rest, word, freq, trace.drop_first())
            }
        }
    }
}

/// Compares two words character by character.
fn str_eq(a: &str, b: &str) -> (r: bool)
    ensures
        r == (a@ == b@),
{
    let n = a.unicode_len();
    if n != b.unicode_len() {
        return false;
    }
    for i in 0..n
        invariant
            n == a@.len(),
            n == b@.len(),
            forall|j: int| 0 <= j < i ==> a@[j] == b@[j],
    {
        if a.get_char(i) != b.get_char(i) {
            return false;
        }
    }
    proof {
        assert(a@ =~= b@);
    }
    true
}

/// Copies a list of words.
fn clone_words(words: &Vec<String>) -> (r: Vec<String>)
    ensures
        r@ == words@,
        r.deep_view() == words.deep_view(),
{
    let mut r: Vec<String> = Vec::new();
    let n = words.len();
    for i in 0..n
        invariant
            n == words@.len(),
            r@.len() == i,
            forall|j: int| 0 <= j < i ==> r@[j] == words@[j],
    {
        r.push(words[i].clone());
    }
    proof {
        assert(r@ =~= words@);
        assert(r.deep_view() =~= words.deep_view());
    }
    r
}

/// Keeps the words still consistent with the model, in order.
fn filter_candidates(knowledge: &Knowledge, words: &Vec<String>) -> (r: Vec<String>)
    requires
        knowledge.wf(),
    ensures
        r.deep_view() == consistent_words(knowledge@, words.deep_view()),
{
    let mut r: Vec<String> = Vec::new();
    let n = words.len();
    for i in 0..n
        invariant
            n == words@.len(),
            knowledge.wf(),
            r.deep_view() == consistent_words(knowledge@, words.deep_view().take(i as int)),
    {
        proof {
            assert(words.deep_view().take(i + 1) =~= words.deep_view().take(i as int).push(
                words.deep_view()[i as int],
            ));
            lemma_consistent_push(
                knowledge@,
                words.deep_view().take(i as int),
                words.deep_view()[i as int],
            );
            assert(words.deep_view()[i as int] == words@[i as int]@);
        }
        if knowledge.check_word(words[i].as_str()) {
            r.push(words[i].clone());
            proof {
                assert(r.deep_view() =~= consistent_words(
                    knowledge@,
                    words.deep_view().take(i as int),
                ).push(words.deep_view()[i as int]));
            }
        }
    }
    proof {
        assert(words.deep_view().take(n as int) =~= words.deep_view());
    }
    r
}

/// Hunts for `word` by self-play over `candidates`, recording one
/// `(guess, remaining)` pair per cycle; the record is exactly the trace the
/// documented loop produces.  Candidates must all have the secret's length.
#[verifier::loop_isolation(false)]
pub fn guess_word(word: &str, candidates: Vec<String>, letter_freq: &Vec<(char, u64)>) -> (r: Vec<
    (String, usize),
>)
    requires
        freq_wf(letter_freq@),
        forall|i: int|
            0 <= i < candidates@.len() ==> (#[trigger] candidates@[i])@.len() == word@.len(),
    ensures
        solve_trace(
            empty_knowledge(word@.len()),
            candidates.deep_view(),
            word@,
            freq_map(letter_freq@),
            trace_views(r@),
        ),
{
    let ghost fm = freq_map(letter_freq@);
    let ghost cands0 = candidates.deep_view();
    let n = word.unicode_len();
    let mut knowledge = Knowledge::new(n);
    let ghost k00 = knowledge@;
    let mut cands = candidates;
    let mut trace: Vec<(String, usize)> = Vec::new();
    proof {
        assert(forall|j: int|
            0 <= j < cands.deep_view().len() ==> (#[trigger] cands.deep_view()[j]).len()
                == word@.len());
        assert forall|rest: Seq<(Seq<char>, usize)>| #[trigger]
            solve_trace(knowledge@, cands.deep_view(), word@, fm, rest) implies solve_trace(
            k00,
            cands0,
            word@,
            fm,
            trace_views(trace@) + rest,
        ) by {
            assert(trace_views(trace@) + rest =~= rest);
        }
    }
    loop
        invariant
            knowledge.wf(),
            knowledge@.positions.len() == word@.len(),
            agrees_with_fixed(knowledge@.positions, word@),
            forall|j: int|
                0 <= j < cands.deep_view().len() ==> agrees_with_fixed(
                    knowledge@.positions,
                    #[trigger] cands.deep_view()[j],
                ),
            forall|j: int|
                0 <= j < cands.deep_view().len() ==> (#[trigger] cands.deep_view()[j]).len()
                    == word@.len(),
            forall|rest: Seq<(Seq<char>, usize)>| #[trigger]
                solve_trace(knowledge@, cands.deep_view(), word@, fm, rest) ==> solve_trace(
                    k00,
                    cands0,
                    word@,
                    fm,
                    trace_views(trace@) + rest,
                ),
        decreases cands@.len(),
    {
        let ghost k_before = knowledge@;
        let ghost words = cands.deep_view();
        let ghost trace_before = trace@;
        let ranked = best_candidates(&cands, &knowledge, letter_freq);
        if ranked.len() == 0 {
            trace.push((String::new(), 0));
            proof {
                let rest = seq![(Seq::<char>::empty(), 0usize)];
                assert(solve_trace(k_before, words, word@, fm, rest));
                assert(trace_views(trace@) =~= trace_views(trace_before) + rest);
            }
            return trace;
        }
        let guess = ranked[0].clone();
        let ghost g = guess@;
        proof {
            assert(g == rank_spec(words, k_before, fm)[0]);
            lemma_rank_members(words, k_before, fm, 0);
            assert(words.contains(g));
            let j = choose|j: int| 0 <= j < words.len() && words[j] == g;
            assert(g.len() == word@.len());
            assert(agrees_with_fixed(k_before.positions, g));
        }
        if str_eq(guess.as_str(), word) {
            trace.push((guess, 1));
            proof {
                let rest = seq![(word@, 1usize)];
                assert(solve_trace(k_before, words, word@, fm, rest));
                assert(trace_views(trace@) =~= trace_views(trace_before) + rest);
            }
            return trace;
        }
        let infos = check_guess(word, guess.as_str());
        proof {
            lemma_honest_batch_ok(k_before, word@, g);
            lemma_feedback_prefix_len(word@, g, g.len() as int);
        }
        let res = knowledge.add_infos(infos.as_slice());
        match res {
            Ok(_) => {},
            // Honest feedback never contradicts the model.
            Err(_) => unreached(),
        }
        let ghost k2 = knowledge@;
        proof {
            assert(k2 == absorbed(k_before, feedback(word@, g)));
            lemma_apply_tiles_shape(
                k_before.positions,
                feedback(word@, g),
                feedback(word@, g).len() as int,
            );
            assert forall|i: int|
                0 <= i < k2.positions.len() implies match #[trigger] k2.positions[i] {
                SlotView::Fixed(x) => i < word@.len() && word@[i] == x,
                SlotView::Excluded(_) => true,
            } by {
                lemma_feedback_tile_shape(word@, g, i);
                if !(feedback(word@, g)[i] is Exact) {
                    assert(slot_evolved(k_before.positions[i], k2.positions[i]));
                }
            }
            assert(agrees_with_fixed(k2.positions, word@));
        }
        let filtered = filter_candidates(&knowledge, &cands);
        let flen = filtered.len();
        let ghost filtered_dv = filtered.deep_view();
        proof {
            assert(filtered_dv == consistent_words(k2, words));
            lemma_consistent_members(k2, words);
            assert forall|j: int|
                0 <= j < filtered_dv.len() implies agrees_with_fixed(
                k2.positions,
                #[trigger] filtered_dv[j],
            ) && filtered_dv[j].len() == word@.len() by {
                assert(word_ok(k2, filtered_dv[j]));
                assert forall|i: int|
                    0 <= i < k2.positions.len() implies match #[trigger] k2.positions[i] {
                    SlotView::Fixed(x) => i < filtered_dv[j].len() && filtered_dv[j][i] == x,
                    SlotView::Excluded(_) => true,
                } by {
                    assert(crate::knowledge::slot_allows(k2.positions[i], filtered_dv[j][i]));
                }
            }
        }
        trace.push((guess, flen));
        if flen >= cands.len() {
            trace.push((String::new(), 0));
            proof {
                let rest = seq![(g, flen), (Seq::<char>::empty(), 0usize)];
                assert(rest[0].0 == g && rest[0].1 == flen);
                assert(solve_trace(k_before, words, word@, fm, rest));
                assert(trace_views(trace@) =~= trace_views(trace_before) + rest);
            }
            return trace;
        }
        cands = filtered;
        proof {
            assert forall|rest: Seq<(Seq<char>, usize)>| #[trigger]
                solve_trace(knowledge@, cands.deep_view(), word@, fm, rest) implies solve_trace(
                k00,
                cands0,
                word@,
                fm,
                trace_views(trace@) + rest,
            ) by {
                let longer = seq![(g, flen)] + rest;
                assert(longer.drop_first() =~= rest);
                assert(longer[0].0 == g && longer[0].1 == flen);
                assert(solve_trace(k_before, words, word@, fm, longer));
                assert(trace_views(trace_before) + longer =~= trace_views(trace@) + rest);
            }
        }
    }
}

/// Hunts for every dictionary word in turn, pairing each with the record of
/// its own hunt over the whole dictionary.
pub fn check_all_words(dictionary: &Vec<String>, letter_freq: &Vec<(char, u64)>) -> (r: Vec<
    (String, Vec<(String, usize)>),
>)
    requires
        freq_wf(letter_freq@),
        forall|i: int, j: int|
            0 <= i < dictionary@.len() && 0 <= j < dictionary@.len() ==> (
            #[trigger] dictionary@[i])@.len() == (#[trigger] dictionary@[j])@.len(),
    ensures
        r@.len() == dictionary@.len(),
        forall|i: int|
            0 <= i < r@.len() ==> (#[trigger] r@[i]).0 == dictionary@[i] && solve_trace(
                empty_knowledge(dictionary@[i]@.len()),
                dictionary.deep_view(),
                dictionary@[i]@,
                freq_map(letter_freq@),
                trace_views(r@[i].1@),
            ),
{
    let mut r: Vec<(String, Vec<(String, usize)>)> = Vec::new();
    let n = dictionary.len();
    for idx in 0..n
        invariant
            n == dictionary@.len(),
            freq_wf(letter_freq@),
            forall|i: int, j: int|
                0 <= i < dictionary@.len() && 0 <= j < dictionary@.len() ==> (
                #[trigger] dictionary@[i])@.len() == (#[trigger] dictionary@[j])@.len(),
            r@.len() == idx,
            forall|i: int|
                0 <= i < idx ==> (#[trigger] r@[i]).0 == dictionary@[i] && solve_trace(
                    empty_knowledge(dictionary@[i]@.len()),
                    dictionary.deep_view(),
                    dictionary@[i]@,
                    freq_map(letter_freq@),
                    trace_views(r@[i].1@),
                ),
    {
        let word = dictionary[idx].clone();
        let copy = clone_words(dictionary);
        proof {
            assert forall|j: int|
                0 <= j < copy@.len() implies (#[trigger] copy@[j])@.len() == word@.len() by {
                assert(copy@[j] == dictionary@[j]);
            }
        }
        let trace = guess_word(word.as_str(), copy, letter_freq);
        r.push((word, trace));
    }
    r
}

/// The longest hunt among the reports.
pub open spec fn max_trace_len(reports: Seq<(String, Vec<(String, usize)>)>) -> nat
    decreases reports.len(),
{
    if reports.len() == 0 {
        0
    } else {
        let prior = max_trace_len(reports.drop_last());
        let d = reports.last().1@.len();
        if d > prior {
            d
        } else {
            prior
        }
    }
}

/// The words whose hunts took exactly `m` guesses, in order.
pub open spec fn worst_words(reports: Seq<(String, Vec<(String, usize)>)>, m: nat) -> Seq<String>
    decreases reports.len(),
{
    if reports.len() == 0 {
        Seq::empty()
    } else {
        let prior = worst_words(reports.drop_last(), m);
        if reports.last().1@.len() == m {
            prior.push(reports.last().0)
        } else {
            prior
        }
    }
}

/// The worst case among the reports: the greatest number of guesses any word
/// took, with every word that took that many, in order.
pub fn worst_case(reports: &Vec<(String, Vec<(String, usize)>)>) -> (r: (usize, Vec<String>))
    ensures
        r.0 == max_trace_len(reports@),
        r.1@ == worst_words(reports@, max_trace_len(reports@)),
{
    let n = reports.len();
    let mut m: usize = 0;
    for i in 0..n
        invariant
            n == reports@.len(),
            m == max_trace_len(reports@.take(i as int)),
    {
        let d = reports[i].1.len();
        if d > m {
            m = d;
        }
        proof {
            assert(reports@.take(i + 1).drop_last() =~= reports@.take(i as int));
            assert(reports@.take(i + 1).last() == reports@[i as int]);
        }
    }
    let mut ties: Vec<String> = Vec::new();
    for i in 0..n
        invariant
            n == reports@.len(),
            m == max_trace_len(reports@.take(n as int)),
            ties@ == worst_words(reports@.take(i as int), m as nat),
    {
        proof {
            assert(reports@.take(i + 1).drop_last() =~= reports@.take(i as int));
            assert(reports@.take(i + 1).last() == reports@[i as int]);
        }
        if reports[i].1.len() == m {
            ties.push(reports[i].0.clone());
            proof {
                assert(ties@ =~= worst_words(reports@.take(i as int), m as nat).push(
                    reports@[i as int].0,
                ));
            }
        }
    }
    proof {
        assert(reports@.take(n as int) =~= reports@);
    }
    (m, ties)
}

} // verus!
