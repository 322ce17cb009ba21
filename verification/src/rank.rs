//! The candidate ranker: orders remaining candidates by information value.
//!
//! Candidates are grouped into tiers by how many distinct letters they
//! contain, most first; a guess that tests more distinct letters partitions
//! the remaining space more finely.  Within a tier of more than one word,
//! words are ordered by the summed frequency of their letters, counting only
//! letters that earlier feedback has not already settled; ties keep the
//! tier's original order.  Tiers are appended whole until at least ten words
//! have been gathered.

use vstd::prelude::*;
use crate::knowledge::{Knowledge, KnowledgeView, letter_known};

verus! {

/// The mapping a frequency table stands for; well-formed tables keep their
/// letters distinct.
pub open spec fn freq_map(s: Seq<(char, u64)>) -> Map<char, u64>
    decreases s.len(),
{
    if s.len() == 0 {
        Map::empty()
    } else {
        freq_map(s.drop_last()).insert(s.last().0, s.last().1)
    }
}

/// The letters of a frequency table are pairwise distinct.
pub open spec fn freq_wf(s: Seq<(char, u64)>) -> bool {
    forall|i: int, j: int| 0 <= i < j < s.len() ==> (#[trigger] s[i]).0 != (#[trigger] s[j]).0
}

proof fn lemma_freq_map_dom(s: Seq<(char, u64)>, c: char)
    ensures
        freq_map(s).dom().contains(c) <==> exists|i: int| 0 <= i < s.len() && (#[trigger] s[i]).0 == c,
    decreases s.len(),
{
    if s.len() > 0 {
        lemma_freq_map_dom(s.drop_last(), c);
        if freq_map(s).dom().contains(c) {
            if c == s.last().0 {
                assert(s[s.len() - 1].0 == c);
            } else {
                let i = choose|i: int| 0 <= i < s.drop_last().len() && (#[trigger] s.drop_last()[i]).0 == c;
                assert(s[i].0 == c);
            }
        }
        if exists|i: int| 0 <= i < s.len() && (#[trigger] s[i]).0 == c {
            let i = choose|i: int| 0 <= i < s.len() && (#[trigger] s[i]).0 == c;
            if i < s.len() - 1 {
                assert(s.drop_last()[i].0 == c);
            }
        }
    }
}

proof fn lemma_freq_map_at(s: Seq<(char, u64)>, k: int)
    requires
        freq_wf(s),
        0 <= k < s.len(),
    ensures
        freq_map(s).dom().contains(s[k].0),
        freq_map(s)[s[k].0] == s[k].1,
    decreases s.len(),
{
    if k < s.len() - 1 {
        assert(freq_wf(s.drop_last()));
        lemma_freq_map_at(s.drop_last(), k);
        assert(s.drop_last()[k] == s[k]);
        assert(s[k].0 != s.last().0);
    }
}

/// The weight of a letter: its recorded frequency, or nothing for a letter
/// the table does not mention.
pub open spec fn weight_of(freq: Map<char, u64>, c: char) -> nat {
    if freq.dom().contains(c) {
        freq[c] as nat
    } else {
        0
    }
}

/// How many distinct letters a word contains.
pub open spec fn distinct_letters(w: Seq<char>) -> nat
    decreases w.len(),
{
    if w.len() == 0 {
        0
    } else {
        distinct_letters(w.drop_last()) + if w.drop_last().contains(w.last()) {
            0nat
        } else {
            1nat
        }
    }
}

/// The information value of a word: the summed weight of its letter
/// occurrences, counting a letter only while feedback has not settled it.
pub open spec fn word_score(w: Seq<char>, k: KnowledgeView, freq: Map<char, u64>) -> nat
    decreases w.len(),
{
    if w.len() == 0 {
        0
    } else {
        word_score(w.drop_last(), k, freq) + if letter_known(k, w.last()) {
            0nat
        } else {
            weight_of(freq, w.last())
        }
    }
}

/// Stable descending insertion: `w` goes after every word whose score is at
/// least its own.
pub open spec fn insert_by_score(
    sorted: Seq<Seq<char>>,
    w: Seq<char>,
    k: KnowledgeView,
    freq: Map<char, u64>,
) -> Seq<Seq<char>>
    decreases sorted.len(),
{
    if sorted.len() == 0 {
        seq![w]
    } else if word_score(sorted[0], k, freq) >= word_score(w, k, freq) {
        seq![sorted[0]] + insert_by_score(sorted.drop_first(), w, k, freq)
    } else {
        seq![w] + sorted
    }
}

/// Stable sort by descending score: words of equal score keep their order.
pub open spec fn sort_by_score(
    words: Seq<Seq<char>>,
    k: KnowledgeView,
    freq: Map<char, u64>,
) -> Seq<Seq<char>>
    decreases words.len(),
{
    if words.len() == 0 {
        Seq::empty()
    } else {
        insert_by_score(sort_by_score(words.drop_last(), k, freq), words.last(), k, freq)
    }
}

/// The greatest distinct-letter count among the words.
pub open spec fn tier_max(words: Seq<Seq<char>>) -> nat
    decreases words.len(),
{
    if words.len() == 0 {
        0
    } else {
        let rest = tier_max(words.drop_last());
        let d = distinct_letters(words.last());
        if d > rest {
            d
        } else {
            rest
        }
    }
}

pub proof fn lemma_tier_max(words: Seq<Seq<char>>)
    requires
        words.len() > 0,
    ensures
        forall|i: int|
            0 <= i < words.len() ==> distinct_letters(#[trigger] words[i]) <= tier_max(words),
        exists|i: int|
            0 <= i < words.len() && distinct_letters(#[trigger] words[i]) == tier_max(words),
    decreases words.len(),
{
    if words.len() > 1 {
        lemma_tier_max(words.drop_last());
        assert forall|i: int|
            0 <= i < words.len() implies distinct_letters(#[trigger] words[i]) <= tier_max(
            words,
        ) by {
            if i < words.len() - 1 {
                assert(words.drop_last()[i] == words[i]);
            }
        }
        if distinct_letters(words.last()) == tier_max(words) {
            assert(distinct_letters(words[words.len() - 1]) == tier_max(words));
        } else {
            let i = choose|i: int|
                0 <= i < words.drop_last().len() && distinct_letters(
                    #[trigger] words.drop_last()[i],
                ) == tier_max(words.drop_last());
            assert(distinct_letters(words[i]) == tier_max(words));
        }
    } else {
        assert(words.drop_last().len() == 0);
        assert(tier_max(words.drop_last()) == 0);
        assert(words.last() == words[0]);
        assert(distinct_letters(words[0]) == tier_max(words));
    }
}

proof fn lemma_insert_len(
    sorted: Seq<Seq<char>>,
    w: Seq<char>,
    k: KnowledgeView,
    freq: Map<char, u64>,
)
    ensures
        insert_by_score(sorted, w, k, freq).len() == sorted.len() + 1,
    decreases sorted.len(),
{
    if sorted.len() > 0 && word_score(sorted[0], k, freq) >= word_score(w, k, freq) {
        lemma_insert_len(sorted.drop_first(), w, k, freq);
    }
}

proof fn lemma_sort_len(words: Seq<Seq<char>>, k: KnowledgeView, freq: Map<char, u64>)
    ensures
        sort_by_score(words, k, freq).len() == words.len(),
    decreases words.len(),
{
    if words.len() > 0 {
        lemma_sort_len(words.drop_last(), k, freq);
        lemma_insert_len(sort_by_score(words.drop_last(), k, freq), words.last(), k, freq);
    }
}

/// The words whose distinct-letter count is exactly `m`, in their original
/// order.
pub open spec fn tier_of(words: Seq<Seq<char>>, m: nat) -> Seq<Seq<char>> {
    words.filter(|w: Seq<char>| distinct_letters(w) == m)
}

/// The words whose distinct-letter count is not `m`, in their original
/// order.
pub open spec fn rest_of(words: Seq<Seq<char>>, m: nat) -> Seq<Seq<char>> {
    words.filter(|w: Seq<char>| distinct_letters(w) != m)
}

proof fn lemma_tier_rest_push(words: Seq<Seq<char>>, m: nat, x: Seq<char>)
    ensures
        tier_of(words.push(x), m) == if distinct_letters(x) == m {
            tier_of(words, m).push(x)
        } else {
            tier_of(words, m)
        },
        rest_of(words.push(x), m) == if distinct_letters(x) != m {
            rest_of(words, m).push(x)
        } else {
            rest_of(words, m)
        },
{
    reveal(Seq::filter);
    assert(words.push(x).drop_last() =~= words);
    assert(words.push(x).last() == x);
}

proof fn lemma_tier_rest_len(words: Seq<Seq<char>>, m: nat)
    ensures
        tier_of(words, m).len() + rest_of(words, m).len() == words.len(),
    decreases words.len(),
{
    reveal(Seq::filter);
    if words.len() > 0 {
        lemma_tier_rest_len(words.drop_last(), m);
    }
}

pub proof fn lemma_tier_nonempty(words: Seq<Seq<char>>, m: nat, i: int)
    requires
        0 <= i < words.len(),
        distinct_letters(words[i]) == m,
    ensures
        tier_of(words, m).len() > 0,
        rest_of(words, m).len() < words.len(),
    decreases words.len(),
{
    reveal(Seq::filter);
    lemma_tier_rest_len(words, m);
    if i == words.len() - 1 {
        assert(words.last() == words[i]);
    } else {
        assert(words.drop_last()[i] == words[i]);
        lemma_tier_nonempty(words.drop_last(), m, i);
    }
}

/// Every word of the tier has exactly `m` distinct letters, and both the
/// tier and the rest draw their words from `words`.
pub proof fn lemma_tier_rest_members(words: Seq<Seq<char>>, m: nat)
    ensures
        forall|i: int|
            0 <= i < tier_of(words, m).len() ==> distinct_letters(#[trigger] tier_of(words, m)[i])
                == m && words.contains(tier_of(words, m)[i]),
        forall|i: int|
            0 <= i < rest_of(words, m).len() ==> distinct_letters(#[trigger] rest_of(words, m)[i])
                != m && words.contains(rest_of(words, m)[i]),
    decreases words.len(),
{
    reveal(Seq::filter);
    if words.len() > 0 {
        lemma_tier_rest_members(words.drop_last(), m);
        let prior = words.drop_last();
        assert forall|i: int|
            0 <= i < tier_of(words, m).len() implies distinct_letters(
            #[trigger] tier_of(words, m)[i],
        ) == m && words.contains(tier_of(words, m)[i]) by {
            let t = tier_of(words, m);
            if distinct_letters(words.last()) == m && i == t.len() - 1 {
                assert(t[i] == words.last());
                assert(words[words.len() - 1] == words.last());
            } else {
                assert(t[i] == tier_of(prior, m)[i]);
                assert(prior.contains(t[i]));
                let j = choose|j: int| 0 <= j < prior.len() && prior[j] == t[i];
                assert(words[j] == t[i]);
            }
        }
        assert forall|i: int|
            0 <= i < rest_of(words, m).len() implies distinct_letters(
            #[trigger] rest_of(words, m)[i],
        ) != m && words.contains(rest_of(words, m)[i]) by {
            let t = rest_of(words, m);
            if distinct_letters(words.last()) != m && i == t.len() - 1 {
                assert(t[i] == words.last());
                assert(words[words.len() - 1] == words.last());
            } else {
                assert(t[i] == rest_of(prior, m)[i]);
                assert(prior.contains(t[i]));
                let j = choose|j: int| 0 <= j < prior.len() && prior[j] == t[i];
                assert(words[j] == t[i]);
            }
        }
    }
}

/// The ranked list gathered from `words` once `have` results stand already:
/// tiers of most distinct letters first, each tier score-sorted and appended
/// whole, until at least ten results stand.
pub open spec fn rank_from(
    words: Seq<Seq<char>>,
    k: KnowledgeView,
    freq: Map<char, u64>,
    have: int,
) -> Seq<Seq<char>>
    decreases words.len(),
    via rank_from_dec
{
    if words.len() == 0 || have >= 10 {
        Seq::empty()
    } else {
        let m = tier_max(words);
        let tier = tier_of(words, m);
        sort_by_score(tier, k, freq) + rank_from(rest_of(words, m), k, freq, have + tier.len())
    }
}

#[via_fn]
proof fn rank_from_dec(words: Seq<Seq<char>>, k: KnowledgeView, freq: Map<char, u64>, have: int) {
    if !(words.len() == 0 || have >= 10) {
        lemma_tier_max(words);
        let i = choose|i: int|
            0 <= i < words.len() && distinct_letters(#[trigger] words[i]) == tier_max(words);
        lemma_tier_nonempty(words, tier_max(words), i);
    }
}

/// The ranked guesses proposed for a candidate set.
pub open spec fn rank_spec(words: Seq<Seq<char>>, k: KnowledgeView, freq: Map<char, u64>) -> Seq<
    Seq<char>,
> {
    rank_from(words, k, freq, 0)
}

proof fn lemma_insert_members(
    sorted: Seq<Seq<char>>,
    w: Seq<char>,
    k: KnowledgeView,
    freq: Map<char, u64>,
)
    ensures
        forall|i: int|
            0 <= i < insert_by_score(sorted, w, k, freq).len() ==> #[trigger] insert_by_score(
                sorted,
                w,
                k,
                freq,
            )[i] == w || sorted.contains(insert_by_score(sorted, w, k, freq)[i]),
    decreases sorted.len(),
{
    let out = insert_by_score(sorted, w, k, freq);
    if sorted.len() == 0 {
    } else if word_score(sorted[0], k, freq) >= word_score(w, k, freq) {
        let tail = sorted.drop_first();
        lemma_insert_members(tail, w, k, freq);
        assert forall|i: int|
            0 <= i < out.len() implies #[trigger] out[i] == w || sorted.contains(out[i]) by {
            if i == 0 {
                assert(sorted[0] == out[0]);
            } else {
                assert(out[i] == insert_by_score(tail, w, k, freq)[i - 1]);
                if out[i] != w {
                    assert(tail.contains(out[i]));
                    let j = choose|j: int| 0 <= j < tail.len() && tail[j] == out[i];
                    assert(sorted[j + 1] == out[i]);
                }
            }
        }
    } else {
        assert forall|i: int|
            0 <= i < out.len() implies #[trigger] out[i] == w || sorted.contains(out[i]) by {
            if i > 0 {
                assert(out[i] == sorted[i - 1]);
            }
        }
    }
}

/// Every word of a sorted tier comes from the tier itself.
pub proof fn lemma_sort_members(words: Seq<Seq<char>>, k: KnowledgeView, freq: Map<char, u64>)
    ensures
        forall|i: int|
            0 <= i < sort_by_score(words, k, freq).len() ==> words.contains(
                #[trigger] sort_by_score(words, k, freq)[i],
            ),
    decreases words.len(),
{
    if words.len() > 0 {
        let prior = words.drop_last();
        let sorted_prior = sort_by_score(prior, k, freq);
        lemma_sort_members(prior, k, freq);
        lemma_insert_members(sorted_prior, words.last(), k, freq);
        let out = sort_by_score(words, k, freq);
        assert forall|i: int| 0 <= i < out.len() implies words.contains(#[trigger] out[i]) by {
            if out[i] == words.last() {
                assert(words[words.len() - 1] == out[i]);
            } else {
                assert(sorted_prior.contains(out[i]));
                let j = choose|j: int| 0 <= j < sorted_prior.len() && sorted_prior[j] == out[i];
                assert(prior.contains(out[i]));
                let l = choose|l: int| 0 <= l < prior.len() && prior[l] == out[i];
                assert(words[l] == out[i]);
            }
        }
    }
}

/// Every ranked word comes from the candidate set it was ranked from.
pub proof fn lemma_rank_members(
    words: Seq<Seq<char>>,
    k: KnowledgeView,
    freq: Map<char, u64>,
    have: int,
)
    ensures
        forall|i: int|
            0 <= i < rank_from(words, k, freq, have).len() ==> words.contains(
                #[trigger] rank_from(words, k, freq, have)[i],
            ),
    decreases words.len(),
{
    if !(words.len() == 0 || have >= 10) {
        let m = tier_max(words);
        lemma_tier_max(words);
        let wit = choose|i: int|
            0 <= i < words.len() && distinct_letters(#[trigger] words[i]) == tier_max(words);
        lemma_tier_nonempty(words, m, wit);
        lemma_tier_rest_members(words, m);
        lemma_sort_members(tier_of(words, m), k, freq);
        lemma_rank_members(rest_of(words, m), k, freq, have + tier_of(words, m).len());
        let sorted = sort_by_score(tier_of(words, m), k, freq);
        let tail = rank_from(rest_of(words, m), k, freq, have + tier_of(words, m).len());
        let out = rank_from(words, k, freq, have);
        assert forall|i: int| 0 <= i < out.len() implies words.contains(#[trigger] out[i]) by {
            if i < sorted.len() {
                assert(out[i] == sorted[i]);
                assert(tier_of(words, m).contains(out[i]));
                let j = choose|j: int|
                    0 <= j < tier_of(words, m).len() && tier_of(words, m)[j] == out[i];
            } else {
                assert(out[i] == tail[i - sorted.len()]);
                assert(rest_of(words, m).contains(out[i]));
                let j = choose|j: int|
                    0 <= j < rest_of(words, m).len() && rest_of(words, m)[j] == out[i];
            }
        }
    }
}

/// Whether the letter `c` stands in the first `upto` characters of `word`.
fn prefix_contains(word: &str, upto: usize, c: char) -> (r: bool)
    requires
        upto <= word@.len(),
    ensures
        r == word@.take(upto as int).contains(c),
{
    for j in 0..upto
        invariant
            upto <= word@.len(),
            forall|m: int| 0 <= m < j ==> word@[m] != c,
    {
        if word.get_char(j) == c {
            proof {
                assert(word@.take(upto as int)[j as int] == c);
            }
            return true;
        }
    }
    proof {
        assert forall|m: int| 0 <= m < upto implies word@.take(upto as int)[m] != c by {
            assert(word@[m] != c);
        }
    }
    false
}

/// Counts the distinct letters of a word.
fn count_distinct(word: &str) -> (n: usize)
    ensures
        n == distinct_letters(word@),
{
    let len = word.unicode_len();
    let mut n: usize = 0;
    for i in 0..len
        invariant
            len == word@.len(),
            n == distinct_letters(word@.take(i as int)),
            n <= i,
    {
        let c = word.get_char(i);
        if !prefix_contains(word, i, c) {
            n = n + 1;
        }
        proof {
            assert(word@.take(i + 1).drop_last() =~= word@.take(i as int));
            assert(word@.take(i + 1).last() == word@[i as int]);
        }
    }
    proof {
        assert(word@.take(len as int) =~= word@);
    }
    n
}

/// Looks the letter up in the frequency table; letters without an entry
/// weigh nothing.
fn lookup_weight(letter_freq: &Vec<(char, u64)>, c: char) -> (w: u64)
    requires
        freq_wf(letter_freq@),
    ensures
        w as nat == weight_of(freq_map(letter_freq@), c),
{
    let len = letter_freq.len();
    for i in 0..len
        invariant
            len == letter_freq@.len(),
            freq_wf(letter_freq@),
            forall|j: int| 0 <= j < i ==> (#[trigger] letter_freq@[j]).0 != c,
    {
        if letter_freq[i].0 == c {
            proof {
                lemma_freq_map_at(letter_freq@, i as int);
            }
            return letter_freq[i].1;
        }
    }
    proof {
        lemma_freq_map_dom(letter_freq@, c);
    }
    0
}

/// Scores one word against the model and the frequency table.
fn score_word(word: &str, knowledge: &Knowledge, letter_freq: &Vec<(char, u64)>) -> (s: u128)
    requires
        freq_wf(letter_freq@),
    ensures
        s as nat == word_score(word@, knowledge@, freq_map(letter_freq@)),
{
    let len = word.unicode_len();
    let mut s: u128 = 0;
    for i in 0..len
        invariant
            len == word@.len(),
            freq_wf(letter_freq@),
            s as nat == word_score(word@.take(i as int), knowledge@, freq_map(letter_freq@)),
            s <= (i as int) * 0xffff_ffff_ffff_ffffu64 as int,
    {
        let c = word.get_char(i);
        if !knowledge.is_letter_known(c) {
            let w = lookup_weight(letter_freq, c);
            proof {
                assert((i + 1) * 0xffff_ffff_ffff_ffffu64 as int == (i as int)
                    * 0xffff_ffff_ffff_ffffu64 as int + 0xffff_ffff_ffff_ffffu64 as int);
                assert((i + 1) * 0xffff_ffff_ffff_ffffu64 as int <= 0xffff_ffff_ffff_ffffu64 as int
                    * 0xffff_ffff_ffff_ffffu64 as int) by (nonlinear_arith)
                    requires
                        0 <= i + 1 <= 0xffff_ffff_ffff_ffffu64 as int,
                ;
            }
            s = s + w as u128;
        }
        proof {
            assert((i as int) * 0xffff_ffff_ffff_ffffu64 as int <= (i + 1)
                * 0xffff_ffff_ffff_ffffu64 as int);
            assert(word@.take(i + 1).drop_last() =~= word@.take(i as int));
            assert(word@.take(i + 1).last() == word@[i as int]);
        }
    }
    proof {
        assert(word@.take(len as int) =~= word@);
    }
    s
}

proof fn lemma_insert_at(
    sorted: Seq<Seq<char>>,
    w: Seq<char>,
    k: KnowledgeView,
    freq: Map<char, u64>,
    j: int,
)
    requires
        0 <= j <= sorted.len(),
        forall|l: int|
            0 <= l < j ==> word_score(#[trigger] sorted[l], k, freq) >= word_score(w, k, freq),
        j < sorted.len() ==> word_score(sorted[j], k, freq) < word_score(w, k, freq),
    ensures
        insert_by_score(sorted, w, k, freq) =~= sorted.take(j) + seq![w] + sorted.skip(j),
    decreases sorted.len(),
{
    if sorted.len() == 0 {
        assert(insert_by_score(sorted, w, k, freq) =~= sorted.take(j) + seq![w] + sorted.skip(j));
    } else if j == 0 {
        assert(insert_by_score(sorted, w, k, freq) =~= sorted.take(0) + seq![w] + sorted.skip(0));
    } else {
        let tail = sorted.drop_first();
        assert forall|l: int|
            0 <= l < j - 1 implies word_score(#[trigger] tail[l], k, freq) >= word_score(
            w,
            k,
            freq,
        ) by {
            assert(tail[l] == sorted[l + 1]);
        }
        assert(j - 1 < tail.len() ==> word_score(tail[j - 1], k, freq) < word_score(w, k, freq));
        lemma_insert_at(tail, w, k, freq, j - 1);
        assert(insert_by_score(sorted, w, k, freq) =~= sorted.take(j) + seq![w] + sorted.skip(j));
    }
}

/// Sorts one tier by descending score, stably: ties keep their order.
fn sort_tier(tier: Vec<String>, knowledge: &Knowledge, letter_freq: &Vec<(char, u64)>) -> (r: Vec<
    String,
>)
    requires
        freq_wf(letter_freq@),
    ensures
        r.deep_view() == sort_by_score(tier.deep_view(), knowledge@, freq_map(letter_freq@)),
{
    let ghost k = knowledge@;
    let ghost fm = freq_map(letter_freq@);
    let mut r: Vec<String> = Vec::new();
    let n = tier.len();
    for i in 0..n
        invariant
            n == tier@.len(),
            freq_wf(letter_freq@),
            k == knowledge@,
            fm == freq_map(letter_freq@),
            r.deep_view() == sort_by_score(tier.deep_view().take(i as int), k, fm),
    {
        let w = tier[i].clone();
        let sc = score_word(w.as_str(), knowledge, letter_freq);
        let mut j: usize = 0;
        while j < r.len() && score_word(r[j].as_str(), knowledge, letter_freq) >= sc
            invariant
                freq_wf(letter_freq@),
                k == knowledge@,
                fm == freq_map(letter_freq@),
                j <= r@.len(),
                sc as nat == word_score(w@, k, fm),
                forall|l: int|
                    0 <= l < j ==> word_score(#[trigger] r.deep_view()[l], k, fm) >= word_score(
                        w@,
                        k,
                        fm,
                    ),
            decreases r@.len() - j,
        {
            j = j + 1;
        }
        let ghost r_before = r.deep_view();
        proof {
            lemma_insert_at(r_before, w@, k, fm, j as int);
        }
        r.insert(j, w);
        proof {
            assert(r.deep_view() =~= r_before.take(j as int) + seq![w@] + r_before.skip(j as int));
            assert(tier.deep_view().take(i + 1).drop_last() =~= tier.deep_view().take(i as int));
            assert(tier.deep_view().take(i + 1).last() == tier.deep_view()[i as int]);
            assert(tier.deep_view()[i as int] == w@);
            assert(r.deep_view() == sort_by_score(tier.deep_view().take(i + 1), k, fm));
        }
    }
    proof {
        assert(tier.deep_view().take(n as int) =~= tier.deep_view());
    }
    r
}

/// Ranks the candidates: groups them into tiers by distinct-letter count,
/// most first, sorts each tier of more than one word by descending score,
/// and gathers whole tiers until at least ten words stand.  An empty
/// candidate set yields an empty list, which callers must treat as failure.
pub fn best_candidates(
    candidates: &Vec<String>,
    knowledge: &Knowledge,
    letter_freq: &Vec<(char, u64)>,
) -> (r: Vec<String>)
    requires
        freq_wf(letter_freq@),
    ensures
        r.deep_view() == rank_spec(candidates.deep_view(), knowledge@, freq_map(letter_freq@)),
{
    let ghost k = knowledge@;
    let ghost fm = freq_map(letter_freq@);
    let ghost words0 = candidates.deep_view();
    let mut remaining: Vec<String> = Vec::new();
    let cn = candidates.len();
    for i in 0..cn
        invariant
            cn == candidates@.len(),
            remaining@.len() == i,
            forall|j: int| 0 <= j < i ==> remaining@[j] == candidates@[j],
    {
        remaining.push(candidates[i].clone());
    }
    proof {
        assert(remaining@ =~= candidates@);
        assert(remaining.deep_view() =~= words0);
    }
    let mut results: Vec<String> = Vec::new();
    proof {
        assert(results.deep_view() =~= Seq::<Seq<char>>::empty());
        assert(results.deep_view() + rank_from(remaining.deep_view(), k, fm, 0) =~= rank_spec(
            words0,
            k,
            fm,
        ));
    }
    while remaining.len() > 0 && results.len() < 10
        invariant
            freq_wf(letter_freq@),
            k == knowledge@,
            fm == freq_map(letter_freq@),
            results@.len() == results.deep_view().len(),
            results.deep_view() + rank_from(
                remaining.deep_view(),
                k,
                fm,
                results.deep_view().len() as int,
            ) == rank_spec(words0, k, fm),
        decreases remaining@.len(),
    {
        let ghost words = remaining.deep_view();
        let ghost have = results.deep_view().len() as int;
        let m = max_distinct(&remaining);
        let ghost mm = m as nat;
        proof {
            assert(mm == tier_max(words));
        }
        let mut tier: Vec<String> = Vec::new();
        let mut rest: Vec<String> = Vec::new();
        let rn = remaining.len();
        for idx in 0..rn
            invariant
                rn == remaining@.len(),
                words == remaining.deep_view(),
                mm == m as nat,
                tier.deep_view() == tier_of(words.take(idx as int), mm),
                rest.deep_view() == rest_of(words.take(idx as int), mm),
        {
            let d = count_distinct(remaining[idx].as_str());
            proof {
                assert(words.take(idx + 1) =~= words.take(idx as int).push(words[idx as int]));
                lemma_tier_rest_push(words.take(idx as int), mm, words[idx as int]);
                assert(words[idx as int] == remaining@[idx as int]@);
            }
            if d == m {
                tier.push(remaining[idx].clone());
                proof {
                    assert(tier.deep_view() =~= tier_of(words.take(idx as int), mm).push(
                        words[idx as int],
                    ));
                }
            } else {
                rest.push(remaining[idx].clone());
                proof {
                    assert(rest.deep_view() =~= rest_of(words.take(idx as int), mm).push(
                        words[idx as int],
                    ));
                }
            }
        }
        let ghost tier_dv = tier.deep_view();
        let ghost rest_dv = rest.deep_view();
        proof {
            assert(words.take(rn as int) =~= words);
            assert(tier_dv == tier_of(words, mm));
            assert(rest_dv == rest_of(words, mm));
            lemma_tier_max(words);
            let wit = choose|i: int|
                0 <= i < words.len() && distinct_letters(#[trigger] words[i]) == tier_max(words);
            lemma_tier_nonempty(words, mm, wit);
            lemma_sort_len(tier_dv, k, fm);
        }
        let mut sorted = sort_tier(tier, knowledge, letter_freq);
        let ghost sorted_dv = sorted.deep_view();
        let ghost results_before = results.deep_view();
        results.append(&mut sorted);
        proof {
            assert(results.deep_view() =~= results_before + sorted_dv);
            assert(rank_from(words, k, fm, have) == sort_by_score(tier_of(words, mm), k, fm)
                + rank_from(rest_of(words, mm), k, fm, have + tier_of(words, mm).len()));
            assert(results.deep_view().len() as int == have + tier_of(words, mm).len());
            assert((results_before + sorted_dv) + rank_from(rest_dv, k, fm, have + tier_of(
                words,
                mm,
            ).len()) =~= results_before + (sorted_dv + rank_from(
                rest_dv,
                k,
                fm,
                have + tier_of(words, mm).len(),
            )));
            assert(results.deep_view() + rank_from(
                rest_dv,
                k,
                fm,
                results.deep_view().len() as int,
            ) == rank_spec(words0, k, fm));
        }
        remaining = rest;
    }
    proof {
        if remaining@.len() == 0 {
            assert(remaining.deep_view() =~= Seq::<Seq<char>>::empty());
        }
        assert(results.deep_view() + rank_from(
            remaining.deep_view(),
            k,
            fm,
            results.deep_view().len() as int,
        ) =~= results.deep_view());
    }
    results
}

/// The greatest distinct-letter count among a non-empty candidate list.
fn max_distinct(words: &Vec<String>) -> (m: usize)
    requires
        words@.len() > 0,
    ensures
        m == tier_max(words.deep_view()),
{
    let mut m = count_distinct(words[0].as_str());
    let n = words.len();
    proof {
        assert(words.deep_view()[0] == words@[0]@);
        assert(words.deep_view().take(1int).drop_last() =~= Seq::<Seq<char>>::empty());
        assert(words.deep_view().take(1int).last() == words.deep_view()[0]);
        assert(tier_max(words.deep_view().take(1int).drop_last()) == 0);
    }
    for i in 1..n
        invariant
            n == words@.len(),
            n >= 1,
            m == tier_max(words.deep_view().take(i as int)),
    {
        let d = count_distinct(words[i].as_str());
        if d > m {
            m = d;
        }
        proof {
            assert(words.deep_view().take(i + 1).drop_last() =~= words.deep_view().take(i as int));
            assert(words.deep_view().take(i + 1).last() == words.deep_view()[i as int]);
        }
    }
    proof {
        assert(words.deep_view().take(n as int) =~= words.deep_view());
    }
    m
}

} // verus!
