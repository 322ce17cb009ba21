//! The laws the solver obeys, stated and proved over the models the
//! contracts use.

use vstd::prelude::*;
use crate::tile::{
    Info, count_letter, matched_upto, somewhere_count, feedback, feedback_prefix, feedback_tile,
    tile_letter, lemma_feedback_prefix_len, lemma_feedback_prefix_index, lemma_feedback_tile_shape,
};
use crate::knowledge::{
    KnowledgeView, SlotView, empty_knowledge, word_ok, slot_allows, absorbed, batch_ok, tile_ok,
    apply_tiles, apply_tile, tally, tile_tallies, merged_entry, merge_tally, excluded_somewhere,
    slot_excludes, exclude_open_slot, agrees_with_fixed, slot_evolved, lemma_apply_tiles_shape,
    lemma_honest_batch_ok,
};
use crate::rank::{
    distinct_letters, tier_max, tier_of, rest_of, sort_by_score, rank_from, rank_spec,
    lemma_tier_max, lemma_tier_nonempty, lemma_tier_rest_members, lemma_sort_members,
    lemma_rank_members,
};

verus! {

/// Exact-match termination: the feedback for a guess that equals the secret
/// is green at every position.
pub proof fn lemma_self_feedback_all_exact(s: Seq<char>)
    ensures
        feedback(s, s).len() == s.len(),
        forall|i: int| 0 <= i < s.len() ==> feedback(s, s)[i] == Info::Exact(s[i]),
{
    lemma_feedback_prefix_len(s, s, s.len() as int);
    assert forall|i: int| 0 <= i < s.len() implies feedback(s, s)[i] == Info::Exact(s[i]) by {
        lemma_feedback_tile_shape(s, s, i);
        match feedback(s, s)[i] {
            Info::Exact(c) => {
                assert(c == tile_letter(feedback(s, s)[i]));
            },
            Info::Somewhere(_) => {},
            Info::No(_) => {},
        }
    }
}

/// Global absence propagation: absorbing a gray tile for a letter that no
/// slot bans yet, and that no slot is pinned to, rules out every word that
/// carries the letter anywhere.
pub proof fn lemma_absent_propagates(k: KnowledgeView, c: char, w: Seq<char>)
    requires
        !excluded_somewhere(k.positions, c),
        forall|i: int| 0 <= i < k.positions.len() ==> #[trigger] k.positions[i] != SlotView::Fixed(c),
        exists|i: int| 0 <= i < w.len() && i < k.positions.len() && #[trigger] w[i] == c,
    ensures
        batch_ok(k, seq![Info::No(c)]),
        !word_ok(absorbed(k, seq![Info::No(c)]), w),
{
    let infos = seq![Info::No(c)];
    let post = absorbed(k, infos).positions;
    assert(apply_tiles(k.positions, infos, 1) == apply_tile(
        apply_tiles(k.positions, infos, 0),
        0,
        Info::No(c),
    ));
    assert(post == k.positions.map_values(|s: SlotView| exclude_open_slot(s, c)));
    let i = choose|i: int| 0 <= i < w.len() && i < k.positions.len() && #[trigger] w[i] == c;
    if word_ok(absorbed(k, infos), w) {
        assert(slot_allows(post[i], w[i]));
        match k.positions[i] {
            SlotView::Fixed(x) => {
                assert(post[i] == SlotView::Fixed(x));
                assert(x != c);
            },
            SlotView::Excluded(banned) => {
                assert(post[i] == SlotView::Excluded(banned.insert(c)));
            },
        }
    }
}

/// The two ways one absorb can loosen the model rather than tighten it: a
/// green tile re-pinning a slot to a letter that slot had banned, and a
/// batch vouching for fewer occurrences of a letter than already required,
/// which the minimum-merge rule then records.
pub open spec fn no_refix(k: KnowledgeView, infos: Seq<Info>) -> bool {
    forall|i: int|
        0 <= i < infos.len() && #[trigger] infos[i] is Exact ==> slot_allows(
            k.positions[i],
            tile_letter(infos[i]),
        )
}

pub open spec fn no_requirement_drop(k: KnowledgeView, infos: Seq<Info>) -> bool {
    forall|c: char|
        k.must_have.dom().contains(c) && #[trigger] tally(infos, c) > 0 ==> tally(infos, c)
            >= k.must_have[c]
}

/// Monotonic shrinkage: absorbing a batch that neither re-pins a slot to a
/// banned letter nor lowers a recorded letter requirement only ever shrinks
/// the set of consistent words.
pub proof fn lemma_absorb_shrinks(k: KnowledgeView, infos: Seq<Info>, w: Seq<char>)
    requires
        infos.len() <= k.positions.len(),
        batch_ok(k, infos),
        no_refix(k, infos),
        no_requirement_drop(k, infos),
        word_ok(absorbed(k, infos), w),
    ensures
        word_ok(k, w),
{
    let post = absorbed(k, infos);
    lemma_apply_tiles_shape(k.positions, infos, infos.len() as int);
    assert forall|i: int| 0 <= i < w.len() implies slot_allows(k.positions[i], w[i]) by {
        assert(slot_allows(post.positions[i], w[i]));
        if 0 <= i < infos.len() && infos[i] is Exact {
            assert(post.positions[i] == SlotView::Fixed(tile_letter(infos[i])));
            assert(w[i] == tile_letter(infos[i]));
        } else {
            assert(slot_evolved(k.positions[i], post.positions[i]));
        }
    }
    assert forall|c: char| #[trigger] k.must_have.dom().contains(c) implies count_letter(w, c)
        >= k.must_have[c] by {
        assert(post.must_have.dom().contains(c));
        if tally(infos, c) > 0 {
            assert(post.must_have[c] == merged_entry(k.must_have, c, tally(infos, c)));
            assert(post.must_have[c] == k.must_have[c]);
        } else {
            assert(post.must_have[c] == k.must_have[c]);
        }
    }
}

proof fn lemma_count_take_le(w: Seq<char>, c: char, n: int)
    requires
        0 <= n <= w.len(),
    ensures
        count_letter(w.take(n), c) <= count_letter(w, c),
    decreases w.len() - n,
{
    if n == w.len() {
        assert(w.take(n) =~= w);
    } else {
        lemma_count_take_le(w, c, n + 1);
        assert(w.take(n + 1).drop_last() =~= w.take(n));
    }
}

proof fn lemma_matched_le_count(w: Seq<char>, g: Seq<char>, c: char, n: int)
    requires
        0 <= n <= w.len(),
    ensures
        matched_upto(w, g, c, n) <= count_letter(w.take(n), c),
    decreases n,
{
    if n > 0 {
        lemma_matched_le_count(w, g, c, n - 1);
        assert(w.take(n).drop_last() =~= w.take(n - 1));
        assert(w.take(n).last() == w[n - 1]);
    }
}

/// The evaluator's yellow budget: over any prefix of the feedback, the
/// greens of a letter over the whole word plus the yellows granted so far
/// never exceed the letter's true count in the secret.
proof fn lemma_yellow_budget(w: Seq<char>, g: Seq<char>, c: char, n: int)
    requires
        w.len() == g.len(),
        0 <= n <= g.len(),
    ensures
        matched_upto(w, g, c, w.len() as int) + somewhere_count(feedback_prefix(w, g, n), c)
            <= count_letter(w, c),
    decreases n,
{
    if n == 0 {
        lemma_matched_le_count(w, g, c, w.len() as int);
        assert(w.take(w.len() as int) =~= w);
    } else {
        lemma_yellow_budget(w, g, c, n - 1);
        let earlier = feedback_prefix(w, g, n - 1);
        let tile = feedback_tile(w, g, n - 1, earlier);
        assert(feedback_prefix(w, g, n) == earlier.push(tile));
        assert(feedback_prefix(w, g, n).drop_last() =~= earlier);
    }
}

/// Each prefix of the feedback tallies a letter exactly as its greens over
/// the prefix plus its yellows over the prefix.
proof fn lemma_tally_decomp(w: Seq<char>, g: Seq<char>, c: char, n: int)
    requires
        w.len() == g.len(),
        0 <= n <= g.len(),
    ensures
        tally(feedback_prefix(w, g, n), c) == matched_upto(w, g, c, n) + somewhere_count(
            feedback_prefix(w, g, n),
            c,
        ),
    decreases n,
{
    if n > 0 {
        lemma_tally_decomp(w, g, c, n - 1);
        let earlier = feedback_prefix(w, g, n - 1);
        let tile = feedback_tile(w, g, n - 1, earlier);
        assert(feedback_prefix(w, g, n) == earlier.push(tile));
        assert(feedback_prefix(w, g, n).drop_last() =~= earlier);
        if w[n - 1] == g[n - 1] {
            assert(tile == Info::Exact(g[n - 1]));
            assert(tile_tallies(tile, c) <==> g[n - 1] == c);
        } else {
            assert(tile is Somewhere || tile is No);
            assert(tile_tallies(tile, c) <==> tile == Info::Somewhere(c));
        }
    }
}

/// Duplicate-letter cap: the feedback for a guess never carries more green
/// and yellow tiles for a letter than that letter's true count in the
/// secret.
pub proof fn lemma_feedback_tally_le_count(w: Seq<char>, g: Seq<char>, c: char)
    requires
        w.len() == g.len(),
    ensures
        tally(feedback(w, g), c) <= count_letter(w, c),
{
    lemma_tally_decomp(w, g, c, g.len() as int);
    lemma_yellow_budget(w, g, c, g.len() as int);
    assert(matched_upto(w, g, c, w.len() as int) >= matched_upto(w, g, c, g.len() as int));
}

proof fn lemma_unmatched_gap(w: Seq<char>, g: Seq<char>, c: char, p: int, n: int)
    requires
        0 <= p < n <= w.len(),
        w[p] == c,
        g[p] != c,
    ensures
        matched_upto(w, g, c, n) < count_letter(w.take(n), c),
    decreases n,
{
    assert(w.take(n).drop_last() =~= w.take(n - 1));
    assert(w.take(n).last() == w[n - 1]);
    if p == n - 1 {
        lemma_matched_le_count(w, g, c, n - 1);
    } else {
        lemma_unmatched_gap(w, g, c, p, n - 1);
    }
}

/// When every occurrence of a letter in the secret is matched green, the
/// guess carries the letter at each of those positions.
proof fn lemma_matched_full_all(w: Seq<char>, g: Seq<char>, c: char)
    requires
        w.len() == g.len(),
        matched_upto(w, g, c, w.len() as int) == count_letter(w, c),
    ensures
        forall|p: int| 0 <= p < w.len() && #[trigger] w[p] == c ==> g[p] == c,
{
    assert forall|p: int| 0 <= p < w.len() && #[trigger] w[p] == c implies g[p] == c by {
        if g[p] != c {
            lemma_unmatched_gap(w, g, c, p, w.len() as int);
            assert(w.take(w.len() as int) =~= w);
        }
    }
}

proof fn lemma_somewhere_positive(infos: Seq<Info>, c: char)
    ensures
        somewhere_count(infos, c) > 0 <==> exists|j: int|
            0 <= j < infos.len() && #[trigger] infos[j] == Info::Somewhere(c),
    decreases infos.len(),
{
    if infos.len() > 0 {
        lemma_somewhere_positive(infos.drop_last(), c);
        if somewhere_count(infos, c) > 0 {
            if infos.last() == Info::Somewhere(c) {
                assert(infos[infos.len() - 1] == Info::Somewhere(c));
            } else {
                let j = choose|j: int|
                    0 <= j < infos.drop_last().len() && #[trigger] infos.drop_last()[j]
                        == Info::Somewhere(c);
                assert(infos[j] == Info::Somewhere(c));
            }
        }
        if exists|j: int| 0 <= j < infos.len() && #[trigger] infos[j] == Info::Somewhere(c) {
            let j = choose|j: int|
                0 <= j < infos.len() && #[trigger] infos[j] == Info::Somewhere(c);
            if j < infos.len() - 1 {
                assert(infos.drop_last()[j] == Info::Somewhere(c));
            }
        }
    }
}

/// The secret stays safe through the batch: at every pinned slot it carries
/// the pinned letter, and wherever its own letter has been banned, the ban
/// is provisional: that slot's own green tile is still to come and will
/// re-pin it.
spec fn secret_safe(positions: Seq<SlotView>, word: Seq<char>, fb: Seq<Info>, t: int) -> bool {
    forall|i: int|
        0 <= i < positions.len() ==> match #[trigger] positions[i] {
            SlotView::Fixed(x) => i < word.len() && word[i] == x,
            SlotView::Excluded(e) => e.contains(word[i]) ==> t <= i && i < fb.len() && fb[i]
                is Exact,
        }
}

/// Every yellow tile already processed has left its letter banned at its
/// own slot.
spec fn yellows_recorded(positions: Seq<SlotView>, fb: Seq<Info>, t: int) -> bool {
    forall|j: int|
        0 <= j < t && j < fb.len() && j < positions.len() && #[trigger] fb[j] is Somewhere
            ==> slot_excludes(positions[j], tile_letter(fb[j]))
}

proof fn lemma_honest_apply(k: KnowledgeView, word: Seq<char>, guess: Seq<char>, t: int)
    requires
        word_ok(k, word),
        word.len() == guess.len(),
        word.len() == k.positions.len(),
        agrees_with_fixed(k.positions, guess),
        0 <= t <= guess.len(),
    ensures
        apply_tiles(k.positions, feedback(word, guess), t).len() == k.positions.len(),
        secret_safe(apply_tiles(k.positions, feedback(word, guess), t), word, feedback(word, guess), t),
        yellows_recorded(apply_tiles(k.positions, feedback(word, guess), t), feedback(word, guess), t),
    decreases t,
{
    let fb = feedback(word, guess);
    lemma_feedback_prefix_len(word, guess, guess.len() as int);
    lemma_apply_tiles_shape(k.positions, fb, t);
    if t == 0 {
        assert forall|i: int|
            0 <= i < k.positions.len() implies match #[trigger] k.positions[i] {
            SlotView::Fixed(x) => i < word.len() && word[i] == x,
            SlotView::Excluded(e) => e.contains(word[i]) ==> 0 <= i && i < fb.len() && fb[i]
                is Exact,
        } by {
            assert(slot_allows(k.positions[i], word[i]));
        }
    } else {
        lemma_honest_apply(k, word, guess, t - 1);
        lemma_apply_tiles_shape(k.positions, fb, t - 1);
        let prev = apply_tiles(k.positions, fb, t - 1);
        let post = apply_tiles(k.positions, fb, t);
        assert(post == apply_tile(prev, t - 1, fb[t - 1]));
        lemma_feedback_tile_shape(word, guess, t - 1);
        match fb[t - 1] {
            Info::Exact(cc) => {
                assert(word[t - 1] == guess[t - 1] && cc == guess[t - 1]);
                assert(post == prev.update(t - 1, SlotView::Fixed(cc)));
                assert(secret_safe(post, word, fb, t));
                assert(yellows_recorded(post, fb, t));
            },
            Info::Somewhere(cc) => {
                assert(word[t - 1] != guess[t - 1] && cc == guess[t - 1]);
                // The slot of a yellow tile cannot be pinned: a pinned slot
                // carries both the secret's and the guess's letter, which
                // would make the tile green.
                assert(slot_evolved(k.positions[t - 1], prev[t - 1]));
                match k.positions[t - 1] {
                    SlotView::Fixed(x) => {
                        assert(word[t - 1] == x);
                        assert(guess[t - 1] == x);
                    },
                    SlotView::Excluded(_) => {},
                }
                let e = prev[t - 1]->Excluded_0;
                assert(post == prev.update(t - 1, SlotView::Excluded(e.insert(cc))));
                assert(!e.contains(word[t - 1]));
                assert(secret_safe(post, word, fb, t));
                assert(yellows_recorded(post, fb, t));
            },
            Info::No(cc) => {
                assert(word[t - 1] != guess[t - 1] && cc == guess[t - 1]);
                if excluded_somewhere(prev, cc) {
                    assert(post == prev);
                    assert(secret_safe(post, word, fb, t));
                    assert(yellows_recorded(post, fb, t));
                } else {
                    assert(post == prev.map_values(|s: SlotView| exclude_open_slot(s, cc)));
                    // No yellow tile for this letter has come before: it
                    // would have left a ban that makes this tile skip.
                    let earlier = feedback_prefix(word, guess, t - 1);
                    assert(fb[t - 1] == feedback_tile(word, guess, t - 1, earlier)) by {
                        lemma_feedback_prefix_index(word, guess, guess.len() as int, t - 1);
                    }
                    if somewhere_count(earlier, cc) > 0 {
                        lemma_feedback_prefix_len(word, guess, t - 1);
                        lemma_somewhere_positive(earlier, cc);
                        let j = choose|j: int|
                            0 <= j < earlier.len() && #[trigger] earlier[j] == Info::Somewhere(cc);
                        lemma_feedback_prefix_index(word, guess, t - 1, j);
                        lemma_feedback_prefix_index(word, guess, guess.len() as int, j);
                        assert(fb[j] == Info::Somewhere(cc));
                        assert(slot_excludes(prev[j], cc));
                        assert(false);
                    }
                    // The tile went gray with no yellows granted, so every
                    // occurrence of the letter in the secret is green.
                    assert(count_letter(word, cc) <= matched_upto(
                        word,
                        guess,
                        cc,
                        word.len() as int,
                    ));
                    lemma_matched_le_count(word, guess, cc, word.len() as int);
                    assert(word.take(word.len() as int) =~= word);
                    lemma_matched_full_all(word, guess, cc);
                    assert forall|i: int|
                        0 <= i < post.len() implies match #[trigger] post[i] {
                        SlotView::Fixed(x) => i < word.len() && word[i] == x,
                        SlotView::Excluded(e) => e.contains(word[i]) ==> t <= i && i < fb.len()
                            && fb[i] is Exact,
                    } by {
                        assert(post[i] == exclude_open_slot(prev[i], cc));
                        match prev[i] {
                            SlotView::Fixed(_) => {},
                            SlotView::Excluded(e) => {
                                if e.insert(cc).contains(word[i]) {
                                    if word[i] == cc {
                                        assert(guess[i] == cc);
                                        lemma_feedback_tile_shape(word, guess, i);
                                        assert(fb[i] is Exact);
                                        if i < t - 1 {
                                            assert(post[i] is Excluded);
                                            assert(false);
                                        }
                                        assert(i != t - 1);
                                    } else {
                                        assert(e.contains(word[i]));
                                    }
                                }
                            },
                        }
                    }
                    assert(secret_safe(post, word, fb, t));
                    assert(yellows_recorded(post, fb, t));
                }
            },
        }
    }
}

/// Honest feedback keeps the secret consistent: absorbing the feedback that
/// any guess earns against the secret, into a model the secret satisfies
/// and whose pinned slots the guess respects, succeeds and leaves the
/// secret consistent.
pub proof fn lemma_honest_absorb_keeps_secret(k: KnowledgeView, word: Seq<char>, guess: Seq<char>)
    requires
        word_ok(k, word),
        word.len() == guess.len(),
        word.len() == k.positions.len(),
        agrees_with_fixed(k.positions, guess),
    ensures
        batch_ok(k, feedback(word, guess)),
        word_ok(absorbed(k, feedback(word, guess)), word),
{
    let fb = feedback(word, guess);
    lemma_feedback_prefix_len(word, guess, guess.len() as int);
    assert(agrees_with_fixed(k.positions, word)) by {
        assert forall|i: int|
            0 <= i < k.positions.len() implies match #[trigger] k.positions[i] {
            SlotView::Fixed(x) => i < word.len() && word[i] == x,
            SlotView::Excluded(_) => true,
        } by {
            assert(slot_allows(k.positions[i], word[i]));
        }
    }
    lemma_honest_batch_ok(k, word, guess);
    lemma_honest_apply(k, word, guess, guess.len() as int);
    let post = absorbed(k, fb);
    assert forall|i: int| 0 <= i < word.len() implies slot_allows(post.positions[i], word[i]) by {
        match post.positions[i] {
            SlotView::Fixed(_) => {},
            SlotView::Excluded(e) => {
                assert(!e.contains(word[i]));
            },
        }
    }
    assert forall|c: char| #[trigger] post.must_have.dom().contains(c) implies count_letter(
        word,
        c,
    ) >= post.must_have[c] by {
        lemma_feedback_tally_le_count(word, guess, c);
        if tally(fb, c) > 0 {
            assert(post.must_have[c] == merged_entry(k.must_have, c, tally(fb, c)));
        } else {
            assert(k.must_have.dom().contains(c));
            assert(post.must_have[c] == k.must_have[c]);
        }
    }
}

/// The secret never eliminates itself: the feedback any guess earns against
/// it, absorbed into a fresh model of its own length, leaves the secret
/// consistent.
pub proof fn lemma_secret_survives_own_feedback(secret: Seq<char>, guess: Seq<char>, n: nat)
    requires
        secret.len() == n,
        guess.len() == n,
        forall|i: int| 0 <= i < secret.len() ==> crate::knowledge::is_lower(#[trigger] secret[i]),
    ensures
        batch_ok(empty_knowledge(n), feedback(secret, guess)),
        word_ok(absorbed(empty_knowledge(n), feedback(secret, guess)), secret),
{
    let k = empty_knowledge(n);
    assert(word_ok(k, secret)) by {
        assert forall|i: int| 0 <= i < secret.len() implies crate::knowledge::is_lower(
            #[trigger] secret[i],
        ) && slot_allows(k.positions[i], secret[i]) by {
            assert(k.positions[i] == SlotView::Excluded(Set::<char>::empty()));
        }
    }
    assert(agrees_with_fixed(k.positions, guess)) by {
        assert forall|i: int|
            0 <= i < k.positions.len() implies match #[trigger] k.positions[i] {
            SlotView::Fixed(x) => i < guess.len() && guess[i] == x,
            SlotView::Excluded(_) => true,
        } by {
            assert(k.positions[i] == SlotView::Excluded(Set::<char>::empty()));
        }
    }
    lemma_honest_absorb_keeps_secret(k, secret, guess);
}

/// Ranker tier ordering: the ranked list never places a word with fewer
/// distinct letters before one with more.
pub proof fn lemma_rank_tier_ordering(
    words: Seq<Seq<char>>,
    k: KnowledgeView,
    freq: Map<char, u64>,
    have: int,
)
    ensures
        forall|i: int, j: int|
            0 <= i <= j < rank_from(words, k, freq, have).len() ==> distinct_letters(
                #[trigger] rank_from(words, k, freq, have)[i],
            ) >= distinct_letters(#[trigger] rank_from(words, k, freq, have)[j]),
    decreases words.len(),
{
    if !(words.len() == 0 || have >= 10) {
        let m = tier_max(words);
        lemma_tier_max(words);
        let wit = choose|i: int|
            0 <= i < words.len() && distinct_letters(#[trigger] words[i]) == tier_max(words);
        lemma_tier_nonempty(words, m, wit);
        lemma_tier_rest_members(words, m);
        lemma_sort_members(tier_of(words, m), k, freq);
        let rest = rest_of(words, m);
        lemma_rank_tier_ordering(rest, k, freq, have + tier_of(words, m).len());
        lemma_rank_members(rest, k, freq, have + tier_of(words, m).len());
        let sorted = sort_by_score(tier_of(words, m), k, freq);
        let tail = rank_from(rest, k, freq, have + tier_of(words, m).len());
        let out = rank_from(words, k, freq, have);
        assert forall|i: int|
            0 <= i < sorted.len() implies distinct_letters(#[trigger] sorted[i]) == m by {
            assert(tier_of(words, m).contains(sorted[i]));
            let j = choose|j: int|
                0 <= j < tier_of(words, m).len() && tier_of(words, m)[j] == sorted[i];
        }
        assert forall|i: int|
            0 <= i < tail.len() implies distinct_letters(#[trigger] tail[i]) <= m by {
            assert(rest.contains(tail[i]));
            let j = choose|j: int| 0 <= j < rest.len() && rest[j] == tail[i];
            assert(words.contains(rest[j]));
            let l = choose|l: int| 0 <= l < words.len() && words[l] == rest[j];
            assert(distinct_letters(words[l]) <= m);
        }
        assert forall|i: int, j: int|
            0 <= i <= j < out.len() implies distinct_letters(#[trigger] out[i])
            >= distinct_letters(#[trigger] out[j]) by {
            if i < sorted.len() {
                assert(out[i] == sorted[i]);
            } else {
                assert(out[i] == tail[i - sorted.len()]);
            }
            if j < sorted.len() {
                assert(out[j] == sorted[j]);
            } else {
                assert(out[j] == tail[j - sorted.len()]);
            }
        }
    }
}

/// The self-play record is fully determined: two records of the same hunt
/// are equal, so the driver's contract pins its result.
pub proof fn lemma_solve_trace_unique(
    k: KnowledgeView,
    cands: Seq<Seq<char>>,
    word: Seq<char>,
    freq: Map<char, u64>,
    t1: Seq<(Seq<char>, usize)>,
    t2: Seq<(Seq<char>, usize)>,
)
    requires
        crate::solver::solve_trace(k, cands, word, freq, t1),
        crate::solver::solve_trace(k, cands, word, freq, t2),
    ensures
        t1 == t2,
    decreases t1.len(),
{
    let ranked = rank_spec(cands, k, freq);
    if ranked.len() == 0 || ranked[0] == word {
        assert(t1 =~= t2);
    } else {
        let k2 = absorbed(k, feedback(word, ranked[0]));
        let rest = crate::solver::consistent_words(k2, cands);
        if rest.len() >= cands.len() {
            assert(t1 =~= t2);
        } else {
            lemma_solve_trace_unique(k2, rest, word, freq, t1.drop_first(), t2.drop_first());
            assert(t1[0] =~= t2[0]);
            assert(t1.len() >= 1 && t2.len() >= 1);
            assert(t1.drop_first().len() == t2.drop_first().len());
            assert(t1.len() == t2.len());
            assert forall|i: int| 0 <= i < t1.len() implies t1[i] == t2[i] by {
                if i > 0 {
                    assert(t1.drop_first()[i - 1] == t1[i]);
                    assert(t2.drop_first()[i - 1] == t2[i]);
                }
            }
            assert(t1 =~= t2);
        }
    }
}

} // verus!
