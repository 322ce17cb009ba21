//! The constraint model: everything inferred from feedback so far.

use vstd::prelude::*;
use crate::tile::{
    Info, count_letter, count_occurrences, feedback, tile_letter, lemma_feedback_tile_shape,
    lemma_feedback_prefix_len,
};

verus! {

/// A restriction on the letter at one position of the word.
#[derive(Debug, Clone)]
pub enum Restriction {
    /// The letter must be exactly the given letter.
    Exact(char),
    /// The letter must not be any of the given letters.
    Not(Vec<char>),
}

/// The mathematical state of one slot: either pinned to a letter, or
/// carrying a set of letters that must not appear there.
#[verifier::ext_equal]
pub enum SlotView {
    Fixed(char),
    Excluded(Set<char>),
}

impl View for Restriction {
    type V = SlotView;

    open spec fn view(&self) -> SlotView {
        match self {
            Restriction::Exact(c) => SlotView::Fixed(*c),
            Restriction::Not(list) => SlotView::Excluded(list@.to_set()),
        }
    }
}

/// The mathematical state of the whole constraint model: one slot per
/// letter position, and the minimum number of occurrences required of each
/// letter that feedback has vouched for.
#[verifier::ext_equal]
pub struct KnowledgeView {
    pub positions: Seq<SlotView>,
    pub must_have: Map<char, nat>,
}

/// The model a fresh session starts from: `n` unconstrained slots and no
/// letter requirements.
pub open spec fn empty_knowledge(n: nat) -> KnowledgeView {
    KnowledgeView {
        positions: Seq::new(n, |i: int| SlotView::Excluded(Set::empty())),
        must_have: Map::empty(),
    }
}

/// The mapping a list of `(letter, count)` entries stands for; a later
/// entry for the same letter would win, but well-formed lists keep their
/// letters distinct.
pub open spec fn counts_map(s: Seq<(char, usize)>) -> Map<char, nat>
    decreases s.len(),
{
    if s.len() == 0 {
        Map::empty()
    } else {
        counts_map(s.drop_last()).insert(s.last().0, s.last().1 as nat)
    }
}

/// The letters of the entries are pairwise distinct.
pub open spec fn distinct_keys(s: Seq<(char, usize)>) -> bool {
    forall|i: int, j: int| 0 <= i < j < s.len() ==> (#[trigger] s[i]).0 != (#[trigger] s[j]).0
}

proof fn lemma_counts_map_dom(s: Seq<(char, usize)>, c: char)
    ensures
        counts_map(s).dom().contains(c) <==> exists|i: int| 0 <= i < s.len() && (#[trigger] s[i]).0 == c,
    decreases s.len(),
{
    if s.len() > 0 {
        lemma_counts_map_dom(s.drop_last(), c);
        if counts_map(s).dom().contains(c) {
            if c == s.last().0 {
                assert(s[s.len() - 1].0 == c);
            } else {
                let i = choose|i: int| 0 <= i < s.drop_last().len() && (#[trigger] s.drop_last()[i]).0 == c;
                assert(s[i].0 == c);
            }
        }
        if exists|i: int| 0 <= i < s.len() && (#[trigger] s[i]).0 == c {
            let i = choose|i: int| 0 <= i < s.len() && (#[trigger] s[i]).0 == c;
            if i < s.len() - 1 {
                assert(s.drop_last()[i].0 == c);
            }
        }
    }
}

proof fn lemma_counts_map_at(s: Seq<(char, usize)>, k: int)
    requires
        distinct_keys(s),
        0 <= k < s.len(),
    ensures
        counts_map(s).dom().contains(s[k].0),
        counts_map(s)[s[k].0] == s[k].1 as nat,
    decreases s.len(),
{
    if k < s.len() - 1 {
        assert(distinct_keys(s.drop_last()));
        lemma_counts_map_at(s.drop_last(), k);
        assert(s.drop_last()[k] == s[k]);
        assert(s[k].0 != s.last().0);
    }
}

proof fn lemma_counts_map_update(s: Seq<(char, usize)>, k: int, v: usize)
    requires
        distinct_keys(s),
        0 <= k < s.len(),
    ensures
        counts_map(s.update(k, (s[k].0, v))) =~= counts_map(s).insert(s[k].0, v as nat),
    decreases s.len(),
{
    let t = s.update(k, (s[k].0, v));
    if k == s.len() - 1 {
        assert(t.drop_last() =~= s.drop_last());
    } else {
        assert(distinct_keys(s.drop_last()));
        lemma_counts_map_update(s.drop_last(), k, v);
        assert(t.drop_last() =~= s.drop_last().update(k, (s[k].0, v)));
        assert(t.last() == s.last());
        assert(s[k].0 != s.last().0);
        assert(counts_map(s.drop_last()).insert(s[k].0, v as nat).insert(s.last().0, s.last().1 as nat)
            =~= counts_map(s.drop_last()).insert(s.last().0, s.last().1 as nat).insert(s[k].0, v as nat));
    }
}

proof fn lemma_counts_map_push(s: Seq<(char, usize)>, p: (char, usize))
    ensures
        counts_map(s.push(p)) == counts_map(s).insert(p.0, p.1 as nat),
{
    assert(s.push(p).drop_last() =~= s);
}

/// Everything known about the game state.
#[derive(Debug, Clone)]
pub struct Knowledge {
    /// Restrictions on which letters can go in which positions.
    restrictions: Vec<Restriction>,
    /// Letters that must appear somewhere in the word, and how many times.
    must_have: Vec<(char, usize)>,
}

impl View for Knowledge {
    type V = KnowledgeView;

    closed spec fn view(&self) -> KnowledgeView {
        KnowledgeView {
            positions: self.restrictions@.map_values(|r: Restriction| r@),
            must_have: counts_map(self.must_have@),
        }
    }
}

/// A single lowercase ASCII letter, the only alphabet supported.
pub open spec fn is_lower(c: char) -> bool {
    97 <= c as u32 <= 122
}

/// Whether a slot lets the letter `c` stand at its position.
pub open spec fn slot_allows(s: SlotView, c: char) -> bool {
    match s {
        SlotView::Fixed(x) => c == x,
        SlotView::Excluded(banned) => !banned.contains(c),
    }
}

/// Whether `w` is still consistent with the constraint model: exact length,
/// lowercase letters only, every slot satisfied, and every required letter
/// present at least its required number of times.
pub open spec fn word_ok(k: KnowledgeView, w: Seq<char>) -> bool {
    &&& w.len() == k.positions.len()
    &&& forall|i: int|
        0 <= i < w.len() ==> is_lower(#[trigger] w[i]) && slot_allows(k.positions[i], w[i])
    &&& forall|c: char|
        #[trigger] k.must_have.dom().contains(c) ==> count_letter(w, c) >= k.must_have[c]
}

/// Whether a slot mentions the letter `c`, as its pinned letter or among
/// its banned letters.
pub open spec fn slot_mentions(s: SlotView, c: char) -> bool {
    match s {
        SlotView::Fixed(x) => x == c,
        SlotView::Excluded(banned) => banned.contains(c),
    }
}

/// Whether earlier feedback already settled anything about the letter `c`.
pub open spec fn letter_known(k: KnowledgeView, c: char) -> bool {
    k.must_have.dom().contains(c) || exists|i: int|
        0 <= i < k.positions.len() && slot_mentions(#[trigger] k.positions[i], c)
}

/// Whether `c` stands in the banned set of some slot.
pub open spec fn slot_excludes(s: SlotView, c: char) -> bool {
    match s {
        SlotView::Fixed(_) => false,
        SlotView::Excluded(banned) => banned.contains(c),
    }
}

pub open spec fn excluded_somewhere(positions: Seq<SlotView>, c: char) -> bool {
    exists|j: int| 0 <= j < positions.len() && slot_excludes(#[trigger] positions[j], c)
}

/// A batch of feedback claimed that a slot holds a letter other than the
/// one it was already pinned to.
#[derive(Debug, Clone, Copy, PartialEq, Eq, Structural)]
pub struct Contradiction {
    /// The first slot at which the batch contradicts the model.
    pub slot: usize,
    /// The letter that slot is pinned to.
    pub fixed: char,
}

/// Whether one feedback tile is compatible with the slot it lands on: a
/// pinned slot accepts only green or yellow tiles carrying its own letter.
pub open spec fn tile_ok(slot: SlotView, info: Info) -> bool {
    match slot {
        SlotView::Fixed(x) => match info {
            Info::Exact(c) => c == x,
            Info::Somewhere(c) => c == x,
            Info::No(_) => true,
        },
        SlotView::Excluded(_) => true,
    }
}

/// Whether a whole batch of feedback is free of contradictions, judged
/// against the state before the batch.  Only the pinned status of a slot can
/// contradict a tile, and tiles never pin slots other than their own, so the
/// pre-batch state settles it.
pub open spec fn batch_ok(k: KnowledgeView, infos: Seq<Info>) -> bool {
    forall|i: int| 0 <= i < infos.len() ==> tile_ok(k.positions[i], #[trigger] infos[i])
}

/// Bans `c` at a slot unless the slot is pinned.
pub open spec fn exclude_open_slot(s: SlotView, c: char) -> SlotView {
    match s {
        SlotView::Fixed(_) => s,
        SlotView::Excluded(banned) => SlotView::Excluded(banned.insert(c)),
    }
}

/// The effect of the tile at position `i` on the slots.  A green tile pins
/// its slot; a yellow tile bans its letter at its own slot; a gray tile is
/// global: unless its letter is already banned somewhere, it is banned at
/// every slot that is not pinned.
pub open spec fn apply_tile(positions: Seq<SlotView>, i: int, info: Info) -> Seq<SlotView> {
    match info {
        Info::Exact(c) => positions.update(i, SlotView::Fixed(c)),
        Info::Somewhere(c) => match positions[i] {
            SlotView::Fixed(_) => positions,
            SlotView::Excluded(banned) => positions.update(i, SlotView::Excluded(banned.insert(c))),
        },
        Info::No(c) => if excluded_somewhere(positions, c) {
            positions
        } else {
            positions.map_values(|s: SlotView| exclude_open_slot(s, c))
        },
    }
}

/// The slots after the first `n` tiles of a batch, applied left to right.
pub open spec fn apply_tiles(positions: Seq<SlotView>, infos: Seq<Info>, n: int) -> Seq<SlotView>
    decreases n,
{
    if n <= 0 {
        positions
    } else {
        apply_tile(apply_tiles(positions, infos, n - 1), n - 1, infos[n - 1])
    }
}

/// Whether a tile vouches for an occurrence of `c`: green and yellow tiles
/// do, gray tiles do not.
pub open spec fn tile_tallies(info: Info, c: char) -> bool {
    info == Info::Exact(c) || info == Info::Somewhere(c)
}

/// How many occurrences of `c` one batch of feedback vouches for.
pub open spec fn tally(infos: Seq<Info>, c: char) -> nat
    decreases infos.len(),
{
    if infos.len() == 0 {
        0
    } else {
        tally(infos.drop_last(), c) + if tile_tallies(infos.last(), c) {
            1nat
        } else {
            0nat
        }
    }
}

proof fn lemma_tally_positive(infos: Seq<Info>, c: char)
    ensures
        tally(infos, c) > 0 <==> exists|i: int| 0 <= i < infos.len() && tile_tallies(
            #[trigger] infos[i],
            c,
        ),
    decreases infos.len(),
{
    if infos.len() > 0 {
        lemma_tally_positive(infos.drop_last(), c);
        if tally(infos, c) > 0 {
            if tile_tallies(infos.last(), c) {
                assert(tile_tallies(infos[infos.len() - 1], c));
            } else {
                let i = choose|i: int|
                    0 <= i < infos.drop_last().len() && tile_tallies(
                        #[trigger] infos.drop_last()[i],
                        c,
                    );
                assert(tile_tallies(infos[i], c));
            }
        }
        if exists|i: int| 0 <= i < infos.len() && tile_tallies(#[trigger] infos[i], c) {
            let i = choose|i: int| 0 <= i < infos.len() && tile_tallies(#[trigger] infos[i], c);
            if i < infos.len() - 1 {
                assert(tile_tallies(infos.drop_last()[i], c));
            }
        }
    }
}

/// The requirement recorded for `c` after a batch that vouches for `t`
/// occurrences: the smaller of `t` and any earlier requirement.
pub open spec fn merged_entry(m: Map<char, nat>, c: char, t: nat) -> nat {
    if m.dom().contains(c) && m[c] <= t {
        m[c]
    } else {
        t
    }
}

/// The letter requirements after a batch: every letter the batch vouches
/// for is recorded, each at the smaller of the batch's count and any earlier
/// requirement; other letters keep their old requirement.
pub open spec fn merge_tally(m: Map<char, nat>, infos: Seq<Info>) -> Map<char, nat> {
    Map::new(
        |c: char| m.dom().contains(c) || tally(infos, c) > 0,
        |c: char| if tally(infos, c) > 0 {
            merged_entry(m, c, tally(infos, c))
        } else {
            m[c]
        },
    )
}

/// The letter requirements `m` agree with `m0` merged with the tallies of
/// the first `upto` tiles: every letter the prefix vouches for already holds
/// its final merged requirement, every other letter is untouched.
pub open spec fn partial_merged(m0: Map<char, nat>, infos: Seq<Info>, upto: int, m: Map<char, nat>) -> bool {
    &&& forall|c: char|
        #[trigger] tally(infos.take(upto), c) > 0 ==> m.dom().contains(c) && m[c] == merged_entry(
            m0,
            c,
            tally(infos, c),
        )
    &&& forall|c: char|
        #[trigger] tally(infos.take(upto), c) == 0 ==> ((m.dom().contains(c)
            <==> m0.dom().contains(c)) && (m0.dom().contains(c) ==> m[c] == m0[c]))
}

proof fn lemma_partial_merged_full(m0: Map<char, nat>, infos: Seq<Info>, m: Map<char, nat>)
    requires
        partial_merged(m0, infos, infos.len() as int, m),
    ensures
        m =~= merge_tally(m0, infos),
{
    assert(infos.take(infos.len() as int) =~= infos);
    assert forall|c: char| m.dom().contains(c) <==> merge_tally(m0, infos).dom().contains(c) by {
        assert(tally(infos.take(infos.len() as int), c) == tally(infos, c));
    }
    assert forall|c: char| m.dom().contains(c) implies m[c] == merge_tally(m0, infos)[c] by {
        assert(tally(infos.take(infos.len() as int), c) == tally(infos, c));
    }
}

/// The whole constraint model after absorbing one batch of feedback that is
/// free of contradictions.
pub open spec fn absorbed(k: KnowledgeView, infos: Seq<Info>) -> KnowledgeView {
    KnowledgeView {
        positions: apply_tiles(k.positions, infos, infos.len() as int),
        must_have: merge_tally(k.must_have, infos),
    }
}

proof fn lemma_to_set_push(s: Seq<char>, c: char)
    ensures
        s.push(c).to_set() == s.to_set().insert(c),
{
    assert forall|a: char| s.push(c).to_set().contains(a) implies s.to_set().insert(c).contains(
        a,
    ) by {
        let i = choose|i: int| 0 <= i < s.push(c).len() && s.push(c)[i] == a;
        if i < s.len() {
            assert(s[i] == a);
        }
    }
    assert forall|a: char| s.to_set().insert(c).contains(a) implies s.push(c).to_set().contains(
        a,
    ) by {
        if a == c {
            assert(s.push(c)[s.len() as int] == a);
        } else {
            let i = choose|i: int| 0 <= i < s.len() && s[i] == a;
            assert(s.push(c)[i] == a);
        }
    }
    assert(s.push(c).to_set() =~= s.to_set().insert(c));
}

/// Counts the occurrences of `c` that a batch vouches for.
fn count_tallies(infos: &[Info], c: char) -> (n: usize)
    ensures
        n == tally(infos@, c),
{
    let len = infos.len();
    let mut n: usize = 0;
    for i in 0..len
        invariant
            len == infos@.len(),
            n == tally(infos@.take(i as int), c),
            n <= i,
    {
        let hit = match infos[i] {
            Info::Exact(x) => x == c,
            Info::Somewhere(x) => x == c,
            Info::No(_) => false,
        };
        if hit {
            n = n + 1;
        }
        proof {
            assert(infos@.take(i + 1).drop_last() =~= infos@.take(i as int));
            assert(infos@.take(i + 1).last() == infos@[i as int]);
        }
    }
    proof {
        assert(infos@.take(len as int) =~= infos@);
    }
    n
}

/// Whether some tile below `upto` already vouches for `c`.
fn tallied_before(infos: &[Info], upto: usize, c: char) -> (r: bool)
    requires
        upto <= infos@.len(),
    ensures
        r == (tally(infos@.take(upto as int), c) > 0),
{
    proof {
        lemma_tally_positive(infos@.take(upto as int), c);
    }
    for j in 0..upto
        invariant
            upto <= infos@.len(),
            forall|m: int| 0 <= m < j ==> !tile_tallies(#[trigger] infos@[m], c),
            tally(infos@.take(upto as int), c) > 0 <==> exists|i: int|
                0 <= i < upto && tile_tallies(#[trigger] infos@.take(upto as int)[i], c),
    {
        let hit = match infos[j] {
            Info::Exact(x) => x == c,
            Info::Somewhere(x) => x == c,
            Info::No(_) => false,
        };
        if hit {
            proof {
                assert(tile_tallies(infos@.take(upto as int)[j as int], c));
            }
            return true;
        }
    }
    proof {
        assert forall|i: int| 0 <= i < upto implies !tile_tallies(
            #[trigger] infos@.take(upto as int)[i],
            c,
        ) by {
            assert(!tile_tallies(infos@[i], c));
        }
    }
    false
}

/// Copies a list of letters.
fn copy_chars(list: &Vec<char>) -> (r: Vec<char>)
    ensures
        r@ == list@,
{
    let len = list.len();
    let mut r: Vec<char> = Vec::new();
    for i in 0..len
        invariant
            len == list@.len(),
            r@ == list@.take(i as int),
    {
        r.push(list[i]);
        proof {
            assert(list@.take(i + 1) =~= list@.take(i as int).push(list@[i as int]));
        }
    }
    proof {
        assert(list@.take(len as int) =~= list@);
    }
    r
}

/// Whether `w` carries, at every pinned slot, the pinned letter.
pub open spec fn agrees_with_fixed(positions: Seq<SlotView>, w: Seq<char>) -> bool {
    forall|i: int|
        0 <= i < positions.len() ==> match #[trigger] positions[i] {
            SlotView::Fixed(x) => i < w.len() && w[i] == x,
            SlotView::Excluded(_) => true,
        }
}

/// How one slot may change under a batch: a pinned slot keeps its letter,
/// an open slot stays open and its banned set only grows.
pub open spec fn slot_evolved(pre: SlotView, post: SlotView) -> bool {
    match pre {
        SlotView::Fixed(_) => post == pre,
        SlotView::Excluded(e) => match post {
            SlotView::Excluded(e2) => e.subset_of(e2),
            SlotView::Fixed(_) => false,
        },
    }
}

/// The shape of the slots after the first `t` tiles: a slot whose own tile
/// is green is pinned to that tile's letter; every other slot evolves in
/// place, pinned slots unchanged and banned sets only growing.
pub proof fn lemma_apply_tiles_shape(positions: Seq<SlotView>, infos: Seq<Info>, t: int)
    requires
        0 <= t <= infos.len(),
        infos.len() <= positions.len(),
    ensures
        apply_tiles(positions, infos, t).len() == positions.len(),
        forall|i: int|
            0 <= i < positions.len() ==> if 0 <= i < t && infos[i] is Exact {
                apply_tiles(positions, infos, t)[i] == SlotView::Fixed(
                    tile_letter(#[trigger] infos[i]),
                )
            } else {
                slot_evolved(positions[i], #[trigger] apply_tiles(positions, infos, t)[i])
            },
    decreases t,
{
    if t > 0 {
        lemma_apply_tiles_shape(positions, infos, t - 1);
        let prev = apply_tiles(positions, infos, t - 1);
        let post = apply_tiles(positions, infos, t);
        assert forall|i: int|
            0 <= i < positions.len() implies if 0 <= i < t && infos[i] is Exact {
            post[i] == SlotView::Fixed(tile_letter(#[trigger] infos[i]))
        } else {
            slot_evolved(positions[i], #[trigger] post[i])
        } by {
            match infos[t - 1] {
                Info::Exact(c) => {},
                Info::Somewhere(c) => {},
                Info::No(c) => {
                    if !excluded_somewhere(prev, c) {
                        assert(post[i] == exclude_open_slot(prev[i], c));
                    }
                },
            }
        }
    }
}

/// Honest feedback never contradicts the model: if both the secret and the
/// guess carry the pinned letter at every pinned slot, the feedback the
/// guess earns against the secret is free of contradictions.
pub proof fn lemma_honest_batch_ok(k: KnowledgeView, word: Seq<char>, guess: Seq<char>)
    requires
        word.len() == guess.len(),
        guess.len() == k.positions.len(),
        agrees_with_fixed(k.positions, word),
        agrees_with_fixed(k.positions, guess),
    ensures
        batch_ok(k, feedback(word, guess)),
{
    let infos = feedback(word, guess);
    lemma_feedback_prefix_len(word, guess, guess.len() as int);
    assert forall|i: int| 0 <= i < infos.len() implies tile_ok(
        k.positions[i],
        #[trigger] infos[i],
    ) by {
        lemma_feedback_tile_shape(word, guess, i);
        match k.positions[i] {
            SlotView::Fixed(x) => {
                assert(guess[i] == x);
                match infos[i] {
                    Info::Exact(c) => {
                        assert(c == guess[i]);
                    },
                    Info::Somewhere(c) => {
                        assert(c == guess[i]);
                    },
                    Info::No(_) => {},
                }
            },
            SlotView::Excluded(_) => {},
        }
    }
}

/// Scans a list of letters for `c`.
fn char_in_list(list: &Vec<char>, c: char) -> (r: bool)
    ensures
        r == list@.contains(c),
{
    let len = list.len();
    for i in 0..len
        invariant
            len == list@.len(),
            forall|j: int| 0 <= j < i ==> list@[j] != c,
    {
        if list[i] == c {
            return true;
        }
    }
    false
}

impl Knowledge {
    /// The letters recorded under `must_have` are pairwise distinct, so the
    /// entry list stands for a mapping.
    pub closed spec fn wf(&self) -> bool {
        distinct_keys(self.must_have@)
    }

    /// A fresh model for words of `num_letters` letters: every slot open,
    /// nothing required.
    pub fn new(num_letters: usize) -> (k: Knowledge)
        ensures
            k.wf(),
            k@ == empty_knowledge(num_letters as nat),
    {
        let mut restrictions: Vec<Restriction> = Vec::new();
        for i in 0..num_letters
            invariant
                restrictions@.len() == i,
                forall|j: int|
                    0 <= j < i ==> (#[trigger] restrictions@[j])@ == SlotView::Excluded(
                        Set::<char>::empty(),
                    ),
        {
            let slot = Restriction::Not(Vec::new());
            proof {
                assert(slot@ =~~= SlotView::Excluded(Set::<char>::empty()));
            }
            restrictions.push(slot);
        }
        let k = Knowledge { restrictions, must_have: Vec::new() };
        proof {
            assert(k@ =~~= empty_knowledge(num_letters as nat));
        }
        k
    }

    /// Whether `word` is still consistent with everything absorbed so far.
    /// Fails closed: a wrong length, a character outside `a..=z`, a violated
    /// slot, or a missing required letter all yield `false`.
    pub fn check_word(&self, word: &str) -> (r: bool)
        requires
            self.wf(),
        ensures
            r == word_ok(self@, word@),
    {
        let n = word.unicode_len();
        if n != self.restrictions.len() {
            return false;
        }
        for i in 0..n
            invariant
                n == word@.len(),
                n == self.restrictions@.len(),
                forall|j: int|
                    0 <= j < i ==> is_lower(#[trigger] word@[j]) && slot_allows(
                        self@.positions[j],
                        word@[j],
                    ),
        {
            let c = word.get_char(i);
            let cu = c as u32;
            if cu < 97 || cu > 122 {
                return false;
            }
            let ok = match &self.restrictions[i] {
                Restriction::Exact(x) => c == *x,
                Restriction::Not(list) => !char_in_list(list, c),
            };
            if !ok {
                proof {
                    assert(!slot_allows(self@.positions[i as int], word@[i as int]));
                }
                return false;
            }
        }
        let m = self.must_have.len();
        for idx in 0..m
            invariant
                m == self.must_have@.len(),
                self.wf(),
                n == word@.len(),
                n == self.restrictions@.len(),
                forall|j: int|
                    0 <= j < n ==> is_lower(#[trigger] word@[j]) && slot_allows(
                        self@.positions[j],
                        word@[j],
                    ),
                forall|j: int|
                    0 <= j < idx ==> count_letter(word@, (#[trigger] self.must_have@[j]).0)
                        >= self.must_have@[j].1,
        {
            let (c, cnt) = self.must_have[idx];
            if count_occurrences(word, c) < cnt {
                proof {
                    lemma_counts_map_at(self.must_have@, idx as int);
                    assert(self@.must_have.dom().contains(c));
                    assert(self@.must_have[c] == cnt as nat);
                    assert(count_letter(word@, c) < cnt as nat);
                    assert(!word_ok(self@, word@));
                }
                return false;
            }
        }
        proof {
            assert forall|c: char| self@.must_have.dom().contains(c) implies count_letter(word@, c)
                >= self@.must_have[c] by {
                lemma_counts_map_dom(self.must_have@, c);
                let j = choose|j: int| 0 <= j < self.must_have@.len() && (#[trigger] self.must_have@[j]).0 == c;
                lemma_counts_map_at(self.must_have@, j);
            }
        }
        true
    }

    /// Whether feedback has already settled anything about the letter `c`:
    /// a required count, a pinned slot, or a ban somewhere.  The ranker uses
    /// this to give known letters no weight.
    pub fn is_letter_known(&self, c: char) -> (r: bool)
        ensures
            r == letter_known(self@, c),
    {
        let m = self.must_have.len();
        for idx in 0..m
            invariant
                m == self.must_have@.len(),
                forall|j: int| 0 <= j < idx ==> (#[trigger] self.must_have@[j]).0 != c,
        {
            if self.must_have[idx].0 == c {
                proof {
                    lemma_counts_map_dom(self.must_have@, c);
                }
                return true;
            }
        }
        proof {
            lemma_counts_map_dom(self.must_have@, c);
        }
        let n = self.restrictions.len();
        for i in 0..n
            invariant
                n == self.restrictions@.len(),
                !self@.must_have.dom().contains(c),
                forall|j: int| 0 <= j < i ==> !slot_mentions(self@.positions[j], c),
        {
            let hit = match &self.restrictions[i] {
                Restriction::Exact(x) => *x == c,
                Restriction::Not(list) => char_in_list(list, c),
            };
            if hit {
                proof {
                    assert(slot_mentions(self@.positions[i as int], c));
                }
                return true;
            }
        }
        false
    }

    /// Whether `c` is already banned at some slot.
    fn excluded_anywhere(&self, c: char) -> (r: bool)
        ensures
            r == excluded_somewhere(self@.positions, c),
    {
        let n = self.restrictions.len();
        for j in 0..n
            invariant
                n == self.restrictions@.len(),
                forall|m: int| 0 <= m < j ==> !slot_excludes(self@.positions[m], c),
        {
            let hit = match &self.restrictions[j] {
                Restriction::Exact(_) => false,
                Restriction::Not(list) => char_in_list(list, c),
            };
            if hit {
                proof {
                    assert(slot_excludes(self@.positions[j as int], c));
                }
                return true;
            }
        }
        false
    }

    /// Records that a batch vouched for `total` occurrences of `c`, keeping
    /// the smaller of `total` and any earlier requirement.
    fn merge_count(&mut self, c: char, total: usize)
        requires
            old(self).wf(),
        ensures
            final(self).wf(),
            final(self).restrictions == old(self).restrictions,
            final(self)@.positions == old(self)@.positions,
            final(self)@.must_have == old(self)@.must_have.insert(
                c,
                merged_entry(old(self)@.must_have, c, total as nat),
            ),
    {
        let m = self.must_have.len();
        for k in 0..m
            invariant
                m == self.must_have@.len(),
                *self == *old(self),
                old(self).wf(),
                forall|j: int| 0 <= j < k ==> (#[trigger] self.must_have@[j]).0 != c,
        {
            if self.must_have[k].0 == c {
                let existing = self.must_have[k].1;
                proof {
                    lemma_counts_map_at(self.must_have@, k as int);
                }
                if total < existing {
                    self.must_have[k] = (c, total);
                    proof {
                        lemma_counts_map_update(old(self).must_have@, k as int, total);
                        assert forall|i: int, j: int|
                            0 <= i < j < self.must_have@.len() implies (
                        #[trigger] self.must_have@[i]).0 != (#[trigger] self.must_have@[j]).0 by {
                            assert(old(self).must_have@[i].0 != old(self).must_have@[j].0);
                        }
                    }
                } else {
                    proof {
                        assert(old(self)@.must_have.insert(c, existing as nat) =~= old(
                            self,
                        )@.must_have);
                    }
                }
                return;
            }
        }
        proof {
            lemma_counts_map_dom(self.must_have@, c);
            lemma_counts_map_push(old(self).must_have@, (c, total));
        }
        self.must_have.push((c, total));
    }

    /// Absorbs one batch of feedback, one tile per position from the left,
    /// as an atomic whole: if any tile contradicts a pinned slot the state
    /// is left untouched and the first contradiction is reported.
    pub fn add_infos(&mut self, infos: &[Info]) -> (r: Result<(), Contradiction>)
        requires
            old(self).wf(),
            infos@.len() <= old(self)@.positions.len(),
        ensures
            final(self).wf(),
            match r {
                Ok(_) => batch_ok(old(self)@, infos@) && final(self)@ == absorbed(
                    old(self)@,
                    infos@,
                ),
                Err(e) => {
                    &&& !batch_ok(old(self)@, infos@)
                    &&& *final(self) == *old(self)
                    &&& e.slot < infos@.len()
                    &&& !tile_ok(old(self)@.positions[e.slot as int], infos@[e.slot as int])
                    &&& old(self)@.positions[e.slot as int] == SlotView::Fixed(e.fixed)
                    &&& forall|j: int|
                        0 <= j < e.slot ==> tile_ok(
                            old(self)@.positions[j],
                            #[trigger] infos@[j],
                        )
                },
            },
    {
        let n = infos.len();
        // Validation pass: the pinned status of a slot can only be changed
        // by the tile at that same slot, so contradictions are judged
        // against the state before the batch.
        for i in 0..n
            invariant
                n == infos@.len(),
                n <= self.restrictions@.len(),
                *self == *old(self),
                old(self).wf(),
                forall|j: int|
                    0 <= j < i ==> tile_ok(self@.positions[j], #[trigger] infos@[j]),
        {
            let info = infos[i];
            let conflict: Option<char> = match (&info, &self.restrictions[i]) {
                (Info::Exact(c), Restriction::Exact(x)) => if *c != *x {
                    Some(*x)
                } else {
                    None
                },
                (Info::Somewhere(c), Restriction::Exact(x)) => if *c != *x {
                    Some(*x)
                } else {
                    None
                },
                _ => None,
            };
            if let Some(x) = conflict {
                proof {
                    assert(!tile_ok(self@.positions[i as int], infos@[i as int]));
                }
                return Err(Contradiction { slot: i, fixed: x });
            }
            proof {
                assert(tile_ok(self@.positions[i as int], infos@[i as int]));
            }
        }
        let ghost pos0 = self@.positions;
        let ghost m0 = self@.must_have;
        // Apply pass: update the slots tile by tile.
        for i in 0..n
            invariant
                n == infos@.len(),
                n <= pos0.len(),
                self.restrictions@.len() == pos0.len(),
                self.must_have == old(self).must_have,
                old(self).wf(),
                self@.positions == apply_tiles(pos0, infos@, i as int),
        {
            let info = infos[i];
            let ghost pos_before = self@.positions;
            match info {
                Info::Exact(c) => {
                    self.restrictions[i] = Restriction::Exact(c);
                    proof {
                        assert(self@.positions =~= pos_before.update(
                            i as int,
                            SlotView::Fixed(c),
                        ));
                    }
                },
                Info::Somewhere(c) => {
                    let replacement: Option<Restriction> = match &self.restrictions[i] {
                        Restriction::Exact(_) => None,
                        Restriction::Not(list) => {
                            proof {
                                lemma_to_set_push(list@, c);
                            }
                            let mut bigger = copy_chars(list);
                            bigger.push(c);
                            Some(Restriction::Not(bigger))
                        },
                    };
                    if let Some(rr) = replacement {
                        self.restrictions[i] = rr;
                    }
                    proof {
                        assert(self@.positions =~= apply_tile(pos_before, i as int, info));
                    }
                },
                Info::No(c) => {
                    if !self.excluded_anywhere(c) {
                        let len = self.restrictions.len();
                        for j in 0..len
                            invariant
                                len == self.restrictions@.len(),
                                len == pos_before.len(),
                                self.must_have == old(self).must_have,
                                forall|p: int|
                                    0 <= p < j ==> self@.positions[p] == exclude_open_slot(
                                        #[trigger] pos_before[p],
                                        c,
                                    ),
                                forall|p: int|
                                    j <= p < len ==> self@.positions[p] == #[trigger] pos_before[p],
                        {
                            let replacement: Option<Restriction> = match &self.restrictions[j] {
                                Restriction::Exact(_) => None,
                                Restriction::Not(list) => {
                                    if char_in_list(list, c) {
                                        proof {
                                            assert(list@.to_set().insert(c) =~= list@.to_set());
                                        }
                                        None
                                    } else {
                                        proof {
                                            lemma_to_set_push(list@, c);
                                        }
                                        let mut bigger = copy_chars(list);
                                        bigger.push(c);
                                        Some(Restriction::Not(bigger))
                                    }
                                },
                            };
                            if let Some(rr) = replacement {
                                self.restrictions[j] = rr;
                            }
                            proof {
                                assert(self@.positions[j as int] == exclude_open_slot(
                                    pos_before[j as int],
                                    c,
                                ));
                            }
                        }
                        proof {
                            assert(self@.positions =~= pos_before.map_values(
                                |s: SlotView| exclude_open_slot(s, c),
                            ));
                        }
                    }
                    proof {
                        assert(self@.positions =~= apply_tile(pos_before, i as int, info));
                    }
                },
            }
        }
        let ghost pos_final = self@.positions;
        // Count pass: merge what the batch vouches for into the letter
        // requirements, each letter once.
        for i in 0..n
            invariant
                n == infos@.len(),
                self@.positions == pos_final,
                self.restrictions@.len() == pos0.len(),
                self.wf(),
                partial_merged(m0, infos@, i as int, self@.must_have),
        {
            let ghost t0 = infos@.take(i as int);
            let ghost t1 = infos@.take(i + 1);
            let ghost m_before = self@.must_have;
            let info = infos[i];
            let tile_char: Option<char> = match info {
                Info::Exact(c) => Some(c),
                Info::Somewhere(c) => Some(c),
                Info::No(_) => None,
            };
            proof {
                assert(t1.drop_last() =~= t0);
                assert(t1.last() == infos@[i as int]);
            }
            let mut merged = false;
            if let Some(c) = tile_char {
                if !tallied_before(infos, i, c) {
                    let total = count_tallies(infos, c);
                    self.merge_count(c, total);
                    merged = true;
                }
            }
            proof {
                let c0 = tile_char->Some_0;
                assert(merged ==> tile_char is Some && tally(t0, c0) == 0
                    && self@.must_have == m_before.insert(
                    c0,
                    merged_entry(m_before, c0, tally(infos@, c0)),
                ));
                assert(!merged ==> self@.must_have == m_before && (tile_char is None || tally(
                    t0,
                    c0,
                ) > 0));
                assert forall|c: char| #[trigger] tally(infos@.take(i + 1), c) > 0 implies
                    self@.must_have.dom().contains(c) && self@.must_have[c] == merged_entry(
                    m0,
                    c,
                    tally(infos@, c),
                ) by {
                    assert(tally(t1, c) > 0);
                    if tally(t0, c) > 0 {
                        assert(m_before.dom().contains(c) && m_before[c] == merged_entry(
                            m0,
                            c,
                            tally(infos@, c),
                        ));
                        if merged {
                            assert(c != c0);
                        }
                    } else {
                        assert(tile_tallies(infos@[i as int], c));
                        assert(tile_char == Some(c));
                        assert(merged);
                        assert(merged_entry(m_before, c, tally(infos@, c)) == merged_entry(
                            m0,
                            c,
                            tally(infos@, c),
                        ));
                    }
                }
                assert forall|c: char| #[trigger] tally(infos@.take(i + 1), c) == 0 implies (
                    self@.must_have.dom().contains(c) <==> m0.dom().contains(c)) && (
                    m0.dom().contains(c) ==> self@.must_have[c] == m0[c]) by {
                    assert(tally(t0, c) == 0);
                    if merged {
                        assert(tally(t1, c0) > 0);
                        assert(c != c0);
                    }
                }
                assert(partial_merged(m0, infos@, i + 1, self@.must_have));
            }
        }
        proof {
            lemma_partial_merged_full(m0, infos@, self@.must_have);
            assert(self@ =~= absorbed(old(self)@, infos@));
        }
        Ok(())
    }
}

} // verus!
