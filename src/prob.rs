use vstd::prelude::*;
use crate::card::Card;
use crate::deck::{full_packs, shuffle_cards};
use crate::eval::{evaluation, EvaluationError};
use crate::hand::{all_valid, distinct, ids_of};
use crate::rank::{category, category_of, strength, HandRankClass};
use crate::tables::Tables;

verus! {

/// The number of trials `estimate` runs when the caller names none.
pub const DEFAULT_TRIALS: u64 = 10000;

/// Why a simulation cannot be run.
#[derive(Clone, Copy, Debug, PartialEq, Eq, Structural)]
pub enum ConfigError {
    /// Once the known cards are taken out, the packs hold too few cards to
    /// complete the board and deal every opponent two cards.
    InsufficientDeck,
}

/// What one trial came to.
#[derive(Clone, Copy, Debug, PartialEq, Eq, Structural)]
pub enum Trial {
    /// Some hand held one card twice, which only several packs allow.
    Spoiled,
    /// The category of the caller's hand, and whether no opponent beat it.
    Played(HandRankClass, bool),
}

/// Cards a trial draws: the missing board cards and two per opponent.
pub open spec fn cards_needed(community_len: int, opponents: int) -> int {
    (5 - community_len) + 2 * (opponents - 1)
}

/// The first `k` cards drawn from the top (the end) of the deck.
pub open spec fn drawn(deck: Seq<Card>, k: int) -> Seq<Card> {
    Seq::new(k as nat, |i: int| deck[deck.len() - 1 - i])
}

/// The known community cards completed to five from the deck.
pub open spec fn board(community: Seq<Card>, deck: Seq<Card>) -> Seq<Card> {
    community + drawn(deck, 5 - community.len())
}

/// The two cards that opponent `j` draws after the board's `k`.
pub open spec fn opponent_hole(deck: Seq<Card>, k: int, j: int) -> Seq<Card> {
    seq![deck[deck.len() - 1 - k - 2 * j], deck[deck.len() - 2 - k - 2 * j]]
}

/// Opponents `j..opps` in turn: `None` when one holds an invalid hand before
/// any beats the caller's `ours`, else whether none beats it.
pub open spec fn duel(ours: int, b: Seq<Card>, deck: Seq<Card>, k: int, j: int, opps: int) -> Option<
    bool,
>
    decreases opps - j,
{
    if j >= opps {
        Some(true)
    } else {
        match evaluation(opponent_hole(deck, k, j) + b) {
            Err(_) => None,
            Ok(v) => if v < ours {
                Some(false)
            } else {
                duel(ours, b, deck, k, j + 1, opps)
            },
        }
    }
}

/// One trial on a shuffled deck: complete the board, deal each of the
/// `opponents - 1` other players two cards, and compare ranks; a tie counts as
/// a win.
pub open spec fn trial(hole: Seq<Card>, community: Seq<Card>, opponents: int, deck: Seq<Card>) -> Trial {
    let k = 5 - community.len();
    let b = board(community, deck);
    match evaluation(hole + b) {
        Err(_) => Trial::Spoiled,
        Ok(v) => match duel(v, b, deck, k, 0, opponents - 1) {
            None => Trial::Spoiled,
            Some(w) => Trial::Played(category(v), w),
        },
    }
}

/// The cards that are not known.
pub open spec fn unknown(known: Set<int>) -> spec_fn(Card) -> bool {
    |c: Card| !known.contains(c.id_ as int)
}

/// The packs without any copy of a known card.
pub open spec fn working_deck(packs: int, known: Set<int>) -> Seq<Card> {
    full_packs(packs).filter(unknown(known))
}

/// `o` is what a trial gives on some rearrangement of `deck`.
pub open spec fn possible_outcome(
    hole: Seq<Card>,
    community: Seq<Card>,
    opponents: int,
    deck: Seq<Card>,
    o: Trial,
) -> bool {
    exists|p: Seq<Card>|
        p.to_multiset() == deck.to_multiset() && o == #[trigger] trial(hole, community, opponents, p)
}

/// How many of the outcomes were played and ended in the category of
/// strength `k`.
pub open spec fn played_in(outs: Seq<Trial>, k: int) -> int
    decreases outs.len(),
{
    if outs.len() == 0 {
        0
    } else {
        played_in(outs.drop_last(), k) + match outs.last() {
            Trial::Played(c, _) => if strength(c) == k {
                1int
            } else {
                0
            },
            Trial::Spoiled => 0,
        }
    }
}

/// How many of the outcomes are wins.
pub open spec fn wins_in(outs: Seq<Trial>) -> int
    decreases outs.len(),
{
    if outs.len() == 0 {
        0
    } else {
        wins_in(outs.drop_last()) + match outs.last() {
            Trial::Played(_, true) => 1int,
            _ => 0,
        }
    }
}

/// How many of the outcomes are spoiled.
pub open spec fn spoiled_in(outs: Seq<Trial>) -> int
    decreases outs.len(),
{
    if outs.len() == 0 {
        0
    } else {
        spoiled_in(outs.drop_last()) + match outs.last() {
            Trial::Spoiled => 1int,
            _ => 0,
        }
    }
}

proof fn lemma_one_pack_deck(known: Set<int>, i: int)
    requires
        0 <= i <= 52,
    ensures
        full_packs(1).take(i).filter(unknown(known)).no_duplicates(),
        forall|x: int|
            0 <= x < full_packs(1).take(i).filter(unknown(known)).len() ==> {
                let c = #[trigger] full_packs(1).take(i).filter(unknown(known))[x];
                0 <= c.id_ < i && !known.contains(c.id_ as int)
            },
    decreases i,
{
    reveal(Seq::filter);
    if i > 0 {
        lemma_one_pack_deck(known, i - 1);
        let s = full_packs(1).take(i);
        assert(s.drop_last() =~= full_packs(1).take(i - 1));
        assert(s.last().id_ == i - 1);
    }
}

/// A rearrangement of one pack without the known cards repeats no card and
/// holds no known card.
proof fn lemma_one_pack_shuffle(known: Set<int>, p: Seq<Card>)
    requires
        p.to_multiset() == working_deck(1, known).to_multiset(),
    ensures
        p.no_duplicates(),
        forall|x: int|
            0 <= x < p.len() ==> 0 <= (#[trigger] p[x]).id_ < 52 && !known.contains(p[x].id_ as int),
{
    let w = working_deck(1, known);
    assert(full_packs(1).take(52) =~= full_packs(1));
    lemma_one_pack_deck(known, 52);
    w.lemma_multiset_has_no_duplicates();
    p.to_multiset_ensures();
    w.to_multiset_ensures();
    p.lemma_multiset_has_no_duplicates_conv();
    assert forall|x: int| 0 <= x < p.len() implies 0 <= (#[trigger] p[x]).id_ < 52 && !known.contains(
        p[x].id_ as int,
    ) by {
        assert(p.contains(p[x]));
        assert(p.to_multiset().count(p[x]) > 0);
        assert(w.to_multiset().count(p[x]) > 0);
        assert(w.contains(p[x]));
        let y = choose|y: int| 0 <= y < w.len() && w[y] == p[x];
        assert(w[y] == p[x]);
    }
}

proof fn lemma_distinct_join(a: Seq<Card>, b: Seq<Card>)
    requires
        distinct(a),
        distinct(b),
        forall|x: int, y: int| 0 <= x < a.len() && 0 <= y < b.len() ==> a[x].id_ != b[y].id_,
    ensures
        distinct(a + b),
{
    assert forall|i: int, j: int| 0 <= i < j < (a + b).len() implies (a + b)[i].id_ != (a
        + b)[j].id_ by {
        if j < a.len() {
        } else if i >= a.len() {
            assert(b[i - a.len()].id_ != b[j - a.len()].id_);
        } else {
            assert(a[i].id_ != b[j - a.len()].id_);
        }
    }
}

proof fn lemma_duel_played(ours: int, b: Seq<Card>, deck: Seq<Card>, k: int, j: int, opps: int)
    requires
        forall|m: int| j <= m < opps ==> (#[trigger] evaluation(opponent_hole(deck, k, m) + b)) is Ok,
    ensures
        duel(ours, b, deck, k, j, opps) is Some,
    decreases opps - j,
{
    if j < opps {
        assert(evaluation(opponent_hole(deck, k, j) + b) is Ok);
        lemma_duel_played(ours, b, deck, k, j + 1, opps);
    }
}

/// With one pack, two hole cards and no known card repeated, every trial is
/// played out.
pub proof fn lemma_one_pack_played(
    hole: Seq<Card>,
    community: Seq<Card>,
    opponents: int,
    p: Seq<Card>,
)
    requires
        hole.len() == 2,
        community.len() <= 5,
        opponents >= 1,
        distinct(hole + community),
        p.len() >= cards_needed(community.len() as int, opponents),
        p.to_multiset() == working_deck(1, ids_of(hole + community)).to_multiset(),
    ensures
        trial(hole, community, opponents, p) is Played,
{
    let known = ids_of(hole + community);
    lemma_one_pack_shuffle(known, p);
    let x = hole + community;
    let n = p.len();
    let k = 5 - community.len();
    let d = drawn(p, k);
    let b = board(community, p);
    assert(forall|i: int| 0 <= i < x.len() ==> known.contains(#[trigger] x[i].id_ as int));
    assert(distinct(d)) by {
        assert forall|i: int, j: int| 0 <= i < j < d.len() implies d[i].id_ != d[j].id_ by {
            assert(p[n - 1 - i] != p[n - 1 - j]);
        }
    }
    assert(distinct(community)) by {
        assert forall|i: int, j: int| 0 <= i < j < community.len() implies community[i].id_
            != community[j].id_ by {
            assert(x[i + 2] == community[i] && x[j + 2] == community[j]);
        }
    }
    assert forall|i: int, j: int| 0 <= i < x.len() && 0 <= j < d.len() implies x[i].id_
        != d[j].id_ by {
        assert(d[j] == p[n - 1 - j]);
    }
    lemma_distinct_join(x, d);
    assert(hole + b =~= x + d);
    assert forall|i: int, j: int| 0 <= i < community.len() && 0 <= j < d.len() implies community[i].id_
        != d[j].id_ by {
        assert(x[i + 2] == community[i]);
    }
    lemma_distinct_join(community, d);
    assert(evaluation(hole + b) is Ok);
    let ours = evaluation(hole + b)->Ok_0;
    assert forall|m: int| 0 <= m < opponents - 1 implies (#[trigger] evaluation(
        opponent_hole(p, k, m) + b,
    )) is Ok by {
        let o = opponent_hole(p, k, m);
        assert(o[0] == p[n - 1 - k - 2 * m] && o[1] == p[n - 2 - k - 2 * m]);
        assert(distinct(o)) by {
            assert(p[n - 1 - k - 2 * m] != p[n - 2 - k - 2 * m]);
        }
        assert forall|i: int, j: int| 0 <= i < o.len() && 0 <= j < b.len() implies o[i].id_
            != b[j].id_ by {
            if j < community.len() {
                assert(x[j + 2] == community[j]);
                assert(b[j] == community[j]);
            } else {
                assert(b[j] == d[j - community.len()]);
                assert(d[j - community.len()] == p[n - 1 - (j - community.len())]);
                assert(o[i] != b[j]);
            }
        }
        lemma_distinct_join(o, b);
    }
    lemma_duel_played(ours, b, p, k, 0, opponents - 1);
}


pub open spec fn total(s: Seq<u64>) -> int
    decreases s.len(),
{
    if s.len() == 0 {
        0
    } else {
        total(s.drop_last()) + s.last()
    }
}

proof fn lemma_total_bump(s: Seq<u64>, i: int)
    requires
        0 <= i < s.len(),
        s[i] < u64::MAX,
    ensures
        total(s.update(i, (s[i] + 1) as u64)) == total(s) + 1,
    decreases s.len(),
{
    let t = s.update(i, (s[i] + 1) as u64);
    if i < s.len() - 1 {
        assert(t.drop_last() =~= s.drop_last().update(i, (s[i] + 1) as u64));
        lemma_total_bump(s.drop_last(), i);
    } else {
        assert(t.drop_last() =~= s.drop_last());
    }
}

proof fn lemma_total_nonneg(s: Seq<u64>)
    ensures
        total(s) >= 0,
    decreases s.len(),
{
    if s.len() > 0 {
        lemma_total_nonneg(s.drop_last());
    }
}

proof fn lemma_total_ge(s: Seq<u64>, i: int)
    requires
        0 <= i < s.len(),
    ensures
        total(s) >= s[i],
    decreases s.len(),
{
    lemma_total_nonneg(s.drop_last());
    if i < s.len() - 1 {
        lemma_total_ge(s.drop_last(), i);
    }
}

proof fn lemma_total_zero(n: int)
    requires
        n >= 0,
    ensures
        total(Seq::new(n as nat, |i: int| 0u64)) == 0,
    decreases n,
{
    if n > 0 {
        assert(Seq::new(n as nat, |i: int| 0u64).drop_last() =~= Seq::new((n - 1) as nat, |i: int| 0u64));
        lemma_total_zero(n - 1);
    }
}

/// Frequencies gathered over many trials.
pub struct Estimate {
    /// Trials ending in each category, indexed by strength (high card first).
    pub category_counts: Vec<u64>,
    /// Trials in which no opponent beat the caller.
    pub wins: u64,
    /// Trials that were played out.
    pub played: u64,
    /// Trials in which some hand held one card twice.
    pub spoiled: u64,
}

fn contains_id(cards: &Vec<Card>, id: i32) -> (r: bool)
    ensures
        r == ids_of(cards@).contains(id as int),
{
    let mut i: usize = 0;
    while i < cards.len()
        invariant
            i <= cards.len(),
            forall|j: int| 0 <= j < i ==> cards@[j].id_ != id,
        decreases cards.len() - i,
    {
        if cards[i].id_ == id {
            return true;
        }
        i = i + 1;
    }
    false
}

fn append_cards(dst: &mut Vec<Card>, src: &Vec<Card>)
    ensures
        final(dst)@ == old(dst)@ + src@,
{
    let ghost start = dst@;
    let mut i: usize = 0;
    while i < src.len()
        invariant
            i <= src.len(),
            dst@ == start + src@.take(i as int),
        decreases src.len() - i,
    {
        dst.push(src[i]);
        i = i + 1;
        assert(dst@ =~= start + src@.take(i as int));
    }
    assert(src@.take(src.len() as int) =~= src@);
}

/// The packs without the known cards: what a trial draws from.
pub fn build_working_deck(pack_count: usize, known: &Vec<Card>) -> (d: Vec<Card>)
    requires
        52 * pack_count <= usize::MAX,
    ensures
        d@ == working_deck(pack_count as int, ids_of(known@)),
{
    let ghost keep = unknown(ids_of(known@));
    let ghost all = full_packs(pack_count as int);
    let total: usize = 52 * pack_count;
    let mut d: Vec<Card> = Vec::new();
    let mut i: usize = 0;
    while i < total
        invariant
            total == 52 * pack_count,
            i <= total,
            all == full_packs(pack_count as int),
            keep == unknown(ids_of(known@)),
            d@ == all.take(i as int).filter(keep),
        decreases total - i,
    {
        let c = Card { id_: (i % 52) as i32 };
        let held = contains_id(known, c.id_);
        proof {
            let s = all.take(i as int + 1);
            assert(s.drop_last() =~= all.take(i as int));
            assert(s.last() == c);
            reveal(Seq::filter);
        }
        if !held {
            d.push(c);
        }
        i = i + 1;
    }
    assert(all.take(total as int) =~= all);
    d
}

impl Tables {
    fn rank_opponent(&self, deck: &Vec<Card>, k: usize, j: usize, b: &Vec<Card>) -> (r: Result<
        u16,
        EvaluationError,
    >)
        requires
            self.wf(),
            deck.len() >= k + 2 * j + 2,
            all_valid(deck@),
            all_valid(b@),
        ensures
            r matches Ok(v) ==> evaluation(opponent_hole(deck@, k as int, j as int) + b@) == Ok::<
                int,
                EvaluationError,
            >(v as int),
            r is Err ==> evaluation(opponent_hole(deck@, k as int, j as int) + b@) is Err,
    {
        let n = deck.len();
        let mut theirs: Vec<Card> = Vec::new();
        theirs.push(deck[n - 1 - k - 2 * j]);
        theirs.push(deck[n - 2 - k - 2 * j]);
        append_cards(&mut theirs, b);
        assert(theirs@ =~= opponent_hole(deck@, k as int, j as int) + b@);
        assert(all_valid(theirs@)) by {
            assert forall|x: int| 0 <= x < theirs@.len() implies (#[trigger] theirs@[x]).wf() by {
                if x >= 2 {
                    assert(theirs@[x] == b@[x - 2]);
                }
            }
        }
        self.evaluate(&theirs)
    }

    /// Plays one trial on an already shuffled deck.
    pub fn run_trial(
        &self,
        hole: &Vec<Card>,
        community: &Vec<Card>,
        opponents: usize,
        deck: &Vec<Card>,
    ) -> (t: Trial)
        requires
            self.wf(),
            community.len() <= 5,
            opponents >= 1,
            deck.len() >= cards_needed(community.len() as int, opponents as int),
            all_valid(hole@),
            all_valid(community@),
            all_valid(deck@),
        ensures
            t == trial(hole@, community@, opponents as int, deck@),
    {
        let n = deck.len();
        let k = 5 - community.len();
        let mut b: Vec<Card> = Vec::new();
        append_cards(&mut b, community);
        let mut i: usize = 0;
        while i < k
            invariant
                k == 5 - community.len(),
                n == deck.len(),
                n >= k,
                i <= k,
                b@ == community@ + drawn(deck@, i as int),
            decreases k - i,
        {
            b.push(deck[n - 1 - i]);
            i = i + 1;
            assert(b@ =~= community@ + drawn(deck@, i as int));
        }
        assert(b@ == board(community@, deck@));
        assert(all_valid(b@)) by {
            assert forall|x: int| 0 <= x < b@.len() implies (#[trigger] b@[x]).wf() by {
                if x >= community.len() {
                    let y = x - community.len();
                    assert(b@[x] == deck@[n - 1 - y]);
                }
            }
        }
        let mut ours: Vec<Card> = Vec::new();
        append_cards(&mut ours, hole);
        append_cards(&mut ours, &b);
        assert(all_valid(ours@)) by {
            assert forall|x: int| 0 <= x < ours@.len() implies (#[trigger] ours@[x]).wf() by {
                if x >= hole.len() {
                    assert(ours@[x] == b@[x - hole.len()]);
                }
            }
        }
        let mine = match self.evaluate(&ours) {
            Ok(v) => v,
            Err(_) => return Trial::Spoiled,
        };
        let ghost bs = b@;
        let opps = opponents - 1;
        let mut j: usize = 0;
        while j < opps
            invariant
                self.wf(),
                opps == opponents - 1,
                n == deck.len(),
                k == 5 - community.len(),
                n >= k + 2 * opps,
                j <= opps,
                b@ == bs,
                bs == board(community@, deck@),
                evaluation(hole@ + bs) == Ok::<int, EvaluationError>(mine as int),
                all_valid(deck@),
                all_valid(b@),
                duel(mine as int, bs, deck@, k as int, 0, opps as int) == duel(
                    mine as int,
                    bs,
                    deck@,
                    k as int,
                    j as int,
                    opps as int,
                ),
            decreases opps - j,
        {
            match self.rank_opponent(deck, k, j, &b) {
                Ok(v) => {
                    if v < mine {
                        assert(duel(mine as int, bs, deck@, k as int, j as int, opps as int) == Some(
                            false,
                        ));
                        return Trial::Played(category_of(mine), false);
                    }
                },
                Err(_) => {
                    assert(duel(mine as int, bs, deck@, k as int, j as int, opps as int) is None);
                    return Trial::Spoiled;
                },
            }
            j = j + 1;
        }
        Trial::Played(category_of(mine), true)
    }

    /// Estimates by simulation how often the caller's hand ends in each
    /// category and how often no opponent beats it. Each trial plays
    /// `run_trial` on a fresh random rearrangement of the working deck.
    pub fn estimate(
        &self,
        hole_cards: &Vec<Card>,
        community_cards: &Vec<Card>,
        opponent_count: usize,
        pack_count: usize,
        trial_count: u64,
    ) -> (r: Result<Estimate, ConfigError>)
        requires
            self.wf(),
            hole_cards.len() == 2,
            community_cards.len() <= 5,
            distinct(hole_cards@ + community_cards@),
            opponent_count >= 1,
            2 * opponent_count + 5 <= usize::MAX,
            52 * pack_count <= usize::MAX,
            all_valid(hole_cards@),
            all_valid(community_cards@),
        ensures
            r is Err <==> working_deck(
                pack_count as int,
                ids_of(hole_cards@ + community_cards@),
            ).len() < cards_needed(community_cards.len() as int, opponent_count as int),
            r matches Err(e) ==> e == ConfigError::InsufficientDeck,
            r matches Ok(e) ==> {
                &&& e.category_counts.len() == 9
                &&& total(e.category_counts@) == e.played
                &&& e.played + e.spoiled == trial_count
                &&& e.wins <= e.played
            },
            r matches Ok(e) ==> exists|outs: Seq<Trial>|
                {
                    &&& outs.len() == trial_count
                    &&& forall|i: int|
                        0 <= i < outs.len() ==> possible_outcome(
                            hole_cards@,
                            community_cards@,
                            opponent_count as int,
                            working_deck(pack_count as int, ids_of(hole_cards@ + community_cards@)),
                            #[trigger] outs[i],
                        )
                    &&& forall|k: int|
                        0 <= k < 9 ==> e.category_counts@[k] == #[trigger] played_in(outs, k)
                    &&& e.wins == wins_in(outs)
                    &&& e.spoiled == spoiled_in(outs)
                },
            r matches Ok(e) ==> (pack_count == 1 ==> e.spoiled == 0 && e.played == trial_count),
    {
        let mut known: Vec<Card> = Vec::new();
        append_cards(&mut known, hole_cards);
        append_cards(&mut known, community_cards);
        let deck = build_working_deck(pack_count, &known);
        let ghost wd = deck@;
        let needed = (5 - community_cards.len()) + 2 * (opponent_count - 1);
        if deck.len() < needed {
            return Err(ConfigError::InsufficientDeck);
        }
        assert(all_valid(deck@)) by {
            assert forall|x: int| 0 <= x < deck@.len() implies (#[trigger] deck@[x]).wf() by {
                full_packs(pack_count as int).lemma_filter_contains_rev(
                    unknown(ids_of(known@)),
                    deck@[x],
                );
                assert(deck@.contains(deck@[x]));
            }
        }
        let mut counts: Vec<u64> = vec![0u64; 9];
        proof {
            assert(counts@ =~= Seq::new(9, |i: int| 0u64));
            lemma_total_zero(9);
        }
        let mut wins: u64 = 0;
        let mut played: u64 = 0;
        let mut spoiled: u64 = 0;
        let mut t: u64 = 0;
        let ghost mut outs: Seq<Trial> = Seq::empty();
        while t < trial_count
            invariant
                self.wf(),
                hole_cards.len() == 2,
                community_cards.len() <= 5,
                distinct(hole_cards@ + community_cards@),
                opponent_count >= 1,
                all_valid(hole_cards@),
                all_valid(community_cards@),
                all_valid(deck@),
                deck@ == wd,
                wd == working_deck(pack_count as int, ids_of(hole_cards@ + community_cards@)),
                deck.len() >= cards_needed(community_cards.len() as int, opponent_count as int),
                counts.len() == 9,
                total(counts@) == played,
                played + spoiled == t,
                wins <= played,
                t <= trial_count,
                outs.len() == t,
                forall|i: int|
                    0 <= i < outs.len() ==> possible_outcome(
                        hole_cards@,
                        community_cards@,
                        opponent_count as int,
                        wd,
                        #[trigger] outs[i],
                    ),
                forall|k: int| 0 <= k < 9 ==> counts@[k] == #[trigger] played_in(outs, k),
                wins == wins_in(outs),
                spoiled == spoiled_in(outs),
                pack_count == 1 ==> spoiled == 0,
            decreases trial_count - t,
        {
            let mut shuffled = deck.clone();
            assert(shuffled@ =~= deck@);
            shuffle_cards(&mut shuffled);
            assert(all_valid(shuffled@)) by {
                assert forall|x: int| 0 <= x < shuffled@.len() implies (#[trigger] shuffled@[x]).wf() by {
                    shuffled@.to_multiset_ensures();
                    deck@.to_multiset_ensures();
                    assert(shuffled@.to_multiset().count(shuffled@[x]) > 0);
                    assert(deck@.contains(shuffled@[x]));
                }
            }
            let res = self.run_trial(hole_cards, community_cards, opponent_count, &shuffled);
            let ghost prev = outs;
            proof {
                assert(possible_outcome(
                    hole_cards@,
                    community_cards@,
                    opponent_count as int,
                    wd,
                    res,
                )) by {
                    assert(shuffled@.to_multiset() == wd.to_multiset());
                    assert(res == trial(
                        hole_cards@,
                        community_cards@,
                        opponent_count as int,
                        shuffled@,
                    ));
                }
                if pack_count == 1 {
                    lemma_one_pack_played(
                        hole_cards@,
                        community_cards@,
                        opponent_count as int,
                        shuffled@,
                    );
                }
                outs = outs.push(res);
                assert(outs.drop_last() =~= prev);
                assert forall|k: int| 0 <= k < 9 implies #[trigger] played_in(outs, k) == played_in(
                    prev,
                    k,
                ) + match res {
                    Trial::Played(c, _) => if strength(c) == k {
                        1int
                    } else {
                        0
                    },
                    Trial::Spoiled => 0int,
                } by {
                    assert(outs.last() == res);
                }
            }
            match res {
                Trial::Spoiled => {
                    spoiled = spoiled + 1;
                },
                Trial::Played(c, won) => {
                    let i = c.index();
                    proof {
                        lemma_total_ge(counts@, i as int);
                        lemma_total_bump(counts@, i as int);
                    }
                    counts[i] = counts[i] + 1;
                    played = played + 1;
                    if won {
                        wins = wins + 1;
                    }
                },
            }
            t = t + 1;
        }
        Ok(Estimate { category_counts: counts, wins, played, spoiled })
    }
}

} // verus!
