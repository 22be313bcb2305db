use vstd::prelude::*;
use itertools::Itertools;
use crate::card::Card;
use crate::hand::{all_valid, one_if};

verus! {

/// A run of one or more cards of a single suit.
pub open spec fn one_suit(run: Seq<Card>) -> bool {
    &&& run.len() > 0
    &&& forall|i: int| 0 <= i < run.len() ==> (#[trigger] run[i]).suit() == run[0].suit()
}

/// `runs` cuts `cards`, in order, into its maximal runs of consecutive cards
/// of one suit.
pub open spec fn suit_runs_of(cards: Seq<Card>, runs: Seq<Seq<Card>>) -> bool {
    &&& runs.flatten() == cards
    &&& forall|i: int| 0 <= i < runs.len() ==> one_suit(#[trigger] runs[i])
    &&& forall|i: int| 0 <= i < runs.len() - 1 ==> (#[trigger] runs[i])[0].suit() != runs[i + 1][0].suit()
}

/// How many cards of the run rank Ten or higher.
pub open spec fn high_count(run: Seq<Card>) -> int
    decreases run.len(),
{
    if run.len() == 0 {
        0
    } else {
        high_count(run.drop_last()) + one_if(run.last().rank() >= 8)
    }
}

/// A run of three or more suited cards, exactly three of them Ten or higher,
/// threatens a royal flush.
pub open spec fn threatening(run: Seq<Card>) -> bool {
    run.len() > 2 && high_count(run) == 3
}

/// The cards of the threatening runs, in order.
pub open spec fn flagged(runs: Seq<Seq<Card>>) -> Seq<Card>
    decreases runs.len(),
{
    if runs.len() == 0 {
        seq![]
    } else {
        flagged(runs.drop_last()) + if threatening(runs.last()) {
            runs.last()
        } else {
            seq![]
        }
    }
}

pub open spec fn views(runs: Seq<Vec<Card>>) -> Seq<Seq<Card>> {
    runs.map_values(|r: Vec<Card>| r@)
}

/// Relies on itertools' `group_by`: it yields, in order, the maximal runs of
/// consecutive items with equal keys, here the suit.
#[verifier::external_body]
fn suit_runs(cards: &Vec<Card>) -> (runs: Vec<Vec<Card>>)
    requires
        all_valid(cards@),
    ensures
        suit_runs_of(cards@, views(runs@)),
{
    let groups = cards.iter().group_by(|c| c.suit_number());
    let runs: Vec<Vec<Card>> = groups.into_iter().map(|(_, g)| g.cloned().collect()).collect();
    runs
}

fn count_high(run: &Vec<Card>) -> (n: usize)
    ensures
        n == high_count(run@),
{
    let mut n: usize = 0;
    let mut i: usize = 0;
    while i < run.len()
        invariant
            i <= run.len(),
            n == high_count(run@.take(i as int)),
            n <= i,
        decreases run.len() - i,
    {
        assert(run@.take(i as int + 1).drop_last() =~= run@.take(i as int));
        if run[i].id_ / 4 >= 8 {
            n = n + 1;
        }
        i = i + 1;
    }
    assert(run@.take(run.len() as int) =~= run@);
    n
}

/// The cards of every run that threatens a royal flush.
pub fn threatening_cards(runs: &Vec<Vec<Card>>) -> (r: Vec<Card>)
    ensures
        r@ == flagged(views(runs@)),
{
    let mut r: Vec<Card> = Vec::new();
    let mut i: usize = 0;
    while i < runs.len()
        invariant
            i <= runs.len(),
            r@ == flagged(views(runs@).take(i as int)),
        decreases runs.len() - i,
    {
        let ghost before = r@;
        assert(views(runs@).take(i as int + 1).drop_last() =~= views(runs@).take(i as int));
        assert(views(runs@).take(i as int + 1).last() == runs@[i as int]@);
        if runs[i].len() > 2 && count_high(&runs[i]) == 3 {
            let mut j: usize = 0;
            while j < runs[i].len()
                invariant
                    i < runs.len(),
                    j <= runs@[i as int].len(),
                    r@ == before + runs@[i as int]@.take(j as int),
                decreases runs@[i as int].len() - j,
            {
                r.push(runs[i][j]);
                j = j + 1;
                assert(r@ =~= before + runs@[i as int]@.take(j as int));
            }
            assert(runs@[i as int]@.take(j as int) =~= runs@[i as int]@);
        } else {
            assert(r@ =~= before + Seq::<Card>::empty());
        }
        i = i + 1;
    }
    assert(views(runs@).take(runs.len() as int) =~= views(runs@));
    r
}

/// The cards that threaten a royal flush: those of each run of consecutive
/// cards of one suit that holds three or more cards, exactly three of them
/// Ten or higher.
pub fn spot_rf(cards: Vec<Card>) -> (r: Vec<Card>)
    requires
        all_valid(cards@),
    ensures
        exists|runs: Seq<Seq<Card>>| suit_runs_of(cards@, runs) && r@ == flagged(runs),
{
    let runs = suit_runs(&cards);
    threatening_cards(&runs)
}

} // verus!
