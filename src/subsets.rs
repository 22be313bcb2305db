use vstd::prelude::*;
use crate::eval::{
    flush_suit, hand_rank, lemma_count_sum, lemma_five_card_rank, lemma_suit_sum,
};
use crate::hand::{
    card_total, counts, held, lemma_suit_count_bound, lemma_suit_counts_nonneg, one_if, rank_count,
    suit_bits, suit_count, suit_count_below,
};
use crate::score::{
    best, lemma_best_in_range, lemma_best_is_min, lemma_best_of_five, lemma_rank5_range,
    lemma_ranks_with, lemma_sum_split, quads_or_full, rank5, ranks_with, sum_from, within_counts,
};

verus! {

proof fn lemma_suit_count_mono(t: Set<int>, s: Set<int>, u: int, n: int)
    requires
        t.subset_of(s),
    ensures
        suit_count_below(t, u, n) <= suit_count_below(s, u, n),
    decreases n,
{
    if n > 0 {
        lemma_suit_count_mono(t, s, u, n - 1);
    }
}

proof fn lemma_counts_total(x: Set<int>)
    ensures
        sum_from(counts(x), 0) == card_total(x),
{
    lemma_count_sum(x, 13);
    lemma_sum_split(counts(x), 13);
    assert(sum_from(counts(x), 13) == 0);
}

proof fn lemma_bits_total(x: Set<int>, f: int)
    ensures
        sum_from(suit_bits(x, f), 0) == suit_count(x, f),
{
    lemma_suit_sum(x, f, 13);
    lemma_sum_split(suit_bits(x, f), 13);
    assert(sum_from(suit_bits(x, f), 13) == 0);
}

/// A suit holds at least the cards it holds at two given ranks.
proof fn lemma_two_ranks(x: Set<int>, u: int, a: int, b: int)
    requires
        0 <= a < 13,
        0 <= b < 13,
        a != b,
    ensures
        suit_count(x, u) >= one_if(held(x, a, u)) + one_if(held(x, b, u)),
{
    lemma_two_ranks_below(x, u, a, b, 13);
}

proof fn lemma_two_ranks_below(x: Set<int>, u: int, a: int, b: int, n: int)
    requires
        0 <= a < 13,
        0 <= b < 13,
        a != b,
        0 <= n <= 13,
    ensures
        suit_count_below(x, u, n) >= (if a < n { one_if(held(x, a, u)) } else { 0 }) + (if b < n {
            one_if(held(x, b, u))
        } else {
            0
        }),
    decreases n,
{
    lemma_suit_count_bound(x, u, n);
    if n > 0 {
        lemma_two_ranks_below(x, u, a, b, n - 1);
    }
}

/// Where one suit holds five of at most seven cards, the other suits hold at
/// most two, too few for four of a kind or a full house among any five.
proof fn lemma_no_full(s: Set<int>, t: Set<int>, f: int)
    requires
        t.subset_of(s),
        0 <= f < 4,
        suit_count(s, f) >= 5,
        card_total(s) <= 7,
        card_total(t) == 5,
    ensures
        !quads_or_full(counts(t)),
{
    let q = counts(t);
    lemma_ranks_with(q, 4, 0);
    lemma_ranks_with(q, 3, 0);
    lemma_ranks_with(q, 2, 0);
    lemma_suit_counts_nonneg(s);
    lemma_suit_counts_nonneg(t);
    lemma_suit_count_mono(t, s, 0, 13);
    lemma_suit_count_mono(t, s, 1, 13);
    lemma_suit_count_mono(t, s, 2, 13);
    lemma_suit_count_mono(t, s, 3, 13);
    if quads_or_full(q) {
        let (a, b) = if ranks_with(q, 4, 0).len() == 1 {
            (ranks_with(q, 4, 0)[0] as int, if ranks_with(q, 4, 0)[0] == 0 { 1int } else { 0int })
        } else {
            (ranks_with(q, 3, 0)[0] as int, ranks_with(q, 2, 0)[0] as int)
        };
        assert(q[a] == rank_count(t, a) as u8);
        assert(q[b] == rank_count(t, b) as u8);
        lemma_two_ranks(t, 0, a, b);
        lemma_two_ranks(t, 1, a, b);
        lemma_two_ranks(t, 2, a, b);
        lemma_two_ranks(t, 3, a, b);
        assert(false);
    }
}

/// No five of the cards rank better than all of them together.
proof fn lemma_subset_no_better(s: Set<int>, t: Set<int>)
    requires
        t.subset_of(s),
        card_total(s) <= 7,
        card_total(t) == 5,
    ensures
        hand_rank(s) <= hand_rank(t),
{
    lemma_five_card_rank(t);
    lemma_suit_counts_nonneg(s);
    lemma_suit_counts_nonneg(t);
    lemma_suit_count_mono(t, s, 0, 13);
    lemma_suit_count_mono(t, s, 1, 13);
    lemma_suit_count_mono(t, s, 2, 13);
    lemma_suit_count_mono(t, s, 3, 13);
    let f = flush_suit(s);
    let g = flush_suit(t);
    if g >= 0 {
        assert(f == g);
        let q = suit_bits(s, f);
        let b = suit_bits(t, f);
        lemma_bits_total(t, f);
        assert(within_counts(b, q, 0));
        lemma_best_is_min(q, true);
        assert(best(q, true) <= rank5(b, true));
    } else if f < 0 {
        let q = counts(s);
        let c = counts(t);
        lemma_counts_total(t);
        assert(within_counts(c, q, 0));
        lemma_best_is_min(q, false);
        assert(best(q, false) <= rank5(c, false));
    } else {
        lemma_no_full(s, t, f);
        lemma_rank5_range(counts(t), false);
        let q = suit_bits(s, f);
        lemma_bits_total(s, f);
        lemma_best_in_range(q, true);
        lemma_best_is_min(q, true);
        let w = choose|w: Seq<u8>|
            within_counts(w, q, 0) && sum_from(w, 0) == 5 && best(q, true) == #[trigger] rank5(
                w,
                true,
            );
        lemma_rank5_range(w, true);
    }
}

/// The cards of suit `f` at the ranks that `w` marks.
pub open spec fn suited_pick(w: Seq<u8>, f: int) -> Set<int> {
    Set::new(|id: int| 0 <= id < 52 && id % 4 == f && w[id / 4] == 1)
}

/// How many of the suits below `u` hold a card of rank `r`.
pub open spec fn held_below(s: Set<int>, r: int, u: int) -> int {
    if u <= 0 {
        0
    } else if u == 1 {
        one_if(held(s, r, 0))
    } else if u == 2 {
        one_if(held(s, r, 0)) + one_if(held(s, r, 1))
    } else {
        one_if(held(s, r, 0)) + one_if(held(s, r, 1)) + one_if(held(s, r, 2))
    }
}

/// Of the cards of each rank `r`, the `w[r]` of the lowest suits.
pub open spec fn lowest_pick(s: Set<int>, w: Seq<u8>) -> Set<int> {
    Set::new(
        |id: int| 0 <= id < 52 && s.contains(id) && held_below(s, id / 4, id % 4) < w[id / 4] as int,
    )
}

proof fn lemma_no_suit(x: Set<int>, u: int, n: int)
    requires
        forall|r: int| 0 <= r < 13 ==> !#[trigger] held(x, r, u),
        n <= 13,
    ensures
        suit_count_below(x, u, n) == 0,
    decreases n,
{
    if n > 0 {
        lemma_no_suit(x, u, n - 1);
    }
}

proof fn lemma_attained(s: Set<int>) -> (t: Set<int>)
    requires
        card_total(s) >= 5,
    ensures
        t.subset_of(s),
        card_total(t) == 5,
        hand_rank(t) == hand_rank(s),
{
    let f = flush_suit(s);
    lemma_suit_counts_nonneg(s);
    if f >= 0 {
        let q = suit_bits(s, f);
        lemma_bits_total(s, f);
        lemma_best_in_range(q, true);
        lemma_best_is_min(q, true);
        let w = choose|w: Seq<u8>|
            within_counts(w, q, 0) && sum_from(w, 0) == 5 && best(q, true) == #[trigger] rank5(
                w,
                true,
            );
        let t = suited_pick(w, f);
        assert forall|id: int| t.contains(id) implies s.contains(id) by {
            let r = id / 4;
            assert(w[r] <= q[r]);
            assert(id == 4 * r + f);
        }
        assert forall|r: int| 0 <= r < 13 implies #[trigger] held(t, r, f) == (w[r] == 1) by {
            assert((4 * r + f) / 4 == r && (4 * r + f) % 4 == f);
        }
        assert(suit_bits(t, f) =~= w) by {
            assert forall|r: int| 0 <= r < 13 implies suit_bits(t, f)[r] == w[r] by {
                assert(w[r] <= q[r]);
                assert(held(t, r, f) == (w[r] == 1));
            }
        }
        assert forall|u: int| 0 <= u < 4 && u != f implies suit_count(t, u) == 0 by {
            assert forall|r: int| 0 <= r < 13 implies !#[trigger] held(t, r, u) by {
                assert((4 * r + u) % 4 == u);
            }
            lemma_no_suit(t, u, 13);
        }
        lemma_bits_total(t, f);
        lemma_five_card_rank(t);
        lemma_best_of_five(w, true);
        t
    } else {
        let q = counts(s);
        lemma_counts_total(s);
        lemma_best_in_range(q, false);
        lemma_best_is_min(q, false);
        let w = choose|w: Seq<u8>|
            within_counts(w, q, 0) && sum_from(w, 0) == 5 && best(q, false) == #[trigger] rank5(
                w,
                false,
            );
        let t = lowest_pick(s, w);
        assert(t.subset_of(s));
        assert forall|r: int, u: int| 0 <= r < 13 && 0 <= u < 4 implies #[trigger] held(t, r, u) == (
        held(s, r, u) && held_below(s, r, u) < w[r] as int) by {
            assert((4 * r + u) / 4 == r && (4 * r + u) % 4 == u);
        }
        assert(counts(t) =~= w) by {
            assert forall|r: int| 0 <= r < 13 implies counts(t)[r] == w[r] by {
                assert(w[r] <= q[r]);
                assert(held(t, r, 0) == (held(s, r, 0) && held_below(s, r, 0) < w[r] as int));
                assert(held(t, r, 1) == (held(s, r, 1) && held_below(s, r, 1) < w[r] as int));
                assert(held(t, r, 2) == (held(s, r, 2) && held_below(s, r, 2) < w[r] as int));
                assert(held(t, r, 3) == (held(s, r, 3) && held_below(s, r, 3) < w[r] as int));
            }
        }
        lemma_counts_total(t);
        lemma_suit_counts_nonneg(t);
        lemma_suit_count_mono(t, s, 0, 13);
        lemma_suit_count_mono(t, s, 1, 13);
        lemma_suit_count_mono(t, s, 2, 13);
        lemma_suit_count_mono(t, s, 3, 13);
        lemma_five_card_rank(t);
        lemma_best_of_five(w, false);
        t
    }
}

/// Five to seven cards rank as their best five: no five of them rank better
/// than the whole, and some five rank the same.
pub proof fn lemma_best_five_of_seven(s: Set<int>)
    requires
        5 <= card_total(s) <= 7,
    ensures
        forall|t: Set<int>|
            t.subset_of(s) && card_total(t) == 5 ==> hand_rank(s) <= #[trigger] hand_rank(t),
        exists|t: Set<int>| t.subset_of(s) && card_total(t) == 5 && hand_rank(t) == hand_rank(s),
{
    assert forall|t: Set<int>| t.subset_of(s) && card_total(t) == 5 implies hand_rank(s)
        <= #[trigger] hand_rank(t) by {
        lemma_subset_no_better(s, t);
    }
    let t = lemma_attained(s);
    assert(t.subset_of(s) && card_total(t) == 5 && hand_rank(t) == hand_rank(s));
}

} // verus!
