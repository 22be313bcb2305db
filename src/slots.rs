use vstd::prelude::*;
use crate::score::sum_from;
use crate::tables::pow5;

verus! {

/// The number of ways to spread `s` cards over `n` ranks, at most four to a
/// rank.
pub open spec fn ways(n: nat, s: int) -> nat
    decreases n, 6int,
{
    if s < 0 {
        0
    } else if n == 0 {
        if s == 0 {
            1
        } else {
            0
        }
    } else {
        ways_below(n, s, 5)
    }
}

/// Of those ways, the ones that put fewer than `c` cards on the first rank.
pub open spec fn ways_below(n: nat, s: int, c: int) -> nat
    decreases n, c,
{
    if c <= 0 || n == 0 || c > 5 {
        0
    } else {
        ways_below(n, s, c - 1) + ways((n - 1) as nat, s - (c - 1))
    }
}

/// The count vector's entries from `i` on are each at most four and add up
/// to `s`.
pub open spec fn fits(q: Seq<u8>, i: int, s: int) -> bool {
    &&& q.len() == 13
    &&& 0 <= i <= 13
    &&& forall|j: int| i <= j < 13 ==> #[trigger] q[j] <= 4
    &&& sum_from(q, i) == s
}

/// The position of the count vector's entries from `i` on among all such
/// tails with the same sum, in lexicographic order.
pub open spec fn lex_rank(q: Seq<u8>, i: int, s: int) -> int
    decreases 13 - i,
{
    if i >= 13 || i < 0 {
        0
    } else {
        ways_below((13 - i) as nat, s, q[i] as int) + lex_rank(q, i + 1, s - q[i])
    }
}

/// The entry at the first position of the tail of rank `h`: the largest `c`
/// (at most four) with `ways_below(n, s, c) <= h`, searching up from `c`.
pub open spec fn digit(n: nat, s: int, h: int, c: int) -> int
    decreases 4 - c,
{
    if c >= 4 || h < ways_below(n, s, c + 1) {
        c
    } else {
        digit(n, s, h, c + 1)
    }
}

/// The tail from `i` on with sum `s` whose lexicographic position is `h`.
pub open spec fn unrank(h: int, i: int, s: int) -> Seq<u8>
    decreases 13 - i,
{
    if i >= 13 || i < 0 {
        seq![]
    } else {
        let n = (13 - i) as nat;
        let c = digit(n, s, h, 0);
        seq![c as u8] + unrank(h - ways_below(n, s, c), i + 1, s - c)
    }
}

pub proof fn lemma_ways_below_mono(n: nat, s: int, c: int, d: int)
    requires
        c <= d <= 5,
    ensures
        ways_below(n, s, c) <= ways_below(n, s, d),
    decreases d - c,
{
    if c < d {
        lemma_ways_below_mono(n, s, c, d - 1);
    }
}

/// The rank of a tail lies below the number of tails.
pub proof fn lemma_rank_bound(q: Seq<u8>, i: int, s: int)
    requires
        fits(q, i, s),
    ensures
        0 <= lex_rank(q, i, s) < ways((13 - i) as nat, s),
    decreases 13 - i,
{
    if i < 13 {
        assert(sum_from(q, i) == q[i] as int + sum_from(q, i + 1));
        lemma_sum_nonneg(q, i + 1);
        lemma_rank_bound(q, i + 1, s - q[i]);
        let n = (13 - i) as nat;
        let c = q[i] as int;
        assert(ways_below(n, s, c + 1) == ways_below(n, s, c) + ways((n - 1) as nat, s - c));
        lemma_ways_below_mono(n, s, c + 1, 5);
        assert(s >= 0);
    } else {
        assert(sum_from(q, 13) == 0);
    }
}

proof fn lemma_sum_nonneg(q: Seq<u8>, lo: int)
    ensures
        sum_from(q, lo) >= 0,
    decreases q.len() - lo,
{
    if 0 <= lo < q.len() {
        lemma_sum_nonneg(q, lo + 1);
    }
}

proof fn lemma_digit(n: nat, s: int, h: int, c: int, e: int)
    requires
        0 <= c <= e <= 4,
        ways_below(n, s, e) <= h,
        e == 4 || h < ways_below(n, s, e + 1),
    ensures
        digit(n, s, h, c) == e,
    decreases 4 - c,
{
    if c < e {
        lemma_ways_below_mono(n, s, c + 1, e);
        lemma_digit(n, s, h, c + 1, e);
    }
}

/// Unranking the rank of a tail gives the tail back.
pub proof fn lemma_unrank_rank(q: Seq<u8>, i: int, s: int)
    requires
        fits(q, i, s),
    ensures
        unrank(lex_rank(q, i, s), i, s) == q.subrange(i, 13),
    decreases 13 - i,
{
    if i < 13 {
        let n = (13 - i) as nat;
        let c = q[i] as int;
        let h = lex_rank(q, i, s);
        assert(sum_from(q, i) == q[i] as int + sum_from(q, i + 1));
        lemma_sum_nonneg(q, i + 1);
        lemma_rank_bound(q, i + 1, s - c);
        assert(ways_below(n, s, c + 1) == ways_below(n, s, c) + ways((n - 1) as nat, s - c));
        lemma_digit(n, s, h, 0, c);
        lemma_unrank_rank(q, i + 1, s - c);
        assert(q.subrange(i, 13) =~= seq![q[i]] + q.subrange(i + 1, 13));
    } else {
        assert(q.subrange(13, 13) =~= Seq::<u8>::empty());
    }
}

proof fn lemma_ways_below_bound(n: nat, s: int, c: int)
    requires
        n >= 1,
        0 <= c <= 5,
    ensures
        ways_below(n, s, c) <= c * pow5((n - 1) as nat),
    decreases n, c,
{
    if c > 0 {
        lemma_ways_below_bound(n, s, c - 1);
        lemma_ways_bound((n - 1) as nat, s - (c - 1));
        let p = pow5((n - 1) as nat);
        assert((c - 1) * p + p == c * p) by (nonlinear_arith);
    }
}

/// There are at most `5^n` ways.
pub proof fn lemma_ways_bound(n: nat, s: int)
    ensures
        ways(n, s) <= pow5(n),
    decreases n, 6int,
{
    if s >= 0 && n > 0 {
        lemma_ways_below_bound(n, s, 5);
    }
}

/// Past `s + 1` the first rank cannot take more of the `s` cards.
proof fn lemma_ways_below_flat(n: nat, s: int, c: int, d: int)
    requires
        0 <= s,
        s + 1 <= c <= d <= 5,
    ensures
        ways_below(n, s, c) == ways_below(n, s, d),
    decreases d - c,
{
    if c < d {
        lemma_ways_below_flat(n, s, c, d - 1);
        if n > 0 {
            assert(ways_below(n, s, d) == ways_below(n, s, d - 1) + ways((n - 1) as nat, s - (d - 1)));
            assert(ways((n - 1) as nat, s - (d - 1)) == 0);
        }
    }
}

/// What one step of unranking needs: the digit taken fits the sum, and the
/// rest of the rank stays below the number of shorter tails.
pub proof fn lemma_digit_step(n: nat, s: int, h: int, c: int)
    requires
        n >= 1,
        0 <= s,
        0 <= h < ways(n, s),
        0 <= c <= 4,
        ways_below(n, s, c) <= h,
        c == 4 || h < ways_below(n, s, c + 1),
    ensures
        c <= s,
        h - ways_below(n, s, c) < ways((n - 1) as nat, s - c),
        digit(n, s, h, 0) == c,
{
    lemma_digit(n, s, h, 0, c);
    if c > s {
        lemma_ways_below_flat(n, s, s + 1, c);
        lemma_ways_below_flat(n, s, s + 1, 5);
    }
    assert(ways_below(n, s, c + 1) == ways_below(n, s, c) + ways((n - 1) as nat, s - c));
}

} // verus!
