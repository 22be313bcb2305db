use vstd::prelude::*;
use crate::score::{best, best_rank, sum_from};
use crate::slots::{
    fits, lemma_digit_step, lemma_rank_bound, lemma_unrank_rank, lemma_ways_below_mono,
    lemma_ways_bound, lex_rank, unrank, ways, ways_below,
};

verus! {

pub open spec fn pow5(n: nat) -> nat
    decreases n,
{
    if n == 0 {
        1
    } else {
        5 * pow5((n - 1) as nat)
    }
}

/// Every entry is a count a single rank can have: at most four cards.
pub open spec fn small(q: Seq<u8>) -> bool {
    forall|i: int| 0 <= i < q.len() ==> #[trigger] q[i] <= 4
}

/// The thirteen presence bits of a suit mask, lowest rank first.
pub open spec fn mask_bits(m: u32) -> Seq<u8> {
    Seq::new(13, |i: int| ((m >> (i as u32)) & 1u32) as u8)
}

/// Entry `n * 8 + s` holds `ways(n, s)`, for up to thirteen ranks and seven
/// cards.
pub open spec fn paths_hold(dp: Seq<u64>) -> bool {
    &&& dp.len() == 112
    &&& forall|n: int, s: int|
        0 <= n <= 13 && 0 <= s <= 7 ==> #[trigger] dp[n * 8 + s] as int == ways(n as nat, s)
}

/// Entry `h` holds the best rank of the count vector of `k` cards with
/// lexicographic position `h`.
pub open spec fn slots_hold(vals: Seq<u16>, k: int) -> bool {
    &&& vals.len() == ways(13, k)
    &&& forall|h: int| 0 <= h < vals.len() ==> #[trigger] vals[h] as int == best(unrank(h, 0, k), false)
}

proof fn lemma_pow5_13()
    ensures
        pow5(13) == 1220703125,
{
    reveal_with_fuel(pow5, 14);
}

proof fn lemma_pow5_mono(m: nat, n: nat)
    requires
        m <= n,
    ensures
        pow5(m) <= pow5(n),
    decreases n,
{
    if m < n {
        lemma_pow5_mono(m, (n - 1) as nat);
    }
}

proof fn lemma_ways_small(n: nat, s: int)
    requires
        n <= 13,
    ensures
        ways(n, s) <= 1220703125,
{
    lemma_ways_bound(n, s);
    lemma_pow5_mono(n, 13);
    lemma_pow5_13();
}

/// The table of `ways` for the slot arithmetic.
fn path_counts() -> (dp: Vec<u64>)
    ensures
        paths_hold(dp@),
{
    let mut dp: Vec<u64> = Vec::new();
    let mut s: usize = 0;
    while s < 8
        invariant
            s <= 8,
            dp.len() == s,
            forall|j: int| 0 <= j < s ==> #[trigger] dp@[j] as int == ways(0, j),
        decreases 8 - s,
    {
        dp.push(if s == 0 {
            1
        } else {
            0
        });
        s = s + 1;
    }
    let mut n: usize = 1;
    while n < 14
        invariant
            1 <= n <= 14,
            dp.len() == n * 8,
            forall|m: int, j: int|
                0 <= m < n && 0 <= j < 8 ==> #[trigger] dp@[m * 8 + j] as int == ways(m as nat, j),
        decreases 14 - n,
    {
        let mut s: usize = 0;
        while s < 8
            invariant
                1 <= n < 14,
                s <= 8,
                dp.len() == n * 8 + s,
                forall|m: int, j: int|
                    0 <= m < n && 0 <= j < 8 ==> #[trigger] dp@[m * 8 + j] as int == ways(
                        m as nat,
                        j,
                    ),
                forall|j: int| 0 <= j < s ==> #[trigger] dp@[n * 8 + j] as int == ways(n as nat, j),
            decreases 8 - s,
        {
            let mut total: u64 = 0;
            let mut c: usize = 0;
            proof {
                lemma_ways_small(n as nat, s as int);
            }
            while c < 5
                invariant
                    1 <= n < 14,
                    s < 8,
                    c <= 5,
                    dp.len() == n * 8 + s,
                    forall|m: int, j: int|
                        0 <= m < n && 0 <= j < 8 ==> #[trigger] dp@[m * 8 + j] as int == ways(
                            m as nat,
                            j,
                        ),
                    total as int == ways_below(n as nat, s as int, c as int),
                    ways(n as nat, s as int) <= 1220703125,
                decreases 5 - c,
            {
                proof {
                    lemma_ways_below_mono(n as nat, s as int, c as int + 1, 5);
                }
                assert(ways_below(n as nat, s as int, c as int + 1) == ways_below(
                    n as nat,
                    s as int,
                    c as int,
                ) + ways((n - 1) as nat, s - c));
                if c <= s {
                    assert(dp@[(n - 1) * 8 + (s - c)] as int == ways((n - 1) as nat, s - c));
                    total = total + dp[(n - 1) * 8 + (s - c)];
                }
                c = c + 1;
            }
            dp.push(total);
            s = s + 1;
        }
        n = n + 1;
    }
    assert forall|m: int, j: int| 0 <= m <= 13 && 0 <= j <= 7 implies #[trigger] dp@[m * 8 + j] as int
        == ways(m as nat, j) by {}
    dp
}

/// The slot of a count vector of `k` cards: its lexicographic position
/// among all such vectors.
fn slot_of(q: &Vec<u8>, k: u8, dp: &Vec<u64>) -> (h: u64)
    requires
        fits(q@, 0, k as int),
        k <= 7,
        paths_hold(dp@),
    ensures
        h as int == lex_rank(q@, 0, k as int),
{
    proof {
        lemma_rank_bound(q@, 0, k as int);
        lemma_ways_small(13, k as int);
    }
    let mut h: u64 = 0;
    let mut rem: usize = k as usize;
    let mut i: usize = 0;
    while i < 13
        invariant
            q.len() == 13,
            paths_hold(dp@),
            i <= 13,
            rem <= 7,
            fits(q@, i as int, rem as int),
            h + lex_rank(q@, i as int, rem as int) == lex_rank(q@, 0, k as int),
            lex_rank(q@, 0, k as int) < 1220703125,
        decreases 13 - i,
    {
        let qi = q[i] as usize;
        proof {
            assert(sum_from(q@, i as int) == q@[i as int] as int + sum_from(q@, i as int + 1));
            lemma_rank_bound(q@, i as int + 1, rem as int - qi);
        }
        let mut w: u64 = 0;
        let mut c: usize = 0;
        while c < qi
            invariant
                paths_hold(dp@),
                i < 13,
                qi <= rem <= 7,
                qi <= 4,
                c <= qi,
                w as int == ways_below((13 - i) as nat, rem as int, c as int),
                h + w <= lex_rank(q@, 0, k as int),
                h + ways_below((13 - i) as nat, rem as int, qi as int) <= lex_rank(q@, 0, k as int),
                lex_rank(q@, 0, k as int) < 1220703125,
            decreases qi - c,
        {
            proof {
                lemma_ways_below_mono((13 - i) as nat, rem as int, c as int + 1, qi as int);
            }
            assert(dp@[(12 - i) * 8 + (rem - c)] as int == ways((12 - i) as nat, rem - c));
            assert(ways_below((13 - i) as nat, rem as int, c as int + 1) == ways_below(
                (13 - i) as nat,
                rem as int,
                c as int,
            ) + ways((12 - i) as nat, rem - c));
            w = w + dp[(12 - i) * 8 + (rem - c)];
            c = c + 1;
        }
        h = h + w;
        rem = rem - qi;
        i = i + 1;
    }
    h
}

/// The count vector of `k` cards at lexicographic position `h`.
fn unrank_slot(h: u64, k: u8, dp: &Vec<u64>) -> (q: Vec<u8>)
    requires
        h < ways(13, k as int),
        k <= 7,
        paths_hold(dp@),
    ensures
        q@ == unrank(h as int, 0, k as int),
        q.len() == 13,
{
    let mut q: Vec<u8> = Vec::new();
    let mut hr: u64 = h;
    let mut rem: usize = k as usize;
    let mut i: usize = 0;
    while i < 13
        invariant
            paths_hold(dp@),
            i <= 13,
            q.len() == i,
            rem <= 7,
            hr < ways((13 - i) as nat, rem as int),
            q@ + unrank(hr as int, i as int, rem as int) == unrank(h as int, 0, k as int),
        decreases 13 - i,
    {
        let ghost n = (13 - i) as nat;
        proof {
            lemma_ways_small(n, rem as int);
        }
        let mut w: u64 = 0;
        let mut c: usize = 0;
        loop
            invariant
                paths_hold(dp@),
                i < 13,
                n == 13 - i,
                rem <= 7,
                c <= 4,
                hr < ways(n, rem as int),
                ways(n, rem as int) <= 1220703125,
                w as int == ways_below(n, rem as int, c as int),
                w <= hr,
            ensures
                c == 4 || hr < ways_below(n, rem as int, c as int + 1),
            decreases 4 - c,
        {
            if c == 4 {
                break;
            }
            assert(ways_below(n, rem as int, c as int + 1) == ways_below(n, rem as int, c as int)
                + ways((n - 1) as nat, rem as int - c));
            let next: u64 = if c <= rem {
                assert(dp@[(12 - i) * 8 + (rem - c)] as int == ways((12 - i) as nat, rem - c));
                proof {
                    lemma_ways_below_mono(n, rem as int, c as int + 1, 5);
                }
                w + dp[(12 - i) * 8 + (rem - c)]
            } else {
                w
            };
            assert(next as int == ways_below(n, rem as int, c as int + 1));
            if hr < next {
                break;
            }
            w = next;
            c = c + 1;
        }
        proof {
            lemma_digit_step(n, rem as int, hr as int, c as int);
        }
        let ghost before = q@;
        q.push(c as u8);
        assert(unrank(hr as int, i as int, rem as int) == seq![c as u8] + unrank(
            hr as int - w,
            i as int + 1,
            rem as int - c,
        ));
        assert(q@ + unrank(hr as int - w, i as int + 1, rem as int - c) =~= before + unrank(
            hr as int,
            i as int,
            rem as int,
        ));
        hr = hr - w;
        rem = rem - c;
        i = i + 1;
    }
    assert(unrank(hr as int, 13, rem as int) =~= Seq::<u8>::empty());
    assert(q@ =~= unrank(h as int, 0, k as int));
    q
}

/// The best ranks of all count vectors of `k` cards, by lexicographic
/// position.
fn count_table(dp: &Vec<u64>, k: u8) -> (vals: Vec<u16>)
    requires
        paths_hold(dp@),
        k <= 7,
    ensures
        slots_hold(vals@, k as int),
{
    let size = dp[13 * 8 + k as usize];
    proof {
        lemma_ways_small(13, k as int);
    }
    let mut vals: Vec<u16> = Vec::new();
    let mut h: u64 = 0;
    while h < size
        invariant
            paths_hold(dp@),
            k <= 7,
            size as int == ways(13, k as int),
            h <= size,
            vals.len() == h,
            forall|j: int| 0 <= j < h ==> #[trigger] vals@[j] as int == best(unrank(j, 0, k as int), false),
        decreases size - h,
    {
        let q = unrank_slot(h, k, dp);
        vals.push(best_rank(&q, false));
        h = h + 1;
    }
    vals
}

fn flush_table() -> (t: Vec<u16>)
    ensures
        t.len() == 8192,
        forall|m: int| 0 <= m < 8192 ==> t@[m] as int == best(#[trigger] mask_bits(m as u32), true),
{
    let mut t: Vec<u16> = Vec::new();
    let mut m: u32 = 0;
    while m < 8192
        invariant
            m <= 8192,
            t.len() == m,
            forall|j: int| 0 <= j < m ==> t@[j] as int == best(#[trigger] mask_bits(j as u32), true),
        decreases 8192 - m,
    {
        let mut bits: Vec<u8> = Vec::new();
        let mut i: u32 = 0;
        while i < 13
            invariant
                i <= 13,
                bits.len() == i,
                forall|j: int| 0 <= j < i ==> bits@[j] == ((m >> (j as u32)) & 1u32) as u8,
            decreases 13 - i,
        {
            bits.push(((m >> i) & 1) as u8);
            i = i + 1;
        }
        assert(bits@ =~= mask_bits(m));
        t.push(best_rank(&bits, true));
        m = m + 1;
    }
    t
}

/// The lookup tables of the evaluator, built once and then only read.
pub struct Tables {
    flush: Vec<u16>,
    vals5: Vec<u16>,
    vals7: Vec<u16>,
    dp: Vec<u64>,
}

impl Tables {
    pub closed spec fn wf(&self) -> bool {
        &&& self.flush.len() == 8192
        &&& forall|m: int|
            0 <= m < 8192 ==> self.flush@[m] as int == best(#[trigger] mask_bits(m as u32), true)
        &&& slots_hold(self.vals5@, 5)
        &&& slots_hold(self.vals7@, 7)
        &&& paths_hold(self.dp@)
    }

    /// Builds the flush table and the five- and seven-card count tables.
    pub fn new() -> (t: Tables)
        ensures
            t.wf(),
    {
        let dp = path_counts();
        let flush = flush_table();
        let vals5 = count_table(&dp, 5);
        let vals7 = count_table(&dp, 7);
        Tables { flush, vals5, vals7, dp }
    }

    /// The best flush or straight flush among the ranks set in `mask`.
    pub fn flush_rank(&self, mask: u32) -> (r: u16)
        requires
            self.wf(),
            mask < 8192,
        ensures
            r as int == best(mask_bits(mask), true),
    {
        assert(self.flush@[mask as int] as int == best(mask_bits((mask as int) as u32), true));
        self.flush[mask as usize]
    }

    /// The best hand without a flush among the five or seven cards counted in
    /// `q`: one read of the table for that many cards.
    pub fn count_rank(&self, q: &Vec<u8>, seven: bool) -> (r: u16)
        requires
            self.wf(),
            q.len() == 13,
            small(q@),
            sum_from(q@, 0) == if seven { 7int } else { 5int },
        ensures
            r as int == best(q@, false),
    {
        let k: u8 = if seven {
            7
        } else {
            5
        };
        let vals = if seven {
            &self.vals7
        } else {
            &self.vals5
        };
        let h = slot_of(q, k, &self.dp);
        proof {
            lemma_rank_bound(q@, 0, k as int);
            lemma_unrank_rank(q@, 0, k as int);
            assert(q@.subrange(0, 13) =~= q@);
            assert(slots_hold(vals@, k as int));
            assert(vals@[h as int] as int == best(unrank(h as int, 0, k as int), false));
        }
        assert(h < vals.len());
        let slot = h as usize;
        assert(slot as int == h as int);
        vals[slot]
    }
}

} // verus!
