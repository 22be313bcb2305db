use vstd::prelude::*;

verus! {

/// Binomial coefficient, by Pascal's rule.
pub open spec fn binom(n: nat, k: nat) -> nat
    decreases n,
{
    if k == 0 {
        1
    } else if n == 0 {
        0
    } else {
        binom((n - 1) as nat, (k - 1) as nat) + binom((n - 1) as nat, k)
    }
}

pub proof fn lemma_binom_closed(n: nat)
    ensures
        binom(n, 1) == n,
        2 * binom(n, 2) == n * (n - 1),
        6 * binom(n, 3) == n * (n - 1) * (n - 2),
        24 * binom(n, 4) == n * (n - 1) * (n - 2) * (n - 3),
        120 * binom(n, 5) == n * (n - 1) * (n - 2) * (n - 3) * (n - 4),
    decreases n,
{
    if n > 0 {
        let m = (n - 1) as nat;
        lemma_binom_closed(m);
        assert(binom(n, 1) == binom(m, 0) + binom(m, 1));
        assert(binom(n, 2) == binom(m, 1) + binom(m, 2));
        assert(binom(n, 3) == binom(m, 2) + binom(m, 3));
        assert(binom(n, 4) == binom(m, 3) + binom(m, 4));
        assert(binom(n, 5) == binom(m, 4) + binom(m, 5));
        let a = m as int;
        assert(2 * binom(n, 2) == n * (n - 1)) by (nonlinear_arith)
            requires
                binom(n, 2) == binom(m, 1) + binom(m, 2),
                binom(m, 1) == m,
                2 * binom(m, 2) == m * (m - 1),
                n == m + 1,
        ;
        assert(6 * binom(n, 3) == n * (n - 1) * (n - 2)) by (nonlinear_arith)
            requires
                binom(n, 3) == binom(m, 2) + binom(m, 3),
                2 * binom(m, 2) == m * (m - 1),
                6 * binom(m, 3) == m * (m - 1) * (m - 2),
                n == m + 1,
        ;
        assert(24 * binom(n, 4) == n * (n - 1) * (n - 2) * (n - 3)) by (nonlinear_arith)
            requires
                binom(n, 4) == binom(m, 3) + binom(m, 4),
                6 * binom(m, 3) == m * (m - 1) * (m - 2),
                24 * binom(m, 4) == m * (m - 1) * (m - 2) * (m - 3),
                n == m + 1,
        ;
        assert(120 * binom(n, 5) == n * (n - 1) * (n - 2) * (n - 3) * (n - 4)) by (nonlinear_arith)
            requires
                binom(n, 5) == binom(m, 4) + binom(m, 5),
                24 * binom(m, 4) == m * (m - 1) * (m - 2) * (m - 3),
                120 * binom(m, 5) == m * (m - 1) * (m - 2) * (m - 3) * (m - 4),
                n == m + 1,
        ;
    } else {
        assert(binom(0, 1) == 0);
        assert(binom(0, 2) == 0);
        assert(binom(0, 3) == 0);
        assert(binom(0, 4) == 0);
        assert(binom(0, 5) == 0);
    }
}

/// `binom(n, k)` for the small arguments that hand indices use.
pub fn binom_small(n: u8, k: u8) -> (r: u32)
    requires
        n <= 13,
        k <= 5,
    ensures
        r as nat == binom(n as nat, k as nat),
{
    proof {
        lemma_binom_closed(n as nat);
    }
    let m = n as i64;
    assert(0 <= m * (m - 1) <= 156) by (nonlinear_arith)
        requires
            0 <= m <= 13,
    ;
    let p2 = m * (m - 1);
    assert(-2000 <= p2 * (m - 2) <= 2000) by (nonlinear_arith)
        requires
            0 <= m <= 13,
            p2 == m * (m - 1),
    ;
    let p3 = p2 * (m - 2);
    assert(-20000 <= p3 * (m - 3) <= 20000) by (nonlinear_arith)
        requires
            0 <= m <= 13,
            p3 == m * (m - 1) * (m - 2),
    ;
    let p4 = p3 * (m - 3);
    assert(-200000 <= p4 * (m - 4) <= 200000) by (nonlinear_arith)
        requires
            0 <= m <= 13,
            p4 == m * (m - 1) * (m - 2) * (m - 3),
    ;
    let p5 = p4 * (m - 4);
    let v: i64 = if k == 0 {
        1
    } else if k == 1 {
        m
    } else if k == 2 {
        p2 / 2
    } else if k == 3 {
        p3 / 6
    } else if k == 4 {
        p4 / 24
    } else {
        p5 / 120
    };
    assert(v <= 2000) by {
        assert(binom(n as nat, k as nat) <= 2000) by (nonlinear_arith)
            requires
                0 <= n <= 13,
                k <= 5,
                k == 1 ==> binom(n as nat, k as nat) == n,
                k == 2 ==> 2 * binom(n as nat, 2) == n * (n - 1),
                k == 3 ==> 6 * binom(n as nat, 3) == n * (n - 1) * (n - 2),
                k == 4 ==> 24 * binom(n as nat, 4) == n * (n - 1) * (n - 2) * (n - 3),
                k == 5 ==> 120 * binom(n as nat, 5) == n * (n - 1) * (n - 2) * (n - 3) * (n - 4),
                k == 0 ==> binom(n as nat, k as nat) == 1,
        ;
    }
    v as u32
}

/// Rank value that stands for "no five-card hand": worse than every rank.
pub const NO_HAND: u16 = 7463;

pub open spec fn strictly_desc(s: Seq<int>) -> bool {
    forall|i: int, j: int| 0 <= i < j < s.len() ==> s[i] > s[j]
}

pub open spec fn within(s: Seq<int>, n: int) -> bool {
    forall|i: int| 0 <= i < s.len() ==> 0 <= #[trigger] s[i] < n
}

/// Colexicographic index of a set of naturals given highest first: the number
/// of sets of the same size whose sorted-descending sequence is smaller.
pub open spec fn colex(s: Seq<int>) -> nat
    decreases s.len(),
{
    if s.len() == 0 {
        0
    } else {
        binom(s[0] as nat, s.len()) + colex(s.drop_first())
    }
}

pub proof fn lemma_binom_mono(m: nat, n: nat, k: nat)
    requires
        m <= n,
    ensures
        binom(m, k) <= binom(n, k),
    decreases n,
{
    if m < n {
        lemma_binom_mono(m, (n - 1) as nat, k);
        if k > 0 {
            assert(binom(n, k) == binom((n - 1) as nat, (k - 1) as nat) + binom((n - 1) as nat, k));
        }
    }
}

pub proof fn lemma_binom_pos(n: nat, k: nat)
    requires
        k <= n,
    ensures
        binom(n, k) >= 1,
    decreases n,
{
    if k > 0 {
        lemma_binom_pos((n - 1) as nat, (k - 1) as nat);
    }
}

proof fn lemma_desc_len(s: Seq<int>)
    requires
        strictly_desc(s),
        s.len() > 0,
        s[s.len() - 1] >= 0,
    ensures
        s.len() <= s[0] + 1,
    decreases s.len(),
{
    if s.len() > 1 {
        let rest = s.drop_first();
        assert(strictly_desc(rest));
        lemma_desc_len(rest);
    }
}

pub proof fn lemma_colex_bound(s: Seq<int>, n: nat)
    requires
        strictly_desc(s),
        within(s, n as int),
    ensures
        colex(s) + 1 <= binom(n, s.len()),
    decreases s.len(),
{
    if s.len() > 0 {
        let rest = s.drop_first();
        let k = s.len();
        let s0 = s[0] as nat;
        assert(strictly_desc(rest));
        assert(within(rest, s0 as int));
        lemma_colex_bound(rest, s0);
        assert(binom(s0 + 1, k) == binom(s0, (k - 1) as nat) + binom(s0, k));
        lemma_binom_mono(s0 + 1, n, k);
    }
}

/// A set other than the top `k` values of `0..n` has colex index below the last.
pub proof fn lemma_colex_strict(s: Seq<int>, n: nat, w: int)
    requires
        strictly_desc(s),
        within(s, n as int),
        0 <= w < s.len(),
        s[w] != n - 1 - w,
    ensures
        colex(s) + 2 <= binom(n, s.len()),
    decreases s.len(),
{
    let k = s.len();
    let s0 = s[0];
    let rest = s.drop_first();
    assert(strictly_desc(rest));
    assert(binom(n, k) == binom((n - 1) as nat, (k - 1) as nat) + binom((n - 1) as nat, k));
    if s0 < n - 1 {
        lemma_colex_bound(s, (s0 + 1) as nat);
        lemma_binom_mono((s0 + 1) as nat, (n - 1) as nat, k);
        lemma_desc_len(s);
        lemma_binom_pos((n - 1) as nat, (k - 1) as nat);
    } else {
        assert(w >= 1);
        assert(within(rest, n - 1));
        assert(rest[w - 1] == s[w]);
        lemma_colex_strict(rest, (n - 1) as nat, w - 1);
    }
}

/// The ranks in `lo..13` that occur exactly `c` times in the count vector
/// `q`, highest first.
pub open spec fn ranks_with(q: Seq<u8>, c: u8, lo: int) -> Seq<u8>
    decreases 13 - lo,
{
    if lo >= 13 || lo < 0 {
        seq![]
    } else {
        let rest = ranks_with(q, c, lo + 1);
        if q[lo] == c {
            rest.push(lo as u8)
        } else {
            rest
        }
    }
}

pub proof fn lemma_ranks_with(q: Seq<u8>, c: u8, lo: int)
    requires
        q.len() == 13,
        0 <= lo <= 13,
    ensures
        ranks_with(q, c, lo).len() <= 13 - lo,
        forall|i: int|
            0 <= i < ranks_with(q, c, lo).len() ==> lo <= ranks_with(q, c, lo)[i] < 13
                && q[ranks_with(q, c, lo)[i] as int] == c,
        forall|i: int, j: int|
            0 <= i < j < ranks_with(q, c, lo).len() ==> ranks_with(q, c, lo)[i]
                > ranks_with(q, c, lo)[j],
    decreases 13 - lo,
{
    if lo < 13 {
        lemma_ranks_with(q, c, lo + 1);
    }
}

/// Lowers `v` by one when the excluded value `a` lies below it: the position
/// of `v` among the ranks other than `a`.
pub open spec fn shift(v: int, a: int) -> int {
    if a < v {
        v - 1
    } else {
        v
    }
}

/// The top card of a straight given highest first (3 for the five-high
/// straight), or -1 when the five ranks are not consecutive.
pub open spec fn straight_top(s: Seq<u8>) -> int {
    if s[0] as int - s[4] as int == 4 {
        s[0] as int
    } else if s[0] == 12 && s[1] == 3 {
        3
    } else {
        -1
    }
}

pub open spec fn five(s: Seq<u8>) -> Seq<int> {
    seq![s[0] as int, s[1] as int, s[2] as int, s[3] as int, s[4] as int]
}

/// Position of five distinct non-consecutive ranks among all such sets,
/// best first: the sets above it less the straights above it.
pub open spec fn no_straight_index(s: Seq<u8>) -> int {
    1286 - colex(five(s)) - (13 - s[0] + if s[0] < 12 { 1int } else { 0 })
}

/// The rank of five cards, 1 (best) to 7462, from their count vector `q`
/// (number of cards of each rank) and whether all five share a suit; `NO_HAND`
/// where `q` does not describe five cards of distinct identity.
pub open spec fn rank5(q: Seq<u8>, flush: bool) -> int {
    let quads = ranks_with(q, 4, 0);
    let trips = ranks_with(q, 3, 0);
    let pairs = ranks_with(q, 2, 0);
    let singles = ranks_with(q, 1, 0);
    if flush {
        if singles.len() == 5 && quads.len() + trips.len() + pairs.len() == 0 {
            let t = straight_top(singles);
            if t >= 0 {
                1 + 12 - t
            } else {
                323 + no_straight_index(singles)
            }
        } else {
            NO_HAND as int
        }
    } else if quads.len() == 1 && singles.len() == 1 && trips.len() + pairs.len() == 0 {
        let a = quads[0] as int;
        11 + (12 - a) * 12 + 11 - shift(singles[0] as int, a)
    } else if trips.len() == 1 && pairs.len() == 1 && quads.len() + singles.len() == 0 {
        let a = trips[0] as int;
        167 + (12 - a) * 12 + 11 - shift(pairs[0] as int, a)
    } else if trips.len() == 1 && singles.len() == 2 && quads.len() + pairs.len() == 0 {
        let a = trips[0] as int;
        1610 + (12 - a) * 66 + 65 - colex(
            seq![shift(singles[0] as int, a), shift(singles[1] as int, a)],
        )
    } else if pairs.len() == 2 && singles.len() == 1 && quads.len() + trips.len() == 0 {
        let a = pairs[0] as int;
        let b = pairs[1] as int;
        let c = singles[0] as int;
        2468 + (77 - colex(seq![a, b])) * 11 + 10 - (c - (if a < c { 1int } else { 0 }) - (
        if b < c { 1int } else { 0 }))
    } else if pairs.len() == 1 && singles.len() == 3 && quads.len() + trips.len() == 0 {
        let a = pairs[0] as int;
        3326 + (12 - a) * 220 + 219 - colex(
            seq![
                shift(singles[0] as int, a),
                shift(singles[1] as int, a),
                shift(singles[2] as int, a),
            ],
        )
    } else if singles.len() == 5 && quads.len() + trips.len() + pairs.len() == 0 {
        let t = straight_top(singles);
        if t >= 0 {
            1600 + 12 - t
        } else {
            6186 + no_straight_index(singles)
        }
    } else {
        NO_HAND as int
    }
}

/// The counts make four of a kind or a full house.
pub open spec fn quads_or_full(q: Seq<u8>) -> bool {
    let a = ranks_with(q, 4, 0).len();
    let b = ranks_with(q, 3, 0).len();
    let c = ranks_with(q, 2, 0).len();
    let d = ranks_with(q, 1, 0).len();
    (a == 1 && d == 1 && b + c == 0) || (b == 1 && c == 1 && a + d == 0)
}

/// The counts form one of the shapes that five cards of distinct identity
/// can take.
pub open spec fn pattern_ok(q: Seq<u8>, flush: bool) -> bool {
    let a = ranks_with(q, 4, 0).len();
    let b = ranks_with(q, 3, 0).len();
    let c = ranks_with(q, 2, 0).len();
    let d = ranks_with(q, 1, 0).len();
    if flush {
        d == 5 && a + b + c == 0
    } else {
        ||| (a == 1 && d == 1 && b + c == 0)
        ||| (b == 1 && c == 1 && a + d == 0)
        ||| (b == 1 && d == 2 && a + c == 0)
        ||| (c == 2 && d == 1 && a + b == 0)
        ||| (c == 1 && d == 3 && a + b == 0)
        ||| (d == 5 && a + b + c == 0)
    }
}

proof fn lemma_no_straight_index(s: Seq<u8>)
    requires
        s.len() == 5,
        forall|i: int| 0 <= i < 5 ==> s[i] < 13,
        forall|i: int, j: int| 0 <= i < j < 5 ==> s[i] > s[j],
        straight_top(s) < 0,
    ensures
        0 <= no_straight_index(s) <= 1276,
{
    let f = five(s);
    assert(strictly_desc(f));
    assert(within(f, 13));
    let h = s[0] as nat;
    lemma_binom_closed(h);
    lemma_binom_closed(12);
    lemma_binom_closed(13);
    assert(colex(f) >= binom(h, 5));
    assert(h >= 5);
    assert(binom(h, 5) >= h - 4) by (nonlinear_arith)
        requires
            120 * binom(h, 5) == h * (h - 1) * (h - 2) * (h - 3) * (h - 4),
            h >= 5,
    ;
    if h == 12 {
        lemma_colex_strict(f, 13, 4);
    } else {
        assert(within(f, h as int + 1));
        lemma_colex_bound(f, h + 1);
        lemma_binom_mono(h + 1, 12, 5);
    }
}

proof fn lemma_colex_small(a: int, b: int, c: int)
    ensures
        colex(seq![a, b]) == binom(a as nat, 2) + binom(b as nat, 1),
        colex(seq![a, b, c]) == binom(a as nat, 3) + binom(b as nat, 2) + binom(c as nat, 1),
{
    assert(seq![a, b].drop_first() =~= seq![b]);
    assert(seq![b].drop_first() =~= Seq::<int>::empty());
    assert(seq![a, b, c].drop_first() =~= seq![b, c]);
    assert(seq![b, c].drop_first() =~= seq![c]);
    assert(seq![c].drop_first() =~= Seq::<int>::empty());
    assert(colex(Seq::<int>::empty()) == 0);
    assert(colex(seq![b]) == binom(b as nat, 1) + colex(seq![b].drop_first()));
    assert(colex(seq![c]) == binom(c as nat, 1) + colex(seq![c].drop_first()));
    assert(colex(seq![a, b]) == binom(a as nat, 2) + colex(seq![a, b].drop_first()));
    assert(colex(seq![b, c]) == binom(b as nat, 2) + colex(seq![b, c].drop_first()));
    assert(colex(seq![a, b, c]) == binom(a as nat, 3) + colex(seq![a, b, c].drop_first()));
}

/// Every five-card rank lies in `1..=7462`, or is `NO_HAND`.
pub proof fn lemma_rank5_range(q: Seq<u8>, flush: bool)
    requires
        q.len() == 13,
    ensures
        1 <= rank5(q, flush) <= NO_HAND,
        pattern_ok(q, flush) ==> rank5(q, flush) <= 7462,
        flush ==> rank5(q, flush) <= 1599 || rank5(q, flush) == NO_HAND,
        !flush && !quads_or_full(q) ==> rank5(q, flush) >= 1600,
{
    lemma_ranks_with(q, 4, 0);
    lemma_ranks_with(q, 3, 0);
    lemma_ranks_with(q, 2, 0);
    lemma_ranks_with(q, 1, 0);
    let quads = ranks_with(q, 4, 0);
    let trips = ranks_with(q, 3, 0);
    let pairs = ranks_with(q, 2, 0);
    let singles = ranks_with(q, 1, 0);
    lemma_binom_closed(12);
    lemma_binom_closed(13);
    if singles.len() == 5 && straight_top(singles) < 0 {
        lemma_no_straight_index(singles);
    }
    if trips.len() == 1 && singles.len() == 2 {
        let a = trips[0] as int;
        let t = seq![shift(singles[0] as int, a), shift(singles[1] as int, a)];
        assert(strictly_desc(t));
        assert(within(t, 12));
        lemma_colex_bound(t, 12);
    }
    if pairs.len() == 2 {
        let t = seq![pairs[0] as int, pairs[1] as int];
        assert(strictly_desc(t));
        assert(within(t, 13));
        lemma_colex_bound(t, 13);
    }
    if pairs.len() == 1 && singles.len() == 3 {
        let a = pairs[0] as int;
        let t = seq![
            shift(singles[0] as int, a),
            shift(singles[1] as int, a),
            shift(singles[2] as int, a),
        ];
        assert(strictly_desc(t));
        assert(within(t, 12));
        lemma_colex_bound(t, 12);
    }
    if quads.len() == 1 {
        let a = quads[0] as int;
        assert(0 <= (12 - a) * 12 <= 144) by (nonlinear_arith)
            requires
                0 <= a < 13,
        ;
    }
    if trips.len() == 1 {
        let a = trips[0] as int;
        assert(0 <= (12 - a) * 12 <= 144) by (nonlinear_arith)
            requires
                0 <= a < 13,
        ;
        assert(0 <= (12 - a) * 66 <= 792) by (nonlinear_arith)
            requires
                0 <= a < 13,
        ;
    }
    if pairs.len() >= 1 {
        let a = pairs[0] as int;
        assert(0 <= (12 - a) * 220 <= 2640) by (nonlinear_arith)
            requires
                0 <= a < 13,
        ;
    }
    if pairs.len() == 2 {
        let x = colex(seq![pairs[0] as int, pairs[1] as int]) as int;
        assert(0 <= (77 - x) * 11 <= 847) by (nonlinear_arith)
            requires
                0 <= x <= 77,
        ;
    }
}

proof fn lemma_colex_five(s: Seq<int>)
    requires
        s.len() == 5,
    ensures
        colex(s) == binom(s[0] as nat, 5) + binom(s[1] as nat, 4) + binom(s[2] as nat, 3)
            + binom(s[3] as nat, 2) + binom(s[4] as nat, 1),
{
    let s1 = s.drop_first();
    let s2 = s1.drop_first();
    let s3 = s2.drop_first();
    let s4 = s3.drop_first();
    let s5 = s4.drop_first();
    assert(s5.len() == 0);
    assert(colex(s5) == 0);
    assert(colex(s4) == binom(s[4] as nat, 1) + colex(s5));
    assert(colex(s3) == binom(s[3] as nat, 2) + colex(s4));
    assert(colex(s2) == binom(s[2] as nat, 3) + colex(s3));
    assert(colex(s1) == binom(s[1] as nat, 4) + colex(s2));
}

/// The ranks that occur exactly `c` times in `q`, highest first.
pub fn ranks_with_count(q: &Vec<u8>, c: u8) -> (r: Vec<u8>)
    requires
        q.len() == 13,
    ensures
        r@ == ranks_with(q@, c, 0),
{
    let mut r: Vec<u8> = Vec::new();
    let mut lo: usize = 13;
    while lo > 0
        invariant
            q.len() == 13,
            lo <= 13,
            r@ == ranks_with(q@, c, lo as int),
        decreases lo,
    {
        lo = lo - 1;
        if q[lo] == c {
            r.push(lo as u8);
        }
    }
    r
}

fn no_straight_index_of(s: &Vec<u8>) -> (r: i64)
    requires
        s.len() == 5,
        forall|i: int| 0 <= i < 5 ==> s@[i] < 13,
    ensures
        r == no_straight_index(s@),
{
    proof {
        lemma_colex_five(five(s@));
    }
    let cx = binom_small(s[0], 5) as i64 + binom_small(s[1], 4) as i64 + binom_small(s[2], 3) as i64
        + binom_small(s[3], 2) as i64 + binom_small(s[4], 1) as i64;
    let above: i64 = 13 - s[0] as i64 + if s[0] < 12 { 1 } else { 0 };
    1286 - cx - above
}

fn straight_top_of(s: &Vec<u8>) -> (t: i64)
    requires
        s.len() == 5,
    ensures
        t == straight_top(s@),
{
    if s[0] as i64 - s[4] as i64 == 4 {
        s[0] as i64
    } else if s[0] == 12 && s[1] == 3 {
        3
    } else {
        -1
    }
}

/// The rank of the five cards described by the count vector `q`.
pub fn rank_of_five(q: &Vec<u8>, flush: bool) -> (r: u16)
    requires
        q.len() == 13,
    ensures
        r as int == rank5(q@, flush),
{
    proof {
        lemma_rank5_range(q@, flush);
        lemma_ranks_with(q@, 4, 0);
        lemma_ranks_with(q@, 3, 0);
        lemma_ranks_with(q@, 2, 0);
        lemma_ranks_with(q@, 1, 0);
    }
    let quads = ranks_with_count(q, 4);
    let trips = ranks_with_count(q, 3);
    let pairs = ranks_with_count(q, 2);
    let singles = ranks_with_count(q, 1);
    let v: i64 = if flush {
        if singles.len() == 5 && quads.len() + trips.len() + pairs.len() == 0 {
            let t = straight_top_of(&singles);
            if t >= 0 {
                1 + 12 - t
            } else {
                323 + no_straight_index_of(&singles)
            }
        } else {
            NO_HAND as i64
        }
    } else if quads.len() == 1 && singles.len() == 1 && trips.len() + pairs.len() == 0 {
        let a = quads[0] as i64;
        let b = singles[0] as i64;
        11 + (12 - a) * 12 + 11 - if a < b { b - 1 } else { b }
    } else if trips.len() == 1 && pairs.len() == 1 && quads.len() + singles.len() == 0 {
        let a = trips[0] as i64;
        let b = pairs[0] as i64;
        167 + (12 - a) * 12 + 11 - if a < b { b - 1 } else { b }
    } else if trips.len() == 1 && singles.len() == 2 && quads.len() + pairs.len() == 0 {
        let a = trips[0] as i64;
        let b = singles[0];
        let c = singles[1];
        let b1 = if (a as u8) < b { b - 1 } else { b };
        let c1 = if (a as u8) < c { c - 1 } else { c };
        proof {
            lemma_colex_small(b1 as int, c1 as int, 0);
        }
        let cx = binom_small(b1, 2) as i64 + binom_small(c1, 1) as i64;
        1610 + (12 - a) * 66 + 65 - cx
    } else if pairs.len() == 2 && singles.len() == 1 && quads.len() + trips.len() == 0 {
        let a = pairs[0] as i64;
        let b = pairs[1] as i64;
        let c = singles[0] as i64;
        proof {
            lemma_colex_small(a as int, b as int, 0);
        }
        let cx = binom_small(pairs[0], 2) as i64 + binom_small(pairs[1], 1) as i64;
        2468 + (77 - cx) * 11 + 10 - (c - (if a < c { 1 } else { 0 }) - (if b < c { 1 } else { 0 }))
    } else if pairs.len() == 1 && singles.len() == 3 && quads.len() + trips.len() == 0 {
        let a = pairs[0];
        let b = singles[0];
        let c = singles[1];
        let d = singles[2];
        let b1 = if a < b { b - 1 } else { b };
        let c1 = if a < c { c - 1 } else { c };
        let d1 = if a < d { d - 1 } else { d };
        proof {
            lemma_colex_small(b1 as int, c1 as int, d1 as int);
        }
        let cx = binom_small(b1, 3) as i64 + binom_small(c1, 2) as i64 + binom_small(d1, 1) as i64;
        3326 + (12 - a as i64) * 220 + 219 - cx
    } else if singles.len() == 5 && quads.len() + trips.len() + pairs.len() == 0 {
        let t = straight_top_of(&singles);
        if t >= 0 {
            1600 + 12 - t
        } else {
            6186 + no_straight_index_of(&singles)
        }
    } else {
        NO_HAND as i64
    };
    v as u16
}

/// The best (lowest) `rank5` over every way of completing `acc` (the counts
/// already chosen for ranks `0..i`) to five cards by taking, for each rank
/// `j >= i`, at most `q[j]` cards: the best five-card hand within `q`.
pub open spec fn best_from(q: Seq<u8>, flush: bool, i: int, need: int, acc: Seq<u8>) -> int
    decreases 13 - i, 7int,
{
    if i >= 13 || i < 0 {
        if need == 0 {
            rank5(acc, flush)
        } else {
            NO_HAND as int
        }
    } else if need < 0 || need > 5 {
        NO_HAND as int
    } else {
        pick(q, flush, i, need, acc, (if (q[i] as int) < need { q[i] as int } else { need }) + 1)
    }
}

/// The best completion that takes fewer than `c` cards of rank `i`.
pub open spec fn pick(q: Seq<u8>, flush: bool, i: int, need: int, acc: Seq<u8>, c: int) -> int
    decreases 13 - i, c,
{
    if c <= 0 || c > 6 || i < 0 || i >= 13 {
        NO_HAND as int
    } else {
        let before = pick(q, flush, i, need, acc, c - 1);
        let here = best_from(q, flush, i + 1, need - (c - 1), acc.push((c - 1) as u8));
        if here < before {
            here
        } else {
            before
        }
    }
}

/// The rank of the best five-card hand made from the cards counted in `q`
/// (of one suit when `flush`); `NO_HAND` when `q` holds fewer than five.
pub open spec fn best(q: Seq<u8>, flush: bool) -> int {
    best_from(q, flush, 0, 5, seq![])
}

fn best_from_exec(q: &Vec<u8>, flush: bool, i: usize, need: u8, acc: &mut Vec<u8>) -> (r: u16)
    requires
        q.len() == 13,
        i <= 13,
        old(acc).len() == i,
        need <= 5,
    ensures
        r as int == best_from(q@, flush, i as int, need as int, old(acc)@),
        final(acc)@ == old(acc)@,
    decreases 13 - i,
{
    if i == 13 {
        if need == 0 {
            rank_of_five(acc, flush)
        } else {
            NO_HAND
        }
    } else {
        let lim = if q[i] < need {
            q[i]
        } else {
            need
        };
        let ghost start = acc@;
        let mut best: u16 = NO_HAND;
        let mut c: u8 = 0;
        while c <= lim
            invariant
                q.len() == 13,
                i < 13,
                need <= 5,
                lim <= need,
                lim as int == (if (q@[i as int] as int) < need { q@[i as int] as int } else { need as int }),
                c <= lim + 1,
                acc@ == start,
                start.len() == i,
                best as int == pick(q@, flush, i as int, need as int, start, c as int),
            decreases lim + 1 - c,
        {
            acc.push(c);
            let v = best_from_exec(q, flush, i + 1, need - c, acc);
            let _ = acc.pop();
            assert(acc@ =~= start);
            if v < best {
                best = v;
            }
            c = c + 1;
        }
        best
    }
}

/// The rank of the best five-card hand within the counts `q`.
pub fn best_rank(q: &Vec<u8>, flush: bool) -> (r: u16)
    requires
        q.len() == 13,
    ensures
        r as int == best(q@, flush),
{
    let mut acc: Vec<u8> = Vec::new();
    best_from_exec(q, flush, 0, 5, &mut acc)
}

/// Sum of the entries of `q` from index `lo` on.
pub open spec fn sum_from(q: Seq<u8>, lo: int) -> int
    decreases q.len() - lo,
{
    if lo >= q.len() || lo < 0 {
        0
    } else {
        q[lo] as int + sum_from(q, lo + 1)
    }
}

/// Sum of the first `n` entries of `q`.
pub open spec fn sum_below(q: Seq<u8>, n: int) -> int
    decreases n,
{
    if n <= 0 {
        0
    } else {
        sum_below(q, n - 1) + q[n - 1] as int
    }
}

proof fn lemma_sum_from_nonneg(q: Seq<u8>, lo: int)
    ensures
        sum_from(q, lo) >= 0,
    decreases q.len() - lo,
{
    if 0 <= lo < q.len() {
        lemma_sum_from_nonneg(q, lo + 1);
    }
}

pub proof fn lemma_sum_split(q: Seq<u8>, n: int)
    requires
        0 <= n <= q.len(),
    ensures
        sum_below(q, n) + sum_from(q, n) == sum_from(q, 0),
    decreases n,
{
    if n > 0 {
        lemma_sum_split(q, n - 1);
    }
}

proof fn lemma_pattern_sum(q: Seq<u8>, lo: int)
    requires
        q.len() == 13,
        0 <= lo <= 13,
        forall|i: int| 0 <= i < 13 ==> #[trigger] q[i] <= 4,
    ensures
        sum_from(q, lo) == 4 * ranks_with(q, 4, lo).len() + 3 * ranks_with(q, 3, lo).len() + 2
            * ranks_with(q, 2, lo).len() + ranks_with(q, 1, lo).len(),
    decreases 13 - lo,
{
    if lo < 13 {
        lemma_pattern_sum(q, lo + 1);
    }
}

/// Five cards of distinct identity always make a hand.
proof fn lemma_rank5_hand(q: Seq<u8>, flush: bool)
    requires
        q.len() == 13,
        sum_from(q, 0) == 5,
        forall|i: int| 0 <= i < 13 ==> #[trigger] q[i] <= (if flush { 1u8 } else { 4u8 }),
    ensures
        1 <= rank5(q, flush) <= 7462,
{
    lemma_pattern_sum(q, 0);
    lemma_rank5_range(q, flush);
    lemma_ranks_with(q, 4, 0);
    lemma_ranks_with(q, 3, 0);
    lemma_ranks_with(q, 2, 0);
    if flush {
        if ranks_with(q, 4, 0).len() > 0 {
            assert(q[ranks_with(q, 4, 0)[0] as int] == 4);
        }
        if ranks_with(q, 3, 0).len() > 0 {
            assert(q[ranks_with(q, 3, 0)[0] as int] == 3);
        }
        if ranks_with(q, 2, 0).len() > 0 {
            assert(q[ranks_with(q, 2, 0)[0] as int] == 2);
        }
    }
}

proof fn lemma_best_from_ge1(q: Seq<u8>, flush: bool, i: int, need: int, acc: Seq<u8>)
    requires
        acc.len() == i,
        0 <= i <= 13,
    ensures
        best_from(q, flush, i, need, acc) >= 1,
    decreases 13 - i, 7int,
{
    if i >= 13 {
        if need == 0 {
            lemma_rank5_range(acc, flush);
        }
    } else if 0 <= need <= 5 {
        lemma_pick_ge1(q, flush, i, need, acc, (if (q[i] as int) < need { q[i] as int } else { need }) + 1);
    }
}

proof fn lemma_pick_ge1(q: Seq<u8>, flush: bool, i: int, need: int, acc: Seq<u8>, c: int)
    requires
        acc.len() == i,
        0 <= i < 13,
    ensures
        pick(q, flush, i, need, acc, c) >= 1,
    decreases 13 - i, c,
{
    if 0 < c <= 6 {
        lemma_pick_ge1(q, flush, i, need, acc, c - 1);
        lemma_best_from_ge1(q, flush, i + 1, need - (c - 1), acc.push((c - 1) as u8));
    }
}

proof fn lemma_best_from_le(q: Seq<u8>, flush: bool, i: int, need: int, acc: Seq<u8>)
    requires
        q.len() == 13,
        acc.len() == i,
        0 <= i <= 13,
        0 <= need <= 5,
        sum_from(q, i) >= need,
        sum_below(acc, i) + need == 5,
        forall|j: int| 0 <= j < 13 ==> #[trigger] q[j] <= (if flush { 1u8 } else { 4u8 }),
        forall|j: int| 0 <= j < i ==> #[trigger] acc[j] <= (if flush { 1u8 } else { 4u8 }),
    ensures
        best_from(q, flush, i, need, acc) <= 7462,
    decreases 13 - i,
{
    if i == 13 {
        lemma_sum_split(acc, 13);
        lemma_rank5_hand(acc, flush);
    } else {
        let c = if (q[i] as int) < need { q[i] as int } else { need };
        let acc2 = acc.push(c as u8);
        assert(sum_from(q, i) == q[i] as int + sum_from(q, i + 1));
        lemma_sum_from_nonneg(q, i + 1);
        assert(best_from(q, flush, i, need, acc) == pick(q, flush, i, need, acc, c + 1));
        assert(pick(q, flush, i, need, acc, c + 1) <= best_from(q, flush, i + 1, need - c, acc2));
        assert(sum_below(acc2, i + 1) == sum_below(acc, i) + c) by {
            assert forall|j: int| 0 <= j <= i implies sum_below(acc2, j) == sum_below(acc, j) by {
                lemma_sum_below_prefix(acc, acc2, j);
            }
        }
        lemma_best_from_le(q, flush, i + 1, need - c, acc2);
    }
}

proof fn lemma_sum_below_prefix(a: Seq<u8>, b: Seq<u8>, n: int)
    requires
        0 <= n <= a.len(),
        n <= b.len(),
        forall|j: int| 0 <= j < n ==> a[j] == b[j],
    ensures
        sum_below(a, n) == sum_below(b, n),
    decreases n,
{
    if n > 0 {
        lemma_sum_below_prefix(a, b, n - 1);
    }
}

/// Where `q` holds five or more cards of distinct identity (at most one per
/// rank in a suit), its best hand has a rank in `1..=7462`.
pub proof fn lemma_best_in_range(q: Seq<u8>, flush: bool)
    requires
        q.len() == 13,
        sum_from(q, 0) >= 5,
        forall|j: int| 0 <= j < 13 ==> #[trigger] q[j] <= (if flush { 1u8 } else { 4u8 }),
    ensures
        1 <= best(q, flush) <= 7462,
{
    lemma_best_from_ge1(q, flush, 0, 5, seq![]);
    lemma_best_from_le(q, flush, 0, 5, seq![]);
}

proof fn lemma_best_from_none(q: Seq<u8>, flush: bool, i: int, need: int, acc: Seq<u8>)
    requires
        q.len() == 13,
        acc.len() == i,
        0 <= i <= 13,
        need > sum_from(q, i),
    ensures
        best_from(q, flush, i, need, acc) == NO_HAND,
    decreases 13 - i, 7int,
{
    if i < 13 && 0 <= need <= 5 {
        let lim = if (q[i] as int) < need { q[i] as int } else { need };
        assert(sum_from(q, i) == q[i] as int + sum_from(q, i + 1));
        lemma_sum_from_nonneg(q, i + 1);
        lemma_pick_none(q, flush, i, need, acc, lim + 1, lim + 1);
    } else if i >= 13 {
        assert(sum_from(q, i) == 0);
    }
}

/// Choices below `c`, each leaving more cards to find than remain, find none.
proof fn lemma_pick_none(q: Seq<u8>, flush: bool, i: int, need: int, acc: Seq<u8>, c: int, top: int)
    requires
        q.len() == 13,
        acc.len() == i,
        0 <= i < 13,
        0 <= need <= 5,
        c <= top,
        top >= 1 ==> need - (top - 1) > sum_from(q, i + 1),
        c <= 6,
    ensures
        pick(q, flush, i, need, acc, c) == NO_HAND,
    decreases 13 - i, c,
{
    if 0 < c <= 6 {
        lemma_pick_none(q, flush, i, need, acc, c - 1, top);
        lemma_best_from_none(q, flush, i + 1, need - (c - 1), acc.push((c - 1) as u8));
    }
}

proof fn lemma_best_from_exact(q: Seq<u8>, flush: bool, i: int, acc: Seq<u8>)
    requires
        q.len() == 13,
        acc.len() == i,
        0 <= i <= 13,
        0 <= sum_from(q, i) <= 5,
    ensures
        best_from(q, flush, i, sum_from(q, i), acc) == rank5(acc + q.subrange(i, 13), flush),
    decreases 13 - i,
{
    let need = sum_from(q, i);
    if i == 13 {
        assert(acc + q.subrange(13, 13) =~= acc);
    } else {
        assert(need == q[i] as int + sum_from(q, i + 1));
        lemma_sum_from_nonneg(q, i + 1);
        let c = q[i] as int;
        let acc2 = acc.push(q[i]);
        lemma_best_from_exact(q, flush, i + 1, acc2);
        assert(acc2 + q.subrange(i + 1, 13) =~= acc + q.subrange(i, 13));
        lemma_pick_none(q, flush, i, need, acc, c, c);
        lemma_rank5_range(acc + q.subrange(i, 13), flush);
        assert(best_from(q, flush, i, need, acc) == pick(q, flush, i, need, acc, c + 1));
    }
}

/// Within exactly five cards the best five-card hand is those five cards.
pub proof fn lemma_best_of_five(q: Seq<u8>, flush: bool)
    requires
        q.len() == 13,
        sum_from(q, 0) == 5,
    ensures
        best(q, flush) == rank5(q, flush),
{
    lemma_best_from_exact(q, flush, 0, seq![]);
    assert(seq![] + q.subrange(0, 13) =~= q);
}

/// `t` takes, from rank `i` on, no more cards of a rank than `q` holds.
pub open spec fn within_counts(t: Seq<u8>, q: Seq<u8>, i: int) -> bool {
    &&& t.len() == 13
    &&& q.len() == 13
    &&& forall|j: int| i <= j < 13 ==> #[trigger] t[j] <= q[j]
}

proof fn lemma_pick_le(q: Seq<u8>, flush: bool, i: int, need: int, acc: Seq<u8>, k: int, c: int)
    requires
        0 <= i < 13,
        0 <= c < k <= 6,
    ensures
        pick(q, flush, i, need, acc, k) <= best_from(q, flush, i + 1, need - c, acc.push(c as u8)),
    decreases k,
{
    if c < k - 1 {
        lemma_pick_le(q, flush, i, need, acc, k - 1, c);
    }
}

proof fn lemma_pick_attained(q: Seq<u8>, flush: bool, i: int, need: int, acc: Seq<u8>, k: int)
    requires
        0 <= i < 13,
        0 <= k <= 6,
        pick(q, flush, i, need, acc, k) != NO_HAND,
    ensures
        exists|c: int|
            0 <= c < k && pick(q, flush, i, need, acc, k) == #[trigger] best_from(
                q,
                flush,
                i + 1,
                need - c,
                acc.push(c as u8),
            ),
    decreases k,
{
    let here = best_from(q, flush, i + 1, need - (k - 1), acc.push((k - 1) as u8));
    if pick(q, flush, i, need, acc, k) == here {
        assert(0 <= k - 1 < k);
    } else {
        lemma_pick_attained(q, flush, i, need, acc, k - 1);
        let c = choose|c: int|
            0 <= c < k - 1 && pick(q, flush, i, need, acc, k - 1) == #[trigger] best_from(
                q,
                flush,
                i + 1,
                need - c,
                acc.push(c as u8),
            );
        assert(0 <= c < k);
    }
}

proof fn lemma_sum_from_agree(a: Seq<u8>, b: Seq<u8>, lo: int)
    requires
        a.len() == b.len(),
        forall|j: int| lo <= j < a.len() ==> a[j] == b[j],
    ensures
        sum_from(a, lo) == sum_from(b, lo),
    decreases a.len() - lo,
{
    if 0 <= lo < a.len() {
        lemma_sum_from_agree(a, b, lo + 1);
    }
}

proof fn lemma_best_from_min(q: Seq<u8>, flush: bool, i: int, need: int, acc: Seq<u8>)
    requires
        q.len() == 13,
        acc.len() == i,
        0 <= i <= 13,
        0 <= need <= 5,
    ensures
        forall|t: Seq<u8>|
            within_counts(t, q, i) && sum_from(t, i) == need ==> best_from(q, flush, i, need, acc)
                <= rank5(#[trigger] (acc + t.subrange(i, 13)), flush),
        best_from(q, flush, i, need, acc) != NO_HAND ==> exists|t: Seq<u8>|
            within_counts(t, q, i) && sum_from(t, i) == need && best_from(q, flush, i, need, acc)
                == rank5(#[trigger] (acc + t.subrange(i, 13)), flush),
    decreases 13 - i,
{
    if i == 13 {
        assert forall|t: Seq<u8>| within_counts(t, q, i) && sum_from(t, i) == need implies best_from(
            q,
            flush,
            i,
            need,
            acc,
        ) <= rank5(#[trigger] (acc + t.subrange(i, 13)), flush) by {
            assert(acc + t.subrange(13, 13) =~= acc);
        }
        if best_from(q, flush, i, need, acc) != NO_HAND {
            assert(acc + q.subrange(13, 13) =~= acc);
            assert(within_counts(q, q, 13));
        }
    } else {
        let lim = if (q[i] as int) < need { q[i] as int } else { need };
        assert(best_from(q, flush, i, need, acc) == pick(q, flush, i, need, acc, lim + 1));
        assert forall|t: Seq<u8>| within_counts(t, q, i) && sum_from(t, i) == need implies best_from(
            q,
            flush,
            i,
            need,
            acc,
        ) <= rank5(#[trigger] (acc + t.subrange(i, 13)), flush) by {
            let c = t[i] as int;
            assert(sum_from(t, i) == c + sum_from(t, i + 1));
            lemma_sum_from_nonneg(t, i + 1);
            let acc2 = acc.push(c as u8);
            lemma_best_from_min(q, flush, i + 1, need - c, acc2);
            assert(within_counts(t, q, i + 1));
            assert(acc2 + t.subrange(i + 1, 13) =~= acc + t.subrange(i, 13));
            lemma_pick_le(q, flush, i, need, acc, lim + 1, c);
        }
        if best_from(q, flush, i, need, acc) != NO_HAND {
            lemma_pick_attained(q, flush, i, need, acc, lim + 1);
            let c = choose|c: int|
                0 <= c < lim + 1 && pick(q, flush, i, need, acc, lim + 1) == #[trigger] best_from(
                    q,
                    flush,
                    i + 1,
                    need - c,
                    acc.push(c as u8),
                );
            let acc2 = acc.push(c as u8);
            lemma_best_from_min(q, flush, i + 1, need - c, acc2);
            let t2 = choose|t: Seq<u8>|
                within_counts(t, q, i + 1) && sum_from(t, i + 1) == need - c && best_from(
                    q,
                    flush,
                    i + 1,
                    need - c,
                    acc2,
                ) == rank5(#[trigger] (acc2 + t.subrange(i + 1, 13)), flush);
            let t = t2.update(i, c as u8);
            lemma_sum_from_agree(t, t2, i + 1);
            assert(sum_from(t, i) == c + sum_from(t, i + 1));
            assert(within_counts(t, q, i));
            assert(acc2 + t2.subrange(i + 1, 13) =~= acc + t.subrange(i, 13));
        }
    }
}

/// `best` is the minimum over the choices of five of the counted cards: no
/// choice ranks better, and where some choice makes a hand, one attains it.
pub proof fn lemma_best_is_min(q: Seq<u8>, flush: bool)
    requires
        q.len() == 13,
    ensures
        forall|t: Seq<u8>|
            within_counts(t, q, 0) && sum_from(t, 0) == 5 ==> best(q, flush) <= #[trigger] rank5(
                t,
                flush,
            ),
        best(q, flush) != NO_HAND ==> exists|t: Seq<u8>|
            within_counts(t, q, 0) && sum_from(t, 0) == 5 && best(q, flush) == #[trigger] rank5(
                t,
                flush,
            ),
{
    lemma_best_from_min(q, flush, 0, 5, seq![]);
    assert forall|t: Seq<u8>| t.len() == 13 implies seq![] + t.subrange(0, 13) == t by {
        assert(seq![] + t.subrange(0, 13) =~= t);
    }
    if best(q, flush) != NO_HAND {
        let t = choose|t: Seq<u8>|
            within_counts(t, q, 0) && sum_from(t, 0) == 5 && best(q, flush) == #[trigger] rank5(
                seq![] + t.subrange(0, 13),
                flush,
            );
        assert(seq![] + t.subrange(0, 13) == t);
    }
}

} // verus!
