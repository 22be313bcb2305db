use vstd::prelude::*;

verus! {

/// The nine hand categories, weakest first.
#[derive(Clone, Copy, Debug, PartialEq, Eq, Structural, Hash, PartialOrd, Ord)]
pub enum HandRankClass {
    HighCard,
    OnePair,
    TwoPair,
    ThreeOfAKind,
    Straight,
    Flush,
    FullHouse,
    FourOfAKind,
    StraightFlush,
}

/// The categories with the royal flush told apart from other straight flushes.
#[derive(Clone, Copy, Debug, PartialEq, Eq, Structural)]
pub enum HandRank {
    HighCard,
    OnePair,
    TwoPair,
    ThreeOfAKind,
    Straight,
    Flush,
    FullHouse,
    FourOfAKind,
    StraightFlush,
    RoyalFlush,
}

/// The number of distinct ranks; rank 1 is the best hand, 7462 the worst.
pub const RANK_COUNT: u16 = 7462;

/// Strength of a category, 0 for a high card up to 8 for a straight flush.
pub open spec fn strength(c: HandRankClass) -> int {
    match c {
        HandRankClass::HighCard => 0,
        HandRankClass::OnePair => 1,
        HandRankClass::TwoPair => 2,
        HandRankClass::ThreeOfAKind => 3,
        HandRankClass::Straight => 4,
        HandRankClass::Flush => 5,
        HandRankClass::FullHouse => 6,
        HandRankClass::FourOfAKind => 7,
        HandRankClass::StraightFlush => 8,
    }
}

/// The category of the given strength.
pub open spec fn class_at(i: int) -> HandRankClass {
    if i == 0 {
        HandRankClass::HighCard
    } else if i == 1 {
        HandRankClass::OnePair
    } else if i == 2 {
        HandRankClass::TwoPair
    } else if i == 3 {
        HandRankClass::ThreeOfAKind
    } else if i == 4 {
        HandRankClass::Straight
    } else if i == 5 {
        HandRankClass::Flush
    } else if i == 6 {
        HandRankClass::FullHouse
    } else if i == 7 {
        HandRankClass::FourOfAKind
    } else {
        HandRankClass::StraightFlush
    }
}

/// The categories of strength `i` and above that occurred, strongest first,
/// with their counts.
pub open spec fn ordered_from(counts: Seq<u64>, i: int) -> Seq<(HandRankClass, u64)>
    decreases 9 - i,
{
    if i >= 9 || i < 0 {
        seq![]
    } else {
        let rest = ordered_from(counts, i + 1);
        if counts[i] > 0 {
            rest.push((class_at(i), counts[i]))
        } else {
            rest
        }
    }
}

/// The categories that occurred, strongest first, with their counts.
pub fn ordered_counts(counts: &Vec<u64>) -> (r: Vec<(HandRankClass, u64)>)
    requires
        counts.len() == 9,
    ensures
        r@ == ordered_from(counts@, 0),
{
    let mut r: Vec<(HandRankClass, u64)> = Vec::new();
    let mut i: usize = 9;
    while i > 0
        invariant
            i <= 9,
            counts.len() == 9,
            r@ == ordered_from(counts@, i as int),
        decreases i,
    {
        i = i - 1;
        if counts[i] > 0 {
            r.push((HandRankClass::from_index(i), counts[i]));
        }
    }
    r
}

/// The category of a rank: each takes a contiguous run of ranks.
pub open spec fn category(rank: int) -> HandRankClass {
    if rank <= 10 {
        HandRankClass::StraightFlush
    } else if rank <= 166 {
        HandRankClass::FourOfAKind
    } else if rank <= 322 {
        HandRankClass::FullHouse
    } else if rank <= 1599 {
        HandRankClass::Flush
    } else if rank <= 1609 {
        HandRankClass::Straight
    } else if rank <= 2467 {
        HandRankClass::ThreeOfAKind
    } else if rank <= 3325 {
        HandRankClass::TwoPair
    } else if rank <= 6185 {
        HandRankClass::OnePair
    } else {
        HandRankClass::HighCard
    }
}

/// Every hand of a stronger category has a strictly lower (better) rank than
/// every hand of a weaker one.
pub proof fn lemma_category_dominance(r1: int, r2: int)
    requires
        strength(category(r1)) > strength(category(r2)),
    ensures
        r1 < r2,
{
}

/// The best rank is a straight flush.
pub proof fn lemma_best_rank_category()
    ensures
        category(1) == HandRankClass::StraightFlush,
{
}

/// The category of a rank.
pub fn category_of(rank: u16) -> (c: HandRankClass)
    ensures
        c == category(rank as int),
{
    if rank <= 10 {
        HandRankClass::StraightFlush
    } else if rank <= 166 {
        HandRankClass::FourOfAKind
    } else if rank <= 322 {
        HandRankClass::FullHouse
    } else if rank <= 1599 {
        HandRankClass::Flush
    } else if rank <= 1609 {
        HandRankClass::Straight
    } else if rank <= 2467 {
        HandRankClass::ThreeOfAKind
    } else if rank <= 3325 {
        HandRankClass::TwoPair
    } else if rank <= 6185 {
        HandRankClass::OnePair
    } else {
        HandRankClass::HighCard
    }
}

impl HandRankClass {
    /// Strength of the category, 0 for a high card up to 8.
    pub fn index(&self) -> (i: usize)
        ensures
            i as int == strength(*self),
    {
        match self {
            HandRankClass::HighCard => 0,
            HandRankClass::OnePair => 1,
            HandRankClass::TwoPair => 2,
            HandRankClass::ThreeOfAKind => 3,
            HandRankClass::Straight => 4,
            HandRankClass::Flush => 5,
            HandRankClass::FullHouse => 6,
            HandRankClass::FourOfAKind => 7,
            HandRankClass::StraightFlush => 8,
        }
    }

    /// The category of the given strength.
    pub fn from_index(i: usize) -> (c: HandRankClass)
        requires
            i < 9,
        ensures
            strength(c) == i,
            c == class_at(i as int),
    {
        match i {
            0 => HandRankClass::HighCard,
            1 => HandRankClass::OnePair,
            2 => HandRankClass::TwoPair,
            3 => HandRankClass::ThreeOfAKind,
            4 => HandRankClass::Straight,
            5 => HandRankClass::Flush,
            6 => HandRankClass::FullHouse,
            7 => HandRankClass::FourOfAKind,
            _ => HandRankClass::StraightFlush,
        }
    }

    /// The display name of the category.
    pub fn describe(&self) -> (s: &'static str)
        ensures
            s@ == class_name(*self),
    {
        proof {
            reveal_strlit("High Card");
            reveal_strlit("One Pair");
            reveal_strlit("Two Pair");
            reveal_strlit("Three of a Kind");
            reveal_strlit("Straight");
            reveal_strlit("Flush");
            reveal_strlit("Full House");
            reveal_strlit("Four of a Kind");
            reveal_strlit("Straight Flush");
        }
        match self {
            HandRankClass::HighCard => "High Card",
            HandRankClass::OnePair => "One Pair",
            HandRankClass::TwoPair => "Two Pair",
            HandRankClass::ThreeOfAKind => "Three of a Kind",
            HandRankClass::Straight => "Straight",
            HandRankClass::Flush => "Flush",
            HandRankClass::FullHouse => "Full House",
            HandRankClass::FourOfAKind => "Four of a Kind",
            HandRankClass::StraightFlush => "Straight Flush",
        }
    }
}

pub open spec fn class_name(c: HandRankClass) -> Seq<char> {
    match c {
        HandRankClass::HighCard => "High Card"@,
        HandRankClass::OnePair => "One Pair"@,
        HandRankClass::TwoPair => "Two Pair"@,
        HandRankClass::ThreeOfAKind => "Three of a Kind"@,
        HandRankClass::Straight => "Straight"@,
        HandRankClass::Flush => "Flush"@,
        HandRankClass::FullHouse => "Full House"@,
        HandRankClass::FourOfAKind => "Four of a Kind"@,
        HandRankClass::StraightFlush => "Straight Flush"@,
    }
}

impl HandRank {
    /// The category of a rank, with rank 1 (ace-high straight flush) the
    /// royal flush.
    pub fn of_rank(rank: u16) -> (h: HandRank)
        ensures
            rank == 1 ==> h == HandRank::RoyalFlush,
            rank != 1 ==> h == HandRank::of_class(category(rank as int)),
    {
        if rank == 1 {
            return HandRank::RoyalFlush;
        }
        match category_of(rank) {
            HandRankClass::HighCard => HandRank::HighCard,
            HandRankClass::OnePair => HandRank::OnePair,
            HandRankClass::TwoPair => HandRank::TwoPair,
            HandRankClass::ThreeOfAKind => HandRank::ThreeOfAKind,
            HandRankClass::Straight => HandRank::Straight,
            HandRankClass::Flush => HandRank::Flush,
            HandRankClass::FullHouse => HandRank::FullHouse,
            HandRankClass::FourOfAKind => HandRank::FourOfAKind,
            HandRankClass::StraightFlush => HandRank::StraightFlush,
        }
    }

    pub open spec fn of_class(c: HandRankClass) -> HandRank {
        match c {
            HandRankClass::HighCard => HandRank::HighCard,
            HandRankClass::OnePair => HandRank::OnePair,
            HandRankClass::TwoPair => HandRank::TwoPair,
            HandRankClass::ThreeOfAKind => HandRank::ThreeOfAKind,
            HandRankClass::Straight => HandRank::Straight,
            HandRankClass::Flush => HandRank::Flush,
            HandRankClass::FullHouse => HandRank::FullHouse,
            HandRankClass::FourOfAKind => HandRank::FourOfAKind,
            HandRankClass::StraightFlush => HandRank::StraightFlush,
        }
    }
}

} // verus!
