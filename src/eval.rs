use vstd::prelude::*;
use crate::card::{Card, ParseError, parse_name};
use crate::hand::{
    Hand, ValidationError, all_valid, lemma_total_of_distinct, card_total, counts, distinct, ids_of, suit_bits, suit_count,
    suit_count_below,
};
use crate::score::{
    best, lemma_best_in_range, lemma_best_of_five, lemma_sum_split, rank5, sum_below, sum_from,
};
use crate::tables::{Tables, small};

verus! {

/// Why a set of cards has no rank.
#[derive(Clone, Copy, Debug, PartialEq, Eq, Structural)]
pub enum EvaluationError {
    /// The evaluator was handed a number of cards it does not take.
    WrongCardCount,
    /// The cards themselves are not a hand.
    Invalid(ValidationError),
}

/// Why a hand written as card names has no rank.
#[derive(Clone, Copy, Debug, PartialEq, Eq, Structural)]
pub enum HandTextError {
    /// A name could not be read.
    Parse(ParseError),
    /// The cards read have no rank.
    Evaluation(EvaluationError),
}

/// Whether every name reads as a card.
pub open spec fn all_parse(names: Seq<String>) -> bool {
    forall|i: int| 0 <= i < names.len() ==> (#[trigger] parse_name(names[i]@)) is Ok
}

/// The cards that the names read as.
pub open spec fn parsed(names: Seq<String>) -> Seq<Card> {
    Seq::new(names.len(), |i: int| Card { id_: parse_name(names[i]@)->Ok_0 as i32 })
}

/// The suit that holds five or more of the cards, clubs first, or -1.
pub open spec fn flush_suit(c: Set<int>) -> int {
    if suit_count(c, 0) >= 5 {
        0
    } else if suit_count(c, 1) >= 5 {
        1
    } else if suit_count(c, 2) >= 5 {
        2
    } else if suit_count(c, 3) >= 5 {
        3
    } else {
        -1
    }
}

/// The rank of a set of cards: the best flush in the suit that holds five or
/// more of them, where there is one, and otherwise the best five-card hand
/// of their ranks. For five to seven cards this is the rank of their best
/// five (`subsets::lemma_best_five_of_seven`).
pub open spec fn hand_rank(c: Set<int>) -> int {
    let f = flush_suit(c);
    if f >= 0 {
        best(suit_bits(c, f), true)
    } else {
        best(counts(c), false)
    }
}

/// What `evaluate` gives for a sequence of valid cards.
pub open spec fn evaluation(cards: Seq<Card>) -> Result<int, EvaluationError> {
    if !distinct(cards) {
        Err(EvaluationError::Invalid(ValidationError::DuplicateCard))
    } else if cards.len() < 5 {
        Err(EvaluationError::Invalid(ValidationError::TooFewCards))
    } else if cards.len() > 7 {
        Err(EvaluationError::WrongCardCount)
    } else {
        Ok(hand_rank(ids_of(cards)))
    }
}

proof fn lemma_unpack(h: u32, c0: u32, c1: u32, c2: u32, c3: u32)
    requires
        c0 <= 7,
        c1 <= 7,
        c2 <= 7,
        c3 <= 7,
        h == c0 + c1 * 8 + c2 * 64 + c3 * 512,
    ensures
        h & 7 == c0,
        (h >> 3) & 7 == c1,
        (h >> 6) & 7 == c2,
        (h >> 9) & 7 == c3,
{
    assert(h & 7 == c0 && (h >> 3) & 7 == c1 && (h >> 6) & 7 == c2 && (h >> 9) & 7 == c3)
        by (bit_vector)
        requires
            c0 <= 7,
            c1 <= 7,
            c2 <= 7,
            c3 <= 7,
            h == c0 + c1 * 8 + c2 * 64 + c3 * 512,
    ;
}

/// The flush suit of a hand of at most seven cards, read off the packed suit
/// counts in one step per suit.
fn flush_suit_of(hand: &Hand) -> (f: i32)
    requires
        hand.wf(),
        card_total(hand@) <= 7,
    ensures
        f as int == flush_suit(hand@),
{
    let h = *hand.get_suit_hash() as u32;
    proof {
        hand.lemma_wf_facts();
        let c = hand@;
        lemma_unpack(
            h,
            suit_count(c, 0) as u32,
            suit_count(c, 1) as u32,
            suit_count(c, 2) as u32,
            suit_count(c, 3) as u32,
        );
    }
    if h & 7 >= 5 {
        0
    } else if (h >> 3) & 7 >= 5 {
        1
    } else if (h >> 6) & 7 >= 5 {
        2
    } else if (h >> 9) & 7 >= 5 {
        3
    } else {
        -1
    }
}

impl Tables {
    /// The rank of a hand of five to seven cards.
    fn rank_summary(&self, hand: &Hand) -> (r: u16)
        requires
            self.wf(),
            hand.wf(),
            5 <= card_total(hand@) <= 7,
        ensures
            r as int == hand_rank(hand@),
            1 <= r <= 7462,
    {
        proof {
            lemma_hand_rank_range(hand@);
        }
        let f = flush_suit_of(hand);
        let n = *hand.size();
        proof {
            hand.lemma_wf_facts();
        }
        if f >= 0 {
            let masks = hand.get_suit_binary();
            assert(0 <= masks@[f as int] < 8192);
            self.flush_rank(masks[f as usize] as u32)
        } else {
            let quinary = hand.get_quinary();
            let mut q: Vec<u8> = Vec::new();
            let mut i: usize = 0;
            while i < 13
                invariant
                    i <= 13,
                    q@ == quinary@.subrange(0, i as int),
                    quinary@ == counts(hand@),
                    forall|r: int| 0 <= r < 13 ==> #[trigger] quinary@[r] <= 4,
                decreases 13 - i,
            {
                q.push(quinary[i]);
                i = i + 1;
                assert(q@ =~= quinary@.subrange(0, i as int));
            }
            assert(q@ =~= counts(hand@));
            assert(small(q@));
            proof {
                lemma_count_sum(hand@, 13);
                lemma_sum_split(q@, 13);
                assert(sum_from(q@, 13) == 0);
            }
            if n == 5 {
                self.count_rank(&q, false)
            } else if n == 7 {
                self.count_rank(&q, true)
            } else {
                crate::score::best_rank(&q, false)
            }
        }
    }

    /// The rank of a hand of exactly five cards.
    pub fn evaluate5(&self, hand: &Hand) -> (r: Result<u16, EvaluationError>)
        requires
            self.wf(),
            hand.wf(),
        ensures
            r == if card_total(hand@) == 5 {
                Ok::<u16, EvaluationError>(hand_rank(hand@) as u16)
            } else {
                Err::<u16, EvaluationError>(EvaluationError::WrongCardCount)
            },
            r matches Ok(v) ==> v as int == hand_rank(hand@) && 1 <= v <= 7462,
    {
        if *hand.size() != 5 {
            return Err(EvaluationError::WrongCardCount);
        }
        Ok(self.rank_summary(hand))
    }

    /// The rank of a hand of exactly seven cards, by one table lookup.
    pub fn evaluate7(&self, hand: &Hand) -> (r: Result<u16, EvaluationError>)
        requires
            self.wf(),
            hand.wf(),
        ensures
            r == if card_total(hand@) == 7 {
                Ok::<u16, EvaluationError>(hand_rank(hand@) as u16)
            } else {
                Err::<u16, EvaluationError>(EvaluationError::WrongCardCount)
            },
            r matches Ok(v) ==> v as int == hand_rank(hand@) && 1 <= v <= 7462,
    {
        if *hand.size() != 7 {
            return Err(EvaluationError::WrongCardCount);
        }
        Ok(self.rank_summary(hand))
    }

    /// The rank of a hand written as card names such as `Ah`.
    pub fn rank_of_names(&self, names: &Vec<String>) -> (r: Result<u16, HandTextError>)
        requires
            self.wf(),
        ensures
            r matches Err(HandTextError::Parse(e)) ==> exists|i: int|
                0 <= i < names.len() && parse_name(#[trigger] names@[i]@) == Err::<int, ParseError>(e),
            r matches Err(HandTextError::Evaluation(e)) ==> all_parse(names@) && evaluation(
                parsed(names@),
            ) == Err::<int, EvaluationError>(e),
            r matches Ok(v) ==> all_parse(names@) && evaluation(parsed(names@)) == Ok::<
                int,
                EvaluationError,
            >(v as int),
            r is Err && !all_parse(names@) ==> r matches Err(HandTextError::Parse(_)),
    {
        let mut cards: Vec<Card> = Vec::new();
        let mut i: usize = 0;
        while i < names.len()
            invariant
                i <= names.len(),
                cards@ == parsed(names@).take(i as int),
                forall|j: int| 0 <= j < i ==> (#[trigger] parse_name(names@[j]@)) is Ok,
                all_valid(cards@),
            decreases names.len() - i,
        {
            match Card::from_name(names[i].clone()) {
                Ok(c) => {
                    cards.push(c);
                },
                Err(e) => {
                    return Err(HandTextError::Parse(e));
                },
            }
            i = i + 1;
            assert(cards@ =~= parsed(names@).take(i as int));
        }
        assert(cards@ =~= parsed(names@));
        match self.evaluate(&cards) {
            Ok(v) => Ok(v),
            Err(e) => Err(HandTextError::Evaluation(e)),
        }
    }

    /// The rank of five to seven distinct valid cards.
    pub fn evaluate(&self, cards: &Vec<Card>) -> (r: Result<u16, EvaluationError>)
        requires
            self.wf(),
            all_valid(cards@),
        ensures
            r matches Ok(v) ==> evaluation(cards@) == Ok::<int, EvaluationError>(v as int),
            r matches Err(e) ==> evaluation(cards@) == Err::<int, EvaluationError>(e),
            r matches Ok(v) ==> 1 <= v <= 7462,
    {
        let hand = match Hand::from_cards(cards) {
            Ok(h) => h,
            Err(e) => return Err(EvaluationError::Invalid(e)),
        };
        if cards.len() < 5 {
            return Err(EvaluationError::Invalid(ValidationError::TooFewCards));
        }
        if cards.len() > 7 {
            return Err(EvaluationError::WrongCardCount);
        }
        Ok(self.rank_summary(&hand))
    }
}

/// Five cards are ranked as they stand: by their presence bits where all five
/// share a suit, else by their rank counts.
pub proof fn lemma_five_card_rank(c: Set<int>)
    requires
        card_total(c) == 5,
    ensures
        hand_rank(c) == if flush_suit(c) >= 0 {
            rank5(suit_bits(c, flush_suit(c)), true)
        } else {
            rank5(counts(c), false)
        },
{
    let f = flush_suit(c);
    crate::hand::lemma_suit_counts_nonneg(c);
    if f >= 0 {
        let q = suit_bits(c, f);
        lemma_suit_sum(c, f, 13);
        lemma_sum_split(q, 13);
        assert(sum_from(q, 13) == 0);
        lemma_best_of_five(q, true);
    } else {
        let q = counts(c);
        lemma_count_sum(c, 13);
        lemma_sum_split(q, 13);
        assert(sum_from(q, 13) == 0);
        lemma_best_of_five(q, false);
    }
}

/// Any five to seven distinct valid cards have a rank in `1..=7462`.
pub proof fn lemma_evaluation_in_range(cards: Seq<Card>)
    requires
        all_valid(cards),
        distinct(cards),
        5 <= cards.len() <= 7,
    ensures
        evaluation(cards) is Ok,
        1 <= evaluation(cards)->Ok_0 <= 7462,
{
    lemma_total_of_distinct(cards, cards.len() as int);
    lemma_hand_rank_range(ids_of(cards));
}

proof fn lemma_distinct_no_dup(a: Seq<Card>)
    ensures
        distinct(a) <==> a.no_duplicates(),
{
    if distinct(a) {
        assert forall|i: int, j: int| 0 <= i < a.len() && 0 <= j < a.len() && i != j implies a[i]
            != a[j] by {
            if i < j {
                assert(a[i].id_ != a[j].id_);
            } else {
                assert(a[j].id_ != a[i].id_);
            }
        }
    }
    if a.no_duplicates() {
        assert forall|i: int, j: int| 0 <= i < j < a.len() implies a[i].id_ != a[j].id_ by {
            assert(a[i] != a[j]);
        }
    }
}

/// Evaluating the same cards in any order gives the same result.
pub proof fn lemma_order_invariant(a: Seq<Card>, b: Seq<Card>)
    requires
        a.to_multiset() == b.to_multiset(),
    ensures
        evaluation(a) == evaluation(b),
{
    a.to_multiset_ensures();
    b.to_multiset_ensures();
    assert(a.len() == b.len());
    assert forall|c: Card| a.contains(c) <==> b.contains(c) by {
        assert(a.contains(c) <==> a.to_multiset().count(c) > 0);
        assert(b.contains(c) <==> b.to_multiset().count(c) > 0);
    }
    assert(ids_of(a) =~= ids_of(b)) by {
        assert forall|id: int| ids_of(a).contains(id) implies ids_of(b).contains(id) by {
            let j = choose|j: int| 0 <= j < a.len() && a[j].id_ == id;
            assert(a.contains(a[j]));
            let k = choose|k: int| 0 <= k < b.len() && b[k] == a[j];
            assert(b[k].id_ == id);
        }
        assert forall|id: int| ids_of(b).contains(id) implies ids_of(a).contains(id) by {
            let j = choose|j: int| 0 <= j < b.len() && b[j].id_ == id;
            assert(b.contains(b[j]));
            let k = choose|k: int| 0 <= k < a.len() && a[k] == b[j];
            assert(a[k].id_ == id);
        }
    }
    lemma_distinct_no_dup(a);
    lemma_distinct_no_dup(b);
    if a.no_duplicates() {
        a.lemma_multiset_has_no_duplicates();
        b.lemma_multiset_has_no_duplicates_conv();
    }
    if b.no_duplicates() {
        b.lemma_multiset_has_no_duplicates();
        a.lemma_multiset_has_no_duplicates_conv();
    }
}

pub(crate) proof fn lemma_suit_sum(c: Set<int>, s: int, n: int)
    requires
        0 <= n <= 13,
    ensures
        sum_below(suit_bits(c, s), n) == suit_count_below(c, s, n),
    decreases n,
{
    if n > 0 {
        lemma_suit_sum(c, s, n - 1);
    }
}

pub(crate) proof fn lemma_count_sum(c: Set<int>, n: int)
    requires
        0 <= n <= 13,
    ensures
        sum_below(counts(c), n) == suit_count_below(c, 0, n) + suit_count_below(c, 1, n)
            + suit_count_below(c, 2, n) + suit_count_below(c, 3, n),
    decreases n,
{
    if n > 0 {
        lemma_count_sum(c, n - 1);
    }
}

/// A set of five or more cards has a rank in `1..=7462`.
pub proof fn lemma_hand_rank_range(c: Set<int>)
    requires
        card_total(c) >= 5,
    ensures
        1 <= hand_rank(c) <= 7462,
{
    let f = flush_suit(c);
    if f >= 0 {
        let q = suit_bits(c, f);
        lemma_suit_sum(c, f, 13);
        lemma_sum_split(q, 13);
        assert(sum_from(q, 13) == 0);
        lemma_best_in_range(q, true);
    } else {
        let q = counts(c);
        lemma_count_sum(c, 13);
        lemma_sum_split(q, 13);
        assert(sum_from(q, 13) == 0);
        lemma_best_in_range(q, false);
    }
}

} // verus!
