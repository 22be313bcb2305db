use vstd::prelude::*;
use vstd::array::*;
use crate::card::Card;
use crate::tables::mask_bits;

verus! {

/// Why a set of cards cannot be evaluated.
#[derive(Clone, Copy, Debug, PartialEq, Eq, Structural)]
pub enum ValidationError {
    /// The same card occurs twice.
    DuplicateCard,
    /// Fewer than five cards were given.
    TooFewCards,
}

/// The card with rank `r` and suit `s` is in the set of ids `cards`.
pub open spec fn held(cards: Set<int>, r: int, s: int) -> bool {
    cards.contains(4 * r + s)
}

pub open spec fn one_if(b: bool) -> int {
    if b {
        1
    } else {
        0
    }
}

/// How many cards of rank `r` the set holds.
pub open spec fn rank_count(cards: Set<int>, r: int) -> int {
    one_if(held(cards, r, 0)) + one_if(held(cards, r, 1)) + one_if(held(cards, r, 2)) + one_if(
        held(cards, r, 3),
    )
}

/// The count vector of a set of cards: cards of each rank, Two first.
pub open spec fn counts(cards: Set<int>) -> Seq<u8> {
    Seq::new(13, |r: int| rank_count(cards, r) as u8)
}

/// The ranks present in suit `s`, as thirteen bits, Two first.
pub open spec fn suit_bits(cards: Set<int>, s: int) -> Seq<u8> {
    Seq::new(13, |r: int| one_if(held(cards, r, s)) as u8)
}

pub open spec fn suit_count_below(cards: Set<int>, s: int, n: int) -> int
    decreases n,
{
    if n <= 0 {
        0
    } else {
        suit_count_below(cards, s, n - 1) + one_if(held(cards, n - 1, s))
    }
}

/// How many cards of suit `s` the set holds.
pub open spec fn suit_count(cards: Set<int>, s: int) -> int {
    suit_count_below(cards, s, 13)
}

/// How many cards the set holds.
pub open spec fn card_total(cards: Set<int>) -> int {
    suit_count(cards, 0) + suit_count(cards, 1) + suit_count(cards, 2) + suit_count(cards, 3)
}

/// The suit counts packed three bits apiece, clubs lowest.
pub open spec fn packed_suits(cards: Set<int>) -> int {
    suit_count(cards, 0) + 8 * suit_count(cards, 1) + 64 * suit_count(cards, 2) + 512
        * suit_count(cards, 3)
}

/// The ids of the first `n` cards of a sequence.
pub open spec fn ids_upto(cards: Seq<Card>, n: int) -> Set<int> {
    Set::new(|id: int| exists|j: int| 0 <= j < n && cards[j].id_ == id)
}

/// The ids of a sequence of cards.
pub open spec fn ids_of(cards: Seq<Card>) -> Set<int> {
    ids_upto(cards, cards.len() as int)
}

/// No card occurs twice.
pub open spec fn distinct_upto(cards: Seq<Card>, n: int) -> bool {
    forall|i: int, j: int| 0 <= i < j < n ==> cards[i].id_ != cards[j].id_
}

pub open spec fn distinct(cards: Seq<Card>) -> bool {
    distinct_upto(cards, cards.len() as int)
}

pub open spec fn all_valid(cards: Seq<Card>) -> bool {
    forall|i: int| 0 <= i < cards.len() ==> (#[trigger] cards[i]).wf()
}

proof fn lemma_suit_count_insert(cards: Set<int>, r: int, s: int, t: int, n: int)
    requires
        0 <= r < 13,
        0 <= s < 4,
        0 <= t < 4,
        !cards.contains(4 * r + s),
    ensures
        suit_count_below(cards.insert(4 * r + s), t, n) == suit_count_below(cards, t, n) + one_if(
            t == s && r < n,
        ),
    decreases n,
{
    if n > 0 {
        lemma_suit_count_insert(cards, r, s, t, n - 1);
        assert(held(cards.insert(4 * r + s), n - 1, t) == (held(cards, n - 1, t) || (n - 1 == r && t
            == s)));
    }
}

pub(crate) proof fn lemma_suit_count_bound(cards: Set<int>, s: int, n: int)
    ensures
        0 <= suit_count_below(cards, s, n) <= if n < 0 { 0 } else { n },
    decreases n,
{
    if n > 0 {
        lemma_suit_count_bound(cards, s, n - 1);
    }
}

proof fn lemma_set_bit(m: u32, r: u32)
    requires
        m < 8192,
        r < 13,
    ensures
        (m | (1u32 << r)) < 8192,
        forall|i: u32|
            i < 13 ==> #[trigger] (((m | (1u32 << r)) >> i) & 1u32) == if i == r {
                1u32
            } else {
                (m >> i) & 1u32
            },
{
    assert((m | (1u32 << r)) < 8192) by (bit_vector)
        requires
            m < 8192,
            r < 13,
    ;
    assert forall|i: u32| i < 13 implies #[trigger] (((m | (1u32 << r)) >> i) & 1u32) == if i
        == r {
        1u32
    } else {
        (m >> i) & 1u32
    } by {
        assert(((m | (1u32 << r)) >> i) & 1u32 == if i == r {
            1u32
        } else {
            (m >> i) & 1u32
        }) by (bit_vector)
            requires
                r < 13,
                i < 13,
        ;
    }
}

proof fn lemma_empty_mask()
    ensures
        mask_bits(0u32) =~= Seq::new(13, |r: int| 0u8),
{
    assert forall|i: u32| i < 13 implies (0u32 >> i) & 1u32 == 0u32 by {
        assert((0u32 >> i) & 1u32 == 0u32) by (bit_vector);
    }
    assert forall|r: int| 0 <= r < 13 implies mask_bits(0u32)[r] == 0u8 by {
        assert((0u32 >> (r as u32)) & 1u32 == 0u32);
    }
}

/// The per-card summaries that the evaluator reads.
pub struct Hand {
    size_: u8,
    suit_hash: i32,
    suit_binary: [i32; 4],
    quinary_: [u8; 13],
    cards: Ghost<Set<int>>,
}

impl Hand {
    /// The set of card ids this hand was built from.
    pub closed spec fn view(&self) -> Set<int> {
        self.cards@
    }

    /// The summaries agree with the cards they were built from.
    pub closed spec fn wf(&self) -> bool {
        let c = self.cards@;
        &&& forall|id: int| c.contains(id) ==> 0 <= id < 52
        &&& self.size_ as int == card_total(c)
        &&& self.suit_hash as int == packed_suits(c)
        &&& self.quinary_@ == counts(c)
        &&& forall|s: int|
            0 <= s < 4 ==> 0 <= #[trigger] self.suit_binary@[s] < 8192 && mask_bits(
                self.suit_binary@[s] as u32,
            ) == suit_bits(c, s)
    }

    pub(crate) proof fn lemma_wf_facts(&self)
        requires
            self.wf(),
        ensures
            forall|s: int| 0 <= s < 4 ==> 0 <= #[trigger] suit_count(self@, s) <= card_total(self@),
            forall|r: int| 0 <= r < 13 ==> #[trigger] counts(self@)[r] <= 4,
    {
        lemma_suit_count_bound(self@, 0, 13);
        lemma_suit_count_bound(self@, 1, 13);
        lemma_suit_count_bound(self@, 2, 13);
        lemma_suit_count_bound(self@, 3, 13);
    }

    fn empty() -> (h: Hand)
        ensures
            h.wf(),
            h@ == Set::<int>::empty(),
            h.size_ == 0,
    {
        let h = Hand {
            size_: 0,
            suit_hash: 0,
            suit_binary: [0i32; 4],
            quinary_: [0u8; 13],
            cards: Ghost(Set::empty()),
        };
        proof {
            lemma_empty_mask();
            let c = Set::<int>::empty();
            assert(h.quinary_@ =~= counts(c));
            assert forall|s: int| 0 <= s < 4 implies suit_count_below(c, s, 13) == 0 by {
                lemma_suit_count_bound(c, s, 13);
                lemma_zero_count(c, s, 13);
            }
            assert forall|s: int| 0 <= s < 4 implies mask_bits(h.suit_binary@[s] as u32) == suit_bits(
                c,
                s,
            ) by {
                assert(mask_bits(h.suit_binary@[s] as u32) =~= suit_bits(c, s));
            }
        }
        h
    }

    /// Adds a card that the hand does not hold yet, or reports it held.
    fn add(&mut self, card: &Card) -> (added: bool)
        requires
            old(self).wf(),
            card.wf(),
        ensures
            final(self).wf(),
            added == !old(self)@.contains(card.id_ as int),
            added ==> final(self)@ == old(self)@.insert(card.id_ as int),
            added ==> final(self).size_ == old(self).size_ + 1,
            !added ==> *final(self) == *old(self),
    {
        let r = card.id_ / 4;
        let s = card.id_ % 4;
        let m = self.suit_binary[s as usize] as u32;
        let ghost c = self.cards@;
        assert(mask_bits(m)[r as int] == suit_bits(c, s as int)[r as int]);
        assert(c.contains(card.id_ as int) == held(c, r as int, s as int));
        assert(card.id_ as int == 4 * (r as int) + (s as int));
        assert((r as int) as u32 == r as u32);
        if (m >> (r as u32)) & 1u32 == 1u32 {
            return false;
        }
        let ru = r as u32;
        assert(((m >> ru) & 1u32) == 0u32) by (bit_vector)
            requires
                ((m >> ru) & 1u32) != 1u32,
        ;
        assert(mask_bits(m)[r as int] == 0u8);
        assert(!held(c, r as int, s as int));
        let ghost c2 = c.insert(card.id_ as int);
        proof {
            lemma_set_bit(m, r as u32);
            assert forall|t: int| 0 <= t < 4 implies #[trigger] suit_count(c2, t) == suit_count(c, t)
                + one_if(t == s as int) by {
                lemma_suit_count_insert(c, r as int, s as int, t, 13);
            }
            lemma_suit_count_bound(c, 0, 13);
            lemma_suit_count_bound(c, 1, 13);
            lemma_suit_count_bound(c, 2, 13);
            lemma_suit_count_bound(c, 3, 13);
            lemma_suit_count_bound(c2, 0, 13);
            lemma_suit_count_bound(c2, 1, 13);
            lemma_suit_count_bound(c2, 2, 13);
            lemma_suit_count_bound(c2, 3, 13);
        }
        let m2 = m | (1u32 << (r as u32));
        self.suit_binary[s as usize] = m2 as i32;
        let qr = self.quinary_[r as usize];
        assert(qr < 4);
        self.quinary_[r as usize] = qr + 1;
        self.size_ = self.size_ + 1;
        let add = if s == 0 {
            1i32
        } else if s == 1 {
            8i32
        } else if s == 2 {
            64i32
        } else {
            512i32
        };
        assert(self.suit_hash as int + add as int == packed_suits(c2));
        self.suit_hash = self.suit_hash + add;
        self.cards = Ghost(c2);
        proof {
            assert(self.quinary_@ =~= counts(c2));
            assert forall|t: int| 0 <= t < 4 implies 0 <= #[trigger] self.suit_binary@[t] < 8192
                && mask_bits(self.suit_binary@[t] as u32) == suit_bits(c2, t) by {
                if t == s as int {
                    assert(mask_bits(m2) =~= suit_bits(c2, t)) by {
                        assert forall|i: int| 0 <= i < 13 implies mask_bits(m2)[i] == suit_bits(
                            c2,
                            t,
                        )[i] by {
                            assert(((m2 >> (i as u32)) & 1u32) == if i as u32 == r as u32 {
                                1u32
                            } else {
                                (m >> (i as u32)) & 1u32
                            });
                            assert(mask_bits(m)[i] == suit_bits(c, t)[i]);
                        }
                    }
                } else {
                    assert(mask_bits(self.suit_binary@[t] as u32) =~= suit_bits(c2, t)) by {
                        assert(mask_bits(self.suit_binary@[t] as u32) == suit_bits(c, t));
                        assert forall|i: int| 0 <= i < 13 implies mask_bits(
                            self.suit_binary@[t] as u32,
                        )[i] == suit_bits(c2, t)[i] by {
                            assert(mask_bits(self.suit_binary@[t] as u32)[i] == suit_bits(c, t)[i]);
                        }
                    }
                }
            }
        }
        true
    }

    /// The summary of a sequence of valid cards, or `DuplicateCard` when a
    /// card occurs twice.
    pub fn from_card_vector(cards: Vec<Card>) -> (r: Result<Hand, ValidationError>)
        requires
            all_valid(cards@),
        ensures
            r matches Ok(h) ==> h.wf() && h@ == ids_of(cards@) && card_total(h@) == cards.len(),
            r is Ok <==> distinct(cards@),
            r matches Err(e) ==> e == ValidationError::DuplicateCard,
    {
        Hand::from_cards(&cards)
    }

    /// The summary of a sequence of valid cards, read in place.
    pub fn from_cards(cards: &Vec<Card>) -> (r: Result<Hand, ValidationError>)
        requires
            all_valid(cards@),
        ensures
            r matches Ok(h) ==> h.wf() && h@ == ids_of(cards@) && card_total(h@) == cards.len(),
            r is Ok <==> distinct(cards@),
            r matches Err(e) ==> e == ValidationError::DuplicateCard,
    {
        let mut h = Hand::empty();
        let mut i: usize = 0;
        assert(ids_upto(cards@, 0) =~= Set::<int>::empty());
        while i < cards.len()
            invariant
                all_valid(cards@),
                i <= cards.len(),
                h.wf(),
                h@ == ids_upto(cards@, i as int),
                h.size_ as int == i,
                distinct_upto(cards@, i as int),
            decreases cards.len() - i,
        {
            assert(cards@[i as int].wf());
            let added = h.add(&cards[i]);
            if !added {
                proof {
                    let j = choose|j: int| 0 <= j < i && cards@[j].id_ == cards@[i as int].id_;
                    assert(!distinct(cards@)) by {
                        assert(cards@[j].id_ == cards@[i as int].id_);
                    }
                }
                return Err(ValidationError::DuplicateCard);
            }
            proof {
                assert(ids_upto(cards@, i + 1) =~= ids_upto(cards@, i as int).insert(
                    cards@[i as int].id_ as int,
                ));
                assert(distinct_upto(cards@, i + 1)) by {
                    assert forall|a: int, b: int| 0 <= a < b < i + 1 implies cards@[a].id_
                        != cards@[b].id_ by {
                        if b == i {
                            assert(ids_upto(cards@, i as int).contains(cards@[a].id_ as int));
                        }
                    }
                }
            }
            i = i + 1;
        }
        Ok(h)
    }

    /// The summary of a single valid card.
    pub fn from_card(card: Card) -> (h: Hand)
        requires
            card.wf(),
        ensures
            h.wf(),
            h@ == Set::<int>::empty().insert(card.id_ as int),
            card_total(h@) == 1,
    {
        let mut h = Hand::empty();
        let _ = h.add(&card);
        h
    }

    /// The suit counts packed three bits apiece, clubs lowest.
    pub fn get_suit_hash(&self) -> (r: &i32)
        requires
            self.wf(),
        ensures
            *r as int == packed_suits(self@),
    {
        &self.suit_hash
    }

    /// The number of cards.
    pub fn size(&self) -> (r: &u8)
        requires
            self.wf(),
        ensures
            *r as int == card_total(self@),
    {
        &self.size_
    }

    /// For each suit, the ranks present as a 13-bit mask, Two lowest.
    pub fn get_suit_binary(&self) -> (r: &[i32; 4])
        requires
            self.wf(),
        ensures
            forall|s: int|
                0 <= s < 4 ==> 0 <= #[trigger] r@[s] < 8192 && mask_bits(r@[s] as u32) == suit_bits(
                    self@,
                    s,
                ),
    {
        &self.suit_binary
    }

    /// The number of cards of each rank, Two first.
    pub fn get_quinary(&self) -> (r: &[u8; 13])
        requires
            self.wf(),
        ensures
            r@ == counts(self@),
    {
        &self.quinary_
    }
}

/// Distinct valid cards count as many as there are of them.
pub proof fn lemma_total_of_distinct(cards: Seq<Card>, n: int)
    requires
        all_valid(cards),
        distinct(cards),
        0 <= n <= cards.len(),
    ensures
        card_total(ids_upto(cards, n)) == n,
    decreases n,
{
    if n == 0 {
        let c = ids_upto(cards, 0);
        assert(c =~= Set::<int>::empty());
        lemma_zero_count(c, 0, 13);
        lemma_zero_count(c, 1, 13);
        lemma_zero_count(c, 2, 13);
        lemma_zero_count(c, 3, 13);
    } else {
        lemma_total_of_distinct(cards, n - 1);
        let c = ids_upto(cards, n - 1);
        let id = cards[n - 1].id_ as int;
        assert(cards[n - 1].wf());
        let r = id / 4;
        let s = id % 4;
        assert(ids_upto(cards, n) =~= c.insert(4 * r + s));
        assert(!c.contains(4 * r + s)) by {
            if c.contains(id) {
                let j = choose|j: int| 0 <= j < n - 1 && cards[j].id_ == id;
                assert(cards[j].id_ != cards[n - 1].id_);
            }
        }
        lemma_suit_count_insert(c, r, s, 0, 13);
        lemma_suit_count_insert(c, r, s, 1, 13);
        lemma_suit_count_insert(c, r, s, 2, 13);
        lemma_suit_count_insert(c, r, s, 3, 13);
    }
}

pub proof fn lemma_suit_counts_nonneg(c: Set<int>)
    ensures
        suit_count(c, 0) >= 0,
        suit_count(c, 1) >= 0,
        suit_count(c, 2) >= 0,
        suit_count(c, 3) >= 0,
{
    lemma_suit_count_bound(c, 0, 13);
    lemma_suit_count_bound(c, 1, 13);
    lemma_suit_count_bound(c, 2, 13);
    lemma_suit_count_bound(c, 3, 13);
}

proof fn lemma_zero_count(c: Set<int>, s: int, n: int)
    requires
        c == Set::<int>::empty(),
    ensures
        suit_count_below(c, s, n) == 0,
    decreases n,
{
    if n > 0 {
        lemma_zero_count(c, s, n - 1);
    }
}

} // verus!
