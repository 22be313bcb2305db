use vstd::prelude::*;
use rand::seq::SliceRandom;
use crate::card::Card;

verus! {

/// `packs` full packs of 52 cards, each pack in id order.
pub open spec fn full_packs(packs: int) -> Seq<Card> {
    Seq::new((52 * packs) as nat, |i: int| Card { id_: (i % 52) as i32 })
}

/// Relies on rand's `SliceRandom::shuffle`, driven by the thread-local
/// generator: it only swaps elements, so the cards come back rearranged.
#[verifier::external_body]
pub(crate) fn shuffle_cards(cards: &mut Vec<Card>)
    ensures
        final(cards)@.to_multiset() == old(cards)@.to_multiset(),
        final(cards)@.len() == old(cards)@.len(),
{
    cards.shuffle(&mut rand::thread_rng());
}

/// A pack of cards, with the number of packs a game was set up with.
pub struct Deck {
    pub cards: Vec<Card>,
    pub pack_count: u8,
}

impl Deck {
    /// Puts the cards in a uniformly random order.
    pub fn shuffle_deck(&mut self)
        ensures
            final(self).cards@.to_multiset() == old(self).cards@.to_multiset(),
            final(self).cards@.len() == old(self).cards@.len(),
            final(self).pack_count == old(self).pack_count,
    {
        shuffle_cards(&mut self.cards);
    }

    /// One unshuffled pack of 52 cards, in id order; `pack_count` is only
    /// recorded.
    pub fn new(pack_count: u8) -> (d: Deck)
        ensures
            d.cards@ == full_packs(1),
            d.pack_count == pack_count,
    {
        let mut cards: Vec<Card> = Vec::new();
        let mut i: usize = 0;
        while i < 52
            invariant
                i <= 52,
                cards@ == full_packs(1).take(i as int),
            decreases 52 - i,
        {
            cards.push(Card { id_: i as i32 });
            i = i + 1;
            assert(cards@ =~= full_packs(1).take(i as int));
        }
        assert(full_packs(1).take(52) =~= full_packs(1));
        Deck { cards, pack_count }
    }
}

} // verus!
