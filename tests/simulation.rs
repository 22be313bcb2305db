use holdem_eval::card::Card;
use holdem_eval::deck::Deck;
use holdem_eval::prob::{build_working_deck, ConfigError, Trial, DEFAULT_TRIALS};
use holdem_eval::rank::HandRankClass;
use holdem_eval::tables::Tables;

fn cards(names: &[&str]) -> Vec<Card> {
    names
        .iter()
        .map(|n| Card::from_name(n.to_string()).unwrap())
        .collect()
}

#[test]
fn ace_king_suited_heads_up() {
    let t = Tables::new();
    let hole = cards(&["Ac", "Kc"]);
    let e = t.estimate(&hole, &Vec::new(), 2, 1, DEFAULT_TRIALS).unwrap();
    assert_eq!(e.played + e.spoiled, 10000);
    assert_eq!(e.spoiled, 0);
    assert_eq!(e.category_counts.iter().sum::<u64>(), e.played);
    let win = e.wins as f64 / e.played as f64 * 100.0;
    // heads-up equity of ace-king suited, ties counted as wins
    assert!(win > 61.0 && win < 73.0, "win rate {}", win);
}

#[test]
fn too_many_opponents_for_one_pack() {
    let t = Tables::new();
    let hole = cards(&["Ac", "Kc"]);
    let r = t.estimate(&hole, &Vec::new(), 30, 1, 100);
    assert_eq!(r.err(), Some(ConfigError::InsufficientDeck));
    // two packs hold enough cards
    assert!(t.estimate(&hole, &Vec::new(), 30, 2, 10).is_ok());
}

#[test]
fn full_board_has_fixed_category() {
    let t = Tables::new();
    let hole = cards(&["Ac", "Ad"]);
    let board = cards(&["Ah", "As", "2c", "7d", "9h"]);
    let e = t.estimate(&hole, &board, 1, 1, 200).unwrap();
    assert_eq!(e.played, 200);
    assert_eq!(e.category_counts[HandRankClass::FourOfAKind.index()], 200);
    assert_eq!(e.wins, 200);
}

#[test]
fn working_deck_drops_known_cards() {
    let known = cards(&["Ac", "Kc", "2d"]);
    let d = build_working_deck(1, &known);
    assert_eq!(d.len(), 49);
    assert!(d.iter().all(|c| c.id_ != 48 && c.id_ != 44 && c.id_ != 1));
    let d2 = build_working_deck(2, &known);
    assert_eq!(d2.len(), 98);
}

#[test]
fn trial_on_fixed_deck() {
    let t = Tables::new();
    let hole = cards(&["Ac", "Kc"]);
    // the top of the deck is its end: the board is Qc Jc Tc 2d 3d,
    // the opponent gets 4h 5h
    let mut deck = cards(&["9s", "5h", "4h", "3d", "2d", "Tc", "Jc", "Qc"]);
    let r = t.run_trial(&hole, &Vec::new(), 2, &deck);
    assert_eq!(r, Trial::Played(HandRankClass::StraightFlush, true));
    // two pair against an opponent's queen-high straight flush
    deck = cards(&["9s", "9c", "8c", "3d", "2d", "Tc", "Jc", "Qc"]);
    let hole2 = cards(&["2h", "3h"]);
    let r2 = t.run_trial(&hole2, &Vec::new(), 2, &deck);
    assert_eq!(r2, Trial::Played(HandRankClass::TwoPair, false));
}

#[test]
fn trial_with_repeated_card_is_spoiled() {
    let t = Tables::new();
    let hole = cards(&["Ac", "Kc"]);
    // the board draws the ace of clubs that the caller already holds
    let deck = cards(&["2d", "3d", "Qc", "Jc", "Ac"]);
    assert_eq!(t.run_trial(&hole, &Vec::new(), 1, &deck), Trial::Spoiled);
}

#[test]
fn new_deck_holds_one_pack() {
    let d = Deck::new(2);
    assert_eq!(d.cards.len(), 52);
    assert_eq!(d.pack_count, 2);
    for id in 0..52 {
        assert_eq!(d.cards[id as usize].id_, id);
    }
}

#[test]
fn shuffle_keeps_cards() {
    let mut d = Deck::new(1);
    d.shuffle_deck();
    let mut ids: Vec<i32> = d.cards.iter().map(|c| c.id_).collect();
    // a rearrangement that keeps all 52 cards in place has chance 1 / 52!
    assert_ne!(ids, (0..52).collect::<Vec<i32>>());
    ids.sort();
    assert_eq!(ids, (0..52).collect::<Vec<i32>>());
}

#[test]
fn no_opponents_always_wins() {
    let t = Tables::new();
    let e = t.estimate(&cards(&["2c", "7d"]), &Vec::new(), 1, 1, 500).unwrap();
    assert_eq!(e.played, 500);
    assert_eq!(e.wins, 500);
}

#[test]
fn royal_board_ties_count_as_wins() {
    let t = Tables::new();
    let board = cards(&["Ts", "Js", "Qs", "Ks", "As"]);
    let e = t.estimate(&cards(&["2d", "3h"]), &board, 4, 1, 300).unwrap();
    assert_eq!(e.wins, 300);
    assert_eq!(e.category_counts[HandRankClass::StraightFlush.index()], 300);
}

#[test]
fn complete_board_gives_one_category() {
    let t = Tables::new();
    let board = cards(&["Qc", "Jc", "Tc", "2d", "3h"]);
    let e = t.estimate(&cards(&["Ac", "Kc"]), &board, 2, 1, 300).unwrap();
    assert_eq!(e.category_counts[HandRankClass::StraightFlush.index()], 300);
    assert_eq!(e.category_counts.iter().sum::<u64>(), 300);
}

#[test]
fn pocket_pair_never_high_card() {
    let t = Tables::new();
    let e = t.estimate(&cards(&["Ac", "Ad"]), &Vec::new(), 2, 1, 2000).unwrap();
    assert_eq!(e.category_counts[HandRankClass::HighCard.index()], 0);
    assert_eq!(e.played, 2000);
    assert_eq!(e.spoiled, 0);
}
