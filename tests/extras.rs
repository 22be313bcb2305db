use holdem_eval::card::{Card, ParseError};
use holdem_eval::danger::{spot_rf, threatening_cards};
use holdem_eval::eval::{EvaluationError, HandTextError};
use holdem_eval::player::DecisionType;
use holdem_eval::rank::{category_of, ordered_counts, HandRankClass};
use holdem_eval::tables::Tables;

fn cards(names: &[&str]) -> Vec<Card> {
    names
        .iter()
        .map(|n| Card::from_name(n.to_string()).unwrap())
        .collect()
}

fn names(v: &[&str]) -> Vec<String> {
    v.iter().map(|s| s.to_string()).collect()
}

#[test]
fn suited_run_with_three_high_cards_is_flagged() {
    let found = spot_rf(cards(&["Ah", "Kh", "Qh", "2h", "3c"]));
    let ids: Vec<i32> = found.iter().map(|c| c.id_).collect();
    let want: Vec<i32> = cards(&["Ah", "Kh", "Qh", "2h"]).iter().map(|c| c.id_).collect();
    assert_eq!(ids, want);
}

#[test]
fn broken_runs_are_not_flagged() {
    assert!(spot_rf(cards(&["Ah", "Kh", "2c", "Qh"])).is_empty());
    // four high cards in the run: not exactly three
    assert!(spot_rf(cards(&["Ah", "Kh", "Qh", "Jh"])).is_empty());
    // two cards only
    assert!(spot_rf(cards(&["Ah", "Kh"])).is_empty());
}

#[test]
fn threatening_runs_given_directly() {
    let runs = vec![cards(&["Tc", "Jc", "Qc"]), cards(&["2d"]), cards(&["Ks", "As", "3s"])];
    assert_eq!(threatening_cards(&runs).len(), 3);
}

#[test]
fn categories_strongest_first() {
    let counts = vec![5, 0, 3, 0, 0, 1, 0, 0, 2];
    let ordered = ordered_counts(&counts);
    assert_eq!(
        ordered,
        vec![
            (HandRankClass::StraightFlush, 2),
            (HandRankClass::Flush, 1),
            (HandRankClass::TwoPair, 3),
            (HandRankClass::HighCard, 5),
        ]
    );
}

#[test]
fn cards_by_list_number() {
    assert_eq!(Card::by_number(1).unwrap().to_name(), "2c");
    assert_eq!(Card::by_number(52).unwrap().to_name(), "As");
    assert_eq!(Card::by_number(2).unwrap().to_name(), "2d");
    assert!(Card::by_number(0).is_none());
    assert!(Card::by_number(53).is_none());
}

#[test]
fn rank_from_names() {
    let t = Tables::new();
    let seven = names(&["Tc", "Jc", "Qc", "Kc", "Ac", "2c", "9c"]);
    assert_eq!(t.rank_of_names(&seven), Ok(1));
    let bad = names(&["Tc", "Jc", "Qx", "Kc", "Ac"]);
    assert_eq!(t.rank_of_names(&bad), Err(HandTextError::Parse(ParseError::UnknownSuit)));
    let short = names(&["Tc", "Jc"]);
    assert!(matches!(
        t.rank_of_names(&short),
        Err(HandTextError::Evaluation(EvaluationError::Invalid(_)))
    ));
}

#[test]
fn decision_defaults_to_pending() {
    assert_eq!(DecisionType::default(), DecisionType::Pending);
    assert_eq!(DecisionType::Fold.name(), "Fold");
    assert_eq!(DecisionType::Call.name(), "Call");
}

#[test]
fn category_names_and_indices() {
    assert_eq!(category_of(3000).describe(), "Two Pair");
    assert_eq!(category_of(1605).describe(), "Straight");
    for i in 0..9 {
        assert_eq!(HandRankClass::from_index(i).index(), i);
    }
    assert!(HandRankClass::StraightFlush > HandRankClass::FourOfAKind);
}

#[test]
fn suit_numbers() {
    assert_eq!(Card::from_id(51).suit_number(), 3);
    assert_eq!(Card::from_id(4).suit_number(), 0);
    assert_eq!(Card::from_id(4).index(), 4);
    assert_eq!(Card::from_id(4).int32(), 4);
}
