use holdem_eval::card::{Card, ParseError};
use holdem_eval::eval::EvaluationError;
use holdem_eval::hand::{Hand, ValidationError};
use holdem_eval::rank::{category_of, HandRank, HandRankClass};
use holdem_eval::tables::Tables;

fn cards(names: &[&str]) -> Vec<Card> {
    names
        .iter()
        .map(|n| Card::from_name(n.to_string()).unwrap())
        .collect()
}

fn ids(v: &[i32]) -> Vec<Card> {
    v.iter().map(|&i| Card::from_id(i)).collect()
}

#[test]
fn royal_flush_is_rank_one() {
    let t = Tables::new();
    let r = t.evaluate(&cards(&["Th", "Jh", "Qh", "Kh", "Ah"])).unwrap();
    assert_eq!(r, 1);
    assert_eq!(category_of(r), HandRankClass::StraightFlush);
    assert_eq!(HandRank::of_rank(r), HandRank::RoyalFlush);
}

#[test]
fn worst_hand_is_last_rank() {
    let t = Tables::new();
    let r = t.evaluate(&cards(&["7c", "5d", "4h", "3s", "2c"])).unwrap();
    assert_eq!(r, 7462);
    assert_eq!(category_of(r), HandRankClass::HighCard);
}

#[test]
fn category_boundaries() {
    let t = Tables::new();
    // five-high straight flush
    assert_eq!(t.evaluate(&cards(&["Ad", "2d", "3d", "4d", "5d"])).unwrap(), 10);
    // four aces with a king
    assert_eq!(t.evaluate(&cards(&["Ac", "Ad", "Ah", "As", "Kd"])).unwrap(), 11);
    // four twos with a three
    assert_eq!(t.evaluate(&cards(&["2c", "2d", "2h", "2s", "3d"])).unwrap(), 166);
    // aces full of kings
    assert_eq!(t.evaluate(&cards(&["Ac", "Ad", "Ah", "Ks", "Kd"])).unwrap(), 167);
    // twos full of threes
    assert_eq!(t.evaluate(&cards(&["2c", "2d", "2h", "3s", "3d"])).unwrap(), 322);
    // ace-high flush AKQJ9
    assert_eq!(t.evaluate(&cards(&["Ac", "Kc", "Qc", "Jc", "9c"])).unwrap(), 323);
    // worst flush 75432
    assert_eq!(t.evaluate(&cards(&["7c", "5c", "4c", "3c", "2c"])).unwrap(), 1599);
    // ace-high straight
    assert_eq!(t.evaluate(&cards(&["Ac", "Kd", "Qc", "Jc", "Tc"])).unwrap(), 1600);
    // five-high straight
    assert_eq!(t.evaluate(&cards(&["Ac", "2d", "3c", "4c", "5c"])).unwrap(), 1609);
    // three aces, king, queen
    assert_eq!(t.evaluate(&cards(&["Ac", "Ad", "Ah", "Kc", "Qc"])).unwrap(), 1610);
    // three twos, four, three
    assert_eq!(t.evaluate(&cards(&["2c", "2d", "2h", "4c", "3c"])).unwrap(), 2467);
    // aces and kings with a queen
    assert_eq!(t.evaluate(&cards(&["Ac", "Ad", "Kh", "Kc", "Qc"])).unwrap(), 2468);
    // threes and twos with a four
    assert_eq!(t.evaluate(&cards(&["3c", "3d", "2h", "2c", "4c"])).unwrap(), 3325);
    // pair of aces, king, queen, jack
    assert_eq!(t.evaluate(&cards(&["Ac", "Ad", "Kh", "Qc", "Jc"])).unwrap(), 3326);
    // pair of twos, five, four, three
    assert_eq!(t.evaluate(&cards(&["2c", "2d", "5h", "4c", "3c"])).unwrap(), 6185);
    // ace-high AKQJ9 off-suit
    assert_eq!(t.evaluate(&cards(&["Ac", "Kd", "Qc", "Jc", "9c"])).unwrap(), 6186);
}

#[test]
fn all_five_card_hands() {
    let t = Tables::new();
    let mut counts = [0u64; 10];
    let mut lo = [u16::MAX; 10];
    let mut hi = [0u16; 10];
    let mut seen = vec![false; 7463];
    for a in 0..52 {
        for b in (a + 1)..52 {
            for c in (b + 1)..52 {
                for d in (c + 1)..52 {
                    for e in (d + 1)..52 {
                        let r = t.evaluate(&ids(&[a, b, c, d, e])).unwrap();
                        assert!(r >= 1 && r <= 7462);
                        seen[r as usize] = true;
                        let k = HandRank::of_rank(r) as usize;
                        counts[k] += 1;
                        let cat = category_of(r).index();
                        lo[cat] = lo[cat].min(r);
                        hi[cat] = hi[cat].max(r);
                    }
                }
            }
        }
    }
    assert_eq!(counts[HandRank::RoyalFlush as usize], 4);
    assert_eq!(counts[HandRank::StraightFlush as usize], 36);
    assert_eq!(counts[HandRank::FourOfAKind as usize], 624);
    assert_eq!(counts[HandRank::FullHouse as usize], 3744);
    assert_eq!(counts[HandRank::Flush as usize], 5108);
    assert_eq!(counts[HandRank::Straight as usize], 10200);
    assert_eq!(counts[HandRank::ThreeOfAKind as usize], 54912);
    assert_eq!(counts[HandRank::TwoPair as usize], 123552);
    assert_eq!(counts[HandRank::OnePair as usize], 1098240);
    assert_eq!(counts[HandRank::HighCard as usize], 1302540);
    assert_eq!(counts.iter().sum::<u64>(), 2598960);
    assert_eq!(seen.iter().filter(|&&s| s).count(), 7462);
    // a stronger category always ranks strictly below a weaker one
    for stronger in 1..9 {
        for weaker in 0..stronger {
            assert!(hi[stronger] < lo[weaker]);
        }
    }
}

fn best_of_subsets(t: &Tables, hand: &[i32]) -> u16 {
    let n = hand.len();
    let mut best = u16::MAX;
    let mut idx = [0usize; 5];
    fn rec(t: &Tables, hand: &[i32], n: usize, start: usize, depth: usize, idx: &mut [usize; 5], best: &mut u16) {
        if depth == 5 {
            let five: Vec<i32> = idx.iter().map(|&i| hand[i]).collect();
            let r = t.evaluate(&ids(&five)).unwrap();
            if r < *best {
                *best = r;
            }
            return;
        }
        for i in start..n {
            idx[depth] = i;
            rec(t, hand, n, i + 1, depth + 1, idx, best);
        }
    }
    rec(t, hand, n, 0, 0, &mut idx, &mut best);
    best
}

#[test]
fn seven_and_six_cards_match_best_subset() {
    let t = Tables::new();
    let mut state: u64 = 12345;
    for _ in 0..3000 {
        let mut hand: Vec<i32> = Vec::new();
        let size = if state % 3 == 0 { 6 } else { 7 };
        while hand.len() < size {
            state = state.wrapping_mul(6364136223846793005).wrapping_add(1442695040888963407);
            let id = ((state >> 33) % 52) as i32;
            if !hand.contains(&id) {
                hand.push(id);
            }
        }
        let r = t.evaluate(&ids(&hand)).unwrap();
        assert_eq!(r, best_of_subsets(&t, &hand), "hand {:?}", hand);
    }
}

#[test]
fn seven_card_hands_in_any_order() {
    let t = Tables::new();
    let a = cards(&["Ah", "Kh", "2c", "7d", "Qh", "Jh", "Th"]);
    let mut b = a.clone();
    b.reverse();
    let mut c = a.clone();
    c.rotate_left(3);
    let ra = t.evaluate(&a).unwrap();
    assert_eq!(ra, 1);
    assert_eq!(t.evaluate(&b).unwrap(), ra);
    assert_eq!(t.evaluate(&c).unwrap(), ra);
}

#[test]
fn evaluate_five_and_seven_by_summary() {
    let t = Tables::new();
    let five = Hand::from_card_vector(cards(&["Ac", "Ad", "Ah", "As", "Kd"])).unwrap();
    assert_eq!(t.evaluate5(&five), Ok(11));
    assert_eq!(t.evaluate7(&five), Err(EvaluationError::WrongCardCount));
    let seven =
        Hand::from_card_vector(cards(&["Ac", "Ad", "Ah", "As", "Kd", "2c", "3h"])).unwrap();
    assert_eq!(t.evaluate7(&seven), Ok(11));
    assert_eq!(t.evaluate5(&seven), Err(EvaluationError::WrongCardCount));
}

#[test]
fn evaluation_errors() {
    let t = Tables::new();
    assert_eq!(
        t.evaluate(&cards(&["Ac", "Ad", "Ac", "As", "Kd"])),
        Err(EvaluationError::Invalid(ValidationError::DuplicateCard))
    );
    assert_eq!(
        t.evaluate(&cards(&["Ac", "Ad", "Ah", "As"])),
        Err(EvaluationError::Invalid(ValidationError::TooFewCards))
    );
    assert_eq!(
        t.evaluate(&cards(&["Ac", "Ad", "Ah", "As", "Kd", "2c", "3c", "4c"])),
        Err(EvaluationError::WrongCardCount)
    );
}

#[test]
fn names_round_trip() {
    for id in 0..52 {
        let c = Card::from_id(id);
        let back = Card::from_name(c.to_name()).unwrap();
        assert_eq!(back.id_, id);
    }
    assert_eq!(Card::from_id(48).to_name(), "Ac");
    assert_eq!(Card::from_id(0).to_name(), "2c");
    assert_eq!(Card::from_id(35).to_name(), "Ts");
}

#[test]
fn parse_errors_and_case() {
    assert_eq!(Card::from_name("AH".to_string()).unwrap().id_, 50);
    assert_eq!(Card::from_name("Xh".to_string()), Err(ParseError::UnknownRank));
    assert_eq!(Card::from_name("Ax".to_string()), Err(ParseError::UnknownSuit));
    assert_eq!(Card::from_name("A".to_string()), Err(ParseError::WrongLength));
    assert_eq!(Card::from_name("Ahh".to_string()), Err(ParseError::WrongLength));
    assert_eq!(Card::from_name("ah".to_string()), Err(ParseError::UnknownRank));
}

#[test]
fn long_names() {
    assert_eq!(Card::from_id(8 * 4).to_clean_name(), "10 of Clubs");
    assert_eq!(Card::from_id(12 * 4 + 3).to_clean_name(), "Ace of Spades");
    assert_eq!(Card::from_id(10 * 4 + 2).to_clean_name(), "Queen of Hearts");
    assert_eq!(Card::from_id(1).to_clean_name(), "2 of Diamonds");
}

#[test]
fn hand_summary_fields() {
    let h = Hand::from_card_vector(cards(&["Ac", "Ad", "2c"])).unwrap();
    assert_eq!(*h.size(), 3);
    assert_eq!(*h.get_suit_hash(), 1 + 8 + 1);
    assert_eq!(h.get_suit_binary()[0], (1 << 12) | 1);
    assert_eq!(h.get_suit_binary()[1], 1 << 12);
    assert_eq!(h.get_quinary()[12], 2);
    assert_eq!(h.get_quinary()[0], 1);
    assert!(Hand::from_card_vector(cards(&["Ac", "Ac"])).is_err());
    let one = Hand::from_card(Card::from_id(7));
    assert_eq!(*one.size(), 1);
    assert_eq!(one.get_quinary()[1], 1);
    assert_eq!(*one.get_suit_hash(), 512);
}
