use blackjack::card::{Card, Deck, Hand, HandResult};
use blackjack::round::{play_hand, settle, Event, Move, Round};

/// A shoe that deals `order` first to last.
fn shoe(order: &[Card]) -> Deck {
    let mut v: Vec<Card> = order.to_vec();
    v.reverse();
    Deck::from_cards(v)
}

#[test]
fn deal_alternates_player_and_dealer() {
    let mut d = shoe(&[Card::Two, Card::Three, Card::Four, Card::Five]);
    let r = Round::deal(&mut d, 10);
    assert_eq!(r.current_hand().to_string(false), "2 4 ");
    assert_eq!(r.dealer_hand().to_string(false), "3 5 ");
    assert_eq!(r.wager(), 10);
    assert_eq!(r.hand_count(), 0);
    assert!(!r.player_done());
}

#[test]
fn player_blackjack_pays_one_and_a_half() {
    let mut d = shoe(&[Card::Ace, Card::Nine, Card::King, Card::Five]);
    let r = Round::deal(&mut d, 10);
    assert_eq!(r.blackjack_check(), Some(15));
    let mut d = shoe(&[Card::Ace, Card::Nine, Card::King, Card::Five]);
    let r = Round::deal(&mut d, 5);
    assert_eq!(r.blackjack_check(), Some(7));
}

#[test]
fn dealer_blackjack_loses_wager() {
    let mut d = shoe(&[Card::Ten, Card::Ace, Card::Nine, Card::Queen]);
    let r = Round::deal(&mut d, 10);
    assert_eq!(r.blackjack_check(), Some(-10));
}

#[test]
fn both_blackjack_pays_player() {
    let mut d = shoe(&[Card::Ace, Card::Ace, Card::King, Card::Queen]);
    let r = Round::deal(&mut d, 4);
    assert_eq!(r.blackjack_check(), Some(6));
}

#[test]
fn no_blackjack_goes_on() {
    let mut d = shoe(&[Card::Ten, Card::Ten, Card::Seven, Card::Six]);
    let r = Round::deal(&mut d, 4);
    assert_eq!(r.blackjack_check(), None);
}

#[test]
fn stand_on_17_against_dealer_bust() {
    let mut d = shoe(&[Card::Ten, Card::Ten, Card::Seven, Card::Six, Card::King]);
    let mut r = Round::deal(&mut d, 10);
    assert_eq!(r.blackjack_check(), None);
    assert_eq!(r.play(&mut d, Move::Stand), Event::Finished);
    assert!(r.player_done());
    assert_eq!(r.finish(&mut d), 10);
    assert_eq!(r.dealer_hand().to_string(false), "10 6 K ");
}

#[test]
fn split_sevens_play_two_hands() {
    let mut d = shoe(&[
        Card::Seven,
        Card::Ten,
        Card::Seven,
        Card::Nine,
        Card::Ten,
        Card::Ten,
    ]);
    let mut r = Round::deal(&mut d, 10);
    assert_eq!(r.blackjack_check(), None);
    assert_eq!(r.play(&mut d, Move::Split), Event::Split);
    assert_eq!(r.current_hand().to_string(false), "7 ");
    assert_eq!(r.play(&mut d, Move::Hit), Event::Continue);
    assert_eq!(r.current_hand().to_string(false), "7 10 ");
    assert_eq!(r.play(&mut d, Move::Stand), Event::Finished);
    assert_eq!(r.current_hand().to_string(false), "7 ");
    assert_eq!(r.play(&mut d, Move::Hit), Event::Continue);
    assert_eq!(r.play(&mut d, Move::Stand), Event::Finished);
    assert!(r.player_done());
    assert_eq!(r.hand_count(), 2);
    assert_eq!(r.finish(&mut d), -20);
}

#[test]
fn double_down_to_21_is_no_blackjack() {
    let mut d = shoe(&[Card::Five, Card::Ten, Card::Six, Card::Eight, Card::King]);
    let mut r = Round::deal(&mut d, 10);
    assert_eq!(r.blackjack_check(), None);
    assert_eq!(r.play(&mut d, Move::DoubleDown), Event::Finished);
    assert_eq!(r.finish(&mut d), 20);
}

#[test]
fn double_down_result_holds_21() {
    let mut d = shoe(&[Card::King]);
    let mut h = Hand::new();
    h.add_card(Card::Five);
    h.add_card(Card::Six);
    match play_hand(&mut d, &mut h, Move::DoubleDown) {
        Some(HandResult::DoubleDown(p)) => assert_eq!(p.calculate_best_value(), 21),
        _ => panic!("expected a double down"),
    }
    assert_eq!(h.to_string(false), "5 6 K ");
}

#[test]
fn invalid_split_changes_nothing() {
    let mut d = shoe(&[Card::Eight, Card::Ten, Card::Nine, Card::Ten]);
    let mut r = Round::deal(&mut d, 10);
    assert_eq!(r.play(&mut d, Move::Split), Event::InvalidSplit);
    assert_eq!(r.current_hand().to_string(false), "8 9 ");
    assert_eq!(d.size(), 0);
}

#[test]
fn hit_to_bust_loses_one_unit() {
    let mut d = shoe(&[Card::Ten, Card::Ten, Card::Six, Card::Eight, Card::King]);
    let mut r = Round::deal(&mut d, 3);
    assert_eq!(r.play(&mut d, Move::Hit), Event::Bust);
    assert!(r.player_done());
    assert_eq!(r.finish(&mut d), -3);
}

#[test]
fn busted_double_down_loses_one_unit() {
    let mut d = shoe(&[Card::Ten, Card::Ten, Card::Six, Card::Eight, Card::King]);
    let mut r = Round::deal(&mut d, 3);
    assert_eq!(r.play(&mut d, Move::DoubleDown), Event::Bust);
    assert_eq!(r.finish(&mut d), -3);
}

#[test]
fn push_changes_nothing() {
    let mut d = shoe(&[Card::Ten, Card::Ten, Card::Eight, Card::Eight]);
    let mut r = Round::deal(&mut d, 7);
    assert_eq!(r.play(&mut d, Move::Stand), Event::Finished);
    assert_eq!(r.finish(&mut d), 0);
}

#[test]
fn dealer_hits_soft_17_and_stands_on_hard_17() {
    let mut d = shoe(&[Card::Ten, Card::Ace, Card::Nine, Card::Six, Card::Two]);
    let mut r = Round::deal(&mut d, 1);
    assert_eq!(r.play(&mut d, Move::Stand), Event::Finished);
    assert_eq!(r.finish(&mut d), 0);
    assert_eq!(r.dealer_hand().to_string(false), "A 6 2 ");

    let mut d = shoe(&[Card::Ten, Card::Ten, Card::Nine, Card::Seven, Card::Two]);
    let mut r = Round::deal(&mut d, 1);
    assert_eq!(r.play(&mut d, Move::Stand), Event::Finished);
    assert_eq!(r.finish(&mut d), 1);
    assert_eq!(r.dealer_hand().to_string(false), "10 7 ");
}

#[test]
fn settle_sums_units_times_wager() {
    let results = vec![
        HandResult::Bust,
        HandResult::Points(blackjack::card::Points::new1(20)),
        HandResult::DoubleDown(blackjack::card::Points::new1(19)),
    ];
    assert_eq!(settle(&results, 18, 5), 10);
    assert_eq!(settle(&results, 22, 5), 10);
    assert_eq!(settle(&Vec::new(), 18, 5), 0);
}
