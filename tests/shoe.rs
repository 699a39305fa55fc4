use blackjack::card::{Card, Deck};

#[test]
fn new_deck_has_52_per_deck() {
    assert_eq!(Deck::new(1).size(), 52);
    assert_eq!(Deck::new(6).size(), 312);
    assert!(Deck::new(0).is_empty());
    assert!(!Deck::new(1).is_empty());
}

#[test]
fn new_deck_is_in_build_order() {
    let mut d = Deck::new(1);
    let mut drawn = Vec::new();
    for _ in 0..52 {
        drawn.push(d.draw_card());
    }
    assert!(drawn[0..4].iter().all(|c| *c == Card::King));
    assert!(drawn[48..52].iter().all(|c| *c == Card::Ace));
    assert_eq!(drawn[4], Card::Queen);
}

#[test]
fn draws_past_the_shoe_size_reshuffle() {
    let mut d = Deck::new(1);
    for i in 0..52 {
        d.draw_card();
        assert_eq!(d.size(), 51 - i);
    }
    assert_eq!(d.size(), 0);
    assert!(!d.is_empty());
    d.draw_card();
    assert_eq!(d.size(), 51);
    for _ in 0..200 {
        d.draw_card();
    }
    assert!(!d.is_empty());
}

#[test]
fn drawing_keeps_every_card() {
    let mut d = Deck::new(2);
    let mut counts = [0usize; 13];
    for _ in 0..(104 * 3 + 1) {
        let c = d.draw_card();
        counts[c as usize] += 1;
    }
    // after a full pass of the first 104 draws, each rank came 8 times
    let mut d2 = Deck::new(2);
    let mut first = [0usize; 13];
    for _ in 0..104 {
        first[d2.draw_card() as usize] += 1;
    }
    assert!(first.iter().all(|n| *n == 8));
    assert_eq!(counts.iter().sum::<usize>(), 313);
}

#[test]
fn restack_moves_discards_back() {
    let mut d = Deck::from_cards(vec![Card::Two, Card::Three, Card::Four]);
    assert_eq!(d.draw_card(), Card::Four);
    assert_eq!(d.draw_card(), Card::Three);
    assert_eq!(d.size(), 1);
    d.restack();
    assert_eq!(d.size(), 3);
    assert_eq!(d.draw_card(), Card::Three);
}

#[test]
fn empty_draw_pile_refills_from_discards() {
    let mut d = Deck::from_cards(vec![Card::Nine]);
    assert_eq!(d.draw_card(), Card::Nine);
    assert_eq!(d.size(), 0);
    assert_eq!(d.draw_card(), Card::Nine);
    assert_eq!(d.size(), 0);
}

#[test]
fn shuffle_keeps_cards_and_reorders() {
    let mut d = Deck::new(1);
    d.shuffle();
    assert_eq!(d.size(), 52);
    let mut drawn = Vec::new();
    for _ in 0..52 {
        drawn.push(d.draw_card());
    }
    let mut counts = [0usize; 13];
    for c in &drawn {
        counts[*c as usize] += 1;
    }
    assert!(counts.iter().all(|n| *n == 4));
    let mut fresh = Deck::new(1);
    let unshuffled: Vec<Card> = (0..52).map(|_| fresh.draw_card()).collect();
    assert_ne!(drawn, unshuffled);
}
