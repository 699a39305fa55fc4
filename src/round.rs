use std::collections::VecDeque;
use vstd::prelude::*;

use crate::card::{
    all_cards, best_of, draw_step, points_of, soft_17, split_of, total, Card, Deck, Hand,
    HandResult, Outcome, Points, lemma_sum_bounds, MAX_HAND_CARDS,
};

verus! {

/// A player's decision on a hand.
#[derive(Debug, Copy, Clone, PartialEq, Eq, Structural)]
pub enum Move {
    Hit,
    Stand,
    DoubleDown,
    Split,
}

/// Whether a decision draws a card.
pub open spec fn draws(mov: Move) -> bool {
    mov is Hit || mov is DoubleDown
}

/// What one decision does to a hand whose cards were `before` and are now
/// `after`: `None` while the hand stays in play (a hit that did not bust, or
/// a split that is not allowed), else how the hand ended.
pub open spec fn hand_step(before: Seq<Card>, mov: Move, after: Seq<Card>) -> Option<Outcome> {
    match mov {
        Move::Stand => Some(Outcome::Standing(points_of(before))),
        Move::Split => match split_of(before) {
            Some(c) => Some(Outcome::SplitInto(c)),
            None => None,
        },
        Move::Hit => if best_of(points_of(after)) > 21 {
            Some(Outcome::Bust)
        } else {
            None
        },
        Move::DoubleDown => if best_of(points_of(after)) > 21 {
            Some(Outcome::Bust)
        } else {
            Some(Outcome::DoubledDown(points_of(after)))
        },
    }
}

/// The outcome a `HandResult` option stands for.
pub open spec fn outcome_of(r: Option<HandResult>) -> Option<Outcome> {
    match r {
        Some(h) => Some(h@),
        None => None,
    }
}

/// How a decision moves the hand and the shoe: a drawing decision adds the
/// card drawn from the shoe to the hand; the others touch neither.
pub open spec fn moved(
    d0: (Seq<Card>, Seq<Card>),
    d1: (Seq<Card>, Seq<Card>),
    before: Seq<Card>,
    mov: Move,
    after: Seq<Card>,
) -> bool {
    if draws(mov) {
        after.len() == before.len() + 1 && after.drop_last() == before && draw_step(
            d0,
            d1,
            after.last(),
        ) && total(d1) == total(d0)
    } else {
        after == before && d1 == d0
    }
}

/// Plays one decision on a hand. Returns `None` while the hand stays in play,
/// or how the hand ended.
pub fn play_hand(deck: &mut Deck, hand: &mut Hand, mov: Move) -> (r: Option<HandResult>)
    requires
        total(old(deck)@) > 0,
        old(hand)@.len() < MAX_HAND_CARDS,
    ensures
        moved(old(deck)@, final(deck)@, old(hand)@, mov, final(hand)@),
        outcome_of(r) == hand_step(old(hand)@, mov, final(hand)@),
{
    let ghost h0 = hand@;
    match mov {
        Move::Hit => {
            let card = deck.draw_card();
            hand.add_card(card);
            assert(hand@.drop_last() =~= h0);
            let pts = hand.calculate_points(false);
            if pts.calculate_best_value() > 21 {
                Some(HandResult::Bust)
            } else {
                None
            }
        },
        Move::Stand => Some(HandResult::Points(hand.calculate_points(false))),
        Move::DoubleDown => {
            let card = deck.draw_card();
            hand.add_card(card);
            assert(hand@.drop_last() =~= h0);
            let pts = hand.calculate_points(false);
            if pts.calculate_best_value() > 21 {
                Some(HandResult::Bust)
            } else {
                Some(HandResult::DoubleDown(pts))
            }
        },
        Move::Split => match hand.split() {
            Some(card) => Some(HandResult::Split(card)),
            None => None,
        },
    }
}


/// Wager units won (positive) or lost (negative) by a hand standing on
/// `pts` against a dealer whose best total is `dealer` (over 21: a bust).
pub open spec fn compare_units(pts: (int, Option<int>), dealer: int) -> int {
    if dealer > 21 || best_of(pts) > dealer {
        1
    } else if best_of(pts) == dealer {
        0
    } else {
        -1
    }
}

/// Wager units one outcome earns against the dealer's best total: a bust
/// loses one; a stand wins, pushes or loses one; a double down the same with
/// two. A split is no final outcome and earns nothing.
pub open spec fn outcome_units(o: Outcome, dealer: int) -> int {
    match o {
        Outcome::Bust => -1,
        Outcome::Standing(p) => compare_units(p, dealer),
        Outcome::DoubledDown(p) => 2 * compare_units(p, dealer),
        Outcome::SplitInto(_) => 0,
    }
}

/// The units of all outcomes together.
pub open spec fn total_units(os: Seq<Outcome>, dealer: int) -> int
    decreases os.len(),
{
    if os.len() == 0 {
        0
    } else {
        total_units(os.drop_last(), dealer) + outcome_units(os.last(), dealer)
    }
}

/// Whether an outcome is a final one, that is not a split.
pub open spec fn is_final(o: Outcome) -> bool {
    !(o is SplitInto)
}

/// The outcomes of some results.
pub open spec fn outcomes_of(rs: Seq<HandResult>) -> Seq<Outcome> {
    rs.map_values(|r: HandResult| r@)
}

impl HandResult {
    /// Wager units this result earns against the dealer's best total.
    pub fn units(&self, dealer_value: i32) -> (r: i32)
        requires
            is_final(self@),
        ensures
            r == outcome_units(self@, dealer_value as int),
            -2 <= r <= 2,
    {
        match self {
            HandResult::Bust => -1,
            HandResult::Points(p) => compare(p, dealer_value),
            HandResult::DoubleDown(p) => 2 * compare(p, dealer_value),
            HandResult::Split(_) => 0,
        }
    }
}

fn compare(p: &Points, dealer_value: i32) -> (r: i32)
    ensures
        r == compare_units(p@, dealer_value as int),
{
    let v = p.calculate_best_value();
    if dealer_value > 21 || v > dealer_value {
        1
    } else if v == dealer_value {
        0
    } else {
        -1
    }
}

/// The credit change of a round: the units of every result against the
/// dealer's best total, times the wager on each hand.
pub fn settle(results: &Vec<HandResult>, dealer_value: i32, wager: i32) -> (r: i32)
    requires
        forall|i: int| 0 <= i < results@.len() ==> is_final(#[trigger] results@[i]@),
        0 < wager,
        2 * results@.len() * wager <= i32::MAX,
    ensures
        r == total_units(outcomes_of(results@), dealer_value as int) * wager,
{
    let ghost os = outcomes_of(results@);
    let n = results.len();
    let mut units: i32 = 0;
    let mut i: usize = 0;
    while i < n
        invariant
            n == results@.len(),
            os == outcomes_of(results@),
            i <= n,
            forall|j: int| 0 <= j < results@.len() ==> is_final(#[trigger] results@[j]@),
            2 * n * wager <= i32::MAX,
            0 < wager,
            units == total_units(os.take(i as int), dealer_value as int),
            -2 * i <= units <= 2 * i,
        decreases n - i,
    {
        proof {
            assert(os.take(i as int + 1).drop_last() =~= os.take(i as int));
        }
        let u = results[i].units(dealer_value);
        proof {
            assert(2 * n <= i32::MAX) by (nonlinear_arith)
                requires
                    2 * n * wager <= i32::MAX,
                    0 < wager,
            ;
        }
        units = units + u;
        i = i + 1;
    }
    proof {
        assert(os.take(n as int) =~= os);
        let bound: int = 2 * n * wager;
        assert(-bound <= units * wager <= bound) by (nonlinear_arith)
            requires
                -2 * n <= units <= 2 * n,
                0 < wager,
                bound == 2 * n * wager,
        ;
        assert(i32::MIN <= units * wager <= i32::MAX);
    }
    units * wager
}


/// Whether the dealer draws on these cards: a best total under 17, or a
/// soft 17.
pub open spec fn dealer_hits(cards: Seq<Card>) -> bool {
    best_of(points_of(cards)) < 17 || soft_17(points_of(cards))
}

/// The dealer's hand went from `before` to `after` by drawing exactly while
/// the dealer had to: every card was added to a hand that hits, and the final
/// hand does not.
pub open spec fn dealer_drew(before: Seq<Card>, after: Seq<Card>) -> bool {
    &&& after.len() >= before.len()
    &&& after.take(before.len() as int) == before
    &&& forall|k: int| before.len() <= k < after.len() ==> dealer_hits(#[trigger] after.take(k))
    &&& !dealer_hits(after)
}

/// A hand the dealer hits on holds at most 17 cards.
pub proof fn lemma_hitting_hand_len(cards: Seq<Card>)
    requires
        dealer_hits(cards),
    ensures
        cards.len() <= 17,
{
    lemma_sum_bounds(cards);
}

/// The dealer's turn: draws until the hand stands on a hard 17 or any total
/// of 18 or more. Returns the final totals.
pub fn dealer_play(deck: &mut Deck, dealer: &mut Hand) -> (r: Points)
    requires
        total(old(deck)@) > 0,
        old(dealer)@.len() < MAX_HAND_CARDS,
    ensures
        dealer_drew(old(dealer)@, final(dealer)@),
        r@ == points_of(final(dealer)@),
        total(final(deck)@) == total(old(deck)@),
        all_cards(final(deck)@).to_multiset()
            == all_cards(old(deck)@).to_multiset(),
        final(dealer)@.len() <= 18 || final(dealer)@ == old(dealer)@,
{
    let ghost start = dealer@;
    let ghost d0 = deck@;
    let mut pts = dealer.calculate_points(false);
    while pts.calculate_best_value() < 17 || pts.is_soft_17()
        invariant
            dealer@.len() < MAX_HAND_CARDS,
            dealer@.len() >= start.len(),
            dealer@.take(start.len() as int) == start,
            forall|k: int| start.len() <= k < dealer@.len() ==> dealer_hits(#[trigger] dealer@.take(k)),
            pts@ == points_of(dealer@),
            total(deck@) == total(d0),
            total(d0) > 0,
            all_cards(deck@).to_multiset() == all_cards(d0).to_multiset(),
            dealer@.len() <= 18 || dealer@ == start,
        decreases MAX_HAND_CARDS - dealer@.len(),
    {
        let ghost prev = dealer@;
        proof {
            lemma_hitting_hand_len(prev);
        }
        let card = deck.draw_card();
        dealer.add_card(card);
        proof {
            assert(dealer@.take(prev.len() as int) =~= prev);
            assert(dealer@.take(start.len() as int) =~= start);
            assert forall|k: int| start.len() <= k < dealer@.len() implies dealer_hits(
                #[trigger] dealer@.take(k),
            ) by {
                if k < prev.len() {
                    assert(dealer@.take(k) =~= prev.take(k));
                }
            }
        }
        pts = dealer.calculate_points(false);
    }
    proof {
        assert(dealer@.take(dealer@.len() as int) =~= dealer@);
    }
    pts
}


/// The largest wager whose blackjack payout, one and a half times it,
/// still fits an `i32`.
pub const MAX_WAGER: i32 = 1_431_655_765;

/// The credit change when the round ends right after the deal: the dealer's
/// blackjack (the player's hand is not 21) loses the wager; else the player's
/// blackjack pays one and a half times it, rounded down; else the round goes on.
pub open spec fn opening(player: Seq<Card>, dealer: Seq<Card>, wager: int) -> Option<int> {
    if best_of(points_of(dealer)) == 21 && best_of(points_of(player)) != 21 {
        Some(-wager)
    } else if best_of(points_of(player)) == 21 {
        Some((3 * wager) / 2)
    } else {
        None
    }
}

/// The `i`-th card from the top of a shoe's draw pile.
pub open spec fn top(d: (Seq<Card>, Seq<Card>), i: int) -> Card {
    d.0[d.0.len() - 1 - i]
}

/// The worklist and the results after a hand at the front of `pending` was
/// played to `after` with result `o`: a hand still in play stays at the front;
/// a split hand leaves, and two hands of one card of its rank join the back;
/// any other hand leaves and its outcome joins the results.
pub open spec fn queue_step(
    pending: Seq<Seq<Card>>,
    outs: Seq<Outcome>,
    o: Option<Outcome>,
    after: Seq<Card>,
) -> (Seq<Seq<Card>>, Seq<Outcome>) {
    match o {
        None => (pending.update(0, after), outs),
        Some(Outcome::SplitInto(c)) => (pending.drop_first() + seq![seq![c], seq![c]], outs),
        Some(x) => (pending.drop_first(), outs.push(x)),
    }
}

/// What a decision led to, for the caller to report.
#[derive(Debug, Copy, Clone, PartialEq, Eq, Structural)]
pub enum Event {
    /// The hand is still in play.
    Continue,
    /// A split was asked for on a hand that is not a pair; nothing changed.
    InvalidSplit,
    /// The hand went over 21.
    Bust,
    /// The hand was split into two new hands.
    Split,
    /// The hand ended by a stand or a double down.
    Finished,
}

pub open spec fn event_of(mov: Move, o: Option<Outcome>) -> Event {
    match o {
        None => if mov is Split {
            Event::InvalidSplit
        } else {
            Event::Continue
        },
        Some(Outcome::Bust) => Event::Bust,
        Some(Outcome::SplitInto(_)) => Event::Split,
        Some(_) => Event::Finished,
    }
}

/// One round: the dealer's hand, the player's hands waiting to be played
/// (first in, first out), the outcomes of those already played, and the
/// wager on each hand.
pub struct Round {
    dealer: Hand,
    hands: VecDeque<Hand>,
    results: Vec<HandResult>,
    wager: i32,
}

impl Round {
    pub closed spec fn pending(&self) -> Seq<Seq<Card>> {
        self.hands@.map_values(|h: Hand| h@)
    }

    pub closed spec fn outcomes(&self) -> Seq<Outcome> {
        outcomes_of(self.results@)
    }

    pub closed spec fn dealer_cards(&self) -> Seq<Card> {
        self.dealer@
    }

    pub closed spec fn wager_spec(&self) -> int {
        self.wager as int
    }

    /// Hands waiting to be played are not bust and so hold at most 21
    /// cards; outcomes are final; the dealer's hand is short; the wager is
    /// positive and its payouts fit an `i32`.
    pub open spec fn wf(&self) -> bool {
        &&& forall|i: int| 0 <= i < self.pending().len() ==> #[trigger] self.pending()[i].len() <= 21
        &&& forall|i: int| 0 <= i < self.outcomes().len() ==> is_final(#[trigger] self.outcomes()[i])
        &&& self.dealer_cards().len() <= 18
        &&& 0 < self.wager_spec() <= MAX_WAGER
    }

    /// Deals two cards to the player and two to the dealer, in turn, the
    /// player first.
    pub fn deal(deck: &mut Deck, wager: i32) -> (r: Round)
        requires
            total(old(deck)@) > 0,
            0 < wager <= MAX_WAGER,
        ensures
            r.wf(),
            r.pending().len() == 1,
            r.pending()[0].len() == 2,
            r.dealer_cards().len() == 2,
            r.outcomes() == Seq::<Outcome>::empty(),
            r.wager_spec() == wager,
            total(final(deck)@) == total(old(deck)@),
            all_cards(final(deck)@).to_multiset()
                == all_cards(old(deck)@).to_multiset(),
            old(deck)@.0.len() >= 4 ==> r.pending()[0] == seq![top(old(deck)@, 0), top(old(deck)@, 2)]
                && r.dealer_cards() == seq![top(old(deck)@, 1), top(old(deck)@, 3)],
    {
        let ghost d0 = deck@;
        let mut player = Hand::new();
        let mut dealer = Hand::new();
        let c0 = deck.draw_card();
        player.add_card(c0);
        let ghost d1 = deck@;
        let c1 = deck.draw_card();
        dealer.add_card(c1);
        let ghost d2 = deck@;
        let c2 = deck.draw_card();
        player.add_card(c2);
        let ghost d3 = deck@;
        let c3 = deck.draw_card();
        dealer.add_card(c3);
        let mut hands: VecDeque<Hand> = VecDeque::new();
        hands.push_back(player);
        let r = Round { dealer: dealer, hands: hands, results: Vec::new(), wager: wager };
        proof {
            assert(r.pending() =~= seq![player@]);
            assert(r.outcomes() =~= Seq::<Outcome>::empty());
            if d0.0.len() >= 4 {
                assert(d1.0 == d0.0.drop_last());
                assert(d2.0 == d1.0.drop_last());
                assert(d3.0 == d2.0.drop_last());
            }
        }
        r
    }

    /// The credit change if the round ends at once on a blackjack, else `None`.
    pub fn blackjack_check(&self) -> (r: Option<i32>)
        requires
            self.wf(),
            self.pending().len() >= 1,
        ensures
            r is Some == opening(self.pending()[0], self.dealer_cards(), self.wager_spec()) is Some,
            r is Some ==> r->0 == opening(self.pending()[0], self.dealer_cards(), self.wager_spec())->0,
    {
        let player_pts = self.hands[0].calculate_points(false);
        let dealer_pts = self.dealer.calculate_points(false);
        let p = player_pts.calculate_best_value();
        let d = dealer_pts.calculate_best_value();
        if d == 21 && p != 21 {
            Some(-self.wager)
        } else if p == 21 {
            Some(self.wager + self.wager / 2)
        } else {
            None
        }
    }

    /// Whether every hand of the player has been played.
    pub fn player_done(&self) -> (r: bool)
        ensures
            r == (self.pending().len() == 0),
    {
        self.hands.len() == 0
    }

    /// The hand to be played next.
    pub fn current_hand(&self) -> (r: &Hand)
        requires
            self.pending().len() > 0,
        ensures
            r@ == self.pending()[0],
    {
        &self.hands[0]
    }

    pub fn dealer_hand(&self) -> (r: &Hand)
        ensures
            r@ == self.dealer_cards(),
    {
        &self.dealer
    }

    /// The number of hands that have been played to an end.
    pub fn hand_count(&self) -> (r: usize)
        ensures
            r == self.outcomes().len(),
    {
        self.results.len()
    }

    pub fn wager(&self) -> (r: i32)
        ensures
            r == self.wager_spec(),
    {
        self.wager
    }

    /// Plays one decision on the hand at the front of the worklist.
    pub fn play(&mut self, deck: &mut Deck, mov: Move) -> (r: Event)
        requires
            old(self).wf(),
            old(self).pending().len() > 0,
            total(old(deck)@) > 0,
        ensures
            final(self).wf(),
            final(self).dealer_cards() == old(self).dealer_cards(),
            final(self).wager_spec() == old(self).wager_spec(),
            exists|after: Seq<Card>|
                {
                    &&& moved(old(deck)@, final(deck)@, old(self).pending()[0], mov, after)
                    &&& (final(self).pending(), final(self).outcomes()) == queue_step(
                        old(self).pending(),
                        old(self).outcomes(),
                        hand_step(old(self).pending()[0], mov, after),
                        after,
                    )
                    &&& r == event_of(mov, hand_step(old(self).pending()[0], mov, after))
                },
    {
        let ghost p0 = self.pending();
        let ghost o0 = self.outcomes();
        let mut hand = self.hands.pop_front().unwrap();
        let ghost rest = self.hands@;
        proof {
            assert(p0 =~= seq![hand@] + rest.map_values(|h: Hand| h@));
            assert(p0[0].len() <= 21);
        }
        let res = play_hand(deck, &mut hand, mov);
        let ghost after = hand@;
        let ghost o = outcome_of(res);
        proof {
            if draws(mov) && o is None {
                lemma_sum_bounds(after);
            }
        }
        let ev = match res {
            None => {
                let ev = if mov == Move::Split {
                    Event::InvalidSplit
                } else {
                    Event::Continue
                };
                self.hands.push_front(hand);
                proof {
                    assert(self.pending() =~= p0.update(0, after));
                }
                ev
            },
            Some(HandResult::Split(card)) => {
                let mut h1 = Hand::new();
                h1.add_card(card);
                let mut h2 = Hand::new();
                h2.add_card(card);
                self.hands.push_back(h1);
                self.hands.push_back(h2);
                proof {
                    assert(self.pending() =~= p0.drop_first() + seq![seq![card], seq![card]]);
                }
                Event::Split
            },
            Some(result) => {
                let ev = if let HandResult::Bust = result {
                    Event::Bust
                } else {
                    Event::Finished
                };
                self.results.push(result);
                proof {
                    assert(self.pending() =~= p0.drop_first());
                    assert(self.outcomes() =~= o0.push(result@));
                }
                ev
            },
        };
        proof {
            assert(moved(old(deck)@, deck@, p0[0], mov, after));
        }
        ev
    }

    /// The dealer's turn and the settlement, once every hand has been played.
    /// Returns the credit change.
    pub fn finish(&mut self, deck: &mut Deck) -> (r: i32)
        requires
            old(self).wf(),
            old(self).pending().len() == 0,
            total(old(deck)@) > 0,
            2 * old(self).outcomes().len() * old(self).wager_spec() <= i32::MAX,
        ensures
            final(self).wf(),
            final(self).pending() == old(self).pending(),
            final(self).outcomes() == old(self).outcomes(),
            final(self).wager_spec() == old(self).wager_spec(),
            dealer_drew(old(self).dealer_cards(), final(self).dealer_cards()),
            total(final(deck)@) == total(old(deck)@),
            r == total_units(old(self).outcomes(), best_of(points_of(final(self).dealer_cards())))
                * old(self).wager_spec(),
    {
        let pts = dealer_play(deck, &mut self.dealer);
        let dealer_value = pts.calculate_best_value();
        proof {
            assert forall|i: int| 0 <= i < self.results@.len() implies is_final(
                #[trigger] self.results@[i]@,
            ) by {
                assert(self.outcomes()[i] == self.results@[i]@);
            }
        }
        settle(&self.results, dealer_value, self.wager)
    }
}

} // verus!
