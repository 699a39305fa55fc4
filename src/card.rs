use vstd::prelude::*;

verus! {

/// A card rank. Suits do not matter in blackjack, so a card is its rank.
#[derive(Debug, Copy, Clone, PartialEq, Eq, Structural)]
pub enum Card {
    Ace,
    Two,
    Three,
    Four,
    Five,
    Six,
    Seven,
    Eight,
    Nine,
    Ten,
    Jack,
    Queen,
    King,
}

impl Card {
    /// Base scoring value: an Ace counts 1, number cards their face value,
    /// face cards 10.
    pub open spec fn value(self) -> int {
        match self {
            Card::Ace => 1,
            Card::Two => 2,
            Card::Three => 3,
            Card::Four => 4,
            Card::Five => 5,
            Card::Six => 6,
            Card::Seven => 7,
            Card::Eight => 8,
            Card::Nine => 9,
            _ => 10,
        }
    }

    /// The glyph a card is displayed with.
    pub open spec fn glyph(self) -> Seq<char> {
        match self {
            Card::Ace => seq!['A'],
            Card::Two => seq!['2'],
            Card::Three => seq!['3'],
            Card::Four => seq!['4'],
            Card::Five => seq!['5'],
            Card::Six => seq!['6'],
            Card::Seven => seq!['7'],
            Card::Eight => seq!['8'],
            Card::Nine => seq!['9'],
            Card::Ten => seq!['1', '0'],
            Card::Jack => seq!['J'],
            Card::Queen => seq!['Q'],
            Card::King => seq!['K'],
        }
    }

    pub fn base_value(&self) -> (r: i32)
        ensures
            r == self.value(),
    {
        match self {
            Card::Ace => 1,
            Card::Two => 2,
            Card::Three => 3,
            Card::Four => 4,
            Card::Five => 5,
            Card::Six => 6,
            Card::Seven => 7,
            Card::Eight => 8,
            Card::Nine => 9,
            _ => 10,
        }
    }

    pub fn glyph_str(&self) -> (r: &'static str)
        ensures
            r@ == self.glyph(),
    {
        match self {
            Card::Ace => { proof { reveal_strlit("A"); } "A" },
            Card::Two => { proof { reveal_strlit("2"); } "2" },
            Card::Three => { proof { reveal_strlit("3"); } "3" },
            Card::Four => { proof { reveal_strlit("4"); } "4" },
            Card::Five => { proof { reveal_strlit("5"); } "5" },
            Card::Six => { proof { reveal_strlit("6"); } "6" },
            Card::Seven => { proof { reveal_strlit("7"); } "7" },
            Card::Eight => { proof { reveal_strlit("8"); } "8" },
            Card::Nine => { proof { reveal_strlit("9"); } "9" },
            Card::Ten => { proof { reveal_strlit("10"); } "10" },
            Card::Jack => { proof { reveal_strlit("J"); } "J" },
            Card::Queen => { proof { reveal_strlit("Q"); } "Q" },
            Card::King => { proof { reveal_strlit("K"); } "K" },
        }
    }

    /// The card's glyph as an owned string.
    pub fn to_string(&self) -> (r: String)
        ensures
            r@ == self.glyph(),
    {
        String::from_str(self.glyph_str())
    }
}

/// The rank at position `k` of the order in which a fresh deck is built:
/// Ace first, King last.
pub open spec fn rank_at(k: int) -> Card {
    if k <= 0 {
        Card::Ace
    } else if k == 1 {
        Card::Two
    } else if k == 2 {
        Card::Three
    } else if k == 3 {
        Card::Four
    } else if k == 4 {
        Card::Five
    } else if k == 5 {
        Card::Six
    } else if k == 6 {
        Card::Seven
    } else if k == 7 {
        Card::Eight
    } else if k == 8 {
        Card::Nine
    } else if k == 9 {
        Card::Ten
    } else if k == 10 {
        Card::Jack
    } else if k == 11 {
        Card::Queen
    } else {
        Card::King
    }
}

/// The number of distinct ranks.
pub const NUM_RANKS: usize = 13;

pub fn rank_of_index(k: usize) -> (c: Card)
    requires
        k < NUM_RANKS,
    ensures
        c == rank_at(k as int),
{
    if k == 0 {
        Card::Ace
    } else if k == 1 {
        Card::Two
    } else if k == 2 {
        Card::Three
    } else if k == 3 {
        Card::Four
    } else if k == 4 {
        Card::Five
    } else if k == 5 {
        Card::Six
    } else if k == 6 {
        Card::Seven
    } else if k == 7 {
        Card::Eight
    } else if k == 8 {
        Card::Nine
    } else if k == 9 {
        Card::Ten
    } else if k == 10 {
        Card::Jack
    } else if k == 11 {
        Card::Queen
    } else {
        Card::King
    }
}


/// The character of a decimal digit.
pub open spec fn digit_char(d: int) -> char {
    if d <= 0 {
        '0'
    } else if d == 1 {
        '1'
    } else if d == 2 {
        '2'
    } else if d == 3 {
        '3'
    } else if d == 4 {
        '4'
    } else if d == 5 {
        '5'
    } else if d == 6 {
        '6'
    } else if d == 7 {
        '7'
    } else if d == 8 {
        '8'
    } else {
        '9'
    }
}

/// The decimal digits of a natural number, most significant first.
pub open spec fn digits(n: nat) -> Seq<char>
    decreases n,
{
    if n < 10 {
        seq![digit_char(n as int)]
    } else {
        digits(n / 10).push(digit_char((n % 10) as int))
    }
}

/// The decimal text of an integer, with a leading minus sign when negative.
pub open spec fn decimal(n: int) -> Seq<char> {
    if n < 0 {
        seq!['-'] + digits((-n) as nat)
    } else {
        digits(n as nat)
    }
}

/// Relies on `i32`'s `Display` impl (through `ToString::to_string`): the
/// decimal digits of the value, preceded by `-` when it is negative.
#[verifier::external_body]
fn decimal_text(n: i32) -> (r: String)
    ensures
        r@ == decimal(n as int),
{
    n.to_string()
}

/// One or two possible totals of a hand. The second one, when present,
/// counts one Ace as 11 instead of 1.
pub struct Points {
    op1: i32,
    op2: i32,
    has_op2: bool,
}

impl View for Points {
    /// The primary total, and the secondary total if there is one.
    type V = (int, Option<int>);

    closed spec fn view(&self) -> (int, Option<int>) {
        (self.op1 as int, if self.has_op2 { Some(self.op2 as int) } else { None })
    }
}

/// The best total: the secondary one unless it is over 21, else the primary
/// one (which may itself be over 21, a bust).
pub open spec fn best_of(p: (int, Option<int>)) -> int {
    match p.1 {
        Some(s) => if s > 21 { p.0 } else { s },
        None => p.0,
    }
}

/// A soft 17: the best total is 17 and it is the one that counts an Ace as 11.
pub open spec fn soft_17(p: (int, Option<int>)) -> bool {
    best_of(p) == 17 && p.1 == Some(17int)
}

/// The display form of totals: `N`, or `N/M` when there are two.
pub open spec fn points_text(p: (int, Option<int>)) -> Seq<char> {
    match p.1 {
        Some(s) => decimal(p.0) + seq!['/'] + decimal(s),
        None => decimal(p.0),
    }
}

impl Points {
    pub fn new1(op1: i32) -> (r: Points)
        ensures
            r@ == (op1 as int, None::<int>),
    {
        Points { op1: op1, op2: -1, has_op2: false }
    }

    pub fn new2(op1: i32, op2: i32) -> (r: Points)
        ensures
            r@ == (op1 as int, Some(op2 as int)),
    {
        Points { op1: op1, op2: op2, has_op2: true }
    }

    pub fn to_string(&self) -> (r: String)
        ensures
            r@ == points_text(self@),
    {
        if self.has_op2 {
            let s = decimal_text(self.op1);
            let s = s.concat("/");
            let t = decimal_text(self.op2);
            let s = s.concat(t.as_str());
            proof {
                reveal_strlit("/");
            }
            s
        } else {
            decimal_text(self.op1)
        }
    }

    pub fn calculate_best_value(&self) -> (r: i32)
        ensures
            r == best_of(self@),
    {
        if !self.has_op2 {
            self.op1
        } else if self.op2 > 21 {
            self.op1
        } else {
            self.op2
        }
    }

    pub fn is_soft_17(&self) -> (r: bool)
        ensures
            r == soft_17(self@),
    {
        self.has_op2 && self.op2 == 17
    }
}

/// The best total exceeds 21 only when every total does: the primary one,
/// and the secondary one if there is one.
pub proof fn lemma_best_over_21_only_if_all_bust(p: (int, Option<int>))
    ensures
        best_of(p) > 21 ==> p.0 > 21 && (p.1 is None || p.1->0 > 21),
        best_of(p) > 21 ==> best_of(p) == p.0,
{
}


/// The sum of the base values of some cards.
pub open spec fn sum_values(cards: Seq<Card>) -> int
    decreases cards.len(),
{
    if cards.len() == 0 {
        0
    } else {
        sum_values(cards.drop_last()) + cards.last().value()
    }
}

/// The cards that are scored: all of them, or all but the last one when
/// `ignore_last` hides it.
pub open spec fn counted(cards: Seq<Card>, ignore_last: bool) -> Seq<Card> {
    if ignore_last && cards.len() > 0 {
        cards.drop_last()
    } else {
        cards
    }
}

/// The totals of some cards: their sum, and that sum plus 10 when an Ace is
/// among them.
pub open spec fn points_of(cards: Seq<Card>) -> (int, Option<int>) {
    (
        sum_values(cards),
        if cards.contains(Card::Ace) {
            Some(sum_values(cards) + 10)
        } else {
            None
        },
    )
}

/// The display form of a hand: each glyph followed by a space, the last
/// one masked by `?` when `hide_last` is set.
pub open spec fn render(cards: Seq<Card>, hide_last: bool) -> Seq<char>
    decreases cards.len(),
{
    if cards.len() == 0 {
        Seq::empty()
    } else if hide_last {
        render(cards.drop_last(), false) + seq!['?', ' ']
    } else {
        render(cards.drop_last(), false) + cards.last().glyph() + seq![' ']
    }
}

/// The rank a hand splits into: the shared rank of exactly two equal cards.
pub open spec fn split_of(cards: Seq<Card>) -> Option<Card> {
    if cards.len() == 2 && cards[0] == cards[1] {
        Some(cards[0])
    } else {
        None
    }
}

/// The most cards a hand can hold while its total still fits an `i32`.
pub const MAX_HAND_CARDS: usize = 100_000_000;

pub proof fn lemma_sum_bounds(cards: Seq<Card>)
    ensures
        cards.len() <= sum_values(cards) <= 10 * cards.len(),
    decreases cards.len(),
{
    if cards.len() > 0 {
        lemma_sum_bounds(cards.drop_last());
    }
}

/// A hand without an Ace has a single total, and its best total is the sum
/// of its cards' values.
pub proof fn lemma_no_ace_single_total(cards: Seq<Card>)
    requires
        !cards.contains(Card::Ace),
    ensures
        points_of(cards).1 is None,
        best_of(points_of(cards)) == sum_values(cards),
{
}

/// A hand with an Ace has a secondary total, exactly 10 above the primary.
pub proof fn lemma_ace_secondary_total(cards: Seq<Card>)
    requires
        cards.contains(Card::Ace),
    ensures
        points_of(cards).1 == Some(points_of(cards).0 + 10),
{
}

/// An ordered sequence of cards.
pub struct Hand {
    cards: Vec<Card>,
}

impl View for Hand {
    type V = Seq<Card>;

    closed spec fn view(&self) -> Seq<Card> {
        self.cards@
    }
}

impl Hand {
    pub fn new() -> (r: Hand)
        ensures
            r@ == Seq::<Card>::empty(),
    {
        Hand { cards: Vec::new() }
    }

    pub fn add_card(&mut self, card: Card)
        ensures
            final(self)@ == old(self)@.push(card),
    {
        self.cards.push(card);
    }

    pub fn len(&self) -> (r: usize)
        ensures
            r == self@.len(),
    {
        self.cards.len()
    }

    pub fn calculate_points(&self, ignore_last: bool) -> (r: Points)
        requires
            self@.len() <= MAX_HAND_CARDS,
        ensures
            r@ == points_of(counted(self@, ignore_last)),
    {
        let ghost cs = counted(self@, ignore_last);
        let n: usize = if ignore_last && self.cards.len() > 0 {
            self.cards.len() - 1
        } else {
            self.cards.len()
        };
        let mut sum: i32 = 0;
        let mut has_ace: bool = false;
        let mut i: usize = 0;
        while i < n
            invariant
                n == cs.len(),
                n <= self@.len() <= MAX_HAND_CARDS,
                cs =~= self@.take(n as int),
                i <= n,
                sum == sum_values(cs.take(i as int)),
                0 <= sum <= 10 * i,
                has_ace == cs.take(i as int).contains(Card::Ace),
            decreases n - i,
        {
            let card = self.cards[i];
            proof {
                let t = cs.take(i as int + 1);
                assert(t.drop_last() =~= cs.take(i as int));
                assert(t.last() == card);
                if card == Card::Ace {
                    assert(t[i as int] == Card::Ace);
                } else if has_ace {
                    let j = choose|j: int| 0 <= j < i && cs.take(i as int)[j] == Card::Ace;
                    assert(t[j] == Card::Ace);
                } else {
                    assert forall|j: int| 0 <= j < t.len() implies t[j] != Card::Ace by {
                        if j < i {
                            assert(t[j] == cs.take(i as int)[j]);
                        }
                    }
                }
            }
            if card == Card::Ace {
                has_ace = true;
            }
            sum = sum + card.base_value();
            i = i + 1;
        }
        assert(cs.take(n as int) =~= cs);
        if has_ace {
            Points::new2(sum, sum + 10)
        } else {
            Points::new1(sum)
        }
    }

    pub fn to_string(&self, hide_last: bool) -> (r: String)
        ensures
            r@ == render(self@, hide_last),
    {
        let n = self.cards.len();
        let mut s = String::new();
        let mut i: usize = 0;
        while i < n
            invariant
                n == self@.len(),
                i <= n,
                i < n || !hide_last ==> s@ == render(self@.take(i as int), false),
                i == n && hide_last && n > 0 ==> s@ == render(self@, true),
                i == n && hide_last && n == 0 ==> s@ == render(self@, true),
            decreases n - i,
        {
            let ghost prev = self@.take(i as int);
            let ghost next = self@.take(i as int + 1);
            proof {
                assert(next.drop_last() =~= prev);
            }
            if i + 1 == n && hide_last {
                s = s.concat("? ");
                proof {
                    reveal_strlit("? ");
                    assert(next =~= self@);
                }
            } else {
                s = s.concat(self.cards[i].glyph_str());
                s = s.concat(" ");
                proof {
                    reveal_strlit(" ");
                }
            }
            i = i + 1;
        }
        proof {
            if !hide_last {
                assert(self@.take(n as int) =~= self@);
            }
        }
        s
    }

    pub fn split(&self) -> (r: Option<Card>)
        ensures
            r == split_of(self@),
    {
        if self.cards.len() == 2 && self.cards[0] == self.cards[1] {
            Some(self.cards[0])
        } else {
            None
        }
    }
}


/// The first `k` ranks of a fresh deck's build order, each repeated
/// `copies` times.
pub open spec fn ranks_upto(k: nat, copies: nat) -> Seq<Card>
    decreases k,
{
    if k == 0 {
        Seq::empty()
    } else {
        ranks_upto((k - 1) as nat, copies) + Seq::new(copies, |_i: int| rank_at(k - 1))
    }
}

/// The cards of `num_decks` fresh decks, in the order they are built:
/// every copy of the Ace first, every copy of the King last.
pub open spec fn fresh_deck(num_decks: nat) -> Seq<Card> {
    ranks_upto(NUM_RANKS as nat, 4 * num_decks)
}

pub proof fn lemma_ranks_upto_len(k: nat, copies: nat)
    ensures
        ranks_upto(k, copies).len() == k * copies,
    decreases k,
{
    if k > 0 {
        let p = (k - 1) as nat;
        lemma_ranks_upto_len(p, copies);
        assert(p * copies + copies == k * copies) by (nonlinear_arith)
            requires
                p + 1 == k,
        ;
    } else {
        assert(0 * copies == 0) by (nonlinear_arith);
    }
}

/// The most decks a shoe can be built from while its size fits an `i32`.
pub const MAX_DECKS: i32 = 10_000_000;

/// Relies on rand's `SliceRandom::shuffle` with `thread_rng()`: it permutes
/// the slice in place by swaps, so the same cards remain, in a random order.
#[verifier::external_body]
fn shuffle_cards(cards: &mut Vec<Card>)
    ensures
        final(cards)@.to_multiset() == old(cards)@.to_multiset(),
{
    rand::seq::SliceRandom::shuffle(cards.as_mut_slice(), &mut rand::thread_rng());
}

/// A shoe: the pile cards are drawn from (its top is the end) and the pile
/// drawn cards are discarded to.
pub struct Deck {
    cards: Vec<Card>,
    discard_pile: Vec<Card>,
}

impl View for Deck {
    /// The draw pile and the discard pile.
    type V = (Seq<Card>, Seq<Card>);

    closed spec fn view(&self) -> (Seq<Card>, Seq<Card>) {
        (self.cards@, self.discard_pile@)
    }
}

/// Every card of a shoe, in either pile.
pub open spec fn all_cards(d: (Seq<Card>, Seq<Card>)) -> Seq<Card> {
    d.0 + d.1
}

/// The number of cards in a shoe, over both piles.
pub open spec fn total(d: (Seq<Card>, Seq<Card>)) -> nat {
    d.0.len() + d.1.len()
}

/// Drawing `c` takes shoe `d0` to `d1`: the top card moves to the discard
/// pile; from an empty draw pile, the discard pile is first shuffled back
/// into it, so `c` is one of its cards and the rest stay in the draw pile.
pub open spec fn draw_step(d0: (Seq<Card>, Seq<Card>), d1: (Seq<Card>, Seq<Card>), c: Card) -> bool {
    if d0.0.len() > 0 {
        c == d0.0.last() && d1.0 == d0.0.drop_last() && d1.1 == d0.1.push(c)
    } else {
        d1.0.push(c).to_multiset() == d0.1.to_multiset() && d1.1 == seq![c]
    }
}

impl Deck {
    /// A shoe of `num_decks` decks, unshuffled, with an empty discard pile.
    pub fn new(num_decks: i32) -> (r: Deck)
        requires
            0 <= num_decks <= MAX_DECKS,
        ensures
            r@.0 == fresh_deck(num_decks as nat),
            r@.1 == Seq::<Card>::empty(),
            r@.0.len() == 52 * num_decks,
    {
        let copies: i32 = num_decks * 4;
        let ghost c = copies as nat;
        let mut cards: Vec<Card> = Vec::new();
        let mut k: usize = 0;
        while k < NUM_RANKS
            invariant
                k <= NUM_RANKS,
                copies == 4 * num_decks,
                c == copies as nat,
                0 <= copies,
                cards@ == ranks_upto(k as nat, c),
            decreases NUM_RANKS - k,
        {
            let card = rank_of_index(k);
            let mut j: i32 = 0;
            while j < copies
                invariant
                    0 <= j <= copies,
                    k < NUM_RANKS,
                    copies == 4 * num_decks,
                    c == copies as nat,
                    card == rank_at(k as int),
                    cards@ == ranks_upto(k as nat, c) + Seq::new(j as nat, |_i: int| rank_at(k as int)),
                decreases copies - j,
            {
                cards.push(card);
                proof {
                    assert(Seq::new((j + 1) as nat, |_i: int| rank_at(k as int)) =~= Seq::new(
                        j as nat,
                        |_i: int| rank_at(k as int),
                    ).push(card));
                }
                j = j + 1;
            }
            k = k + 1;
        }
        proof {
            lemma_ranks_upto_len(NUM_RANKS as nat, c);
        }
        Deck { cards: cards, discard_pile: Vec::new() }
    }

    /// A shoe whose draw pile holds `cards` (the last one on top) and whose
    /// discard pile is empty.
    pub fn from_cards(cards: Vec<Card>) -> (r: Deck)
        ensures
            r@ == (cards@, Seq::<Card>::empty()),
    {
        Deck { cards: cards, discard_pile: Vec::new() }
    }

    /// Draws the top card and puts it on the discard pile. An empty draw
    /// pile is first refilled from the discard pile and shuffled.
    pub fn draw_card(&mut self) -> (r: Card)
        requires
            total(old(self)@) > 0,
        ensures
            draw_step(old(self)@, final(self)@, r),
            all_cards(final(self)@).to_multiset() == all_cards(old(self)@).to_multiset(),
            total(final(self)@) == total(old(self)@),
    {
        broadcast use vstd::seq_lib::group_to_multiset_ensures;
        broadcast use vstd::seq_lib::lemma_multiset_commutative;

        let ghost start = self@;
        if self.size() == 0 {
            self.restack();
            let ghost restacked = self@;
            self.shuffle();
            proof {
                assert(restacked.0 =~= start.1);
                assert(self@.0.to_multiset().len() == restacked.0.to_multiset().len());
                assert(all_cards(self@) =~= self@.0);
                assert(all_cards(start) =~= start.1);
            }
        }
        let ghost mid = self@;
        proof {
            assert(all_cards(mid).to_multiset() =~= all_cards(start).to_multiset());
            assert(mid.0.len() > 0);
        }
        let card = self.cards.pop().unwrap();
        self.discard_pile.push(card);
        proof {
            assert(mid.0 =~= mid.0.drop_last().push(card));
            assert(all_cards(self@).to_multiset() =~= all_cards(mid).to_multiset());
            assert(all_cards(self@).to_multiset().len() == all_cards(start).to_multiset().len());
        }
        card
    }

    pub fn size(&self) -> (r: usize)
        ensures
            r == self@.0.len(),
    {
        self.cards.len()
    }

    /// Whether the shoe holds no card at all, in either pile.
    pub fn is_empty(&self) -> (r: bool)
        ensures
            r == (total(self@) == 0),
    {
        self.cards.len() == 0 && self.discard_pile.len() == 0
    }

    /// Puts the draw pile in a random order.
    pub fn shuffle(&mut self)
        ensures
            final(self)@.0.to_multiset() == old(self)@.0.to_multiset(),
            final(self)@.1 == old(self)@.1,
    {
        shuffle_cards(&mut self.cards);
    }

    /// Moves the whole discard pile under the draw pile.
    pub fn restack(&mut self)
        ensures
            final(self)@.0 == old(self)@.0 + old(self)@.1,
            final(self)@.1 == Seq::<Card>::empty(),
    {
        self.cards.append(&mut self.discard_pile);
    }
}


/// A draw neither creates nor loses a card: the shoe's cards, over both
/// piles, stay the same, and so does their number.
pub proof fn lemma_draw_keeps_cards(d0: (Seq<Card>, Seq<Card>), d1: (Seq<Card>, Seq<Card>), c: Card)
    requires
        draw_step(d0, d1, c),
    ensures
        all_cards(d1).to_multiset() == all_cards(d0).to_multiset(),
        total(d1) == total(d0),
{
    broadcast use vstd::seq_lib::group_to_multiset_ensures;
    broadcast use vstd::seq_lib::lemma_multiset_commutative;

    if d0.0.len() > 0 {
        assert(d0.0 =~= d0.0.drop_last().push(c));
        assert(all_cards(d1).to_multiset() =~= all_cards(d0).to_multiset());
    } else {
        assert(all_cards(d0) =~= d0.1);
        assert(all_cards(d1).to_multiset() =~= d1.0.push(c).to_multiset());
    }
    assert(all_cards(d1).to_multiset().len() == all_cards(d0).to_multiset().len());
}

/// Over any sequence of draws, where shoe `states[i + 1]` follows from
/// `states[i]` by drawing `drawn[i]`, the number of cards in the shoe never
/// changes.
pub proof fn lemma_draws_keep_count(states: Seq<(Seq<Card>, Seq<Card>)>, drawn: Seq<Card>)
    requires
        states.len() == drawn.len() + 1,
        forall|i: int| 0 <= i < drawn.len() ==> draw_step(states[i], #[trigger] states[i + 1], drawn[i]),
    ensures
        forall|i: int| 0 <= i < states.len() ==> total(#[trigger] states[i]) == total(states[0]),
    decreases drawn.len(),
{
    if drawn.len() > 0 {
        let n = drawn.len() - 1;
        lemma_draws_keep_count(states.take(n + 1), drawn.take(n));
        assert forall|i: int| 0 <= i < states.len() implies total(#[trigger] states[i]) == total(
            states[0],
        ) by {
            if i <= n {
                assert(states.take(n + 1)[i] == states[i]);
            } else {
                lemma_draw_keeps_cards(states[n], states[n + 1], drawn[n]);
                assert(states.take(n + 1)[n] == states[n]);
            }
        }
    }
}

/// A shoe built from one deck or more never runs out: after any number of
/// draws (more than its size included) it still holds 52 cards per deck,
/// so the next draw is always possible.
pub proof fn lemma_fresh_shoe_never_runs_out(
    num_decks: nat,
    states: Seq<(Seq<Card>, Seq<Card>)>,
    drawn: Seq<Card>,
)
    requires
        num_decks >= 1,
        states.len() == drawn.len() + 1,
        states[0] == (fresh_deck(num_decks), Seq::<Card>::empty()),
        forall|i: int| 0 <= i < drawn.len() ==> draw_step(states[i], #[trigger] states[i + 1], drawn[i]),
    ensures
        forall|i: int| 0 <= i < states.len() ==> total(#[trigger] states[i]) == 52 * num_decks,
        forall|i: int| 0 <= i < states.len() ==> total(#[trigger] states[i]) > 0,
{
    lemma_draws_keep_count(states, drawn);
    lemma_ranks_upto_len(NUM_RANKS as nat, 4 * num_decks);
    assert(total(states[0]) == 52 * num_decks);
}

/// The result of playing one hand: a bust, the totals the player stood on,
/// the rank the hand was split into, or the totals after a double down.
pub enum HandResult {
    Bust,
    Points(Points),
    Split(Card),
    DoubleDown(Points),
}

/// What a `HandResult` stands for, with totals as integers.
pub enum Outcome {
    Bust,
    Standing((int, Option<int>)),
    SplitInto(Card),
    DoubledDown((int, Option<int>)),
}

impl View for HandResult {
    type V = Outcome;

    open spec fn view(&self) -> Outcome {
        match self {
            HandResult::Bust => Outcome::Bust,
            HandResult::Points(p) => Outcome::Standing(p@),
            HandResult::Split(c) => Outcome::SplitInto(*c),
            HandResult::DoubleDown(p) => Outcome::DoubledDown(p@),
        }
    }
}

} // verus!
