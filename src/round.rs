use vstd::prelude::*;

use crate::deck::{all_valid, valid_card, Deck};
use crate::hand::{compare_spec, hard_total, hit_spec, lemma_hit_raises_hard_total, Hand};
use core::cmp::Ordering;

verus! {

/// Where a round stands; every outcome but `Playing` is final.
#[derive(Debug, Copy, Clone, PartialEq, Eq, Structural)]
pub enum Outcome {
    Won,
    Lost,
    Draw,
    Playing,
}

/// Why a transition of a round could not be made.
#[derive(Debug, Copy, Clone, PartialEq, Eq, Structural)]
pub enum RoundError {
    /// The deck ran out of cards.
    EmptyDeck,
    /// The round is already over.
    InvalidTransition,
    /// Both hands are bust, so they cannot be ranked.
    UnorderableHands,
}

/// One round: the player's and the dealer's hands, the outcome so far and the
/// running count of every card dealt.
#[derive(Debug, Copy, Clone)]
pub struct RoundState {
    pub outcome: Outcome,
    pub player: Hand,
    pub dealer: Hand,
    pub hilo: i32,
}

/// What a card adds to the running count: +1 for 2 to 6, 0 for 7 to 9 and -1
/// for tens and aces.
pub open spec fn card_hilo_spec(card: u8) -> int {
    if 2 <= card <= 6 {
        1
    } else if 7 <= card <= 9 {
        0
    } else {
        -1
    }
}

/// The running count contributed by a sequence of cards.
pub open spec fn hilo_sum(cards: Seq<u8>) -> int
    decreases cards.len(),
{
    if cards.len() == 0 {
        0
    } else {
        hilo_sum(cards.drop_last()) + card_hilo_spec(cards.last())
    }
}

/// The hand after taking each of `cards` in order.
pub open spec fn hit_all(h: Hand, cards: Seq<u8>) -> Hand
    decreases cards.len(),
{
    if cards.len() == 0 {
        h
    } else {
        hit_spec(hit_all(h, cards.drop_last()), cards.last())
    }
}

/// How many of `cards` the dealer takes, drawing while under 17; `None` if the
/// cards run out first.
pub open spec fn dealer_draws(dealer: Hand, cards: Seq<u8>) -> Option<nat>
    decreases cards.len(),
{
    if dealer.sum >= 17 {
        Some(0)
    } else if cards.len() == 0 {
        None
    } else {
        match dealer_draws(hit_spec(dealer, cards[0]), cards.drop_first()) {
            Some(n) => Some(n + 1),
            None => None,
        }
    }
}

/// A deck of this many cards always completes a round: the player's hard
/// total rises with each card and stays at 21 or under while hitting, and
/// the dealer's stays under 17 while drawing.
pub const ROUND_CARDS: usize = 38;

/// A dealer whose hard total is `h` draws at most `17 - h` cards.
pub proof fn lemma_dealer_finishes(dealer: Hand, cards: Seq<u8>)
    requires
        all_valid(cards),
        dealer.sum <= 26,
        cards.len() >= 17 - hard_total(dealer),
    ensures
        dealer_draws(dealer, cards) is Some,
    decreases cards.len(),
{
    if dealer.sum < 17 {
        assert(valid_card(cards[0]));
        lemma_hit_raises_hard_total(dealer, cards[0]);
        let rest = cards.drop_first();
        assert forall|i: int| 0 <= i < rest.len() implies #[trigger] valid_card(rest[i]) by {
            assert(rest[i] == cards[i + 1]);
        }
        lemma_dealer_finishes(hit_spec(dealer, cards[0]), rest);
    }
}

/// A round may be played on while its count cannot leave `i32` however many
/// of `cards` are dealt.
pub open spec fn count_fits(hilo: i32, cards: Seq<u8>) -> bool {
    i32::MIN + cards.len() <= hilo <= i32::MAX - cards.len()
}

/// The round that `cards` start: two cards to the player, then one to the dealer.
pub open spec fn start_spec(cards: Seq<u8>, init_hilo: i32) -> RoundState {
    RoundState {
        outcome: Outcome::Playing,
        player: hit_spec(hit_spec(Hand { sum: 0, ace: false }, cards[0]), cards[1]),
        dealer: hit_spec(Hand { sum: 0, ace: false }, cards[2]),
        hilo: (init_hilo + hilo_sum(cards.take(3))) as i32,
    }
}

/// The player takes a card: the result and the cards left.
pub open spec fn hit_step(r: RoundState, cards: Seq<u8>) -> (Result<RoundState, RoundError>, Seq<u8>) {
    if !(r.outcome is Playing) {
        (Err(RoundError::InvalidTransition), cards)
    } else if cards.len() == 0 {
        (Err(RoundError::EmptyDeck), cards)
    } else {
        let p = hit_spec(r.player, cards[0]);
        (
            Ok(
                RoundState {
                    outcome: if p.sum > 21 {
                        Outcome::Lost
                    } else {
                        Outcome::Playing
                    },
                    player: p,
                    dealer: r.dealer,
                    hilo: (r.hilo + card_hilo_spec(cards[0])) as i32,
                },
            ),
            cards.drop_first(),
        )
    }
}

/// The player stands: the dealer draws under 17, then the hands are ranked.
pub open spec fn stand_step(r: RoundState, cards: Seq<u8>) -> (
    Result<RoundState, RoundError>,
    Seq<u8>,
) {
    if !(r.outcome is Playing) {
        (Err(RoundError::InvalidTransition), cards)
    } else {
        match dealer_draws(r.dealer, cards) {
            None => (Err(RoundError::EmptyDeck), Seq::empty()),
            Some(n) => {
                let dealer = hit_all(r.dealer, cards.take(n as int));
                let hilo = (r.hilo + hilo_sum(cards.take(n as int))) as i32;
                let rest = cards.skip(n as int);
                match compare_spec(r.player, dealer) {
                    None => (Err(RoundError::UnorderableHands), rest),
                    Some(ord) => (
                        Ok(
                            RoundState {
                                outcome: match ord {
                                    Ordering::Greater => Outcome::Won,
                                    Ordering::Equal => Outcome::Draw,
                                    Ordering::Less => Outcome::Lost,
                                },
                                player: r.player,
                                dealer,
                                hilo,
                            },
                        ),
                        rest,
                    ),
                }
            },
        }
    }
}

/// The running count of two sequences dealt one after the other is the sum
/// of their counts.
pub proof fn lemma_hilo_sum_append(a: Seq<u8>, b: Seq<u8>)
    ensures
        hilo_sum(a + b) == hilo_sum(a) + hilo_sum(b),
    decreases b.len(),
{
    if b.len() == 0 {
        assert(a + b =~= a);
    } else {
        lemma_hilo_sum_append(a, b.drop_last());
        assert((a + b).drop_last() =~= a + b.drop_last());
    }
}

/// A running count moves by at most one per card.
pub proof fn lemma_hilo_sum_bound(cards: Seq<u8>)
    ensures
        -cards.len() <= hilo_sum(cards) <= cards.len(),
    decreases cards.len(),
{
    if cards.len() > 0 {
        lemma_hilo_sum_bound(cards.drop_last());
    }
}

/// The running count over cards dealt in two stretches from one deck is the
/// count over everything dealt: dealing `k` more after the first `a` leaves
/// the deck past `a + k`.
pub proof fn lemma_running_count_accumulates(cards: Seq<u8>, a: int, k: int)
    requires
        0 <= a,
        0 <= k,
        a + k <= cards.len(),
    ensures
        hilo_sum(cards.take(a)) + hilo_sum(cards.skip(a).take(k)) == hilo_sum(cards.take(a + k)),
        cards.skip(a).skip(k) == cards.skip(a + k),
{
    lemma_hilo_sum_append(cards.take(a), cards.skip(a).take(k));
    assert(cards.take(a) + cards.skip(a).take(k) =~= cards.take(a + k));
    assert(cards.skip(a).skip(k) =~= cards.skip(a + k));
}

impl RoundState {
    /// A round may go on: while it is being played the player is not bust.
    pub open spec fn wf(&self) -> bool {
        self.outcome is Playing ==> self.player.sum <= 21
    }

    /// The round is over.
    pub open spec fn finished_spec(&self) -> bool {
        !(self.outcome is Playing)
    }

    /// Starts a round: deals two cards to the player and one to the dealer,
    /// adding each to the running count that starts at `init_hilo`.
    pub fn new_with_hilo(deck: &mut Deck, init_hilo: i32) -> (r: RoundState)
        requires
            old(deck)@.len() >= 3,
            all_valid(old(deck)@),
            count_fits(init_hilo, old(deck)@),
        ensures
            r == start_spec(old(deck)@, init_hilo),
            r.wf(),
            r.hilo == init_hilo + hilo_sum(old(deck)@.take(3)),
            final(deck)@ == old(deck)@.skip(3),
            all_valid(final(deck)@),
            count_fits(r.hilo, final(deck)@),
    {
        let ghost cards = deck@;
        let player_c1 = Self::deal_one(deck);
        let player_c2 = Self::deal_one(deck);
        let player = Hand::from(player_c1, player_c2);
        let dealer_card = Self::deal_one(deck);
        let dealer = Hand::new().hit(dealer_card);
        let hilo = init_hilo + RoundState::card_hilo(player_c1) + RoundState::card_hilo(player_c2)
            + RoundState::card_hilo(dealer_card);
        proof {
            reveal_with_fuel(hilo_sum, 4);
            let t = cards.take(3);
            assert(t.drop_last().drop_last().drop_last() =~= Seq::<u8>::empty());
            assert(t.drop_last().drop_last() =~= seq![cards[0]]);
            assert(t.drop_last() =~= seq![cards[0], cards[1]]);
            assert(deck@ =~= cards.skip(3));
            lemma_hilo_sum_bound(cards.take(3));
        }
        RoundState { outcome: Outcome::Playing, player, dealer, hilo }
    }

    /// Starts a round with a running count of zero.
    pub fn new(deck: &mut Deck) -> (r: RoundState)
        requires
            old(deck)@.len() >= 3,
            all_valid(old(deck)@),
            count_fits(0, old(deck)@),
        ensures
            r == start_spec(old(deck)@, 0),
            r.wf(),
            r.hilo == hilo_sum(old(deck)@.take(3)),
            final(deck)@ == old(deck)@.skip(3),
            all_valid(final(deck)@),
            count_fits(r.hilo, final(deck)@),
    {
        RoundState::new_with_hilo(deck, 0)
    }

    /// Deals the next card of a deck known to hold one.
    fn deal_one(deck: &mut Deck) -> (c: u8)
        requires
            old(deck)@.len() > 0,
            all_valid(old(deck)@),
        ensures
            c == old(deck)@[0],
            valid_card(c),
            final(deck)@ == old(deck)@.drop_first(),
            all_valid(final(deck)@),
    {
        match deck.deal() {
            Some(c) => c,
            None => 0,
        }
    }

    /// The player takes a card; a bust hand loses the round.
    pub fn hit(&self, deck: &mut Deck) -> (res: Result<RoundState, RoundError>)
        requires
            self.outcome is Playing ==> self.player.sum + 10 <= u8::MAX,
            all_valid(old(deck)@),
            count_fits(self.hilo, old(deck)@),
        ensures
            (res, final(deck)@) == hit_step(*self, old(deck)@),
            res matches Ok(r) ==> r.wf() && count_fits(r.hilo, final(deck)@),
            res matches Ok(r) ==> r.hilo == self.hilo + hilo_sum(old(deck)@.take(1)),
            res is Ok ==> final(deck)@.len() == old(deck)@.len() - 1,
            self.outcome is Playing && old(deck)@.len() >= 1 ==> res is Ok,
            all_valid(final(deck)@),
    {
        match self.outcome {
            Outcome::Playing => {
                let card = match deck.deal() {
                    Some(c) => c,
                    None => {
                        return Err(RoundError::EmptyDeck);
                    },
                };
                let player = self.player.hit(card);
                let hilo = self.hilo + RoundState::card_hilo(card);
                proof {
                    reveal_with_fuel(hilo_sum, 2);
                    assert(old(deck)@.take(1).drop_last() =~= Seq::<u8>::empty());
                }
                if player.is_bust() {
                    Ok(RoundState { outcome: Outcome::Lost, player, dealer: self.dealer, hilo })
                } else {
                    Ok(RoundState { outcome: Outcome::Playing, player, dealer: self.dealer, hilo })
                }
            },
            _ => Err(RoundError::InvalidTransition),
        }
    }

    /// The player stands: the dealer draws while under 17, then the hands are
    /// ranked to settle the round.
    pub fn stand(&self, deck: &mut Deck) -> (res: Result<RoundState, RoundError>)
        requires
            all_valid(old(deck)@),
            count_fits(self.hilo, old(deck)@),
        ensures
            (res, final(deck)@) == stand_step(*self, old(deck)@),
            res matches Ok(r) ==> r.finished_spec() && r.wf() && r.dealer.sum >= 17,
            res matches Ok(r) ==> count_fits(r.hilo, final(deck)@),
            res matches Ok(r) ==> r.hilo == self.hilo + hilo_sum(
                old(deck)@.take(old(deck)@.len() - final(deck)@.len()),
            ),
            res matches Ok(r) ==> final(deck)@ == old(deck)@.skip(
                old(deck)@.len() - final(deck)@.len(),
            ),
            final(deck)@.len() <= old(deck)@.len(),
            all_valid(final(deck)@),
            self.outcome is Playing && self.player.sum <= 21 && self.dealer.sum <= 26
                && old(deck)@.len() >= 17 - hard_total(self.dealer) ==> res is Ok,
    {
        proof {
            if old(deck)@.len() >= 17 - hard_total(self.dealer) && self.dealer.sum <= 26 {
                lemma_dealer_finishes(self.dealer, old(deck)@);
            }
        }
        match self.outcome {
            Outcome::Playing => {
                let (dealer, hilo) = match RoundState::hit_dealer(&self.dealer, deck, self.hilo) {
                    Some(p) => p,
                    None => {
                        return Err(RoundError::EmptyDeck);
                    },
                };
                proof {
                    let n = old(deck)@.len() - deck@.len();
                    if let Some(k) = dealer_draws(self.dealer, old(deck)@) {
                        assert(k == n);
                        lemma_hilo_sum_bound(old(deck)@.take(k as int));
                    }
                }
                match self.player.compare(&dealer) {
                    Some(Ordering::Greater) => Ok(
                        RoundState { outcome: Outcome::Won, player: self.player, dealer, hilo },
                    ),
                    Some(Ordering::Equal) => Ok(
                        RoundState { outcome: Outcome::Draw, player: self.player, dealer, hilo },
                    ),
                    Some(Ordering::Less) => Ok(
                        RoundState { outcome: Outcome::Lost, player: self.player, dealer, hilo },
                    ),
                    None => Err(RoundError::UnorderableHands),
                }
            },
            _ => Err(RoundError::InvalidTransition),
        }
    }

    /// Deals to the dealer while the dealer's total is under 17; the final
    /// hand and running count, or `None` if the deck runs out first.
    fn hit_dealer(dealer_hand: &Hand, deck: &mut Deck, hilo_acc: i32) -> (r: Option<(Hand, i32)>)
        requires
            all_valid(old(deck)@),
            count_fits(hilo_acc, old(deck)@),
        ensures
            all_valid(final(deck)@),
            match dealer_draws(*dealer_hand, old(deck)@) {
                None => r is None && final(deck)@ == Seq::<u8>::empty(),
                Some(n) => r == Some(
                    (
                        hit_all(*dealer_hand, old(deck)@.take(n as int)),
                        (hilo_acc + hilo_sum(old(deck)@.take(n as int))) as i32,
                    ),
                ) && final(deck)@ == old(deck)@.skip(n as int) && n <= old(deck)@.len(),
            },
            r matches Some(p) ==> p.0.sum >= 17 && count_fits(p.1, final(deck)@),
    {
        let ghost cards = deck@;
        let ghost mut n: nat = 0;
        let mut dealer = *dealer_hand;
        let mut hilo = hilo_acc;
        while dealer.sum < 17
            invariant
                n <= cards.len(),
                cards == old(deck)@,
                deck@ == cards.skip(n as int),
                all_valid(deck@),
                all_valid(cards),
                dealer == hit_all(*dealer_hand, cards.take(n as int)),
                hilo == hilo_acc + hilo_sum(cards.take(n as int)),
                count_fits(hilo_acc, cards),
                dealer_draws(*dealer_hand, cards) == match dealer_draws(dealer, deck@) {
                    Some(k) => Some(k + n),
                    None => None::<nat>,
                },
            decreases deck@.len(),
        {
            let card = match deck.deal() {
                Some(c) => c,
                None => {
                    proof {
                        assert(deck@ =~= Seq::<u8>::empty());
                    }
                    return None;
                },
            };
            proof {
                lemma_hilo_sum_bound(cards.take(n as int));
                assert(cards.take(n as int + 1).drop_last() =~= cards.take(n as int));
                assert(cards[n as int] == card);
            }
            dealer = dealer.hit(card);
            hilo = hilo + RoundState::card_hilo(card);
            proof {
                n = n + 1;
                assert(deck@ =~= cards.skip(n as int));
            }
        }
        proof {
            lemma_hilo_sum_bound(cards.take(n as int));
            assert(cards.skip(n as int).len() == cards.len() - n);
        }
        Some((dealer, hilo))
    }

    /// What one card adds to the running count.
    pub fn card_hilo(card: u8) -> (r: i32)
        ensures
            r == card_hilo_spec(card),
    {
        if card >= 2 && card <= 6 {
            1
        } else if card >= 7 && card <= 9 {
            0
        } else {
            -1
        }
    }

    /// Whether the player won.
    pub fn won(&self) -> (r: bool)
        ensures
            r == (self.outcome is Won),
    {
        match self.outcome {
            Outcome::Won => true,
            _ => false,
        }
    }

    /// Whether the player lost.
    pub fn lost(&self) -> (r: bool)
        ensures
            r == (self.outcome is Lost),
    {
        match self.outcome {
            Outcome::Lost => true,
            _ => false,
        }
    }

    /// Whether the round was drawn.
    pub fn draw(&self) -> (r: bool)
        ensures
            r == (self.outcome is Draw),
    {
        match self.outcome {
            Outcome::Draw => true,
            _ => false,
        }
    }

    /// Whether the round is over.
    pub fn finished(&self) -> (r: bool)
        ensures
            r == self.finished_spec(),
    {
        match self.outcome {
            Outcome::Playing => false,
            _ => true,
        }
    }
}

} // verus!
