use std::collections::VecDeque;
use vstd::prelude::*;

use crate::random::{random_below, shuffle_in_place};

verus! {

broadcast use vstd::seq_lib::group_to_multiset_ensures;

/// A card rank: 1 is an ace, 10 stands for the ten and the face cards.
pub open spec fn valid_card(c: u8) -> bool {
    1 <= c <= 10
}

/// Every card of `s` is a valid rank.
pub open spec fn all_valid(s: Seq<u8>) -> bool {
    forall|i: int| 0 <= i < s.len() ==> #[trigger] valid_card(s[i])
}

/// The rank at position `i` of an ordered deck: each suit runs ace to ten and
/// then three more tens for the face cards.
pub open spec fn ordered_rank(i: int) -> u8 {
    if i % 13 + 1 > 10 {
        10
    } else {
        (i % 13 + 1) as u8
    }
}

/// The 52 cards of an ordered deck.
pub open spec fn ordered_deck() -> Seq<u8> {
    Seq::new(52, |i: int| ordered_rank(i))
}

/// How many cards of rank `r` the first `k` cards of an ordered deck hold.
pub open spec fn ordered_prefix_count(k: int, r: u8) -> int {
    if 1 <= r <= 9 {
        k / 13 + if k % 13 >= r as int {
            1int
        } else {
            0int
        }
    } else if r == 10 {
        4 * (k / 13) + if k % 13 > 9 {
            k % 13 - 9
        } else {
            0int
        }
    } else {
        0
    }
}

proof fn lemma_ordered_prefix_count(k: int, r: u8)
    requires
        0 <= k <= 52,
    ensures
        ordered_deck().take(k).to_multiset().count(r) == ordered_prefix_count(k, r),
    decreases k,
{
    if k == 0 {
        assert(ordered_deck().take(0) =~= Seq::<u8>::empty());
    } else {
        lemma_ordered_prefix_count(k - 1, r);
        let s = ordered_deck().take(k - 1);
        assert(ordered_deck().take(k) =~= s.push(ordered_rank(k - 1)));
        vstd::seq_lib::to_multiset_build(s, ordered_rank(k - 1));
    }
}

/// An ordered deck holds 52 cards: four of each rank from 1 to 9 and sixteen
/// of rank 10, and no other rank.
pub proof fn lemma_ordered_deck_composition()
    ensures
        ordered_deck().len() == 52,
        all_valid(ordered_deck()),
        forall|r: u8| 1 <= r <= 9 ==> #[trigger] ordered_deck().to_multiset().count(r) == 4,
        ordered_deck().to_multiset().count(10) == 16,
        forall|r: u8| !valid_card(r) ==> #[trigger] ordered_deck().to_multiset().count(r) == 0,
{
    assert(ordered_deck().take(52) =~= ordered_deck());
    assert forall|r: u8| 1 <= r <= 9 implies #[trigger] ordered_deck().to_multiset().count(r)
        == 4 by {
        lemma_ordered_prefix_count(52, r);
    }
    lemma_ordered_prefix_count(52, 10);
    assert forall|r: u8| !valid_card(r) implies #[trigger] ordered_deck().to_multiset().count(r)
        == 0 by {
        lemma_ordered_prefix_count(52, r);
    }
}

/// One deal from a deck holding `cards`: the front card and the cards left,
/// or nothing from an empty deck.
pub open spec fn deal_step(cards: Seq<u8>) -> (Option<u8>, Seq<u8>) {
    if cards.len() == 0 {
        (None, cards)
    } else {
        (Some(cards[0]), cards.drop_first())
    }
}

/// The cards left after `k` deals.
pub open spec fn after_deals(cards: Seq<u8>, k: nat) -> Seq<u8>
    decreases k,
{
    if k == 0 {
        cards
    } else {
        deal_step(after_deals(cards, (k - 1) as nat)).1
    }
}

/// A deck that holds `cards` deals them in order: after `k` deals it holds
/// the cards after the first `k`, and the next deal gives `cards[k]`, or
/// nothing once all are dealt.
pub proof fn lemma_rigged_deals_in_order(cards: Seq<u8>, k: nat)
    requires
        k <= cards.len(),
    ensures
        after_deals(cards, k) == cards.skip(k as int),
        deal_step(after_deals(cards, k)).0 == if k < cards.len() {
            Some(cards[k as int])
        } else {
            None::<u8>
        },
    decreases k,
{
    if k > 0 {
        lemma_rigged_deals_in_order(cards, (k - 1) as nat);
        assert(cards.skip(k - 1).drop_first() =~= cards.skip(k as int));
    } else {
        assert(cards.skip(0) =~= cards);
    }
}

/// A source of cards, dealt from the front.
#[derive(Debug, Clone)]
pub struct Deck {
    cards: VecDeque<u8>,
}

impl View for Deck {
    type V = Seq<u8>;

    closed spec fn view(&self) -> Seq<u8> {
        self.cards@
    }
}

impl Deck {
    /// An ordered deck.
    pub fn new() -> (r: Deck)
        ensures
            r@ == ordered_deck(),
            all_valid(r@),
    {
        Deck { cards: Deck::vec_to_deque(Deck::init_cards()) }
    }

    /// A deck with the cards of an ordered deck in random order.
    pub fn new_shuffled() -> (r: Deck)
        ensures
            r@.len() == 52,
            r@.to_multiset() == ordered_deck().to_multiset(),
            all_valid(r@),
    {
        let mut cards = Deck::init_cards();
        shuffle_in_place(&mut cards);
        proof {
            assert forall|i: int| 0 <= i < cards@.len() implies #[trigger] valid_card(cards@[i]) by {
                assert(cards@.to_multiset().count(cards@[i]) > 0);
                assert(ordered_deck().contains(cards@[i]));
            }
        }
        Deck { cards: Deck::vec_to_deque(cards) }
    }

    /// A deck that deals exactly the given cards, in the given order.
    pub fn new_rigged(cards: &[u8]) -> (r: Deck)
        requires
            all_valid(cards@),
        ensures
            r@ == cards@,
            all_valid(r@),
    {
        let mut deque: VecDeque<u8> = VecDeque::new();
        let mut i: usize = 0;
        while i < cards.len()
            invariant
                i <= cards@.len(),
                deque@ == cards@.take(i as int),
                all_valid(cards@),
            decreases cards@.len() - i,
        {
            deque.push_back(cards[i]);
            i = i + 1;
            proof {
                assert(deque@ =~= cards@.take(i as int));
            }
        }
        proof {
            assert(deque@ =~= cards@);
        }
        Deck { cards: deque }
    }

    fn vec_to_deque(cards: Vec<u8>) -> (r: VecDeque<u8>)
        requires
            all_valid(cards@),
        ensures
            r@ == cards@,
    {
        let mut deque: VecDeque<u8> = VecDeque::new();
        let mut i: usize = 0;
        while i < cards.len()
            invariant
                i <= cards@.len(),
                deque@ == cards@.take(i as int),
            decreases cards@.len() - i,
        {
            deque.push_back(cards[i]);
            i = i + 1;
            proof {
                assert(deque@ =~= cards@.take(i as int));
            }
        }
        proof {
            assert(deque@ =~= cards@);
        }
        deque
    }

    /// The cards of an ordered deck, suit after suit.
    fn init_cards() -> (r: Vec<u8>)
        ensures
            r@ == ordered_deck(),
            all_valid(r@),
    {
        let mut cards: Vec<u8> = Vec::new();
        let mut i: usize = 0;
        while i < 52
            invariant
                i <= 52,
                cards@ == ordered_deck().take(i as int),
            decreases 52 - i,
        {
            let rank: usize = i % 13 + 1;
            let card: u8 = if rank > 10 {
                10
            } else {
                rank as u8
            };
            cards.push(card);
            i = i + 1;
            proof {
                assert(cards@ =~= ordered_deck().take(i as int));
            }
        }
        proof {
            assert(cards@ =~= ordered_deck());
        }
        cards
    }

    /// Takes the next card, or `None` when the deck is empty.
    pub fn deal(&mut self) -> (r: Option<u8>)
        requires
            all_valid(old(self)@),
        ensures
            all_valid(final(self)@),
            (r, final(self)@) == deal_step(old(self)@),
            r matches Some(c) ==> valid_card(c),
    {
        let r = self.cards.pop_front();
        proof {
            if old(self)@.len() > 0 {
                assert(valid_card(old(self)@[0]));
            }
            assert forall|i: int| 0 <= i < self.cards@.len() implies #[trigger] valid_card(
                self.cards@[i],
            ) by {
                assert(self.cards@[i] == old(self)@[i + 1]);
            }
        }
        r
    }

    /// Puts the remaining cards in a uniformly random order, by swapping each
    /// position from the last down with a randomly chosen earlier one.
    pub fn shuffle(&mut self)
        requires
            all_valid(old(self)@),
        ensures
            all_valid(final(self)@),
            final(self)@.len() == old(self)@.len(),
            final(self)@.to_multiset() == old(self)@.to_multiset(),
    {
        let mut cards: Vec<u8> = Vec::new();
        let ghost remaining = self.cards@;
        while self.cards.len() > 0
            invariant
                cards@ + self.cards@ == remaining,
                all_valid(remaining),
            decreases self.cards@.len(),
        {
            let c = self.cards.pop_front();
            if let Some(c) = c {
                cards.push(c);
            }
            proof {
                assert(cards@ + self.cards@ =~= remaining);
            }
        }
        proof {
            assert(cards@ =~= remaining);
        }
        let mut i: usize = cards.len();
        while i > 1
            invariant
                i <= cards@.len(),
                cards@.len() == remaining.len(),
                cards@.to_multiset() == remaining.to_multiset(),
                all_valid(remaining),
            decreases i,
        {
            i = i - 1;
            let v = random_below(i + 1);
            let a = cards[i];
            let b = cards[v];
            let ghost before = cards@;
            cards[i] = b;
            cards[v] = a;
            proof {
                assert(cards@ =~= before.update(i as int, b).update(v as int, a));
                vstd::seq_lib::to_multiset_update(before, i as int, b);
                vstd::seq_lib::to_multiset_update(before.update(i as int, b), v as int, a);
            }
        }
        proof {
            assert forall|k: int| 0 <= k < cards@.len() implies #[trigger] valid_card(cards@[k]) by {
                assert(cards@.to_multiset().count(cards@[k]) > 0);
                assert(remaining.contains(cards@[k]));
            }
        }
        self.cards = Deck::vec_to_deque(cards);
    }

    /// The next card to be dealt, if any, without dealing it.
    pub fn peek(&self) -> (r: Option<u8>)
        ensures
            self@.len() == 0 ==> r is None,
            self@.len() > 0 ==> r == Some(self@[0]),
    {
        if self.cards.len() == 0 {
            None
        } else {
            Some(self.cards[0])
        }
    }

    /// The cards left, in the order they will be dealt.
    pub fn to_vec(&self) -> (r: Vec<u8>)
        ensures
            r@ == self@,
    {
        let mut r: Vec<u8> = Vec::new();
        let mut i: usize = 0;
        while i < self.cards.len()
            invariant
                i <= self@.len(),
                r@ == self@.take(i as int),
            decreases self@.len() - i,
        {
            r.push(self.cards[i]);
            i = i + 1;
            proof {
                assert(r@ =~= self@.take(i as int));
            }
        }
        proof {
            assert(r@ =~= self@);
        }
        r
    }

    /// How many cards are left.
    pub fn len(&self) -> (r: usize)
        ensures
            r == self@.len(),
    {
        self.cards.len()
    }
}

} // verus!
