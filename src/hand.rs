use core::cmp::Ordering;
use vstd::prelude::*;

verus! {

/// A blackjack hand: its total and whether an ace is counted as eleven.
#[derive(Debug, Copy, Clone, Hash, PartialEq, Eq, Structural)]
pub struct Hand {
    pub sum: u8,
    pub ace: bool,
}

/// The hand after taking `card`: an ace counts as eleven while that keeps the
/// total at 21 or under; a soft hand that would go over 21 demotes its ace.
pub open spec fn hit_spec(h: Hand, card: u8) -> Hand {
    let new_sum = h.sum + card;
    if card == 1 && new_sum + 10 <= 21 {
        Hand { sum: (new_sum + 10) as u8, ace: true }
    } else if new_sum > 21 && h.ace {
        Hand { sum: (new_sum - 10) as u8, ace: false }
    } else {
        Hand { sum: new_sum as u8, ace: h.ace }
    }
}

/// Bust-aware ordering: a bust hand is below every other hand, two bust hands
/// have no order, and otherwise the higher total wins.
pub open spec fn compare_spec(a: Hand, b: Hand) -> Option<Ordering> {
    if a.sum > 21 && b.sum > 21 {
        None
    } else if a.sum > 21 {
        Some(Ordering::Less)
    } else if b.sum > 21 {
        Some(Ordering::Greater)
    } else if a.sum < b.sum {
        Some(Ordering::Less)
    } else if a.sum > b.sum {
        Some(Ordering::Greater)
    } else {
        Some(Ordering::Equal)
    }
}

impl Hand {
    /// The total is over 21.
    pub open spec fn is_bust_spec(&self) -> bool {
        self.sum > 21
    }

    /// An ace counts as eleven only while the total stays at 21 or under.
    pub open spec fn soft_ok(&self) -> bool {
        self.ace ==> self.sum <= 21
    }

    /// The empty hand.
    pub fn new() -> (r: Hand)
        ensures
            r == (Hand { sum: 0, ace: false }),
            r.soft_ok(),
    {
        Hand { sum: 0, ace: false }
    }

    /// The hand of two cards, dealt in this order.
    pub fn from(c1: u8, c2: u8) -> (r: Hand)
        requires
            hit_spec(Hand { sum: 0, ace: false }, c1).sum + c2 <= u8::MAX,
        ensures
            r == hit_spec(hit_spec(Hand { sum: 0, ace: false }, c1), c2),
            r.soft_ok(),
    {
        Hand::new().hit(c1).hit(c2)
    }

    /// The hand after taking one more card.
    pub fn hit(&self, card: u8) -> (r: Hand)
        requires
            self.sum as int + card as int <= u8::MAX,
        ensures
            r == hit_spec(*self, card),
            self.soft_ok() ==> r.soft_ok(),
    {
        let new_sum: u8 = self.sum + card;
        if card == 1 && new_sum <= 11 {
            Hand { sum: new_sum + 10, ace: true }
        } else if new_sum > 21 && self.ace {
            Hand { sum: new_sum - 10, ace: false }
        } else {
            Hand { sum: new_sum, ace: self.ace }
        }
    }

    /// Whether the total is over 21.
    pub fn is_bust(&self) -> (r: bool)
        ensures
            r == self.is_bust_spec(),
    {
        self.sum > 21
    }

    /// Compares two hands by the bust-aware ordering.
    pub fn compare(&self, other: &Hand) -> (r: Option<Ordering>)
        ensures
            r == compare_spec(*self, *other),
    {
        if self.is_bust() && other.is_bust() {
            None
        } else if self.is_bust() {
            Some(Ordering::Less)
        } else if other.is_bust() {
            Some(Ordering::Greater)
        } else if self.sum < other.sum {
            Some(Ordering::Less)
        } else if self.sum > other.sum {
            Some(Ordering::Greater)
        } else {
            Some(Ordering::Equal)
        }
    }
}

impl PartialOrd for Hand {
    fn partial_cmp(&self, other: &Hand) -> (r: Option<Ordering>) {
        self.compare(other)
    }
}

impl vstd::std_specs::cmp::PartialOrdSpecImpl for Hand {
    open spec fn obeys_partial_cmp_spec() -> bool {
        true
    }

    open spec fn partial_cmp_spec(&self, other: &Hand) -> Option<Ordering> {
        compare_spec(*self, *other)
    }
}

/// The total with every ace counted as one.
pub open spec fn hard_total(h: Hand) -> int {
    h.sum - if h.ace {
        10int
    } else {
        0int
    }
}

/// Every card raises the hard total by at least one.
pub proof fn lemma_hit_raises_hard_total(h: Hand, card: u8)
    requires
        1 <= card <= 10,
        h.sum + card + 10 <= u8::MAX,
    ensures
        hard_total(hit_spec(h, card)) >= hard_total(h) + 1,
        hard_total(hit_spec(h, card)) <= hit_spec(h, card).sum,
{
}

/// A bust hand ranks below every hand that is not bust, whatever the totals.
pub proof fn lemma_bust_ranks_lowest(bust: Hand, other: Hand)
    requires
        bust.sum > 21,
        other.sum <= 21,
    ensures
        compare_spec(bust, other) == Some(Ordering::Less),
        compare_spec(other, bust) == Some(Ordering::Greater),
{
}

} // verus!
