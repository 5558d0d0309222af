use blackjack_rl::deck::Deck;
use blackjack_rl::hand::Hand;
use std::cmp::Ordering;

#[test]
fn test_hand_with_ace_1st() {
    let hand = Hand::from(1, 2);

    assert_eq!(hand.ace, true);
    assert_eq!(hand.sum, 13);
}

#[test]
fn test_hand_with_ace_2nd() {
    let hand = Hand::from(5, 1);

    assert_eq!(hand.ace, true);
    assert_eq!(hand.sum, 16);
}

#[test]
fn test_hand_with_two_aces() {
    let hand = Hand::from(1, 1);

    assert_eq!(hand.ace, true);
    assert_eq!(hand.sum, 12);
}

#[test]
fn test_hand_with_no_aces() {
    let hand = Hand::from(5, 6);

    assert_eq!(hand.ace, false);
    assert_eq!(hand.sum, 11);
}

#[test]
fn test_hand_with_no_aces_hits_ace() {
    let hand = Hand::from(3, 6).hit(1);

    assert_eq!(hand.ace, true);
    assert_eq!(hand.sum, 20);
}

#[test]
fn test_hand_with_no_aces_hits_ace_too_high() {
    let hand = Hand::from(5, 6).hit(1);

    assert_eq!(hand.ace, false);
    assert_eq!(hand.sum, 12);
}

#[test]
fn test_busted_hand() {
    let hand = Hand::from(10, 6);
    assert_eq!(hand.sum, 16);

    let hit_hand = hand.hit(10);

    assert!(hit_hand.is_bust());
    assert_eq!(hit_hand.sum, 26);
}

#[test]
fn test_not_busted_hand() {
    let hand = Hand::from(10, 6);
    assert_eq!(hand.sum, 16);

    let hit_hand = hand.hit(2);

    assert!(!hit_hand.is_bust());
    assert_eq!(hit_hand.sum, 18);
}

#[test]
fn test_blackjack_with_ace_1st() {
    let hand = Hand::from(1, 10);
    assert_eq!(hand.sum, 21);
    assert!(!hand.is_bust());
}

#[test]
fn test_blackjack_with_ace_2nd() {
    let hand = Hand::from(10, 1);
    assert_eq!(hand.sum, 21);
    assert!(!hand.is_bust());
}

#[test]
fn test_blackjack_no_ace() {
    let hand = Hand::from(10, 5).hit(6);

    assert_eq!(hand.sum, 21);
    assert!(!hand.is_bust());
}

#[test]
fn test_winning_hand() {
    let hand1 = Hand::from(10, 5).hit(6);
    assert_eq!(hand1.sum, 21);
    assert!(!hand1.is_bust());

    let hand2 = Hand::from(5, 7).hit(8);
    assert_eq!(hand2.sum, 20);
    assert!(!hand2.is_bust());

    assert_ne!(hand1, hand2);
    assert!(hand1 > hand2);
    assert!(hand2 < hand1);
}

#[test]
fn test_winning_against_bustedhand() {
    let hand1 = Hand::from(10, 5).hit(8);
    assert_eq!(hand1.sum, 23);
    assert!(hand1.is_bust());

    let hand2 = Hand::from(5, 7).hit(8);
    assert_eq!(hand2.sum, 20);
    assert!(!hand2.is_bust());

    assert_ne!(hand1, hand2);
    assert!(hand1 < hand2);
    assert!(hand2 > hand1);
}


#[test]
fn test_deal_hand() {
    let mut deck = Deck::new_shuffled();

    let card1 = deck.deal().unwrap();
    let card2 = deck.deal().unwrap();
    let hand = Hand::from(card1, card2);

    if (card1 == 1) || (card2 == 1) {
        assert_eq!(hand.ace, true);
        assert_eq!(hand.sum, card1 + card2 + 10);
    } else {
        assert_eq!(hand.ace, false);
        assert_eq!(hand.sum, card1 + card2);
    }
}

#[test]
fn ace_then_ten_is_a_soft_twenty_one() {
    let hand = Hand::new().hit(1).hit(10);
    assert_eq!(hand, Hand { sum: 21, ace: true });
}

#[test]
fn ace_is_demoted_when_eleven_would_bust() {
    let hand = Hand::new().hit(5).hit(6).hit(1);
    assert_eq!(hand, Hand { sum: 12, ace: false });
}

#[test]
fn soft_hand_demotes_its_ace_instead_of_busting() {
    let hand = Hand::from(1, 6).hit(9);
    assert_eq!(hand, Hand { sum: 16, ace: false });
    assert!(!hand.is_bust());
}

#[test]
fn empty_hand() {
    assert_eq!(Hand::new(), Hand { sum: 0, ace: false });
}

#[test]
fn bust_hand_ranks_below_any_standing_hand() {
    let bust = Hand { sum: 23, ace: false };
    let standing = Hand { sum: 20, ace: false };
    assert_eq!(bust.partial_cmp(&standing), Some(Ordering::Less));
    assert_eq!(standing.partial_cmp(&bust), Some(Ordering::Greater));
    let low = Hand { sum: 4, ace: false };
    assert!(bust < low);
}

#[test]
fn two_bust_hands_have_no_order() {
    let a = Hand { sum: 23, ace: false };
    let b = Hand { sum: 25, ace: false };
    assert_eq!(a.partial_cmp(&b), None);
    assert_eq!(a.compare(&b), None);
}

#[test]
fn equal_totals_rank_equal() {
    let soft = Hand { sum: 18, ace: true };
    let hard = Hand { sum: 18, ace: false };
    assert_eq!(soft.partial_cmp(&hard), Some(Ordering::Equal));
}
