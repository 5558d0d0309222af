use blackjack_rl::deck::Deck;
use blackjack_rl::round::{Outcome, RoundError, RoundState};

#[test]
fn test_losing_round() {
    let cards: [u8; 10] = [1, 2, 3, 4, 5, 6, 7, 8, 9, 10];
    let mut deck = Deck::new_rigged(&cards);

    let start = RoundState::new(&mut deck);
    println!("Player got: {:?}", start.player);
    println!("Dealer got: {:?}", start.dealer);

    assert!(!start.finished());
    assert!(!start.lost());
    assert!(!start.won());
    assert!(!start.draw());

    let after_hit = start.hit(&mut deck).unwrap();
    println!("Player sum is: {:?}", after_hit.player);

    assert!(!after_hit.finished());
    assert!(!after_hit.lost());
    assert!(!after_hit.won());
    assert!(!after_hit.draw());

    let after_stand = after_hit.stand(&mut deck).unwrap();
    println!("Round finished: {:?}", after_stand);

    assert!(after_stand.finished());
    assert!(after_stand.lost());
    assert!(!after_stand.won());
    assert!(!after_stand.draw());
}

#[test]
fn test_bust_round() {
    let cards: [u8; 10] = [10, 2, 3, 6, 9, 6, 7, 8, 9, 10];
    let mut deck = Deck::new_rigged(&cards);

    let start = RoundState::new(&mut deck);
    println!("Player got: {:?}", start.player);
    println!("Dealer got: {:?}", start.dealer);

    assert!(!start.finished());
    assert!(!start.lost());
    assert!(!start.won());
    assert!(!start.draw());

    let after_hit = start.hit(&mut deck).unwrap();
    println!("Player sum is: {:?}", after_hit.player);

    assert!(!after_hit.finished());
    assert!(!after_hit.lost());
    assert!(!after_hit.won());
    assert!(!after_hit.draw());

    let after_hit2 = after_hit.hit(&mut deck).unwrap();
    println!("Player sum is: {:?}", after_hit2.player);

    assert!(after_hit2.player.is_bust());
    assert!(after_hit2.finished());
    assert!(after_hit2.lost());
    assert!(!after_hit2.won());
    assert!(!after_hit2.draw());

    println!("Round finished: {:?}", after_hit2);
}

#[test]
fn test_draw_round() {
    let cards: [u8; 10] = [10, 2, 2, 6, 10, 6, 7, 8, 9, 10];
    let mut deck = Deck::new_rigged(&cards);

    let start = RoundState::new(&mut deck);
    println!("Player got: {:?}", start.player);
    println!("Dealer got: {:?}", start.dealer);

    assert!(!start.finished());
    assert!(!start.lost());
    assert!(!start.won());
    assert!(!start.draw());

    let after_hit = start.hit(&mut deck).unwrap();
    println!("Player sum is: {:?}", after_hit.player);

    assert!(!after_hit.finished());
    assert!(!after_hit.lost());
    assert!(!after_hit.won());
    assert!(!after_hit.draw());

    let after_stand = after_hit.stand(&mut deck).unwrap();
    println!("Round finished: {:?}", after_stand);

    assert!(after_stand.finished());
    assert!(!after_stand.lost());
    assert!(!after_stand.won());
    assert!(after_stand.draw());
}

#[test]
fn test_dealer_bust_round() {
    let cards: [u8; 10] = [10, 2, 2, 6, 10, 3, 7, 8, 9, 10];
    let mut deck = Deck::new_rigged(&cards);

    let start = RoundState::new(&mut deck);
    println!("Player got: {:?}", start.player);
    println!("Dealer got: {:?}", start.dealer);

    assert!(!start.finished());
    assert!(!start.lost());
    assert!(!start.won());
    assert!(!start.draw());

    let after_hit = start.hit(&mut deck).unwrap();
    println!("Player sum is: {:?}", after_hit.player);

    assert!(!after_hit.finished());
    assert!(!after_hit.lost());
    assert!(!after_hit.won());
    assert!(!after_hit.draw());

    let after_stand = after_hit.stand(&mut deck).unwrap();
    println!("Round finished: {:?}", after_stand);

    assert!(after_stand.dealer.is_bust());
    assert!(after_stand.finished());
    assert!(!after_stand.lost());
    assert!(after_stand.won());
    assert!(!after_stand.draw());
}

#[test]
fn test_win_round() {
    let cards: [u8; 10] = [10, 3, 2, 6, 10, 6, 7, 8, 9, 10];
    let mut deck = Deck::new_rigged(&cards);

    let start = RoundState::new(&mut deck);
    println!("Player got: {:?}", start.player);
    println!("Dealer got: {:?}", start.dealer);

    assert!(!start.finished());
    assert!(!start.lost());
    assert!(!start.won());
    assert!(!start.draw());

    let after_hit = start.hit(&mut deck).unwrap();
    println!("Player sum is: {:?}", after_hit.player);

    assert!(!after_hit.finished());
    assert!(!after_hit.lost());
    assert!(!after_hit.won());
    assert!(!after_hit.draw());

    let after_stand = after_hit.stand(&mut deck).unwrap();
    println!("Round finished: {:?}", after_stand);

    assert!(after_stand.finished());
    assert!(!after_stand.lost());
    assert!(after_stand.won());
    assert!(!after_stand.draw());
}

#[test]
fn test_card_hilo() {
    assert_eq!(RoundState::card_hilo(2), 1);
    assert_eq!(RoundState::card_hilo(3), 1);
    assert_eq!(RoundState::card_hilo(4), 1);
    assert_eq!(RoundState::card_hilo(5), 1);
    assert_eq!(RoundState::card_hilo(6), 1);
    assert_eq!(RoundState::card_hilo(7), 0);
    assert_eq!(RoundState::card_hilo(8), 0);
    assert_eq!(RoundState::card_hilo(9), 0);
    assert_eq!(RoundState::card_hilo(10), -1);
    assert_eq!(RoundState::card_hilo(1), -1);
}

#[test]
fn test_hilo_counting_level() {
    let cards: [u8; 10] = [10, 9, 6, 2, 10, 6, 7, 8, 9, 10];
    let mut deck = Deck::new_rigged(&cards);

    let start = RoundState::new(&mut deck);
    println!("Player got: {:?}", start.player);
    println!("Dealer got: {:?}", start.dealer);

    assert_eq!(start.hilo, 0);
}

#[test]
fn test_hilo_counting_lo() {
    let cards: [u8; 10] = [10, 10, 10, 1, 10, 1, 10, 10, 8, 9];
    let mut deck = Deck::new_rigged(&cards);

    let start = RoundState::new(&mut deck);
    println!("Player got: {:?}", start.player);
    println!("Dealer got: {:?}", start.dealer);

    assert_eq!(start.hilo, -3);

    let after_hit = start.hit(&mut deck).unwrap();
    println!("After hit: {:?}", after_hit);
    assert_eq!(after_hit.hilo, -4);

    let after_stand = after_hit.stand(&mut deck).unwrap();
    println!("End of round: {:?}", after_stand);
    assert_eq!(after_stand.hilo, -5);
}

#[test]
fn test_hilo_counting_hi() {
    let cards: [u8; 10] = [2, 2, 3, 4, 5, 6, 5, 4, 3, 2];
    let mut deck = Deck::new_rigged(&cards);

    let start = RoundState::new(&mut deck);
    println!("Player got: {:?}", start.player);
    println!("Dealer got: {:?}", start.dealer);

    assert_eq!(start.hilo, 3);

    let after_hit = start.hit(&mut deck).unwrap();
    println!("After hit: {:?}", after_hit);
    assert_eq!(after_hit.hilo, 4);

    let after_stand = after_hit.stand(&mut deck).unwrap();
    println!("End of round: {:?}", after_stand);
    assert_eq!(after_stand.hilo, 7);
}

#[test]
fn test_hilo_counting_0() {
    let cards: [u8; 10] = [7, 7, 7, 7, 7, 8, 8, 7, 7, 9];
    let mut deck = Deck::new_rigged(&cards);

    let start = RoundState::new(&mut deck);
    println!("Player got: {:?}", start.player);
    println!("Dealer got: {:?}", start.dealer);

    assert_eq!(start.hilo, 0);

    let after_hit = start.hit(&mut deck).unwrap();
    println!("After hit: {:?}", after_hit);
    assert_eq!(after_hit.hilo, 0);

    let after_stand = after_hit.stand(&mut deck).unwrap();
    println!("End of round: {:?}", after_stand);
    assert_eq!(after_stand.hilo, 0);
}

fn contribution(card: u8) -> i32 {
    match card {
        2..=6 => 1,
        7..=9 => 0,
        _ => -1,
    }
}

#[test]
fn dealer_bust_wins_for_the_player() {
    let cards: [u8; 10] = [10, 2, 2, 6, 10, 3, 7, 8, 9, 10];
    let mut deck = Deck::new_rigged(&cards);
    let start = RoundState::new(&mut deck);
    let after_stand = start.hit(&mut deck).unwrap().stand(&mut deck).unwrap();
    assert_eq!(after_stand.outcome, Outcome::Won);
    assert!(after_stand.dealer.is_bust());
}

#[test]
fn ordered_cards_lose_after_hit_and_stand() {
    let cards: [u8; 10] = [1, 2, 3, 4, 5, 6, 7, 8, 9, 10];
    let mut deck = Deck::new_rigged(&cards);
    let start = RoundState::new(&mut deck);
    let after_stand = start.hit(&mut deck).unwrap().stand(&mut deck).unwrap();
    assert_eq!(after_stand.outcome, Outcome::Lost);
}

#[test]
fn dealer_ends_at_seventeen_or_more() {
    for first in 1..=10u8 {
        let cards: [u8; 12] = [10, 7, first, 2, 2, 2, 2, 3, 3, 3, 4, 10];
        let mut deck = Deck::new_rigged(&cards);
        let start = RoundState::new(&mut deck);
        let end = start.stand(&mut deck).unwrap();
        assert!(end.dealer.sum >= 17);
        assert!(end.finished());
    }
}

#[test]
fn running_count_sums_every_dealt_card() {
    let cards: [u8; 12] = [2, 3, 1, 5, 2, 2, 2, 3, 3, 10, 4, 4];
    let mut deck = Deck::new_rigged(&cards);
    let start = RoundState::new_with_hilo(&mut deck, 5);
    let after_hit = start.hit(&mut deck).unwrap();
    let end = after_hit.stand(&mut deck).unwrap();
    let dealt = cards.len() - deck.len();
    let expected: i32 = 5 + cards[..dealt].iter().map(|c| contribution(*c)).sum::<i32>();
    assert_eq!(end.hilo, expected);
}

#[test]
fn terminal_round_rejects_moves() {
    let cards: [u8; 10] = [10, 9, 6, 2, 10, 6, 7, 8, 9, 10];
    let mut deck = Deck::new_rigged(&cards);
    let start = RoundState::new(&mut deck);
    let end = start.stand(&mut deck).unwrap();
    assert!(end.finished());
    let left = deck.len();
    assert_eq!(end.hit(&mut deck).unwrap_err(), RoundError::InvalidTransition);
    assert_eq!(end.stand(&mut deck).unwrap_err(), RoundError::InvalidTransition);
    assert_eq!(deck.len(), left);
}

#[test]
fn hit_on_an_empty_deck_fails() {
    let mut deck = Deck::new_rigged(&[10, 2, 5]);
    let start = RoundState::new(&mut deck);
    assert_eq!(start.hit(&mut deck).unwrap_err(), RoundError::EmptyDeck);
}

#[test]
fn stand_on_a_short_deck_fails() {
    let mut deck = Deck::new_rigged(&[10, 9, 2, 3]);
    let start = RoundState::new(&mut deck);
    assert_eq!(start.stand(&mut deck).unwrap_err(), RoundError::EmptyDeck);
    assert_eq!(deck.len(), 0);
}

#[test]
fn dealer_on_sixteen_draws_and_busts() {
    let mut deck = Deck::new_rigged(&[10, 10]);
    let round = RoundState {
        outcome: Outcome::Playing,
        player: blackjack_rl::hand::Hand { sum: 21, ace: false },
        dealer: blackjack_rl::hand::Hand { sum: 16, ace: false },
        hilo: 0,
    };
    let end = round.stand(&mut deck).unwrap();
    assert_eq!(end.dealer.sum, 26);
    assert_eq!(end.outcome, Outcome::Won);
    assert_eq!(end.hilo, -1);
    assert_eq!(deck.len(), 1);
}

#[test]
fn equal_totals_draw_even_when_one_is_soft() {
    let mut deck = Deck::new_rigged(&[7]);
    let round = RoundState {
        outcome: Outcome::Playing,
        player: blackjack_rl::hand::Hand { sum: 18, ace: false },
        dealer: blackjack_rl::hand::Hand { sum: 11, ace: true },
        hilo: 0,
    };
    let end = round.stand(&mut deck).unwrap();
    assert_eq!(end.dealer, blackjack_rl::hand::Hand { sum: 18, ace: true });
    assert_eq!(end.outcome, Outcome::Draw);
}

#[test]
fn two_bust_hands_cannot_be_ranked() {
    let mut deck = Deck::new_rigged(&[10]);
    let round = RoundState {
        outcome: Outcome::Playing,
        player: blackjack_rl::hand::Hand { sum: 23, ace: false },
        dealer: blackjack_rl::hand::Hand { sum: 16, ace: false },
        hilo: 0,
    };
    assert_eq!(round.stand(&mut deck).unwrap_err(), RoundError::UnorderableHands);
    assert_eq!(deck.len(), 0);
}
