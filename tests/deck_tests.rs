use blackjack_rl::deck::Deck;

fn count_out_of_place(v1: &[u8], v2: &[u8]) -> usize {
    let mut out_of_place = 0;
    for i in 0..v1.len() {
        if v1[i] != v2[i] {
            out_of_place += 1;
        }
    }
    println!("Shuffled deck has {} out of place", out_of_place);
    out_of_place
}

#[test]
fn test_deck_size() {
    let deck = Deck::new();

    assert_eq!(52, deck.len());
}

#[test]
fn test_new_deck_cards() {
    let deck = Deck::new();

    for (i, card) in deck.to_vec().iter().enumerate() {
        let rem = (i % 13) + 1;
        let expected = if rem > 10 { 10 } else { rem } as u8;

        assert_eq!(expected, *card);
    }
}

#[test]
fn test_new_rigged_deck() {
    let cards: [u8; 5] = [1, 2, 3, 4, 5];
    let mut deck = Deck::new_rigged(&cards);

    assert_eq!(deck.len(), cards.len());
    for i in 0..cards.len() {
        assert_eq!(deck.deal().unwrap(), cards[i]);
    }
}

#[test]
fn test_deal() {
    let mut deck = Deck::new_shuffled();
    let card = deck.peek().unwrap();

    let dealt_card = deck.deal();
    assert!(dealt_card.is_some());
    assert_eq!(card, dealt_card.unwrap());
}

#[test]
fn test_new_shuffled_deck() {
    let deck = Deck::new();
    let shuffled = Deck::new_shuffled();

    let out_of_place = count_out_of_place(&deck.to_vec(), &shuffled.to_vec());
    assert!(out_of_place > 0);
}

#[test]
fn test_deck_in_place_shuffling() {
    let deck = Deck::new();
    let mut shuffled = Deck::new();
    shuffled.shuffle();

    let out_of_place = count_out_of_place(&deck.to_vec(), &shuffled.to_vec());
    assert!(out_of_place > 0);
}

fn rank_counts(cards: &[u8]) -> [usize; 11] {
    let mut counts = [0usize; 11];
    for c in cards {
        counts[*c as usize] += 1;
    }
    counts
}

#[test]
fn fresh_deck_has_four_of_each_rank_and_sixteen_tens() {
    let counts = rank_counts(&Deck::new().to_vec());
    assert_eq!(counts[0], 0);
    for rank in 1..=9 {
        assert_eq!(counts[rank], 4);
    }
    assert_eq!(counts[10], 16);
}

#[test]
fn shuffled_decks_keep_the_composition() {
    let expected = rank_counts(&Deck::new().to_vec());
    let shuffled = Deck::new_shuffled();
    assert_eq!(shuffled.len(), 52);
    assert_eq!(rank_counts(&shuffled.to_vec()), expected);

    let mut reshuffled = Deck::new();
    reshuffled.shuffle();
    assert_eq!(reshuffled.len(), 52);
    assert_eq!(rank_counts(&reshuffled.to_vec()), expected);
}

#[test]
fn rigged_deck_deals_in_order_then_runs_out() {
    let mut deck = Deck::new_rigged(&[10, 1, 7]);
    assert_eq!(deck.deal(), Some(10));
    assert_eq!(deck.deal(), Some(1));
    assert_eq!(deck.len(), 1);
    assert_eq!(deck.deal(), Some(7));
    assert_eq!(deck.deal(), None);
    assert_eq!(deck.len(), 0);
    assert_eq!(deck.peek(), None);
}

#[test]
fn empty_rigged_deck_deals_nothing() {
    let mut deck = Deck::new_rigged(&[]);
    assert_eq!(deck.len(), 0);
    assert_eq!(deck.deal(), None);
}
