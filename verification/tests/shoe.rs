use baccarat::card::{Card, Shoe, Suit};

#[test]
fn test_new_shoe() {
    let shoe = Shoe::new(8, 9000);
    let cards = shoe.get_next_cards();
    assert_eq!(cards[0], Card::new(Suit::Diamond, 1));
    assert_eq!(cards[51], Card::new(Suit::Spade, 13));
    assert_eq!(cards[52], Card::new(Suit::Diamond, 1));
}

#[test]
fn test_shuffle_with_firsts() {
    let firsts = [
        Card::new(Suit::Spade, 9),
        Card::new(Suit::Heart, 3),
        Card::new(Suit::Club, 13),
        Card::new(Suit::Diamond, 5),
    ];
    let mut shoe = Shoe::new(8, 9000);
    shoe.shuffle_with_firsts(&firsts);

    assert_eq!(shoe.get_index(), 0);

    // Check if cards' numbers are correct.
    assert_eq!(
        shoe.get_next_cards().len(),
        shoe.get_number_of_decks() as usize * 52
    );
    let mut count = [0; 52];
    for card in shoe.get_next_cards() {
        count[card.to_index()] += 1;
        if count[card.to_index()] > shoe.get_number_of_decks() {
            panic!("Card count is invalid")
        }
    }

    // Check if first few cards are fixed.
    for (i, card) in firsts.iter().enumerate() {
        assert_eq!(shoe.get_next_cards()[i], *card);
    }

    // Check if the rest is shuffled.
    let first_random_card = shoe.get_next_cards()[firsts.len()];
    let mut ok = false;
    for _ in 0..100 {
        shoe.shuffle_with_firsts(&firsts);
        if shoe.get_next_cards()[firsts.len()] != first_random_card {
            ok = true;
            break;
        }
    }
    assert!(ok);
}

#[test]
fn test_checking_cut_card_reached() {
    let mut shoe = Shoe::new(8, 9000);
    let cut_card_index = ((shoe.get_number_of_decks() * 52) as f64 * 0.9) as usize;
    assert!(!shoe.is_cut_card_reached());
    for _ in 0..cut_card_index - 1 {
        shoe.deal_card();
        assert!(!shoe.is_cut_card_reached());
    }
    shoe.deal_card();
    assert!(shoe.is_cut_card_reached());

    shoe.shuffle();
    assert_eq!(shoe.get_index(), 0);

    assert!(!shoe.is_cut_card_reached());
    for _ in 0..cut_card_index - 1 {
        shoe.deal_card();
        assert!(!shoe.is_cut_card_reached());
    }
    shoe.deal_card();
    assert!(shoe.is_cut_card_reached());
}

#[test]
fn shoe_is_laid_out_deck_by_deck() {
    let shoe = Shoe::new(2, 5000);
    let cards = shoe.get_next_cards();
    assert_eq!(cards.len(), 104);
    for (i, card) in cards.iter().enumerate() {
        assert_eq!(card.to_index(), i % 52);
        assert_eq!(*card, Card::from_index(i % 52));
    }
    assert_eq!(shoe.get_card_count(), &[2u32; 52]);
    assert_eq!(shoe.get_value_count(), &[8u32; 13]);
}

#[test]
fn dealing_counts_the_cards_that_are_left() {
    let mut shoe = Shoe::new(1, 10_000);
    let first = shoe.deal_card();
    assert_eq!(first, Card::new(Suit::Diamond, 1));
    assert_eq!(shoe.get_index(), 1);
    assert_eq!(shoe.get_card_count()[0], 0);
    assert_eq!(shoe.get_card_count()[1], 1);
    assert_eq!(shoe.get_value_count()[0], 3);
    assert_eq!(shoe.get_next_cards().len(), 51);
    assert_eq!(shoe.get_next_cards()[0], Card::new(Suit::Diamond, 2));

    shoe.retry_without_shuffle();
    assert_eq!(shoe.get_index(), 0);
    assert_eq!(shoe.get_card_count()[0], 1);
    assert_eq!(shoe.deal_card(), Card::new(Suit::Diamond, 1));
}

#[test]
fn cut_card_lies_after_the_whole_cards_of_the_proportion() {
    // 52 cards, 25 parts in 100: 13 cards come before the cut card.
    let mut shoe = Shoe::new(1, 2500);
    for _ in 0..12 {
        shoe.deal_card();
    }
    assert!(!shoe.is_cut_card_reached());
    shoe.deal_card();
    assert!(shoe.is_cut_card_reached());

    // 52 cards, 1 part in 100: 0.52 of a card, so the cut card comes first.
    let shoe = Shoe::new(1, 100);
    assert!(shoe.is_cut_card_reached());
}

#[test]
fn shuffle_keeps_every_card_once_per_deck() {
    let mut shoe = Shoe::new(3, 9000);
    shoe.deal_card();
    shoe.shuffle();
    let mut count = [0u32; 52];
    for card in shoe.get_next_cards() {
        count[card.to_index()] += 1;
    }
    assert_eq!(count, [3u32; 52]);
    assert_eq!(shoe.get_card_count(), &[3u32; 52]);
}

#[test]
fn card_indices() {
    let card = Card::from_index(51);
    assert_eq!(card, Card::new(Suit::Spade, 13));
    assert_eq!(card.to_index(), 51);
    assert_eq!(card.to_value_index(), 12);
    assert_eq!(card.to_bcr_value_index(), 0);
    let card = Card::from_index(13);
    assert_eq!(card, Card::new(Suit::Club, 1));
    assert_eq!(card.to_bcr_value_index(), 1);
    assert_eq!(Card::new(Suit::Heart, 9).to_bcr_value_index(), 9);
    assert_eq!(Card::new(Suit::Heart, 10).to_bcr_value_index(), 0);
    assert_eq!(Card::new(Suit::Heart, 11).to_bcr_value_index(), 0);
    assert_eq!(Card::new(Suit::Heart, 12).to_index(), 26 + 11);
    for i in 0..52 {
        assert_eq!(Card::from_index(i).to_index(), i);
    }
}

#[test]
fn cards_are_written_with_two_letters() {
    assert_eq!(Card::new(Suit::Diamond, 1).letters(), ('d', 'A'));
    assert_eq!(Card::new(Suit::Club, 7).letters(), ('c', '7'));
    assert_eq!(Card::new(Suit::Heart, 10).letters(), ('h', 'T'));
    assert_eq!(Card::new(Suit::Spade, 11).letters(), ('s', 'J'));
    assert_eq!(Card::new(Suit::Spade, 12).letters(), ('s', 'Q'));
    assert_eq!(Card::new(Suit::Spade, 13).letters(), ('s', 'K'));
}
