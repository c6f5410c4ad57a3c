use card_pairs::card::{shuffle, Card, Cards, Shuffler, StoredCard, DECK_SIZE, MAX_CARDS_SMALL, RANKS};

fn all_ranks() -> Vec<Card> {
    vec![
        Card::One,
        Card::Two,
        Card::Three,
        Card::Four,
        Card::Five,
        Card::Six,
        Card::Seven,
        Card::Ten,
    ]
}

fn count_of(cards: &Cards, rank: Card) -> usize {
    cards.iter().filter(|card| **card == rank).count()
}

#[test]
fn face_values_of_the_ranks() {
    let values: Vec<u8> = all_ranks().iter().map(|rank| rank.value()).collect();
    assert_eq!(values, vec![1, 2, 3, 4, 5, 6, 7, 10]);
}

#[test]
fn ranks_by_index_are_ascending() {
    assert_eq!(RANKS, 8);
    for index in 0..RANKS {
        assert_eq!(Card::from_index(index), all_ranks()[index as usize]);
    }
}

#[test]
fn limits_of_the_ranks_add_up_to_the_deck() {
    assert_eq!(Card::Ten.limit(), 1);
    assert_eq!(MAX_CARDS_SMALL, 7);
    let mut total: usize = 0;
    for rank in all_ranks() {
        if rank != Card::Ten {
            assert_eq!(rank.limit(), 7);
        }
        total += rank.limit() as usize;
    }
    assert_eq!(total, DECK_SIZE);
    assert_eq!(DECK_SIZE, 50);
}

#[test]
fn single_card_scores_its_face_value() {
    for rank in all_ranks() {
        assert_eq!(StoredCard::UnpairedCard(rank).get_score(), rank.value());
    }
    assert_eq!(StoredCard::UnpairedCard(Card::Seven).get_score(), 7);
    assert_eq!(StoredCard::UnpairedCard(Card::Ten).get_score(), 10);
}

#[test]
fn pair_scores_twice_its_face_value() {
    for rank in all_ranks() {
        assert_eq!(StoredCard::PairedCard(rank).get_score(), 2 * rank.value());
    }
    assert_eq!(StoredCard::PairedCard(Card::One).get_score(), 2);
    assert_eq!(StoredCard::PairedCard(Card::Seven).get_score(), 14);
    assert_eq!(StoredCard::PairedCard(Card::Ten).get_score(), 20);
}

#[test]
fn stored_card_knows_its_rank_and_state() {
    assert_eq!(StoredCard::UnpairedCard(Card::Four).rank(), Card::Four);
    assert_eq!(StoredCard::PairedCard(Card::Six).rank(), Card::Six);
    assert!(!StoredCard::UnpairedCard(Card::Four).is_pair());
    assert!(StoredCard::PairedCard(Card::Four).is_pair());
}

#[test]
fn ranks_are_ordered_by_face_value() {
    assert!(Card::One < Card::Two);
    assert!(Card::Seven < Card::Ten);
    assert!(StoredCard::UnpairedCard(Card::Ten) < StoredCard::PairedCard(Card::One));
}

#[test]
fn shuffle_deals_a_whole_deck() {
    for _ in 0..20 {
        let deck = shuffle();
        assert_eq!(deck.len(), 50);
        assert_eq!(count_of(&deck, Card::Ten), 1);
        for rank in all_ranks() {
            if rank != Card::Ten {
                assert_eq!(count_of(&deck, rank), 7);
            }
        }
    }
}

#[test]
fn shuffle_follows_the_samples() {
    // A source of samples that always gave the same rank would deal that
    // rank first, and then the ranks in ascending order.
    let mut in_rank_order: Cards = Vec::new();
    for rank in all_ranks() {
        for _ in 0..rank.limit() {
            in_rank_order.push(rank);
        }
    }
    let mut ten_then_rank_order: Cards = vec![Card::Ten];
    for rank in all_ranks() {
        if rank != Card::Ten {
            for _ in 0..rank.limit() {
                ten_then_rank_order.push(rank);
            }
        }
    }
    let deck = shuffle();
    assert_ne!(deck, in_rank_order);
    assert_ne!(deck, ten_then_rank_order);
    assert_ne!(shuffle(), shuffle());
}

#[test]
fn shuffler_takes_one_ten_only() {
    let mut shuffler = Shuffler::new();
    assert!(shuffler.offer(Card::Ten));
    assert!(!shuffler.offer(Card::Ten));
    assert!(!shuffler.offer(Card::Ten));
    assert_eq!(shuffler.finish(), vec![Card::Ten]);
}

#[test]
fn shuffler_takes_seven_of_a_small_rank() {
    for rank in all_ranks() {
        if rank == Card::Ten {
            continue;
        }
        let mut shuffler = Shuffler::new();
        for _ in 0..7 {
            assert!(shuffler.offer(rank));
        }
        assert!(!shuffler.offer(rank));
        assert_eq!(shuffler.finish(), vec![rank; 7]);
    }
}

#[test]
fn shuffler_keeps_the_order_of_the_offers() {
    let mut shuffler = Shuffler::new();
    assert!(shuffler.offer(Card::Three));
    assert!(shuffler.offer(Card::Ten));
    assert!(!shuffler.offer(Card::Ten));
    assert!(shuffler.offer(Card::One));
    assert!(shuffler.offer(Card::Three));
    assert_eq!(
        shuffler.finish(),
        vec![Card::Three, Card::Ten, Card::One, Card::Three]
    );
}

#[test]
fn first_open_is_the_lowest_rank_with_room() {
    let mut shuffler = Shuffler::new();
    assert_eq!(shuffler.first_open(), Some(Card::One));
    for _ in 0..7 {
        shuffler.offer(Card::One);
    }
    assert_eq!(shuffler.first_open(), Some(Card::Two));
    for _ in 0..6 {
        shuffler.offer(Card::Two);
    }
    assert_eq!(shuffler.first_open(), Some(Card::Two));
    shuffler.offer(Card::Two);
    assert_eq!(shuffler.first_open(), Some(Card::Three));
}

#[test]
fn first_open_is_none_when_the_deck_is_whole() {
    let mut shuffler = Shuffler::new();
    let mut dealt: usize = 0;
    while let Some(open) = shuffler.first_open() {
        assert!(shuffler.offer(open));
        dealt += 1;
        assert!(dealt <= 50);
    }
    assert_eq!(dealt, 50);
    for rank in all_ranks() {
        assert!(!shuffler.offer(rank));
    }
    let deck = shuffler.finish();
    assert_eq!(deck.len(), 50);
    assert_eq!(deck[0], Card::One);
    assert_eq!(deck[49], Card::Ten);
}

#[test]
fn empty_shuffler_hands_out_nothing() {
    assert_eq!(Shuffler::new().finish(), Vec::<Card>::new());
}
