use libthyme::card::{
    card_at, contains_multiple_of_value, is_consecutive, is_same_suit, sort_value, Card, Suit,
    Value,
};

fn card(value: Value, suit: Suit) -> Card {
    Card { value: value, suit: suit }
}

#[test]
fn sort_value_ranks_two_lowest_and_king_eleven() {
    assert_eq!(sort_value(Value::Two, false), 0);
    assert_eq!(sort_value(Value::Three, true), 1);
    assert_eq!(sort_value(Value::Ten, false), 8);
    assert_eq!(sort_value(Value::Jack, false), 9);
    assert_eq!(sort_value(Value::Queen, true), 10);
    assert_eq!(sort_value(Value::King, false), 11);
}

#[test]
fn sort_value_ranks_the_ace_by_the_hand() {
    assert_eq!(sort_value(Value::Ace, false), 12);
    assert_eq!(sort_value(Value::Ace, true), -1);
}

#[test]
fn card_at_counts_values_from_two_and_suits_from_spades() {
    assert_eq!(card_at(0, 0), card(Value::Two, Suit::Spades));
    assert_eq!(card_at(8, 1), card(Value::Ten, Suit::Hearts));
    assert_eq!(card_at(11, 2), card(Value::King, Suit::Diamonds));
    assert_eq!(card_at(12, 3), card(Value::Ace, Suit::Clubs));
}

#[test]
fn is_consecutive_leaves_the_hand_sorted_by_rank() {
    let mut hand = vec![
        card(Value::Ace, Suit::Spades),
        card(Value::Three, Suit::Hearts),
        card(Value::Two, Suit::Clubs),
    ];
    assert!(is_consecutive(&mut hand));
    assert_eq!(
        hand,
        vec![
            card(Value::Ace, Suit::Spades),
            card(Value::Two, Suit::Clubs),
            card(Value::Three, Suit::Hearts)
        ]
    );
    let mut high = vec![
        card(Value::Ace, Suit::Spades),
        card(Value::Four, Suit::Hearts),
        card(Value::King, Suit::Clubs),
    ];
    assert!(!is_consecutive(&mut high));
    assert_eq!(
        high,
        vec![
            card(Value::Four, Suit::Hearts),
            card(Value::King, Suit::Clubs),
            card(Value::Ace, Suit::Spades)
        ]
    );
}

#[test]
fn repeated_value_is_not_consecutive() {
    let mut hand = vec![
        card(Value::Five, Suit::Spades),
        card(Value::Six, Suit::Hearts),
        card(Value::Six, Suit::Clubs),
    ];
    assert!(!is_consecutive(&mut hand));
    let mut pair = vec![card(Value::Five, Suit::Spades), card(Value::Five, Suit::Hearts)];
    assert!(!is_consecutive(&mut pair));
}

#[test]
fn ace_is_high_without_a_two() {
    let mut hand = vec![card(Value::Ace, Suit::Spades), card(Value::Three, Suit::Hearts)];
    assert!(!is_consecutive(&mut hand));
    let mut low = vec![card(Value::Ace, Suit::Spades), card(Value::Two, Suit::Hearts)];
    assert!(is_consecutive(&mut low));
}

#[test]
fn ace_is_not_both_high_and_low() {
    let mut hand = vec![
        card(Value::Queen, Suit::Spades),
        card(Value::King, Suit::Spades),
        card(Value::Ace, Suit::Spades),
        card(Value::Two, Suit::Spades),
        card(Value::Three, Suit::Spades),
    ];
    assert!(!is_consecutive(&mut hand));
}

#[test]
fn three_of_a_value_is_a_multiple_of_three_and_not_of_four() {
    let hand = vec![
        card(Value::Nine, Suit::Spades),
        card(Value::Nine, Suit::Hearts),
        card(Value::Four, Suit::Clubs),
        card(Value::Nine, Suit::Diamonds),
    ];
    assert!(contains_multiple_of_value(&hand, 3));
    assert!(!contains_multiple_of_value(&hand, 4));
    assert!(contains_multiple_of_value(&hand, 1));
    assert!(!contains_multiple_of_value(&hand, 2));
}

#[test]
fn no_hand_holds_a_value_zero_times() {
    let hand = vec![card(Value::Nine, Suit::Spades)];
    assert!(!contains_multiple_of_value(&hand, 0));
    assert!(!contains_multiple_of_value(&vec![], 0));
    assert!(!contains_multiple_of_value(&vec![], 1));
}

#[test]
fn same_suit_needs_two_cards_of_one_suit() {
    assert!(!is_same_suit(&vec![]));
    assert!(is_same_suit(&vec![card(Value::Nine, Suit::Hearts), card(Value::Two, Suit::Hearts)]));
    assert!(!is_same_suit(&vec![
        card(Value::Nine, Suit::Hearts),
        card(Value::Two, Suit::Hearts),
        card(Value::Two, Suit::Diamonds)
    ]));
}
