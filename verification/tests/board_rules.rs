use cards::deck::Deck;
use libthyme::board::{Board, HPosition, Position, Stack, VPosition};
use libthyme::deal::deal_deck;
use libthyme::hands::combination;
use libthyme::card::{Card, Suit, Value};

fn at(x: HPosition, y: VPosition) -> Position {
    Position { x: x, y: y }
}

fn card(value: Value, suit: Suit) -> Card {
    Card { value: value, suit: suit }
}

/// Three stacks: two cards top left, one card in the centre, none bottom right.
fn small_board() -> Board {
    Board {
        stacks: vec![
            Stack {
                position: at(HPosition::Left, VPosition::Top),
                cards: vec![card(Value::Two, Suit::Clubs), card(Value::Nine, Suit::Hearts)],
            },
            Stack {
                position: at(HPosition::Center, VPosition::Middle),
                cards: vec![card(Value::King, Suit::Spades)],
            },
            Stack { position: at(HPosition::Right, VPosition::Bottom), cards: vec![] },
        ],
        lucky_card: card(Value::Ace, Suit::Diamonds),
    }
}

#[test]
fn positions_are_listed_in_board_order() {
    let board = small_board();
    assert_eq!(
        board.positions(),
        vec![
            at(HPosition::Left, VPosition::Top),
            at(HPosition::Center, VPosition::Middle),
            at(HPosition::Right, VPosition::Bottom)
        ]
    );
    assert_eq!(board.positions(), board.positions());
}

#[test]
fn positions_remaining_leaves_out_empty_stacks() {
    let board = small_board();
    assert_eq!(
        board.positions_remaining(),
        vec![at(HPosition::Left, VPosition::Top), at(HPosition::Center, VPosition::Middle)]
    );
}

#[test]
fn new_board_has_the_nine_positions_row_by_row() {
    let board = Board::new();
    assert_eq!(
        board.positions(),
        vec![
            at(HPosition::Left, VPosition::Top),
            at(HPosition::Center, VPosition::Top),
            at(HPosition::Right, VPosition::Top),
            at(HPosition::Left, VPosition::Middle),
            at(HPosition::Center, VPosition::Middle),
            at(HPosition::Right, VPosition::Middle),
            at(HPosition::Left, VPosition::Bottom),
            at(HPosition::Center, VPosition::Bottom),
            at(HPosition::Right, VPosition::Bottom)
        ]
    );
    assert_eq!(board.positions_remaining().len(), 9);
}

#[test]
fn new_board_holds_each_card_once() {
    let board = Board::new();
    let mut seen: Vec<Card> = vec![board.lucky_card];
    let mut sizes: Vec<usize> = Vec::new();
    for stack in &board.stacks {
        sizes.push(stack.cards.len());
        for card in &stack.cards {
            assert!(!seen.contains(card));
            seen.push(*card);
        }
    }
    assert_eq!(sizes, vec![8, 8, 8, 7, 6, 5, 4, 3, 2]);
    assert_eq!(seen.len(), 52);
    assert_eq!(board.count_all_cards(), 51);
}

#[test]
fn deal_of_a_sorted_deck_gives_the_cards_in_their_order() {
    let (stacks, lucky_card) = deal_deck(Deck::new_unshuffled()).unwrap();
    assert_eq!(stacks.len(), 9);
    assert_eq!(stacks[0].position, at(HPosition::Left, VPosition::Top));
    assert_eq!(
        stacks[0].cards,
        vec![
            card(Value::Two, Suit::Spades),
            card(Value::Three, Suit::Spades),
            card(Value::Four, Suit::Spades),
            card(Value::Five, Suit::Spades),
            card(Value::Six, Suit::Spades),
            card(Value::Seven, Suit::Spades),
            card(Value::Eight, Suit::Spades),
            card(Value::Nine, Suit::Spades)
        ]
    );
    assert_eq!(stacks[1].position, at(HPosition::Center, VPosition::Top));
    assert_eq!(stacks[1].cards[0], card(Value::Ten, Suit::Spades));
    assert_eq!(stacks[1].cards[4], card(Value::Ace, Suit::Spades));
    assert_eq!(stacks[1].cards[5], card(Value::Two, Suit::Hearts));
    assert_eq!(stacks[3].position, at(HPosition::Left, VPosition::Middle));
    assert_eq!(stacks[3].cards.len(), 7);
    assert_eq!(stacks[3].cards[0], card(Value::King, Suit::Hearts));
    assert_eq!(stacks[8].position, at(HPosition::Right, VPosition::Bottom));
    assert_eq!(
        stacks[8].cards,
        vec![card(Value::Queen, Suit::Clubs), card(Value::King, Suit::Clubs)]
    );
    assert_eq!(lucky_card, card(Value::Ace, Suit::Clubs));
}

#[test]
fn deal_of_a_short_deck_gives_nothing() {
    let mut deck = Deck::new_unshuffled();
    assert!(deck.draw().is_ok());
    assert!(deal_deck(deck).is_none());
}

#[test]
fn count_cards_is_zero_for_an_unknown_position() {
    let board = small_board();
    assert_eq!(board.count_cards(at(HPosition::Left, VPosition::Top)), 2);
    assert_eq!(board.count_cards(at(HPosition::Center, VPosition::Middle)), 1);
    assert_eq!(board.count_cards(at(HPosition::Right, VPosition::Bottom)), 0);
    assert_eq!(board.count_cards(at(HPosition::Left, VPosition::Bottom)), 0);
    assert_eq!(board.count_all_cards(), 3);
}

#[test]
fn peek_gives_the_top_cards_in_the_order_asked() {
    let mut board = small_board();
    let asked = vec![at(HPosition::Center, VPosition::Middle), at(HPosition::Left, VPosition::Top)];
    assert_eq!(
        board.peek(&asked),
        Some(vec![card(Value::King, Suit::Spades), card(Value::Nine, Suit::Hearts)])
    );
}

#[test]
fn peek_twice_gives_the_same_and_changes_nothing() {
    let mut board = small_board();
    let asked = vec![at(HPosition::Left, VPosition::Top), at(HPosition::Center, VPosition::Middle)];
    let first = board.peek(&asked);
    let second = board.peek(&asked);
    assert_eq!(first, second);
    assert_eq!(
        first,
        Some(vec![card(Value::Nine, Suit::Hearts), card(Value::King, Suit::Spades)])
    );
    assert_eq!(board.count_all_cards(), 3);
}

#[test]
fn peek_honours_a_position_that_is_asked_twice() {
    let mut board = small_board();
    let left = at(HPosition::Left, VPosition::Top);
    assert_eq!(
        board.peek(&vec![left, left]),
        Some(vec![card(Value::Nine, Suit::Hearts), card(Value::Nine, Suit::Hearts)])
    );
}

#[test]
fn peek_of_no_position_gives_no_card() {
    let mut board = small_board();
    assert_eq!(board.peek(&vec![]), Some(vec![]));
}

#[test]
fn peek_fails_as_a_whole_on_an_empty_or_unknown_position() {
    let mut board = small_board();
    let left = at(HPosition::Left, VPosition::Top);
    assert_eq!(board.peek(&vec![left, at(HPosition::Right, VPosition::Bottom)]), None);
    assert_eq!(board.peek(&vec![at(HPosition::Left, VPosition::Bottom), left]), None);
}

#[test]
fn top_is_the_last_card_of_the_stack() {
    let mut board = small_board();
    assert_eq!(
        board.top(at(HPosition::Left, VPosition::Top)),
        Some(card(Value::Nine, Suit::Hearts))
    );
    assert_eq!(board.top(at(HPosition::Right, VPosition::Bottom)), None);
    assert_eq!(board.top(at(HPosition::Center, VPosition::Top)), None);
    assert_eq!(board.count_all_cards(), 3);
}

#[test]
fn pop_takes_the_top_cards() {
    let mut board = small_board();
    let asked = vec![at(HPosition::Center, VPosition::Middle), at(HPosition::Left, VPosition::Top)];
    assert_eq!(
        board.pop(&asked),
        Some(vec![card(Value::King, Suit::Spades), card(Value::Nine, Suit::Hearts)])
    );
    assert_eq!(board.count_all_cards(), 1);
    assert_eq!(board.count_cards(at(HPosition::Left, VPosition::Top)), 1);
    assert_eq!(board.count_cards(at(HPosition::Center, VPosition::Middle)), 0);
    assert_eq!(
        board.top(at(HPosition::Left, VPosition::Top)),
        Some(card(Value::Two, Suit::Clubs))
    );
    assert_eq!(board.positions().len(), 3);
    assert_eq!(board.lucky_card, card(Value::Ace, Suit::Diamonds));
}

#[test]
fn pop_alters_no_stack_when_one_position_is_empty() {
    let mut board = small_board();
    let asked = vec![
        at(HPosition::Left, VPosition::Top),
        at(HPosition::Center, VPosition::Middle),
        at(HPosition::Right, VPosition::Bottom),
    ];
    assert_eq!(board.pop(&asked), None);
    assert_eq!(board.count_all_cards(), 3);
    assert_eq!(board.count_cards(at(HPosition::Left, VPosition::Top)), 2);
    assert_eq!(board.count_cards(at(HPosition::Center, VPosition::Middle)), 1);
}

#[test]
fn pop_alters_no_stack_when_one_position_is_unknown() {
    let mut board = small_board();
    let asked = vec![at(HPosition::Left, VPosition::Top), at(HPosition::Center, VPosition::Top)];
    assert_eq!(board.pop(&asked), None);
    assert_eq!(board.count_all_cards(), 3);
}

#[test]
fn pop_takes_one_card_from_a_stack_that_is_asked_twice() {
    let mut board = small_board();
    let left = at(HPosition::Left, VPosition::Top);
    assert_eq!(
        board.pop(&vec![left, left]),
        Some(vec![card(Value::Nine, Suit::Hearts), card(Value::Nine, Suit::Hearts)])
    );
    assert_eq!(board.count_cards(left), 1);
}

#[test]
fn combination_gives_every_selection_but_the_empty_one() {
    let a = at(HPosition::Left, VPosition::Top);
    let b = at(HPosition::Center, VPosition::Middle);
    let c = at(HPosition::Right, VPosition::Bottom);
    assert_eq!(
        combination(&vec![a, b, c]),
        vec![vec![a], vec![b], vec![a, b], vec![c], vec![a, c], vec![b, c], vec![a, b, c]]
    );
    assert_eq!(combination(&vec![a]), vec![vec![a]]);
    assert_eq!(combination(&vec![]), Vec::<Vec<Position>>::new());
}

#[test]
fn hands_remaining_selects_among_the_stacks_that_hold_cards() {
    let board = small_board();
    let a = at(HPosition::Left, VPosition::Top);
    let b = at(HPosition::Center, VPosition::Middle);
    assert_eq!(board.hands_remaining(), vec![vec![a], vec![b], vec![a, b]]);
}

#[test]
fn new_board_has_511_hands() {
    let board = Board::new();
    let hands = board.hands_remaining();
    assert_eq!(hands.len(), 511);
    for (i, hand) in hands.iter().enumerate() {
        assert!(!hand.is_empty());
        for other in &hands[..i] {
            assert_ne!(hand, other);
        }
    }
}
