use libthyme::board::{HPosition, Position, VPosition};
use libthyme::card::{Card, Suit, Value};
use libthyme::game::MoveType;
use libthyme::score::vegas::{move_value, play_value};
use libthyme::score::{has_suit, Play, Scorer, StandardScorer};
use libthyme::text::{format_count, format_number};

fn card(value: Value, suit: Suit) -> Card {
    Card { value: value, suit: suit }
}

fn at(x: HPosition, y: VPosition) -> Position {
    Position { x: x, y: y }
}

#[test]
fn standard_scorer_adds_bonus_to_the_doubled_value() {
    let mut scorer = StandardScorer::new(card(Value::Seven, Suit::Clubs));
    let play = Play {
        hand: MoveType::Flush,
        cleared_positions: vec![
            at(HPosition::Left, VPosition::Top),
            at(HPosition::Center, VPosition::Middle),
            at(HPosition::Right, VPosition::Bottom),
        ],
        cards: vec![card(Value::Two, Suit::Hearts), card(Value::King, Suit::Clubs)],
    };
    let score = scorer.check_play(play.clone());
    assert_eq!(score.value, 90);
    assert_eq!(score.bonus, 300);
    assert_eq!(score.multiplier, 2);
    scorer.add_play(play.clone());
    assert_eq!(scorer.score(false), 480);
    assert_eq!(scorer.score(true), 480);
    scorer.add_play(play);
    assert_eq!(scorer.score(false), 960);
}

#[test]
fn standard_scorer_does_not_double_without_the_lucky_suit() {
    let mut scorer = StandardScorer::new(card(Value::Seven, Suit::Clubs));
    let play = Play {
        hand: MoveType::FourOfAKind,
        cleared_positions: vec![],
        cards: vec![card(Value::Two, Suit::Hearts), card(Value::Two, Suit::Spades)],
    };
    let score = scorer.check_play(play.clone());
    assert_eq!(score.value, 100);
    assert_eq!(score.bonus, 0);
    assert_eq!(score.multiplier, 1);
    scorer.add_play(play);
    assert_eq!(scorer.score(false), 100);
}

#[test]
fn standard_scorer_formats_negative_and_large_values() {
    let scorer = StandardScorer::new(card(Value::Seven, Suit::Clubs));
    assert_eq!(scorer.format_as_score(-5), "-5");
    assert_eq!(scorer.format_as_score(1350), "1350");
    assert_eq!(scorer.format_as_score(2147483647), "2147483647");
    assert_eq!(scorer.format_as_score(-2147483648), "-2147483648");
}

#[test]
fn numbers_are_written_in_decimal() {
    assert_eq!(format_number(0), "0");
    assert_eq!(format_number(7), "7");
    assert_eq!(format_number(10), "10");
    assert_eq!(format_number(-10), "-10");
    assert_eq!(format_number(90210), "90210");
    assert_eq!(format_count(0), "0");
    assert_eq!(format_count(51), "51");
    assert_eq!(format_count(1234567890), "1234567890");
}

#[test]
fn has_suit_finds_a_card_of_the_suit() {
    let cards = vec![card(Value::Two, Suit::Hearts), card(Value::King, Suit::Clubs)];
    assert!(has_suit(&cards, Suit::Clubs));
    assert!(has_suit(&cards, Suit::Hearts));
    assert!(!has_suit(&cards, Suit::Spades));
    assert!(!has_suit(&vec![], Suit::Spades));
}

#[test]
fn vegas_stakes_of_the_hands() {
    assert_eq!(move_value(MoveType::StraightFlush), 40);
    assert_eq!(move_value(MoveType::FourOfAKind), 20);
    assert_eq!(move_value(MoveType::Flush), 10);
    assert_eq!(move_value(MoveType::FullHouse), 8);
    assert_eq!(move_value(MoveType::FiveCardStraight), 5);
    assert_eq!(move_value(MoveType::ThreeOfAKind), 3);
    assert_eq!(move_value(MoveType::ThreeCardStraight), 2);
    assert_eq!(move_value(MoveType::Pair), 1);
    assert_eq!(move_value(MoveType::Trash), 0);
}

#[test]
fn vegas_pays_only_with_a_card_of_the_lucky_suit() {
    let lucky = Play {
        hand: MoveType::FullHouse,
        cleared_positions: vec![],
        cards: vec![card(Value::Two, Suit::Hearts), card(Value::King, Suit::Clubs)],
    };
    assert_eq!(play_value(&lucky, Suit::Clubs), 8);
    assert_eq!(play_value(&lucky, Suit::Diamonds), 0);
}
