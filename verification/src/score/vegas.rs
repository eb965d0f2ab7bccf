//! Vegas stakes: money is only won by hands that include a card of the
//! lucky suit.

use vstd::prelude::*;
use crate::card::Suit;
use crate::game::MoveType;
use crate::score::{has_suit, holds_suit, Play};

verus! {

/// The stake that a hand wins.
pub open spec fn stake(hand: MoveType) -> int {
    match hand {
        MoveType::StraightFlush => 40,
        MoveType::FourOfAKind => 20,
        MoveType::Flush => 10,
        MoveType::FullHouse => 8,
        MoveType::FiveCardStraight => 5,
        MoveType::ThreeOfAKind => 3,
        MoveType::ThreeCardStraight => 2,
        MoveType::Pair => 1,
        MoveType::Trash => 0,
    }
}

/// The stake that a hand wins.
pub fn move_value(hand: MoveType) -> (value: i32)
    ensures
        value == stake(hand),
{
    match hand {
        MoveType::StraightFlush => 40,
        MoveType::FourOfAKind => 20,
        MoveType::Flush => 10,
        MoveType::FullHouse => 8,
        MoveType::FiveCardStraight => 5,
        MoveType::ThreeOfAKind => 3,
        MoveType::ThreeCardStraight => 2,
        MoveType::Pair => 1,
        MoveType::Trash => 0,
    }
}

/// What a play wins: the stake of its hand where a card of the lucky suit
/// was played, and nothing where none was.
pub fn play_value(play: &Play, lucky_suit: Suit) -> (value: i32)
    ensures
        value == if holds_suit(play.cards@, lucky_suit) {
            stake(play.hand)
        } else {
            0
        },
{
    if has_suit(&play.cards, lucky_suit) {
        move_value(play.hand)
    } else {
        0
    }
}

} // verus!
