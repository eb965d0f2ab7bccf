//! The standard scorer: points for each hand, doubled by a card of the
//! lucky suit, and a bonus for each stack that the play cleared.

use vstd::prelude::*;
use crate::board::{Position, VPosition};
use crate::card::{Card, Suit};
use crate::game::MoveType;
use crate::score::{has_suit, holds_suit, Play, PlayView, Score, Scorer};
use crate::text::{decimal, format_number};

verus! {

/// Standard (no fifteens) scoring hands, double bonus awarded for cards
/// with the lucky card's suit
pub struct StandardScorer {
    lucky_suit: Suit,
    total: i32,
}

/// The points of a hand.
pub open spec fn hand_value(hand: MoveType) -> int {
    match hand {
        MoveType::StraightFlush => 150,
        MoveType::FourOfAKind => 100,
        MoveType::Flush => 90,
        MoveType::FullHouse => 70,
        MoveType::FiveCardStraight => 50,
        MoveType::ThreeOfAKind => 30,
        MoveType::ThreeCardStraight => 20,
        MoveType::Pair => 10,
        MoveType::Trash => 0,
    }
}

/// The bonus for clearing the stack at a position.
pub open spec fn position_bonus(position: Position) -> int {
    match position.y {
        VPosition::Top => 150,
        VPosition::Middle => 100,
        VPosition::Bottom => 50,
    }
}

/// The bonuses for clearing the stacks at the positions, added up.
pub open spec fn bonus_total(positions: Seq<Position>) -> int
    decreases positions.len(),
{
    if positions.len() == 0 {
        0
    } else {
        bonus_total(positions.drop_last()) + position_bonus(positions.last())
    }
}

/// The factor by which a hand's points count: 2 where a card of the lucky
/// suit was played, else 1.
pub open spec fn lucky_multiplier(cards: Seq<Card>, lucky_suit: Suit) -> int {
    if holds_suit(cards, lucky_suit) {
        2
    } else {
        1
    }
}

/// What a play adds to the score.
pub open spec fn play_points(play: PlayView, lucky_suit: Suit) -> int {
    hand_value(play.hand) * lucky_multiplier(play.cards, lucky_suit) + bonus_total(
        play.cleared_positions,
    )
}

/// Bonuses never add up to less than nothing.
proof fn lemma_bonus_total_positive(positions: Seq<Position>)
    ensures
        0 <= bonus_total(positions),
    decreases positions.len(),
{
    if positions.len() > 0 {
        lemma_bonus_total_positive(positions.drop_last());
    }
}

/// The first bonuses of a list add up to no more than all of them.
proof fn lemma_bonus_total_grows(positions: Seq<Position>, n: int)
    requires
        0 <= n <= positions.len(),
    ensures
        0 <= bonus_total(positions.take(n)) <= bonus_total(positions),
    decreases positions.len() - n,
{
    lemma_bonus_total_positive(positions.take(n));
    if n < positions.len() {
        lemma_bonus_total_grows(positions, n + 1);
        assert(positions.take(n + 1).drop_last() =~= positions.take(n));
    } else {
        assert(positions.take(n) =~= positions);
    }
}

impl StandardScorer {
    /// The suit that doubles a hand's points.
    pub closed spec fn lucky_suit(&self) -> Suit {
        self.lucky_suit
    }

    /// The running score.
    pub closed spec fn total(&self) -> int {
        self.total as int
    }

    /// The points of a hand.
    fn move_value(&self, hand: MoveType) -> (value: i32)
        ensures
            value == hand_value(hand),
    {
        match hand {
            MoveType::StraightFlush => 150,
            MoveType::FourOfAKind => 100,
            MoveType::Flush => 90,
            MoveType::FullHouse => 70,
            MoveType::FiveCardStraight => 50,
            MoveType::ThreeOfAKind => 30,
            MoveType::ThreeCardStraight => 20,
            MoveType::Pair => 10,
            MoveType::Trash => 0,
        }
    }
}

impl Scorer for StandardScorer {
    open spec fn is_new(&self, lucky_card: Card) -> bool {
        self.total() == 0 && self.lucky_suit() == lucky_card.suit
    }

    open spec fn can_check(&self, play: PlayView) -> bool {
        bonus_total(play.cleared_positions) <= i32::MAX
    }

    open spec fn scores(&self, play: PlayView, score: Score) -> bool {
        &&& score.value == hand_value(play.hand)
        &&& score.bonus == bonus_total(play.cleared_positions)
        &&& score.multiplier == lucky_multiplier(play.cards, self.lucky_suit())
    }

    open spec fn can_add(&self, play: PlayView) -> bool {
        &&& play_points(play, self.lucky_suit()) <= i32::MAX
        &&& i32::MIN <= self.total() + play_points(play, self.lucky_suit()) <= i32::MAX
    }

    open spec fn adds(&self, play: PlayView, after: &Self) -> bool {
        &&& after.total() == self.total() + play_points(play, self.lucky_suit())
        &&& after.lucky_suit() == self.lucky_suit()
    }

    fn new(lucky_card: Card) -> (scorer: StandardScorer) {
        StandardScorer { total: 0, lucky_suit: lucky_card.suit }
    }

    fn check_play(&self, play: Play) -> (score: Score) {
        let mut bonus: i32 = 0;
        let mut i: usize = 0;
        while i < play.cleared_positions.len()
            invariant
                i <= play.cleared_positions.len(),
                bonus == bonus_total(play.cleared_positions@.take(i as int)),
                bonus_total(play.cleared_positions@) <= i32::MAX,
            decreases play.cleared_positions.len() - i,
        {
            proof {
                assert(play.cleared_positions@.take(i + 1).drop_last()
                    =~= play.cleared_positions@.take(i as int));
                lemma_bonus_total_grows(play.cleared_positions@, i + 1);
            }
            bonus = bonus + self.bonus(play.cleared_positions[i]);
            i += 1;
        }
        proof {
            assert(play.cleared_positions@.take(i as int) =~= play.cleared_positions@);
        }
        Score {
            value: self.move_value(play.hand),
            bonus,
            multiplier: if has_suit(&play.cards, self.lucky_suit) {
                2
            } else {
                1
            },
        }
    }

    fn bonus(&self, position: Position) -> (bonus: i32)
        ensures
            bonus == position_bonus(position),
    {
        match position.y {
            VPosition::Top => 150,
            VPosition::Middle => 100,
            VPosition::Bottom => 50,
        }
    }

    fn add_play(&mut self, play: Play) {
        proof {
            lemma_bonus_total_grows(play.cleared_positions@, 0);
        }
        let score = self.check_play(play);
        self.total += (score.value * score.multiplier) + score.bonus;
    }

    fn score(&self, _completion: bool) -> (score: i32)
        ensures
            score == self.total(),
    {
        self.total
    }

    fn format_as_score(&self, value: i32) -> (text: String)
        ensures
            text@ == decimal(value as int),
    {
        format_number(value)
    }
}

} // verus!
