//! Scoring of plays.

use vstd::prelude::*;
use crate::board::Position;
use crate::card::{Card, Suit};
use crate::game::MoveType;

pub mod standard;
pub mod vegas;

pub use standard::StandardScorer;

verus! {

/// What a play is worth.
pub struct Score {
    /// The increase in score attained by playing this hand
    pub value: i32,
    /// A score bonus from playing this hand, such as from clearing a stack
    pub bonus: i32,
    /// Score multiplier from playing a lucky hand
    pub multiplier: i32,
}

/// A hand that was played, or that could be.
#[derive(Clone)]
pub struct Play {
    /// Cards played
    pub cards: Vec<Card>,
    /// All positions/stacks cleared by this play
    pub cleared_positions: Vec<Position>,
    /// Type of play
    pub hand: MoveType,
}

/// A play as specifications see it.
pub struct PlayView {
    pub cards: Seq<Card>,
    pub cleared_positions: Seq<Position>,
    pub hand: MoveType,
}

impl View for Play {
    type V = PlayView;

    open spec fn view(&self) -> PlayView {
        PlayView {
            cards: self.cards@,
            cleared_positions: self.cleared_positions@,
            hand: self.hand,
        }
    }
}

/// A way of scoring plays.
pub trait Scorer: Sized {
    /// The scorer is as `new` makes it for the lucky card. Any scorer, unless
    /// the scorer says otherwise.
    open spec fn is_new(&self, lucky_card: Card) -> bool {
        true
    }

    /// The plays whose score the scorer can compute within the range of its
    /// numbers. Every play, unless the scorer says otherwise.
    open spec fn can_check(&self, play: PlayView) -> bool {
        true
    }

    /// The score is what the scorer gives for the play. Any score, unless
    /// the scorer says otherwise.
    open spec fn scores(&self, play: PlayView, score: Score) -> bool {
        true
    }

    /// The plays that the scorer can add to its running score within the
    /// range of its numbers. Every play, unless the scorer says otherwise.
    open spec fn can_add(&self, play: PlayView) -> bool {
        true
    }

    /// `after` is the scorer once the play was added. Any scorer, unless the
    /// scorer says otherwise.
    open spec fn adds(&self, play: PlayView, after: &Self) -> bool {
        true
    }

    /// Creates a new scorer. Scores may take the lucky card into account, so
    /// it is provided as a helper.
    fn new(lucky_card: Card) -> (scorer: Self)
        ensures
            scorer.is_new(lucky_card),
    ;

    /// Compute the score of a potential play
    fn check_play(&self, play: Play) -> (score: Score)
        requires
            self.can_check(play@),
        ensures
            self.scores(play@, score),
    ;

    /// Update the score with information about the last play
    fn add_play(&mut self, play: Play)
        requires
            old(self).can_add(play@),
        ensures
            old(self).adds(play@, final(self)),
    ;

    /// Bonus awarded for clearing a position
    fn bonus(&self, position: Position) -> i32;

    /// The score including any completion bonuses or multipliers, etc
    fn score(&self, completion: bool) -> i32;

    /// Format a value as a score
    fn format_as_score(&self, value: i32) -> String;
}

/// Some card of the hand has the suit.
pub open spec fn holds_suit(cards: Seq<Card>, suit: Suit) -> bool {
    exists|i: int| 0 <= i < cards.len() && (#[trigger] cards[i]).suit == suit
}

/// Tells whether some card of a hand has the suit.
pub fn has_suit(cards: &Vec<Card>, suit: Suit) -> (found: bool)
    ensures
        found == holds_suit(cards@, suit),
{
    let mut i: usize = 0;
    while i < cards.len()
        invariant
            i <= cards.len(),
            forall|k: int| 0 <= k < i ==> (#[trigger] cards@[k]).suit != suit,
        decreases cards.len() - i,
    {
        if cards[i].suit == suit {
            return true;
        }
        i += 1;
    }
    false
}

} // verus!
