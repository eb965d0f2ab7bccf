//! The messages that tell the player what a selection would play, what was
//! played and why a move was refused.

use vstd::prelude::*;
use vstd::string::StringExecFns;
use crate::board::{Board, Position};
use crate::game::{Game, MoveError, MoveType};
use crate::score::{Play, PlayView, Score, Scorer};
use crate::text::{decimal, format_number};
use crate::ui::UI;

verus! {

/// The name of a hand.
pub open spec fn hand_text(code: MoveType) -> Seq<char> {
    match code {
        MoveType::StraightFlush => "Straight Flush"@,
        MoveType::FourOfAKind => "Four of a Kind"@,
        MoveType::Flush => "Flush"@,
        MoveType::FullHouse => "Full House"@,
        MoveType::FiveCardStraight => "Five-card Straight"@,
        MoveType::ThreeOfAKind => "Three of a Kind"@,
        MoveType::ThreeCardStraight => "Three-card Straight"@,
        MoveType::Pair => "Pair"@,
        MoveType::Trash => "Discard"@,
    }
}

/// What the player is told of a refused move.
pub open spec fn error_text(code: MoveError) -> Seq<char> {
    match code {
        MoveError::InvalidMove => "This selection is not a hand"@,
        MoveError::InvalidHand => "This selection does not match the hand"@,
        MoveError::NeedMultipleRows => "A hand must be played from multiple rows"@,
        MoveError::NoMovesRemain => "Game Over - No moves left"@,
        MoveError::NoDiscardsRemain => "No discards remain"@,
        MoveError::TwoPairIsInvalid => "Two pair is not a hand"@,
    }
}

/// What the player is told once a hand was played.
pub open spec fn play_text(code: MoveType) -> Seq<char> {
    "Played '"@ + hand_text(code) + "'"@
}

/// What the player is told of a selection that makes a hand: that the
/// single card can be discarded, or the hand with its points and the factor
/// by which they count.
pub open spec fn check_text(hand: MoveType, value: int, multiplier: int) -> Seq<char> {
    if hand == MoveType::Trash {
        "Press return to discard this card."@
    } else {
        "Press return to play '"@ + hand_text(hand) + "' (+"@ + decimal(value) + " x"@ + decimal(
            multiplier,
        ) + ")"@
    }
}

/// The text tells of the play what the scorer gives for it: for a discard
/// that the card can be discarded, else the hand with the points of the
/// score.
pub open spec fn shown<T: Scorer>(
    scorer: T,
    play: PlayView,
    score: Score,
    text: Seq<char>,
) -> bool {
    &&& play.hand != MoveType::Trash ==> scorer.scores(play, score)
    &&& text == check_text(play.hand, score.value as int, score.multiplier as int)
}

/// What the player is told when the board is cleared.
pub fn success_message() -> (text: String)
    ensures
        text@ == "You WON!"@,
{
    String::from_str("You WON!")
}

/// What the player is told of a refused move.
pub fn error_message(code: MoveError) -> (text: String)
    ensures
        text@ == error_text(code),
{
    String::from_str(
        match code {
            MoveError::InvalidMove => "This selection is not a hand",
            MoveError::InvalidHand => "This selection does not match the hand",
            MoveError::NeedMultipleRows => "A hand must be played from multiple rows",
            MoveError::NoMovesRemain => "Game Over - No moves left",
            MoveError::NoDiscardsRemain => "No discards remain",
            MoveError::TwoPairIsInvalid => "Two pair is not a hand",
        },
    )
}

/// What the player is told once a hand was played.
pub fn play_message(code: MoveType) -> (text: String)
    ensures
        text@ == play_text(code),
{
    let mut text = String::from_str("Played '");
    text.append(hand_message(code).as_str());
    text.append("'");
    text
}

/// The name of a hand.
pub fn hand_message(code: MoveType) -> (text: String)
    ensures
        text@ == hand_text(code),
{
    String::from_str(
        match code {
            MoveType::StraightFlush => "Straight Flush",
            MoveType::FourOfAKind => "Four of a Kind",
            MoveType::Flush => "Flush",
            MoveType::FullHouse => "Full House",
            MoveType::FiveCardStraight => "Five-card Straight",
            MoveType::ThreeOfAKind => "Three of a Kind",
            MoveType::ThreeCardStraight => "Three-card Straight",
            MoveType::Pair => "Pair",
            MoveType::Trash => "Discard",
        },
    )
}

/// The positions among those listed whose stack holds one card only, and
/// so is cleared when the card is played.
pub fn cleared_positions(board: &Board, positions: &Vec<Position>) -> (cleared: Vec<Position>)
    requires
        board.wf(),
    ensures
        cleared@ == board.cleared_by(positions@),
{
    let ghost single = board.holds_one();
    let mut cleared: Vec<Position> = Vec::new();
    let mut i: usize = 0;
    while i < positions.len()
        invariant
            board.wf(),
            i <= positions.len(),
            single == board.holds_one(),
            cleared@ == positions@.take(i as int).filter(single),
        decreases positions.len() - i,
    {
        proof {
            assert(positions@.take(i + 1) =~= positions@.take(i as int).push(positions@[i as int]));
            positions@.take(i as int).lemma_filter_push(positions@[i as int], single);
        }
        if board.count_cards(positions[i]) == 1 {
            cleared.push(positions[i]);
        }
        i += 1;
    }
    proof {
        assert(positions@.take(i as int) =~= positions@);
    }
    cleared
}

/// What the player is told of a selection that makes the hand: for a single
/// card that it can be discarded, else the hand with the points that the
/// scorer gives for it.
pub fn check_message<T: Scorer>(hand: MoveType, ui: &UI, game: &mut Game<T>) -> (text: String)
    requires
        old(game).wf(),
        hand != MoveType::Trash ==> old(game).board.tops(ui.selection@).is_some()
            && old(game).scorer.can_check(old(game).play_event(hand, ui.selection@)),
    ensures
        *final(game) == *old(game),
        hand == MoveType::Trash ==> text@ == check_text(hand, 0, 0),
        hand != MoveType::Trash ==> exists|score: Score| #[trigger]
            shown(old(game).scorer, old(game).play_event(hand, ui.selection@), score, text@),
{
    if hand == MoveType::Trash {
        return String::from_str("Press return to discard this card.");
    }
    let cleared = cleared_positions(&game.board, &ui.selection);
    let cards = match game.board.peek(&ui.selection) {
        Some(cards) => cards,
        None => Vec::new(),
    };
    let score = game.scorer.check_play(Play { cards, cleared_positions: cleared, hand });
    let mut text = String::from_str("Press return to play '");
    text.append(hand_message(hand).as_str());
    text.append("' (+");
    text.append(format_number(score.value).as_str());
    text.append(" x");
    text.append(format_number(score.multiplier).as_str());
    text.append(")");
    proof {
        assert(shown(old(game).scorer, old(game).play_event(hand, ui.selection@), score, text@));
    }
    text
}

} // verus!
