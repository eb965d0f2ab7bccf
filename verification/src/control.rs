//! What the player's actions do to the game and to what the player sees.

use vstd::prelude::*;
use crate::board::Position;
use crate::game::{discards_after, Game, MoveError, MoveType};
use crate::message::{
    check_message, cleared_positions, error_message, error_text, play_message, play_text, shown,
    success_message,
};
use crate::score::{Play, Score, Scorer};
use crate::ui::{toggled, UI};

verus! {

/// The selection once the player has toggled the stack under the cursor: an
/// empty stack cannot be toggled.
pub open spec fn selection_after<T: Scorer>(game: &Game<T>, ui: &UI) -> Seq<Position> {
    if game.board.pile(ui.cursor_position).len() > 0 {
        toggled(ui.selection@, ui.cursor_position)
    } else {
        ui.selection@
    }
}

/// What the player is told once a hand was played: that it was played, that
/// the game is lost where no move is left but cards are, or that it is won.
pub open spec fn outcome_text<T: Scorer>(game: &Game<T>, hand: MoveType) -> Seq<char> {
    if game.can_move() {
        play_text(hand)
    } else if game.board.spec_positions_remaining().len() > 0 {
        error_text(MoveError::NoMovesRemain)
    } else {
        "You WON!"@
    }
}

/// Play the cards in the selected positions if possible, and if so then clear
/// the selection.
/// Leaves a message reflecting the current game state.
pub fn play_hand<T: Scorer>(hand: Option<MoveType>, game: &mut Game<T>, ui: &mut UI)
    requires
        old(game).wf(),
        hand.is_some() && old(game).spec_check(old(ui).selection@) == Ok::<MoveType, MoveError>(
            hand.unwrap(),
        ) ==> old(game).scorer.can_add(old(game).play_event(hand.unwrap(), old(ui).selection@)),
    ensures
        final(game).wf(),
        final(ui).cursor_position == old(ui).cursor_position,
        match hand {
            None => *final(game) == *old(game) && *final(ui) == *old(ui),
            Some(hand) => match old(game).spec_check(old(ui).selection@) {
                Ok(found) => if found == hand {
                    &&& old(game).board.pops_to(old(ui).selection@, &final(game).board)
                    &&& final(game).discards_allowed == discards_after(
                        hand,
                        old(game).discards_allowed as int,
                        old(game).discards_allowed_max as int,
                    )
                    &&& final(game).discards_allowed_max == old(game).discards_allowed_max
                    &&& old(game).scorer.adds(
                        old(game).play_event(hand, old(ui).selection@),
                        &final(game).scorer,
                    )
                    &&& final(ui).selection@ == Seq::<Position>::empty()
                    &&& final(ui).message@ == outcome_text(final(game), hand)
                } else {
                    &&& *final(game) == *old(game)
                    &&& final(ui).selection == old(ui).selection
                    &&& final(ui).message@ == error_text(MoveError::InvalidHand)
                },
                Err(error) => {
                    &&& *final(game) == *old(game)
                    &&& final(ui).selection == old(ui).selection
                    &&& final(ui).message@ == error_text(error)
                },
            },
        },
{
    match hand {
        Some(hand) => {
            let cleared = cleared_positions(&game.board, &ui.selection);
            let cards = match game.board.peek(&ui.selection) {
                Some(cards) => cards,
                None => Vec::new(),
            };
            let result = game.play(hand, &ui.selection);
            match result {
                Ok(_) => {
                    game.scorer.add_play(Play { cards, cleared_positions: cleared, hand });
                    ui.selection.clear();
                    if game.moves_remaining() {
                        ui.message = play_message(hand);
                    } else if game.board.positions_remaining().len() > 0 {
                        ui.message = error_message(MoveError::NoMovesRemain);
                    } else {
                        ui.message = success_message();
                    }
                },
                Err(error) => {
                    ui.message = error_message(error);
                },
            }
        },
        None => {},
    }
}

/// Toggle the selection of the cursor-selected card, if cards remain in that
/// position and the game has not ended.
/// Leaves a message reflecting the current game state.
pub fn update_selection<T: Scorer>(game: &mut Game<T>, ui: &mut UI) -> (hand: Option<MoveType>)
    requires
        old(game).wf(),
        forall|hand: MoveType|
            hand != MoveType::Trash && old(game).spec_check(selection_after(old(game), old(ui)))
                == Ok::<MoveType, MoveError>(hand) ==> old(game).scorer.can_check(
                #[trigger] old(game).play_event(hand, selection_after(old(game), old(ui))),
            ),
    ensures
        *final(game) == *old(game),
        final(ui).cursor_position == old(ui).cursor_position,
        !old(game).can_move() ==> {
            &&& hand.is_none()
            &&& final(ui).selection == old(ui).selection
            &&& final(ui).message@ == error_text(MoveError::NoMovesRemain)
        },
        old(game).can_move() ==> {
            &&& final(ui).selection@ == selection_after(old(game), old(ui))
            &&& if final(ui).selection@.len() == 0 {
                hand.is_none() && final(ui).message@ == Seq::<char>::empty()
            } else {
                match old(game).spec_check(final(ui).selection@) {
                    Ok(found) => {
                        &&& hand == Some(found)
                        &&& exists|score: Score| #[trigger]
                            shown(
                                old(game).scorer,
                                old(game).play_event(found, final(ui).selection@),
                                score,
                                final(ui).message@,
                            )
                    },
                    Err(error) => hand.is_none() && final(ui).message@ == error_text(error),
                }
            }
        },
{
    if !game.moves_remaining() {
        ui.message = error_message(MoveError::NoMovesRemain);
        return None;
    }
    if game.board.top(ui.cursor_position).is_some() {
        ui.toggle_selection();
    }
    if ui.selection.len() == 0 {
        ui.message = String::new();
        return None;
    }
    let check = game.check(&ui.selection);
    proof {
        assert(ui.selection@ == selection_after(old(game), old(ui)));
    }
    match check {
        Ok(found) => {
            proof {
                if found != MoveType::Trash {
                    assert(old(game).scorer.can_check(
                        old(game).play_event(found, selection_after(old(game), old(ui))),
                    ));
                }
            }
            let text = check_message(found, ui, game);
            let ghost line = text@;
            ui.message = text;
            proof {
                let event = old(game).play_event(found, ui.selection@);
                assert(ui.message@ == line);
                if found == MoveType::Trash {
                    let score = Score { value: 0, bonus: 0, multiplier: 0 };
                    assert(shown(old(game).scorer, event, score, ui.message@));
                }
                assert(exists|score: Score| #[trigger]
                    shown(old(game).scorer, event, score, ui.message@));
            }
            Some(found)
        },
        Err(error) => {
            ui.message = error_message(error);
            None
        },
    }
}

} // verus!
