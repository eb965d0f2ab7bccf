//! The game: a board, a budget of discards and a scorer, and the rules that
//! say which selections of stacks may be played as which hand.

use vstd::prelude::*;
use crate::board::{lemma_at_most_nine, Board, Position, VPosition};
use crate::hands::{
    chosen, count_selections, hands, lemma_filter_distinct, lemma_hands_complete,
    lemma_selection_is_chosen, lemma_selections_start_empty, lies_in, selection_at, selections,
};
use crate::card::{
    consecutive, contains_multiple_of_value, has_multiple, is_consecutive, is_same_suit,
    lemma_consecutive_any_order, lemma_has_multiple_any_order, lemma_same_suit_any_order,
    same_suit, Card,
};
use crate::permutation::{
    lemma_distinct_same_items, lemma_same_len, lemma_same_map, lemma_same_member, same_items,
};
use crate::score::{PlayView, Scorer};

verus! {

/// A game in play.
pub struct Game<T: Scorer> {
    /// The stacks of cards and the lucky card
    pub board: Board,
    /// Number of times discarding a single card is allowed
    pub discards_allowed: i32,
    /// Maximum number of times a single card can be discarded in sequence
    pub discards_allowed_max: i32,
    /// Score calculator
    pub scorer: T,
}

/// Why a move was refused.
#[derive(PartialEq, Eq, Structural, Clone, Copy, Debug)]
pub enum MoveError {
    /// The move cannot be played given the current board
    InvalidMove,
    /// The move cannot be played because it uses only a single row
    NeedMultipleRows,
    /// The board is empty
    NoMovesRemain,
    /// No discards remain
    NoDiscardsRemain,
    /// Two pair is not a hand
    TwoPairIsInvalid,
    /// The move cannot be played given the current hand
    InvalidHand,
}

/// The hands that can be played.
#[derive(PartialEq, Eq, Structural, Clone, Copy, Debug)]
pub enum MoveType {
    /// Five consecutive cards of the same suit
    StraightFlush,
    /// Four cards with the same value
    FourOfAKind,
    /// Five cards of the same suit
    Flush,
    /// Three cards with the same value and two cards with the same value
    FullHouse,
    /// Five consecutive cards of various suits
    FiveCardStraight,
    /// Three cards with the same value
    ThreeOfAKind,
    /// The consecutive cards of various or the same suit
    ThreeCardStraight,
    /// Two cards with the same value
    Pair,
    /// Any single card, removed from play
    Trash,
}

/// The hand that a selection of cards makes, given the discards that are
/// left.
pub open spec fn classify(cards: Seq<Card>, discards_allowed: int) -> Result<MoveType, MoveError> {
    if cards.len() == 5 {
        if consecutive(cards) && same_suit(cards) {
            Ok(MoveType::StraightFlush)
        } else if consecutive(cards) {
            Ok(MoveType::FiveCardStraight)
        } else if same_suit(cards) {
            Ok(MoveType::Flush)
        } else if has_multiple(cards, 3) && has_multiple(cards, 2) {
            Ok(MoveType::FullHouse)
        } else {
            Err(MoveError::InvalidMove)
        }
    } else if cards.len() == 4 {
        if has_multiple(cards, 4) {
            Ok(MoveType::FourOfAKind)
        } else {
            Err(MoveError::InvalidMove)
        }
    } else if cards.len() == 3 {
        if consecutive(cards) {
            Ok(MoveType::ThreeCardStraight)
        } else if has_multiple(cards, 3) {
            Ok(MoveType::ThreeOfAKind)
        } else {
            Err(MoveError::InvalidMove)
        }
    } else if cards.len() == 2 {
        if has_multiple(cards, 2) {
            Ok(MoveType::Pair)
        } else {
            Err(MoveError::InvalidMove)
        }
    } else if cards.len() == 1 {
        if discards_allowed > 0 {
            Ok(MoveType::Trash)
        } else {
            Err(MoveError::NoDiscardsRemain)
        }
    } else {
        Err(MoveError::InvalidMove)
    }
}

/// The hand that cards make does not depend on their order.
pub proof fn lemma_classify_any_order(one: Seq<Card>, other: Seq<Card>, discards_allowed: int)
    requires
        same_items(one, other),
    ensures
        classify(one, discards_allowed) == classify(other, discards_allowed),
{
    lemma_same_len(one, other);
    lemma_consecutive_any_order(one, other);
    lemma_same_suit_any_order(one, other);
    lemma_has_multiple_any_order(one, other, 2);
    lemma_has_multiple_any_order(one, other, 3);
    lemma_has_multiple_any_order(one, other, 4);
}

/// All the positions lie in one row.
pub open spec fn single_row(positions: Seq<Position>) -> bool {
    forall|i: int, j: int|
        0 <= i < positions.len() && 0 <= j < positions.len() ==> (#[trigger] positions[i]).y
            == (#[trigger] positions[j]).y
}

/// The rows of a list of positions.
pub open spec fn rows_of(positions: Seq<Position>) -> Seq<VPosition> {
    positions.map_values(|p: Position| p.y)
}

/// Drops from a list of rows each row that an earlier element names already.
pub fn uniq(items: Vec<VPosition>) -> (unique: Vec<VPosition>)
    ensures
        unique@ == items@.remove_duplicates(Seq::empty()),
        unique@.no_duplicates(),
        forall|row: VPosition| unique@.contains(row) <==> items@.contains(row),
{
    let mut result: Vec<VPosition> = Vec::new();
    let mut i: usize = 0;
    proof {
        assert(items@.skip(0) =~= items@);
        assert(result@ =~= Seq::<VPosition>::empty());
    }
    while i < items.len()
        invariant
            i <= items.len(),
            items@.remove_duplicates(Seq::empty()) == items@.skip(i as int).remove_duplicates(
                result@,
            ),
            result@.no_duplicates(),
            forall|row: VPosition| result@.contains(row) <==> items@.take(i as int).contains(row),
        decreases items.len() - i,
    {
        let item = items[i];
        let seen = holds_row(&result, item);
        let ghost before = result@;
        if !seen {
            result.push(item);
        }
        proof {
            assert(items@.skip(i as int)[0] == item);
            assert(items@.skip(i as int).skip(1) =~= items@.skip(i + 1));
            assert(items@.take(i + 1) =~= items@.take(i as int).push(item));
            if !seen {
                assert(result@ =~= before + seq![item]);
            }
            assert forall|row: VPosition| result@.contains(row) <==> items@.take(i + 1).contains(
                row,
            ) by {
                vstd::seq_lib::lemma_seq_contains_after_push(items@.take(i as int), item, row);
                vstd::seq_lib::lemma_seq_contains_after_push(before, item, row);
                assert(before.contains(row) <==> items@.take(i as int).contains(row));
            }
        }
        i += 1;
    }
    proof {
        assert(items@.take(i as int) =~= items@);
    }
    result
}

/// Tells whether a list of rows holds a row.
fn holds_row(rows: &Vec<VPosition>, row: VPosition) -> (found: bool)
    ensures
        found == rows@.contains(row),
{
    let mut k: usize = 0;
    while k < rows.len()
        invariant
            k <= rows.len(),
            forall|j: int| 0 <= j < k ==> rows@[j] != row,
        decreases rows.len() - k,
    {
        if rows[k] == row {
            return true;
        }
        k += 1;
    }
    false
}

/// The discards that are left after a hand was played: a discard uses one
/// up, any other hand gives one back while the budget is not full.
pub open spec fn discards_after(hand: MoveType, allowed: int, max: int) -> int {
    if hand == MoveType::Trash {
        allowed - 1
    } else if allowed < max {
        allowed + 1
    } else {
        allowed
    }
}

impl<T: Scorer> Game<T> {
    /// The board is well formed and the discards left lie within the
    /// budget.
    pub open spec fn wf(&self) -> bool {
        &&& self.board.wf()
        &&& 0 <= self.discards_allowed <= self.discards_allowed_max
    }

    /// The hand that the top cards at the positions make, or the reason why
    /// they cannot be played.
    pub open spec fn spec_check(&self, positions: Seq<Position>) -> Result<MoveType, MoveError> {
        if positions.len() > 1 && single_row(positions) {
            Err(MoveError::NeedMultipleRows)
        } else {
            match self.board.tops(positions) {
                Some(cards) => classify(cards, self.discards_allowed as int),
                None => Err(MoveError::InvalidMove),
            }
        }
    }

    /// What the scorer is told of a play of the hand from the positions: the
    /// cards on top of them and the positions that the play clears.
    pub open spec fn play_event(&self, hand: MoveType, positions: Seq<Position>) -> PlayView {
        PlayView {
            cards: self.board.tops(positions).unwrap(),
            cleared_positions: self.board.cleared_by(positions),
            hand,
        }
    }

    /// A discard is left, or some selection of the positions that hold cards
    /// makes a hand.
    pub open spec fn can_move(&self) -> bool {
        ||| self.discards_allowed > 0
        ||| exists|k: int|
            0 <= k < hands(self.board.spec_positions_remaining()).len() && self.spec_check(
                #[trigger] hands(self.board.spec_positions_remaining())[k],
            ).is_ok()
    }

    /// What a selection of positions makes does not depend on the order in
    /// which the positions are listed.
    pub proof fn lemma_check_any_order(&self, one: Seq<Position>, other: Seq<Position>)
        requires
            same_items(one, other),
        ensures
            self.spec_check(one) == self.spec_check(other),
    {
        lemma_same_len(one, other);
        assert(single_row(one) == single_row(other)) by {
            if single_row(one) {
                assert forall|i: int, j: int|
                    0 <= i < other.len() && 0 <= j < other.len() implies (#[trigger] other[i]).y
                    == (#[trigger] other[j]).y by {
                    let a = lemma_same_member(other, one, i);
                    let b = lemma_same_member(other, one, j);
                    assert(one[a].y == one[b].y);
                }
            }
            if single_row(other) {
                assert forall|i: int, j: int|
                    0 <= i < one.len() && 0 <= j < one.len() implies (#[trigger] one[i]).y == (
                #[trigger] one[j]).y by {
                    let a = lemma_same_member(one, other, i);
                    let b = lemma_same_member(one, other, j);
                    assert(other[a].y == other[b].y);
                }
            }
        }
        assert(self.board.tops(one).is_some() == self.board.tops(other).is_some()) by {
            if self.board.tops(one).is_some() {
                assert forall|k: int| 0 <= k < other.len() implies self.board.pile(
                    #[trigger] other[k],
                ).len() > 0 by {
                    let a = lemma_same_member(other, one, k);
                    assert(self.board.pile(one[a]).len() > 0);
                }
            }
            if self.board.tops(other).is_some() {
                assert forall|k: int| 0 <= k < one.len() implies self.board.pile(
                    #[trigger] one[k],
                ).len() > 0 by {
                    let a = lemma_same_member(one, other, k);
                    assert(self.board.pile(other[a]).len() > 0);
                }
            }
        }
        if self.board.tops(one).is_some() {
            lemma_same_map(one, other, self.board.top_card());
            lemma_classify_any_order(
                self.board.tops(one).unwrap(),
                self.board.tops(other).unwrap(),
                self.discards_allowed as int,
            );
        }
    }

    /// No move is left exactly when no discard is left and no choice among
    /// the positions that hold cards makes a hand.
    pub proof fn lemma_no_moves_left(&self)
        requires
            self.wf(),
        ensures
            !self.can_move() <==> (self.discards_allowed == 0 && forall|keep: Set<Position>|
                self.spec_check(
                    #[trigger] chosen(self.board.spec_positions_remaining(), keep),
                ).is_err()),
    {
        let remaining = self.board.spec_positions_remaining();
        if !self.can_move() {
            assert forall|keep: Set<Position>|
                self.spec_check(#[trigger] chosen(remaining, keep)).is_err() by {
                let hand = chosen(remaining, keep);
                if hand.len() > 0 {
                    lemma_hands_complete(remaining, keep);
                    let k = choose|k: int|
                        0 <= k < hands(remaining).len() && hands(remaining)[k] == hand;
                    assert(self.spec_check(hands(remaining)[k]).is_err());
                } else {
                    assert(self.board.tops(hand).unwrap().len() == 0);
                }
            }
        }
        if self.discards_allowed == 0 && forall|keep: Set<Position>|
            self.spec_check(#[trigger] chosen(remaining, keep)).is_err() {
            if self.can_move() {
                let k = choose|k: int|
                    0 <= k < hands(remaining).len() && self.spec_check(
                        #[trigger] hands(remaining)[k],
                    ).is_ok();
                let hand = hands(remaining)[k];
                self.board.lemma_remaining_distinct();
                lemma_selections_start_empty(remaining);
                lemma_selection_is_chosen(remaining, k + 1);
                assert(hand == selections(remaining)[k + 1]);
                assert(hand == chosen(remaining, hand.to_set()));
            }
        }
    }

    /// Where no move is left, no list of positions makes a hand, in whatever
    /// order it lists them, unless it lists one of them twice.
    pub proof fn lemma_no_moves_no_hand(&self, positions: Seq<Position>)
        requires
            self.wf(),
            !self.can_move(),
            positions.no_duplicates(),
        ensures
            self.spec_check(positions).is_err(),
    {
        if self.board.tops(positions).is_some() {
            let remaining = self.board.spec_positions_remaining();
            let keep = positions.to_set();
            let hand = chosen(remaining, keep);
            self.lemma_no_moves_left();
            assert(self.spec_check(hand).is_err());
            self.board.lemma_remaining_distinct();
            lemma_filter_distinct(remaining, lies_in(keep));
            assert forall|p: Position| positions.contains(p) <==> hand.contains(p) by {
                if positions.contains(p) {
                    let k = choose|k: int| 0 <= k < positions.len() && positions[k] == p;
                    assert(self.board.pile(positions[k]).len() > 0);
                    self.board.lemma_holds_cards_remaining(p);
                    let at = choose|at: int| 0 <= at < remaining.len() && remaining[at] == p;
                    remaining.lemma_filter_contains(lies_in(keep), at);
                }
                if hand.contains(p) {
                    let at = choose|at: int| 0 <= at < hand.len() && hand[at] == p;
                    remaining.lemma_filter_pred(lies_in(keep), at);
                }
            }
            lemma_distinct_same_items(positions, hand);
            self.lemma_check_any_order(positions, hand);
        }
    }

    /// A new game on a freshly dealt board, with two discards that a play
    /// can win back.
    pub fn new() -> (game: Game<T>)
        ensures
            game.wf(),
            game.board.freshly_dealt(),
            game.discards_allowed == 2,
            game.discards_allowed_max == 2,
            game.scorer.is_new(game.board.lucky_card),
    {
        Game::with_discards(2)
    }

    /// A new game on a freshly dealt board, whose budget of discards starts
    /// and caps at the given number.
    pub fn with_discards(discards_allowed: i32) -> (game: Game<T>)
        requires
            discards_allowed >= 0,
        ensures
            game.wf(),
            game.board.freshly_dealt(),
            game.discards_allowed == discards_allowed,
            game.discards_allowed_max == discards_allowed,
            game.scorer.is_new(game.board.lucky_card),
    {
        let board = Board::new();
        let lucky_card = Card { value: board.lucky_card.value, suit: board.lucky_card.suit };
        Game {
            board,
            discards_allowed,
            discards_allowed_max: discards_allowed,
            scorer: T::new(lucky_card),
        }
    }

    /// True if any more moves can be played
    pub fn moves_remaining(&mut self) -> (remain: bool)
        requires
            old(self).wf(),
        ensures
            *final(self) == *old(self),
            remain == old(self).can_move(),
    {
        let remaining = self.board.positions_remaining();
        proof {
            self.board.lemma_remaining_distinct();
            lemma_at_most_nine(remaining@);
        }
        let count = count_selections(&remaining);
        let mut number: usize = 1;
        while number < count
            invariant
                *self == *old(self),
                self.wf(),
                remaining@ == self.board.spec_positions_remaining(),
                count == selections(remaining@).len(),
                1 <= number <= count,
                forall|j: int|
                    0 <= j < number - 1 ==> self.spec_check(
                        #[trigger] hands(remaining@)[j],
                    ).is_err(),
            decreases count - number,
        {
            let hand = selection_at(&remaining, number);
            proof {
                assert(hands(remaining@)[number - 1] == selections(remaining@)[number as int]);
            }
            if self.check(&hand).is_ok() {
                return true;
            }
            number += 1;
        }
        self.discards_allowed > 0
    }

    /// Play the cards at the top of a set of stacks, updating
    /// discards_allowed if applicable
    pub fn play(&mut self, hand: MoveType, positions: &Vec<Position>) -> (played: Result<
        MoveType,
        MoveError,
    >)
        requires
            old(self).wf(),
        ensures
            final(self).wf(),
            match old(self).spec_check(positions@) {
                Ok(found) => if found == hand {
                    &&& played == Ok::<MoveType, MoveError>(hand)
                    &&& old(self).board.pops_to(positions@, &final(self).board)
                    &&& final(self).discards_allowed == discards_after(
                        hand,
                        old(self).discards_allowed as int,
                        old(self).discards_allowed_max as int,
                    )
                    &&& final(self).discards_allowed_max == old(self).discards_allowed_max
                    &&& final(self).scorer == old(self).scorer
                } else {
                    &&& played == Err::<MoveType, MoveError>(MoveError::InvalidHand)
                    &&& *final(self) == *old(self)
                },
                Err(error) => {
                    &&& played == Err::<MoveType, MoveError>(error)
                    &&& *final(self) == *old(self)
                },
            },
    {
        let check = self.check(positions);
        match check {
            Ok(found) => {
                if found == hand {
                    let _ = self.board.pop(positions);
                    if hand == MoveType::Trash {
                        self.discards_allowed -= 1;
                    } else if self.discards_allowed < self.discards_allowed_max {
                        self.discards_allowed += 1;
                    }
                    Ok(found)
                } else {
                    Err(MoveError::InvalidHand)
                }
            },
            Err(error) => Err(error),
        }
    }

    /// Determine what move would result from playing the cards on top of a
    /// set of stacks
    pub fn check(&mut self, positions: &Vec<Position>) -> (found: Result<MoveType, MoveError>)
        requires
            old(self).wf(),
        ensures
            *final(self) == *old(self),
            found == old(self).spec_check(positions@),
    {
        let rows = uniq(rows(positions));
        let result = self.board.peek(positions);
        proof {
            let ys = rows_of(positions@);
            if single_row(positions@) {
                if rows@.len() >= 2 {
                    assert(rows@.contains(rows@[0]));
                    assert(rows@.contains(rows@[1]));
                    let a = choose|a: int| 0 <= a < ys.len() && ys[a] == rows@[0];
                    let b = choose|b: int| 0 <= b < ys.len() && ys[b] == rows@[1];
                    assert(positions@[a].y == positions@[b].y);
                }
            }
            if rows@.len() < 2 {
                assert forall|i: int, j: int|
                    0 <= i < positions@.len() && 0 <= j < positions@.len() implies (
                #[trigger] positions@[i]).y == (#[trigger] positions@[j]).y by {
                    assert(ys.contains(ys[i]));
                    assert(ys.contains(ys[j]));
                    let a = choose|a: int| 0 <= a < rows@.len() && rows@[a] == ys[i];
                    let b = choose|b: int| 0 <= b < rows@.len() && rows@[b] == ys[j];
                }
            }
        }
        if rows.len() < 2 && positions.len() > 1 {
            return Err(MoveError::NeedMultipleRows);
        }
        match result {
            Some(mut cards) => self.check_cards(&mut cards),
            None => Err(MoveError::InvalidMove),
        }
    }

    /// Names the hand that the cards make.
    fn check_cards(&self, cards: &mut Vec<Card>) -> (found: Result<MoveType, MoveError>)
        ensures
            found == classify(old(cards)@, self.discards_allowed as int),
    {
        match cards.len() {
            5 => check_five(cards),
            4 => check_four(cards),
            3 => check_three(cards),
            2 => check_two(cards),
            1 => check_one(self.discards_allowed),
            _ => Err(MoveError::InvalidMove),
        }
    }
}

/// The rows of a list of positions.
fn rows(positions: &Vec<Position>) -> (ys: Vec<VPosition>)
    ensures
        ys@ == rows_of(positions@),
{
    let mut ys: Vec<VPosition> = Vec::new();
    let mut i: usize = 0;
    while i < positions.len()
        invariant
            i <= positions.len(),
            ys@ == rows_of(positions@.take(i as int)),
        decreases positions.len() - i,
    {
        ys.push(positions[i].y);
        proof {
            assert(rows_of(positions@.take(i + 1)) =~= rows_of(positions@.take(i as int)).push(
                positions@[i as int].y,
            ));
        }
        i += 1;
    }
    proof {
        assert(positions@.take(i as int) =~= positions@);
    }
    ys
}

/// Names the hand that five cards make.
fn check_five(cards: &mut Vec<Card>) -> (found: Result<MoveType, MoveError>)
    requires
        old(cards)@.len() == 5,
    ensures
        found == classify(old(cards)@, 0),
{
    let flush = is_same_suit(cards);
    let full_house = contains_multiple_of_value(cards, 3) && contains_multiple_of_value(cards, 2);
    let straight = is_consecutive(cards);
    if straight && flush {
        return Ok(MoveType::StraightFlush);
    } else if straight {
        return Ok(MoveType::FiveCardStraight);
    } else if flush {
        return Ok(MoveType::Flush);
    } else if full_house {
        return Ok(MoveType::FullHouse);
    }
    Err(MoveError::InvalidMove)
}

/// Names the hand that four cards make.
fn check_four(cards: &mut Vec<Card>) -> (found: Result<MoveType, MoveError>)
    requires
        old(cards)@.len() == 4,
    ensures
        found == classify(old(cards)@, 0),
        final(cards)@ == old(cards)@,
{
    if contains_multiple_of_value(cards, 4) {
        return Ok(MoveType::FourOfAKind);
    }
    Err(MoveError::InvalidMove)
}

/// Names the hand that three cards make.
fn check_three(cards: &mut Vec<Card>) -> (found: Result<MoveType, MoveError>)
    requires
        old(cards)@.len() == 3,
    ensures
        found == classify(old(cards)@, 0),
{
    let triple = contains_multiple_of_value(cards, 3);
    if is_consecutive(cards) {
        return Ok(MoveType::ThreeCardStraight);
    } else if triple {
        return Ok(MoveType::ThreeOfAKind);
    }
    Err(MoveError::InvalidMove)
}

/// Names the hand that two cards make.
fn check_two(cards: &mut Vec<Card>) -> (found: Result<MoveType, MoveError>)
    requires
        old(cards)@.len() == 2,
    ensures
        found == classify(old(cards)@, 0),
        final(cards)@ == old(cards)@,
{
    if contains_multiple_of_value(cards, 2) {
        return Ok(MoveType::Pair);
    }
    Err(MoveError::InvalidMove)
}

/// A single card may be discarded while discards are left.
pub fn check_one(trashes_remaining: i32) -> (found: Result<MoveType, MoveError>)
    ensures
        found == if trashes_remaining > 0 {
            Ok::<MoveType, MoveError>(MoveType::Trash)
        } else {
            Err::<MoveType, MoveError>(MoveError::NoDiscardsRemain)
        },
{
    if trashes_remaining > 0 {
        return Ok(MoveType::Trash);
    }
    Err(MoveError::NoDiscardsRemain)
}

} // verus!
