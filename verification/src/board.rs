//! The board: nine stacks of cards on a three-by-three grid, and the lucky
//! card that was left over when they were dealt.

use vstd::prelude::*;
use crate::card::{is_deck, Card};
use crate::deal::{deal_deck, deal_positions, deal_sizes};
use crate::deck::{new_shuffled, undealt};
use crate::hands::{chosen, combination, hand_views, hands, lemma_filter_distinct, lies_in};
use crate::permutation::{lemma_distinct_below, lemma_distinct_same_items, lemma_same_len};

verus! {

/// Row of a stack on the board.
#[derive(PartialEq, Eq, Structural, Clone, Copy, Debug)]
pub enum VPosition {
    Top,
    Middle,
    Bottom,
}

/// Column of a stack on the board.
#[derive(PartialEq, Eq, Structural, Clone, Copy, Debug)]
pub enum HPosition {
    Left,
    Center,
    Right,
}

/// Place of a stack on the board.
#[derive(PartialEq, Eq, Structural, Clone, Copy, Debug)]
pub struct Position {
    /// horizontal position on the board
    pub x: HPosition,
    /// vertical position on the board
    pub y: VPosition,
}

/// A stack of cards at a position of the board.
pub struct Stack {
    /// location of the stack on the board
    pub position: Position,
    /// cards in the stack, ordered bottom to top
    pub cards: Vec<Card>,
}

/// The stacks of cards in play and the lucky card.
pub struct Board {
    /// stacks of cards in play, by position
    pub stacks: Vec<Stack>,
    /// the 'lucky' card, not present in any stack
    pub lucky_card: Card,
}

impl Position {
    /// Place of the position on the board, counted row by row from the top
    /// left.
    pub open spec fn index(self) -> int {
        (match self.y {
            VPosition::Top => 0int,
            VPosition::Middle => 3int,
            VPosition::Bottom => 6int,
        }) + (match self.x {
            HPosition::Left => 0int,
            HPosition::Center => 1int,
            HPosition::Right => 2int,
        })
    }
}

/// No more than nine positions are different from each other, and nine
/// such are all the positions of the board.
pub proof fn lemma_at_most_nine(positions: Seq<Position>)
    requires
        positions.no_duplicates(),
    ensures
        positions.len() <= 9,
        positions.len() == 9 ==> forall|p: Position| positions.contains(p),
{
    let places = positions.map_values(|p: Position| p.index());
    assert forall|i: int, j: int|
        0 <= i < places.len() && 0 <= j < places.len() && i != j implies places[i]
        != places[j] by {
        assert(positions[i] != positions[j]);
    }
    lemma_distinct_below(places, 9);
    if positions.len() == 9 {
        assert forall|p: Position| positions.contains(p) by {
            assert(0 <= p.index() < 9);
            assert(places.contains(p.index()));
            let k = choose|k: int| 0 <= k < places.len() && places[k] == p.index();
            assert(positions[k].index() == p.index());
            assert(positions[k].x == p.x && positions[k].y == p.y);
        }
    }
}

/// The positions of a row of stacks, in order.
pub open spec fn stack_positions(stacks: Seq<Stack>) -> Seq<Position> {
    stacks.map_values(|s: Stack| s.position)
}

/// The number of cards in a row of stacks.
pub open spec fn stacked_cards(stacks: Seq<Stack>) -> nat
    decreases stacks.len(),
{
    if stacks.len() == 0 {
        0
    } else {
        stacked_cards(stacks.drop_last()) + stacks.last().cards@.len()
    }
}

/// The cards of a row of stacks, stack after stack, each stack bottom first.
pub open spec fn cards_in(stacks: Seq<Stack>) -> Seq<Card>
    decreases stacks.len(),
{
    if stacks.len() == 0 {
        Seq::empty()
    } else {
        cards_in(stacks.drop_last()) + stacks.last().cards@
    }
}

impl Board {
    /// Create a new board, dealing a 52-card deck into 9 stacks and one
    /// lucky 'extra' card
    pub fn new() -> (board: Board)
        ensures
            board.wf(),
            board.freshly_dealt(),
    {
        let deck = new_shuffled();
        match deal_deck(deck) {
            Some((stacks, lucky_card)) => {
                let board = Board { stacks, lucky_card };
                proof {
                    board.lemma_deal_is_fresh(undealt(deck));
                }
                board
            },
            None => vstd::pervasive::unreached(),
        }
    }

    /// Every card of the deck, the stacks' cards first and the lucky card
    /// last.
    pub open spec fn deck_cards(&self) -> Seq<Card> {
        cards_in(self.stacks@).push(self.lucky_card)
    }

    /// No card lies at two places: the piles hold no card twice, among them
    /// or within one of them, and none of them holds the lucky card.
    pub open spec fn cards_apart(&self) -> bool {
        &&& forall|p: Position, i: int, q: Position, j: int|
            0 <= i < self.pile(p).len() && 0 <= j < self.pile(q).len() && (p != q || i != j)
                ==> #[trigger] self.pile(p)[i] != #[trigger] self.pile(q)[j]
        &&& forall|p: Position, i: int|
            0 <= i < self.pile(p).len() ==> #[trigger] self.pile(p)[i] != self.lucky_card
    }

    /// The board as it is after the deal: nine stacks at the nine positions
    /// of the grid, of 8, 8, 8, 7, 6, 5, 4, 3 and 2 cards, 51 cards in all,
    /// which with the lucky card are a deck of 52 in which no card occurs
    /// twice.
    pub open spec fn freshly_dealt(&self) -> bool {
        &&& self.spec_positions() == deal_positions()
        &&& forall|k: int|
            0 <= k < 9 ==> self.pile(#[trigger] deal_positions()[k]).len() == deal_sizes()[k]
        &&& self.total_cards() == 51
        &&& is_deck(self.deck_cards())
        &&& self.cards_apart()
    }

    /// The positions of the stacks, in the order in which the board holds
    /// them.
    pub open spec fn spec_positions(&self) -> Seq<Position> {
        stack_positions(self.stacks@)
    }

    /// No two stacks share a position.
    pub open spec fn wf(&self) -> bool {
        self.spec_positions().no_duplicates()
    }

    /// A stack lies at the position, empty or not.
    pub open spec fn has_stack(&self, position: Position) -> bool {
        exists|i: int|
            0 <= i < self.stacks@.len() && (#[trigger] self.stacks@[i]).position == position
    }

    /// The cards stacked at a position, bottom first. Empty where no stack
    /// lies.
    pub open spec fn pile(&self, position: Position) -> Seq<Card> {
        if self.has_stack(position) {
            let i = choose|i: int|
                0 <= i < self.stacks@.len() && (#[trigger] self.stacks@[i]).position == position;
            self.stacks@[i].cards@
        } else {
            Seq::empty()
        }
    }

    /// The property of holding a card.
    pub open spec fn holds_cards(&self) -> spec_fn(Position) -> bool {
        |p: Position| self.pile(p).len() > 0
    }

    /// The card on top of the pile of a position.
    pub open spec fn top_card(&self) -> spec_fn(Position) -> Card {
        |p: Position| self.pile(p).last()
    }

    /// The property of holding one card and no more.
    pub open spec fn holds_one(&self) -> spec_fn(Position) -> bool {
        |p: Position| self.pile(p).len() == 1
    }

    /// The positions among those listed whose stack holds one card only.
    pub open spec fn cleared_by(&self, positions: Seq<Position>) -> Seq<Position> {
        positions.filter(self.holds_one())
    }

    /// The positions that still hold a card, in board order.
    pub open spec fn spec_positions_remaining(&self) -> Seq<Position> {
        self.spec_positions().filter(self.holds_cards())
    }

    /// The number of cards on the board.
    pub open spec fn total_cards(&self) -> nat {
        stacked_cards(self.stacks@)
    }

    /// The top card of each listed position, in the order listed, where every
    /// one of them holds a card.
    pub open spec fn tops(&self, positions: Seq<Position>) -> Option<Seq<Card>> {
        if forall|k: int|
            0 <= k < positions.len() ==> self.pile(#[trigger] positions[k]).len() > 0 {
            Some(positions.map_values(self.top_card()))
        } else {
            None
        }
    }

    /// On a well-formed board the pile of a position is the cards of the
    /// stack that lies there.
    pub proof fn lemma_pile_of_stack(&self, i: int)
        requires
            self.wf(),
            0 <= i < self.stacks@.len(),
        ensures
            self.has_stack(self.stacks@[i].position),
            self.pile(self.stacks@[i].position) == self.stacks@[i].cards@,
    {
        let position = self.stacks@[i].position;
        let j = choose|j: int|
            0 <= j < self.stacks@.len() && (#[trigger] self.stacks@[j]).position == position;
        assert(self.spec_positions()[i] == self.spec_positions()[j]);
    }

    /// Every listed position holds a card, and `after` is this board with
    /// the top card taken from the stack at each listed position, once for
    /// each such stack.
    pub open spec fn pops_to(&self, positions: Seq<Position>, after: &Board) -> bool {
        &&& self.tops(positions).is_some()
        &&& after.spec_positions() == self.spec_positions()
        &&& after.lucky_card == self.lucky_card
        &&& forall|p: Position| #[trigger]
            after.pile(p) == if positions.contains(p) {
                self.pile(p).drop_last()
            } else {
                self.pile(p)
            }
    }

    /// Taking top cards from a board on which no card lies at two places
    /// leaves such a board.
    pub proof fn lemma_pop_keeps_cards_apart(&self, positions: Seq<Position>, after: &Board)
        requires
            self.cards_apart(),
            self.pops_to(positions, after),
        ensures
            after.cards_apart(),
    {
        assert forall|p: Position| after.pile(p).len() <= self.pile(p).len() && forall|i: int|
            0 <= i < after.pile(p).len() ==> after.pile(p)[i] == self.pile(p)[i] by {
            if positions.contains(p) {
                let k = choose|k: int| 0 <= k < positions.len() && positions[k] == p;
                assert(self.pile(positions[k]).len() > 0);
            }
        }
        assert forall|p: Position, i: int, q: Position, j: int|
            0 <= i < after.pile(p).len() && 0 <= j < after.pile(q).len() && (p != q || i != j)
            implies #[trigger] after.pile(p)[i] != #[trigger] after.pile(q)[j] by {
            assert(after.pile(p)[i] == self.pile(p)[i]);
            assert(after.pile(q)[j] == self.pile(q)[j]);
        }
        assert forall|p: Position, i: int|
            0 <= i < after.pile(p).len() implies #[trigger] after.pile(p)[i]
            != after.lucky_card by {
            assert(after.pile(p)[i] == self.pile(p)[i]);
        }
    }

    /// The number of cards in the piles of the listed positions.
    pub open spec fn piled_cards(&self, positions: Seq<Position>) -> nat
        decreases positions.len(),
    {
        if positions.len() == 0 {
            0
        } else {
            self.piled_cards(positions.drop_last()) + self.pile(positions.last()).len()
        }
    }

    /// The first stacks of a well-formed board hold the cards of the piles
    /// at their positions.
    proof fn lemma_stacked_is_piled(&self, k: int)
        requires
            self.wf(),
            0 <= k <= self.stacks@.len(),
        ensures
            stacked_cards(self.stacks@.take(k)) == self.piled_cards(self.spec_positions().take(k)),
        decreases k,
    {
        if k > 0 {
            self.lemma_stacked_is_piled(k - 1);
            self.lemma_pile_of_stack(k - 1);
            assert(self.stacks@.take(k).drop_last() =~= self.stacks@.take(k - 1));
            assert(self.spec_positions().take(k).drop_last() =~= self.spec_positions().take(
                k - 1,
            ));
        }
    }

    /// The cards of a well-formed board are the cards of the piles at the
    /// positions of its stacks.
    pub proof fn lemma_total_is_piled(&self)
        requires
            self.wf(),
        ensures
            self.total_cards() == self.piled_cards(self.spec_positions()),
    {
        self.lemma_stacked_is_piled(self.stacks@.len() as int);
        assert(self.stacks@.take(self.stacks@.len() as int) =~= self.stacks@);
        assert(self.spec_positions().take(self.stacks@.len() as int) =~= self.spec_positions());
    }

    /// Taking top cards takes one card from the piles of the listed
    /// positions for each of them that was asked for.
    proof fn lemma_piled_after_pop(
        &self,
        positions: Seq<Position>,
        after: &Board,
        listed: Seq<Position>,
    )
        requires
            self.pops_to(positions, after),
        ensures
            after.piled_cards(listed) + chosen(listed, positions.to_set()).len()
                == self.piled_cards(listed),
        decreases listed.len(),
    {
        reveal(Seq::filter);
        if listed.len() > 0 {
            self.lemma_piled_after_pop(positions, after, listed.drop_last());
            let p = listed.last();
            if positions.contains(p) {
                let k = choose|k: int| 0 <= k < positions.len() && positions[k] == p;
                assert(self.pile(positions[k]).len() > 0);
            }
        }
    }

    /// Taking the top cards at positions that are listed once each leaves as
    /// many cards fewer on the board as positions were listed.
    pub proof fn lemma_pop_takes_cards(&self, positions: Seq<Position>, after: &Board)
        requires
            self.wf(),
            positions.no_duplicates(),
            self.pops_to(positions, after),
        ensures
            after.total_cards() + positions.len() == self.total_cards(),
    {
        let listed = self.spec_positions();
        let asked = chosen(listed, positions.to_set());
        self.lemma_total_is_piled();
        after.lemma_total_is_piled();
        self.lemma_piled_after_pop(positions, after, listed);
        lemma_filter_distinct(listed, lies_in(positions.to_set()));
        assert forall|p: Position| positions.contains(p) <==> asked.contains(p) by {
            if positions.contains(p) {
                let k = choose|k: int| 0 <= k < positions.len() && positions[k] == p;
                assert(self.pile(positions[k]).len() > 0);
                let i = choose|i: int|
                    0 <= i < self.stacks@.len() && (#[trigger] self.stacks@[i]).position == p;
                assert(listed[i] == p);
                listed.lemma_filter_contains(lies_in(positions.to_set()), i);
            }
            if asked.contains(p) {
                let at = choose|at: int| 0 <= at < asked.len() && asked[at] == p;
                listed.lemma_filter_pred(lies_in(positions.to_set()), at);
            }
        }
        lemma_distinct_same_items(positions, asked);
        lemma_same_len(positions, asked);
    }

    /// On a well-formed board no position is listed twice among those that
    /// hold cards.
    pub proof fn lemma_remaining_distinct(&self)
        requires
            self.wf(),
        ensures
            self.spec_positions_remaining().no_duplicates(),
    {
        lemma_filter_distinct(self.spec_positions(), self.holds_cards());
    }

    /// A position whose pile holds a card is among the positions that hold
    /// cards.
    pub proof fn lemma_holds_cards_remaining(&self, position: Position)
        requires
            self.pile(position).len() > 0,
        ensures
            self.spec_positions_remaining().contains(position),
    {
        let i = choose|i: int|
            0 <= i < self.stacks@.len() && (#[trigger] self.stacks@[i]).position == position;
        assert(self.spec_positions()[i] == position);
        self.spec_positions().lemma_filter_contains(self.holds_cards(), i);
    }

    /// Positions on the board
    pub fn positions(&self) -> (all: Vec<Position>)
        ensures
            all@ == self.spec_positions(),
    {
        let mut all: Vec<Position> = Vec::new();
        let mut i: usize = 0;
        while i < self.stacks.len()
            invariant
                i <= self.stacks.len(),
                all@ == self.spec_positions().take(i as int),
            decreases self.stacks.len() - i,
        {
            all.push(self.stacks[i].position);
            proof {
                assert(self.spec_positions().take(i + 1) =~= self.spec_positions().take(
                    i as int,
                ).push(self.stacks@[i as int].position));
            }
            i += 1;
        }
        proof {
            assert(self.spec_positions().take(i as int) =~= self.spec_positions());
        }
        all
    }

    /// Any positions with cards remaining on the board
    pub fn positions_remaining(&self) -> (remaining: Vec<Position>)
        requires
            self.wf(),
        ensures
            remaining@ == self.spec_positions_remaining(),
    {
        let ghost held = self.holds_cards();
        let mut remaining: Vec<Position> = Vec::new();
        let mut i: usize = 0;
        while i < self.stacks.len()
            invariant
                self.wf(),
                i <= self.stacks.len(),
                held == self.holds_cards(),
                remaining@ == self.spec_positions().take(i as int).filter(held),
            decreases self.stacks.len() - i,
        {
            proof {
                self.lemma_pile_of_stack(i as int);
                assert(self.spec_positions().take(i + 1) =~= self.spec_positions().take(
                    i as int,
                ).push(self.stacks@[i as int].position));
                self.spec_positions().take(i as int).lemma_filter_push(
                    self.stacks@[i as int].position,
                    held,
                );
            }
            if self.stacks[i].cards.len() > 0 {
                remaining.push(self.stacks[i].position);
            }
            i += 1;
        }
        proof {
            assert(self.spec_positions().take(i as int) =~= self.spec_positions());
        }
        remaining
    }

    /// Finds the stack that lies at a position.
    fn find(&self, position: Position) -> (found: Option<usize>)
        requires
            self.wf(),
        ensures
            match found {
                Some(i) => i < self.stacks@.len() && self.stacks@[i as int].position == position
                    && self.has_stack(position) && self.pile(position)
                    == self.stacks@[i as int].cards@,
                None => !self.has_stack(position) && self.pile(position) == Seq::<Card>::empty(),
            },
    {
        let mut i: usize = 0;
        while i < self.stacks.len()
            invariant
                self.wf(),
                i <= self.stacks.len(),
                forall|k: int| 0 <= k < i ==> (#[trigger] self.stacks@[k]).position != position,
            decreases self.stacks.len() - i,
        {
            if self.stacks[i].position == position {
                proof {
                    self.lemma_pile_of_stack(i as int);
                }
                return Some(i);
            }
            i += 1;
        }
        None
    }

    /// All possible combinations of the remaining positions with cards on the
    /// board
    pub fn hands_remaining(&self) -> (all: Vec<Vec<Position>>)
        requires
            self.wf(),
        ensures
            hand_views(all@) == hands(self.spec_positions_remaining()),
    {
        let remaining = self.positions_remaining();
        combination(&remaining)
    }

    /// Reads the top card at each listed position and, where asked to,
    /// takes it from its stack. Nothing is read or taken unless every listed
    /// position holds a card.
    fn take_last(&mut self, positions: &Vec<Position>, remove_matches: bool) -> (taken: Option<
        Vec<Card>,
    >)
        requires
            old(self).wf(),
        ensures
            final(self).wf(),
            match taken {
                Some(cards) => old(self).tops(positions@) == Some(cards@),
                None => old(self).tops(positions@).is_none(),
            },
            taken.is_none() || !remove_matches ==> *final(self) == *old(self),
            taken.is_some() && remove_matches ==> old(self).pops_to(positions@, final(self)),
    {
        let ghost top_of = old(self).top_card();
        let mut cards: Vec<Card> = Vec::new();
        let mut k: usize = 0;
        while k < positions.len()
            invariant
                *self == *old(self),
                self.wf(),
                k <= positions.len(),
                top_of == old(self).top_card(),
                forall|j: int| 0 <= j < k ==> self.pile(#[trigger] positions@[j]).len() > 0,
                cards@ == positions@.take(k as int).map_values(top_of),
            decreases positions.len() - k,
        {
            match self.find(positions[k]) {
                Some(i) => {
                    let held = self.stacks[i].cards.len();
                    if held == 0 {
                        return None;
                    }
                    cards.push(self.stacks[i].cards[held - 1]);
                },
                None => {
                    return None;
                },
            }
            proof {
                assert(positions@.take(k + 1).map_values(top_of) =~= positions@.take(
                    k as int,
                ).map_values(top_of).push(top_of(positions@[k as int])));
            }
            k += 1;
        }
        proof {
            assert(positions@.take(k as int) =~= positions@);
        }
        if remove_matches {
            let mut i: usize = 0;
            while i < self.stacks.len()
                invariant
                    old(self).wf(),
                    i <= self.stacks.len(),
                    self.lucky_card == old(self).lucky_card,
                    self.stacks@.len() == old(self).stacks@.len(),
                    forall|j: int|
                        0 <= j < positions@.len() ==> old(self).pile(
                            #[trigger] positions@[j],
                        ).len() > 0,
                    forall|s: int|
                        0 <= s < self.stacks@.len() ==> (#[trigger] self.stacks@[s]).position
                            == old(self).stacks@[s].position,
                    forall|s: int|
                        0 <= s < i ==> (#[trigger] self.stacks@[s]).cards@
                            == if positions@.contains(old(self).stacks@[s].position) {
                            old(self).stacks@[s].cards@.drop_last()
                        } else {
                            old(self).stacks@[s].cards@
                        },
                    forall|s: int|
                        i <= s < self.stacks@.len() ==> (#[trigger] self.stacks@[s]).cards@
                            == old(self).stacks@[s].cards@,
                decreases self.stacks.len() - i,
            {
                if holds_position(positions, self.stacks[i].position) {
                    proof {
                        old(self).lemma_pile_of_stack(i as int);
                    }
                    self.stacks[i].cards.pop();
                }
                i += 1;
            }
            proof {
                assert(self.spec_positions() =~= old(self).spec_positions());
                assert forall|p: Position| #[trigger]
                    self.pile(p) == if positions@.contains(p) {
                        old(self).pile(p).drop_last()
                    } else {
                        old(self).pile(p)
                    } by {
                    if old(self).has_stack(p) {
                        let s = choose|s: int|
                            0 <= s < old(self).stacks@.len() && (#[trigger] old(
                                self,
                            ).stacks@[s]).position == p;
                        old(self).lemma_pile_of_stack(s);
                        assert(self.stacks@[s].position == p);
                        self.lemma_pile_of_stack(s);
                    } else {
                        if self.has_stack(p) {
                            let s = choose|s: int|
                                0 <= s < self.stacks@.len() && (#[trigger] self.stacks@[s]).position
                                    == p;
                            assert(old(self).stacks@[s].position == p);
                        }
                        if positions@.contains(p) {
                            let j = choose|j: int| 0 <= j < positions@.len() && positions@[j] == p;
                            assert(old(self).pile(positions@[j]).len() > 0);
                        }
                    }
                }
            }
        }
        Some(cards)
    }

    /// View the cards on top of the stack at a selection of positions, or None
    /// if the request could not be fulfilled for all positions
    pub fn peek(&mut self, positions: &Vec<Position>) -> (cards: Option<Vec<Card>>)
        requires
            old(self).wf(),
        ensures
            *final(self) == *old(self),
            final(self).total_cards() == old(self).total_cards(),
            match cards {
                Some(cards) => old(self).tops(positions@) == Some(cards@),
                None => old(self).tops(positions@).is_none(),
            },
    {
        self.take_last(positions, false)
    }

    /// View the top card of any stack
    pub fn top(&mut self, position: Position) -> (card: Option<Card>)
        requires
            old(self).wf(),
        ensures
            *final(self) == *old(self),
            card == if old(self).pile(position).len() > 0 {
                Some(old(self).pile(position).last())
            } else {
                None
            },
    {
        let mut asked: Vec<Position> = Vec::new();
        asked.push(position);
        proof {
            assert(asked@[0] == position);
        }
        match self.take_last(&asked, false) {
            Some(cards) => Some(cards[0]),
            None => None,
        }
    }

    /// View and remove the cards on top of the stacks at a selection of
    /// positions, or None if the request could not be fulfilled for
    /// all positions, in which case no stack is altered
    pub fn pop(&mut self, positions: &Vec<Position>) -> (cards: Option<Vec<Card>>)
        requires
            old(self).wf(),
        ensures
            final(self).wf(),
            match cards {
                Some(cards) => old(self).tops(positions@) == Some(cards@) && old(self).pops_to(
                    positions@,
                    final(self),
                ),
                None => {
                    &&& old(self).tops(positions@).is_none()
                    &&& *final(self) == *old(self)
                    &&& final(self).total_cards() == old(self).total_cards()
                },
            },
    {
        self.take_last(positions, true)
    }

    /// Count the remaining cards in a stack
    pub fn count_cards(&self, position: Position) -> (count: usize)
        requires
            self.wf(),
        ensures
            count == self.pile(position).len(),
    {
        match self.find(position) {
            Some(i) => self.stacks[i].cards.len(),
            None => 0,
        }
    }

    /// Count the remaining cards on the board
    pub fn count_all_cards(&self) -> (count: usize)
        requires
            self.total_cards() <= usize::MAX,
        ensures
            count == self.total_cards(),
    {
        let mut count: usize = 0;
        let mut i: usize = 0;
        while i < self.stacks.len()
            invariant
                i <= self.stacks.len(),
                count == stacked_cards(self.stacks@.take(i as int)),
                self.total_cards() <= usize::MAX,
            decreases self.stacks.len() - i,
        {
            proof {
                assert(self.stacks@.take(i + 1).drop_last() =~= self.stacks@.take(i as int));
                lemma_stacked_cards_grow(self.stacks@, i + 1);
            }
            count += self.stacks[i].cards.len();
            i += 1;
        }
        proof {
            assert(self.stacks@.take(i as int) =~= self.stacks@);
        }
        count
    }
}

/// Tells whether a list of positions holds a position.
fn holds_position(positions: &Vec<Position>, position: Position) -> (found: bool)
    ensures
        found == positions@.contains(position),
{
    let mut k: usize = 0;
    while k < positions.len()
        invariant
            k <= positions.len(),
            forall|j: int| 0 <= j < k ==> positions@[j] != position,
        decreases positions.len() - k,
    {
        if positions[k] == position {
            return true;
        }
        k += 1;
    }
    false
}

/// The first stacks of a row hold no more cards than the whole row.
pub proof fn lemma_stacked_cards_grow(stacks: Seq<Stack>, n: int)
    requires
        0 <= n <= stacks.len(),
    ensures
        stacked_cards(stacks.take(n)) <= stacked_cards(stacks),
    decreases stacks.len() - n,
{
    if n < stacks.len() {
        lemma_stacked_cards_grow(stacks, n + 1);
        assert(stacks.take(n + 1).drop_last() =~= stacks.take(n));
    } else {
        assert(stacks.take(n) =~= stacks);
    }
}

} // verus!
