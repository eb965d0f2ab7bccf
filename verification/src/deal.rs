//! The deal: how a deck of 52 cards is laid out as nine stacks and a lucky
//! card.

use vstd::prelude::*;
use cards::deck::Deck;
use crate::board::{cards_in, stacked_cards, Board, HPosition, Position, Stack, VPosition};
use crate::card::{is_deck, Card};
use crate::deck::{draw, draw_n, undealt};

verus! {

/// The positions of the nine stacks, in the order in which they are dealt:
/// row by row from the top, each row from the left.
pub open spec fn deal_positions() -> Seq<Position> {
    seq![
        (Position { x: HPosition::Left, y: VPosition::Top }),
        (Position { x: HPosition::Center, y: VPosition::Top }),
        (Position { x: HPosition::Right, y: VPosition::Top }),
        (Position { x: HPosition::Left, y: VPosition::Middle }),
        (Position { x: HPosition::Center, y: VPosition::Middle }),
        (Position { x: HPosition::Right, y: VPosition::Middle }),
        (Position { x: HPosition::Left, y: VPosition::Bottom }),
        (Position { x: HPosition::Center, y: VPosition::Bottom }),
        (Position { x: HPosition::Right, y: VPosition::Bottom }),
    ]
}

/// The number of cards dealt to each of the nine stacks, in the order in
/// which they are dealt.
pub open spec fn deal_sizes() -> Seq<int> {
    seq![8, 8, 8, 7, 6, 5, 4, 3, 2]
}

/// The number of cards dealt before each of the nine stacks gets its own,
/// and before the lucky card is drawn.
pub open spec fn deal_starts() -> Seq<int> {
    seq![0, 8, 16, 24, 31, 37, 42, 46, 49, 51]
}

/// The stacks and the lucky card are what dealing the cards in their order
/// gives: each stack in turn gets the next cards, the first of them at its
/// bottom, and the card after the last stack is the lucky card.
pub open spec fn is_deal_of(stacks: Seq<Stack>, lucky_card: Card, cards: Seq<Card>) -> bool {
    &&& cards.len() >= 52
    &&& stacks.len() == 9
    &&& forall|k: int|
        0 <= k < 9 ==> (#[trigger] stacks[k]).position == deal_positions()[k] && stacks[k].cards@
            == cards.subrange(deal_starts()[k], deal_starts()[k + 1])
    &&& lucky_card == cards[51]
}

/// The place on the board of the stack that is dealt as the `k`-th.
fn deal_position(k: usize) -> (position: Position)
    requires
        k < 9,
    ensures
        position == deal_positions()[k as int],
{
    let x = if k % 3 == 0 {
        HPosition::Left
    } else if k % 3 == 1 {
        HPosition::Center
    } else {
        HPosition::Right
    };
    let y = if k < 3 {
        VPosition::Top
    } else if k < 6 {
        VPosition::Middle
    } else {
        VPosition::Bottom
    };
    Position { x, y }
}

/// The number of cards of the stack that is dealt as the `k`-th.
fn deal_size(k: usize) -> (size: usize)
    requires
        k < 9,
    ensures
        size == deal_sizes()[k as int],
        size == deal_starts()[k + 1] - deal_starts()[k as int],
        deal_starts()[k + 1] <= 51,
{
    if k < 3 {
        8
    } else {
        10 - k
    }
}

/// Divide deck into stacks: nine stacks and the lucky card, where the deck
/// has 52 cards left to deal.
pub fn deal_deck(deck: Deck) -> (dealt: Option<(Vec<Stack>, Card)>)
    ensures
        match dealt {
            Some((stacks, lucky_card)) => is_deal_of(stacks@, lucky_card, undealt(deck)),
            None => undealt(deck).len() < 52,
        },
{
    let ghost cards = undealt(deck);
    let mut rest = deck;
    let mut stacks: Vec<Stack> = Vec::new();
    let mut k: usize = 0;
    while k < 9
        invariant
            k <= 9,
            cards == undealt(deck),
            cards.len() >= deal_starts()[k as int],
            undealt(rest) == cards.skip(deal_starts()[k as int]),
            stacks@.len() == k,
            forall|j: int|
                0 <= j < k ==> (#[trigger] stacks@[j]).position == deal_positions()[j]
                    && stacks@[j].cards@ == cards.subrange(deal_starts()[j], deal_starts()[j + 1]),
        decreases 9 - k,
    {
        match draw_n(&mut rest, deal_size(k)) {
            Ok(drawn) => {
                proof {
                    assert(drawn@ =~= cards.subrange(
                        deal_starts()[k as int],
                        deal_starts()[k + 1],
                    ));
                    assert(undealt(rest) =~= cards.skip(deal_starts()[k + 1]));
                }
                stacks.push(Stack { position: deal_position(k), cards: drawn });
            },
            Err(_) => {
                return None;
            },
        }
        k += 1;
    }
    match draw(&mut rest) {
        Ok(lucky_card) => Some((stacks, lucky_card)),
        Err(_) => None,
    }
}

/// The deal of a later stack starts no earlier than the deal of an earlier
/// stack ends.
proof fn lemma_deal_starts_ascend(low: int, high: int)
    requires
        0 <= low <= high <= 9,
    ensures
        deal_starts()[low] <= deal_starts()[high],
        deal_starts()[high] <= 51,
    decreases high - low,
{
    if low < high {
        lemma_deal_starts_ascend(low + 1, high);
    }
}

/// Two cards that were dealt to different places of the board came from
/// different places of the deck.
proof fn lemma_deal_places_differ(p: Position, i: int, a: int, q: Position, j: int, b: int)
    requires
        0 <= i,
        0 <= j,
        p != q || i != j,
        exists|k: int|
            0 <= k < 9 && deal_positions()[k] == p && a == #[trigger] deal_starts()[k] + i && a
                < deal_starts()[k + 1],
        exists|k: int|
            0 <= k < 9 && deal_positions()[k] == q && b == #[trigger] deal_starts()[k] + j && b
                < deal_starts()[k + 1],
    ensures
        a != b,
{
    let k = choose|k: int|
        0 <= k < 9 && deal_positions()[k] == p && a == #[trigger] deal_starts()[k] + i && a
            < deal_starts()[k + 1];
    let l = choose|l: int|
        0 <= l < 9 && deal_positions()[l] == q && b == #[trigger] deal_starts()[l] + j && b
            < deal_starts()[l + 1];
    if k < l {
        lemma_deal_starts_ascend(k + 1, l);
    } else if l < k {
        lemma_deal_starts_ascend(l + 1, k);
    }
}

/// The cards of a row of stacks are the cards of its first stacks, then the
/// cards of the next stack.
proof fn lemma_deal_prefix(stacks: Seq<Stack>, cards: Seq<Card>, k: int)
    requires
        stacks.len() == 9,
        cards.len() >= 51,
        0 <= k <= 9,
        forall|j: int|
            0 <= j < 9 ==> (#[trigger] stacks[j]).cards@ == cards.subrange(
                deal_starts()[j],
                deal_starts()[j + 1],
            ),
    ensures
        cards_in(stacks.take(k)) == cards.take(deal_starts()[k]),
        stacked_cards(stacks.take(k)) == deal_starts()[k],
    decreases k,
{
    if k == 0 {
        assert(cards_in(stacks.take(0)) =~= cards.take(0));
    } else {
        lemma_deal_prefix(stacks, cards, k - 1);
        assert(stacks.take(k).drop_last() =~= stacks.take(k - 1));
        assert(stacks.take(k).last() == stacks[k - 1]);
        assert(cards.take(deal_starts()[k - 1]) + cards.subrange(
            deal_starts()[k - 1],
            deal_starts()[k],
        ) =~= cards.take(deal_starts()[k]));
    }
}

impl Board {
    /// After a deal each card of a pile is a card of the deck that was dealt,
    /// at a place of its own before the place of the lucky card.
    proof fn lemma_dealt_card(&self, cards: Seq<Card>, p: Position, i: int) -> (at: int)
        requires
            is_deal_of(self.stacks@, self.lucky_card, cards),
            0 <= i < self.pile(p).len(),
        ensures
            0 <= at < 51,
            self.pile(p)[i] == cards[at],
            exists|k: int|
                0 <= k < 9 && deal_positions()[k] == p && at == #[trigger] deal_starts()[k] + i
                    && at < deal_starts()[k + 1],
    {
        let stacks = self.stacks@;
        assert(self.spec_positions() =~= deal_positions());
        let k = choose|k: int| 0 <= k < stacks.len() && (#[trigger] stacks[k]).position == p;
        self.lemma_pile_of_stack(k);
        lemma_deal_starts_ascend(k + 1, 9);
        lemma_deal_starts_ascend(0, k);
        deal_starts()[k] + i
    }

    /// A deal of a deck gives a fresh board.
    pub proof fn lemma_deal_is_fresh(&self, cards: Seq<Card>)
        requires
            is_deal_of(self.stacks@, self.lucky_card, cards),
            is_deck(cards),
        ensures
            self.wf(),
            self.freshly_dealt(),
    {
        let stacks = self.stacks@;
        lemma_deal_prefix(stacks, cards, 9);
        assert(stacks.take(9) =~= stacks);
        assert(self.spec_positions() =~= deal_positions());
        assert(cards.take(51).push(cards[51]) =~= cards);
        assert forall|k: int| 0 <= k < 9 implies self.pile(#[trigger] deal_positions()[k]).len()
            == deal_sizes()[k] by {
            self.lemma_pile_of_stack(k);
        }
        assert forall|p: Position, i: int, q: Position, j: int|
            0 <= i < self.pile(p).len() && 0 <= j < self.pile(q).len() && (p != q || i != j)
            implies #[trigger] self.pile(p)[i] != #[trigger] self.pile(q)[j] by {
            let a = self.lemma_dealt_card(cards, p, i);
            let b = self.lemma_dealt_card(cards, q, j);
            lemma_deal_places_differ(p, i, a, q, j, b);
        }
        assert forall|p: Position, i: int| 0 <= i < self.pile(p).len() implies #[trigger] self.pile(
            p,
        )[i] != self.lucky_card by {
            let a = self.lemma_dealt_card(cards, p, i);
        }
    }
}

} // verus!
