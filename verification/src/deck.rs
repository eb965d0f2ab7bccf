//! The shuffled deck that a new board is dealt from. The deck is the one of
//! the `cards` crate; what this module says of it is taken on trust.

use vstd::prelude::*;
use cards::deck::{Deck, DeckError};
use crate::card::{card_at, is_deck, Card};

verus! {

/// `cards::deck::Deck`, a deck of playing cards that deals from its top.
#[verifier::external_type_specification]
#[verifier::external_body]
pub struct ExDeck(cards::deck::Deck);

/// `cards::deck::DeckError`, the error of a deck that is asked for more cards
/// than it has left.
#[verifier::external_type_specification]
#[verifier::external_body]
pub struct ExDeckError(cards::deck::DeckError);

/// The cards that a deck has yet to deal, the next one first.
pub uninterp spec fn undealt(deck: Deck) -> Seq<Card>;

/// `Deck::new_shuffled`: a deck of all 52 cards, none of them twice, in an
/// order of which nothing is known.
#[verifier::external_body]
pub(crate) fn new_shuffled() -> (deck: Deck)
    ensures
        is_deck(undealt(deck)),
{
    Deck::new_shuffled()
}

/// `Deck::draw_n`: deals the next `n` cards in their order, or fails and
/// deals nothing where fewer than `n` are left.
#[verifier::external_body]
pub(crate) fn draw_n(deck: &mut Deck, n: usize) -> (drawn: Result<Vec<Card>, DeckError>)
    requires
        n <= usize::MAX - 52,
    ensures
        match drawn {
            Ok(cards) => {
                &&& n <= undealt(*old(deck)).len()
                &&& cards@ == undealt(*old(deck)).take(n as int)
                &&& undealt(*final(deck)) == undealt(*old(deck)).skip(n as int)
            },
            Err(_) => {
                &&& n > undealt(*old(deck)).len()
                &&& undealt(*final(deck)) == undealt(*old(deck))
            },
        },
{
    match deck.draw_n(n) {
        Ok(cards) => Ok(cards.iter().map(|c| card_at(c.value as u8, c.suit as u8)).collect()),
        Err(error) => Err(error),
    }
}

/// `Deck::draw`: deals the next card, or fails where none is left.
#[verifier::external_body]
pub(crate) fn draw(deck: &mut Deck) -> (drawn: Result<Card, DeckError>)
    ensures
        match drawn {
            Ok(card) => {
                &&& undealt(*old(deck)).len() > 0
                &&& card == undealt(*old(deck))[0]
                &&& undealt(*final(deck)) == undealt(*old(deck)).skip(1)
            },
            Err(_) => {
                &&& undealt(*old(deck)).len() == 0
                &&& undealt(*final(deck)) == undealt(*old(deck))
            },
        },
{
    match deck.draw() {
        Ok(card) => Ok(card_at(card.value as u8, card.suit as u8)),
        Err(error) => Err(error),
    }
}

} // verus!
