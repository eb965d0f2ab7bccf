//! Playing cards and the predicates that recognise poker-like hands.

use vstd::prelude::*;
use crate::permutation::{
    lemma_distinct_below, lemma_same_filter_len, lemma_same_len, lemma_same_member, same_items,
};

verus! {

/// The four suits of a standard deck.
#[derive(Debug, PartialEq, Eq, Structural, Clone, Copy, Hash)]
pub enum Suit {
    Spades,
    Hearts,
    Diamonds,
    Clubs,
}

/// The thirteen values of a standard deck, lowest first, aces high.
#[derive(Debug, PartialEq, Eq, Structural, Clone, Copy, Hash)]
pub enum Value {
    Two,
    Three,
    Four,
    Five,
    Six,
    Seven,
    Eight,
    Nine,
    Ten,
    Jack,
    Queen,
    King,
    Ace,
}

/// A playing card.
#[derive(Debug, PartialEq, Eq, Structural, Clone, Copy, Hash)]
pub struct Card {
    /// what the card counts for
    pub value: Value,
    /// the suit that the card belongs to
    pub suit: Suit,
}

impl Suit {
    /// Place of the suit in the order Spades, Hearts, Diamonds, Clubs.
    pub open spec fn index(self) -> int {
        match self {
            Suit::Spades => 0,
            Suit::Hearts => 1,
            Suit::Diamonds => 2,
            Suit::Clubs => 3,
        }
    }
}

impl Value {
    /// Place of the value in the order from Two up to Ace.
    pub open spec fn index(self) -> int {
        match self {
            Value::Two => 0,
            Value::Three => 1,
            Value::Four => 2,
            Value::Five => 3,
            Value::Six => 4,
            Value::Seven => 5,
            Value::Eight => 6,
            Value::Nine => 7,
            Value::Ten => 8,
            Value::Jack => 9,
            Value::Queen => 10,
            Value::King => 11,
            Value::Ace => 12,
        }
    }
}

impl Card {
    /// Place of the card in a deck that is sorted by suit and then by value:
    /// the Two of Spades is card 0 and the Ace of Clubs card 51.
    pub open spec fn index(self) -> int {
        self.suit.index() * 13 + self.value.index()
    }
}

/// A deck holds 52 cards and none of them twice.
pub open spec fn is_deck(cards: Seq<Card>) -> bool {
    cards.len() == 52 && cards.no_duplicates()
}

/// A deck holds every card there is.
pub proof fn lemma_deck_is_full(cards: Seq<Card>, card: Card)
    requires
        is_deck(cards),
    ensures
        cards.contains(card),
{
    let places = cards.map_values(|c: Card| c.index());
    assert forall|i: int, j: int| 0 <= i < 52 && 0 <= j < 52 && i != j implies places[i]
        != places[j] by {
        assert(cards[i] != cards[j]);
    }
    lemma_distinct_below(places, 52);
    assert(0 <= card.index() < 52);
    assert(places.contains(card.index()));
    let k = choose|k: int| 0 <= k < places.len() && places[k] == card.index();
    assert(cards[k].index() == card.index());
    assert(cards[k].suit == card.suit && cards[k].value == card.value);
}

/// The card whose value and suit have the given places in their orders.
pub fn card_at(value: u8, suit: u8) -> (card: Card)
    requires
        value < 13,
        suit < 4,
    ensures
        card.value.index() == value,
        card.suit.index() == suit,
{
    let value = match value {
        0 => Value::Two,
        1 => Value::Three,
        2 => Value::Four,
        3 => Value::Five,
        4 => Value::Six,
        5 => Value::Seven,
        6 => Value::Eight,
        7 => Value::Nine,
        8 => Value::Ten,
        9 => Value::Jack,
        10 => Value::Queen,
        11 => Value::King,
        _ => Value::Ace,
    };
    let suit = match suit {
        0 => Suit::Spades,
        1 => Suit::Hearts,
        2 => Suit::Diamonds,
        _ => Suit::Clubs,
    };
    Card { value, suit }
}

/// Rank of a value within one hand: Two is 0 and King is 11. An ace ranks
/// below the Two when `ace_low` is set and above the King otherwise.
pub open spec fn rank(value: Value, ace_low: bool) -> int {
    match value {
        Value::Two => 0,
        Value::Three => 1,
        Value::Four => 2,
        Value::Five => 3,
        Value::Six => 4,
        Value::Seven => 5,
        Value::Eight => 6,
        Value::Nine => 7,
        Value::Ten => 8,
        Value::Jack => 9,
        Value::Queen => 10,
        Value::King => 11,
        Value::Ace => if ace_low { -1 } else { 12 },
    }
}

/// Computes the rank of a value.
pub fn sort_value(value: Value, ace_low: bool) -> (r: i32)
    ensures
        r == rank(value, ace_low),
{
    match value {
        Value::Two => 0,
        Value::Three => 1,
        Value::Four => 2,
        Value::Five => 3,
        Value::Six => 4,
        Value::Seven => 5,
        Value::Eight => 6,
        Value::Nine => 7,
        Value::Ten => 8,
        Value::Jack => 9,
        Value::Queen => 10,
        Value::King => 11,
        Value::Ace => if ace_low { -1 } else { 12 },
    }
}

/// The property of having the given value.
pub open spec fn has_value(value: Value) -> spec_fn(Card) -> bool {
    |c: Card| c.value == value
}

/// How many cards of a hand have the given value.
pub open spec fn count_value(cards: Seq<Card>, value: Value) -> nat {
    cards.filter(has_value(value)).len()
}

/// Some card of the hand has a value that the hand holds exactly `times`
/// times.
pub open spec fn has_multiple(cards: Seq<Card>, times: nat) -> bool {
    exists|i: int| 0 <= i < cards.len() && count_value(cards, #[trigger] cards[i].value) == times
}

/// All cards of a hand of two or more share one suit.
pub open spec fn same_suit(cards: Seq<Card>) -> bool {
    cards.len() > 1 && forall|i: int|
        0 <= i < cards.len() ==> (#[trigger] cards[i]).suit == cards[0].suit
}

/// Counts the cards of a hand that have the given value.
fn count_of_value(cards: &Vec<Card>, value: Value) -> (n: usize)
    ensures
        n == count_value(cards@, value),
{
    let ghost same = has_value(value);
    let mut n: usize = 0;
    let mut j: usize = 0;
    while j < cards.len()
        invariant
            j <= cards.len(),
            n <= j,
            same == has_value(value),
            n == cards@.take(j as int).filter(same).len(),
        decreases cards.len() - j,
    {
        proof {
            assert(cards@.take(j + 1) =~= cards@.take(j as int).push(cards@[j as int]));
            cards@.take(j as int).lemma_filter_len_push(same, cards@[j as int]);
        }
        if cards[j].value == value {
            n += 1;
        }
        j += 1;
    }
    proof {
        assert(cards@.take(j as int) =~= cards@);
    }
    n
}

/// Check that a selection of cards contains cards with the same value a given
/// number of times.
pub fn contains_multiple_of_value(cards: &Vec<Card>, times: usize) -> (found: bool)
    ensures
        found == has_multiple(cards@, times as nat),
{
    let mut i: usize = 0;
    while i < cards.len()
        invariant
            i <= cards.len(),
            forall|k: int| 0 <= k < i ==> count_value(cards@, #[trigger] cards@[k].value) != times,
        decreases cards.len() - i,
    {
        if count_of_value(cards, cards[i].value) == times {
            return true;
        }
        i += 1;
    }
    false
}

/// Check that a selection of cards share a single suit.
pub fn is_same_suit(cards: &Vec<Card>) -> (same: bool)
    ensures
        same == same_suit(cards@),
{
    if cards.len() < 2 {
        return false;
    }
    let mut i: usize = 1;
    while i < cards.len()
        invariant
            1 <= i <= cards.len(),
            forall|k: int| 0 <= k < i ==> (#[trigger] cards@[k]).suit == cards@[0].suit,
        decreases cards.len() - i,
    {
        if cards[i].suit != cards[0].suit {
            return false;
        }
        i += 1;
    }
    true
}

/// The hand holds a Two, which makes its aces rank low.
pub open spec fn holds_two(cards: Seq<Card>) -> bool {
    exists|i: int| 0 <= i < cards.len() && (#[trigger] cards[i]).value == Value::Two
}

/// The card at each index `i` ranks exactly `i` above the first card, so
/// each card ranks one above the card before it.
pub open spec fn is_run(cards: Seq<Card>, ace_low: bool) -> bool {
    forall|i: int|
        0 <= i < cards.len() ==> rank((#[trigger] cards[i]).value, ace_low) == rank(
            cards[0].value,
            ace_low,
        ) + i
}

/// Each card ranks exactly one above the card before it.
pub open spec fn steps_by_one(cards: Seq<Card>, ace_low: bool) -> bool {
    forall|i: int, j: int|
        0 <= i && j == i + 1 && j < cards.len() ==> rank((#[trigger] cards[j]).value, ace_low)
            == rank((#[trigger] cards[i]).value, ace_low) + 1
}

/// No card ranks below a card before it.
pub open spec fn rank_sorted(cards: Seq<Card>, ace_low: bool) -> bool {
    forall|i: int, j: int|
        0 <= i <= j < cards.len() ==> rank((#[trigger] cards[i]).value, ace_low) <= rank(
            (#[trigger] cards[j]).value,
            ace_low,
        )
}

/// Every card ranks strictly above the cards before it.
pub open spec fn rank_ascending(cards: Seq<Card>, ace_low: bool) -> bool {
    forall|i: int, j: int|
        0 <= i < j < cards.len() ==> rank((#[trigger] cards[i]).value, ace_low) < rank(
            (#[trigger] cards[j]).value,
            ace_low,
        )
}

/// The property of having the given rank.
pub open spec fn ranked(at: int, ace_low: bool) -> spec_fn(Card) -> bool {
    |c: Card| rank(c.value, ace_low) == at
}

/// The cards of each rank stand in `after` in the order in which they stand
/// in `before`.
pub open spec fn keeps_order(before: Seq<Card>, after: Seq<Card>, ace_low: bool) -> bool {
    forall|at: int| #[trigger]
        after.filter(ranked(at, ace_low)) == before.filter(ranked(at, ace_low))
}

/// `after` is `before` sorted by rank, lowest first, with the cards of one
/// rank left in their order.
pub open spec fn sorted_from(before: Seq<Card>, after: Seq<Card>, ace_low: bool) -> bool {
    &&& after.to_multiset() == before.to_multiset()
    &&& rank_sorted(after, ace_low)
    &&& keeps_order(before, after, ace_low)
}

/// A hand of two or more cards that can be laid out as a run. Aces rank low
/// exactly when the hand holds a Two.
pub open spec fn consecutive(cards: Seq<Card>) -> bool {
    cards.len() >= 2 && exists|run: Seq<Card>|
        run.to_multiset() == cards.to_multiset() && #[trigger] is_run(run, holds_two(cards))
}

/// Where the ranks ascend, the card at index `j` ranks at least `j - i`
/// above the card at index `i`.
proof fn lemma_ascending_gap(cards: Seq<Card>, ace_low: bool, i: int, j: int)
    requires
        0 <= i <= j < cards.len(),
        rank_ascending(cards, ace_low),
    ensures
        rank(cards[j].value, ace_low) >= rank(cards[i].value, ace_low) + (j - i),
    decreases j - i,
{
    if i < j {
        lemma_ascending_gap(cards, ace_low, i, j - 1);
        assert(rank(cards[j - 1].value, ace_low) < rank(cards[j].value, ace_low));
    }
}

/// Sorting the cards of a run by rank gives a run again.
pub proof fn lemma_sorted_run(run: Seq<Card>, sorted: Seq<Card>, ace_low: bool)
    requires
        is_run(run, ace_low),
        rank_sorted(sorted, ace_low),
        run.to_multiset() == sorted.to_multiset(),
    ensures
        is_run(sorted, ace_low),
{
    let n = run.len() as int;
    vstd::seq_lib::to_multiset_len(run);
    vstd::seq_lib::to_multiset_len(sorted);
    if n >= 1 {
        let lo = rank(run[0].value, ace_low);
        assert(run.no_duplicates());
        run.lemma_multiset_has_no_duplicates();
        sorted.lemma_multiset_has_no_duplicates_conv();
        // every sorted card sits in the run, so it ranks within the run's span
        assert forall|k: int| 0 <= k < n implies lo <= rank((#[trigger] sorted[k]).value, ace_low)
            < lo + n by {
            let a = lemma_same_member(sorted, run, k);
        }
        // two sorted cards of one rank would be one card of the run
        assert forall|i: int, j: int| 0 <= i < j < n implies rank(
            (#[trigger] sorted[i]).value,
            ace_low,
        ) < rank((#[trigger] sorted[j]).value, ace_low) by {
            let a = lemma_same_member(sorted, run, i);
            let b = lemma_same_member(sorted, run, j);
            assert(sorted[i] != sorted[j]);
        }
        assert forall|k: int| 0 <= k < n implies rank((#[trigger] sorted[k]).value, ace_low)
            == rank(sorted[0].value, ace_low) + k by {
            lemma_ascending_gap(sorted, ace_low, 0, k);
            lemma_ascending_gap(sorted, ace_low, k, n - 1);
            lemma_ascending_gap(sorted, ace_low, 0, n - 1);
            assert(lo <= rank(sorted[0].value, ace_low));
            assert(rank(sorted[n - 1].value, ace_low) < lo + n);
        }
    }
}

/// A hand is a run exactly when each of its cards ranks one above the card
/// before it.
pub proof fn lemma_run_steps(cards: Seq<Card>, ace_low: bool)
    ensures
        is_run(cards, ace_low) == steps_by_one(cards, ace_low),
{
    if steps_by_one(cards, ace_low) {
        assert forall|i: int| 0 <= i < cards.len() implies rank(
            (#[trigger] cards[i]).value,
            ace_low,
        ) == rank(cards[0].value, ace_low) + i by {
            lemma_steps_from_first(cards, ace_low, i);
        }
    }
}

/// Where each card ranks one above the card before it, the card at an index
/// ranks so much above the first card.
proof fn lemma_steps_from_first(cards: Seq<Card>, ace_low: bool, i: int)
    requires
        steps_by_one(cards, ace_low),
        0 <= i < cards.len(),
    ensures
        rank(cards[i].value, ace_low) == rank(cards[0].value, ace_low) + i,
    decreases i,
{
    if i > 0 {
        lemma_steps_from_first(cards, ace_low, i - 1);
        assert(rank(cards[i].value, ace_low) == rank(cards[i - 1].value, ace_low) + 1);
    }
}

/// A hand of two or more cards is consecutive exactly when its cards, sorted
/// by rank with aces low where it holds a Two, each rank one above the card
/// before.
pub proof fn lemma_consecutive_when_sorted(cards: Seq<Card>, sorted: Seq<Card>)
    requires
        cards.len() >= 2,
        same_items(sorted, cards),
        rank_sorted(sorted, holds_two(cards)),
    ensures
        consecutive(cards) == steps_by_one(sorted, holds_two(cards)),
{
    let ace_low = holds_two(cards);
    lemma_run_steps(sorted, ace_low);
    if consecutive(cards) {
        let run = choose|run: Seq<Card>|
            run.to_multiset() == cards.to_multiset() && #[trigger] is_run(run, ace_low);
        lemma_sorted_run(run, sorted, ace_low);
    }
    if is_run(sorted, ace_low) {
        assert(sorted.to_multiset() == cards.to_multiset() && is_run(sorted, holds_two(cards)));
    }
}

/// A hand that holds some value exactly `times` times, once or more, holds
/// a multiple of `times`.
pub proof fn lemma_value_held_times(cards: Seq<Card>, value: Value, times: nat)
    requires
        times > 0,
        count_value(cards, value) == times,
    ensures
        has_multiple(cards, times),
{
    let held = cards.filter(has_value(value));
    cards.lemma_filter_pred(has_value(value), 0);
    assert(held.contains(held[0]));
    cards.lemma_filter_contains_rev(has_value(value), held[0]);
    let i = choose|i: int| 0 <= i < cards.len() && cards[i] == held[0];
    assert(cards[i].value == value);
}

/// A hand that holds one value twice is not consecutive.
pub proof fn lemma_repeated_value_not_consecutive(cards: Seq<Card>, i: int, j: int)
    requires
        0 <= i < j < cards.len(),
        cards[i].value == cards[j].value,
    ensures
        !consecutive(cards),
{
    if consecutive(cards) {
        let ace_low = holds_two(cards);
        let run = choose|run: Seq<Card>|
            run.to_multiset() == cards.to_multiset() && #[trigger] is_run(run, ace_low);
        assert(run.no_duplicates());
        run.lemma_multiset_has_no_duplicates();
        cards.lemma_multiset_has_no_duplicates_conv();
        let a = lemma_same_member(cards, run, i);
        let b = lemma_same_member(cards, run, j);
        assert(rank(run[a].value, ace_low) == rank(run[b].value, ace_low));
        assert(a == b);
        assert(cards[i] == cards[j]);
    }
}

/// Whether a hand is consecutive does not depend on the order of its cards.
pub proof fn lemma_consecutive_any_order(one: Seq<Card>, other: Seq<Card>)
    requires
        same_items(one, other),
    ensures
        consecutive(one) == consecutive(other),
{
    lemma_same_len(one, other);
    lemma_holds_two_any_order(one, other);
    if consecutive(one) {
        let run = choose|run: Seq<Card>|
            run.to_multiset() == one.to_multiset() && #[trigger] is_run(run, holds_two(one));
        assert(run.to_multiset() == other.to_multiset() && is_run(run, holds_two(other)));
    }
    if consecutive(other) {
        let run = choose|run: Seq<Card>|
            run.to_multiset() == other.to_multiset() && #[trigger] is_run(run, holds_two(other));
        assert(run.to_multiset() == one.to_multiset() && is_run(run, holds_two(one)));
    }
}

/// Whether a hand holds a Two does not depend on the order of its cards.
pub proof fn lemma_holds_two_any_order(one: Seq<Card>, other: Seq<Card>)
    requires
        same_items(one, other),
    ensures
        holds_two(one) == holds_two(other),
{
    if holds_two(one) {
        let i = choose|i: int| 0 <= i < one.len() && (#[trigger] one[i]).value == Value::Two;
        let j = lemma_same_member(one, other, i);
        assert(other[j].value == Value::Two);
    }
    if holds_two(other) {
        let i = choose|i: int| 0 <= i < other.len() && (#[trigger] other[i]).value == Value::Two;
        let j = lemma_same_member(other, one, i);
        assert(one[j].value == Value::Two);
    }
}

/// Whether a hand is of one suit does not depend on the order of its cards.
pub proof fn lemma_same_suit_any_order(one: Seq<Card>, other: Seq<Card>)
    requires
        same_items(one, other),
    ensures
        same_suit(one) == same_suit(other),
{
    lemma_same_len(one, other);
    if same_suit(one) {
        assert forall|i: int| 0 <= i < other.len() implies (#[trigger] other[i]).suit
            == other[0].suit by {
            let a = lemma_same_member(other, one, i);
            let b = lemma_same_member(other, one, 0);
            assert(one[a].suit == one[0].suit);
            assert(one[b].suit == one[0].suit);
        }
    }
    if same_suit(other) {
        assert forall|i: int| 0 <= i < one.len() implies (#[trigger] one[i]).suit
            == one[0].suit by {
            let a = lemma_same_member(one, other, i);
            let b = lemma_same_member(one, other, 0);
            assert(other[a].suit == other[0].suit);
            assert(other[b].suit == other[0].suit);
        }
    }
}

/// Whether a hand holds a value a given number of times does not depend on
/// the order of its cards.
pub proof fn lemma_has_multiple_any_order(one: Seq<Card>, other: Seq<Card>, times: nat)
    requires
        same_items(one, other),
    ensures
        has_multiple(one, times) == has_multiple(other, times),
{
    if has_multiple(one, times) {
        let i = choose|i: int|
            0 <= i < one.len() && count_value(one, #[trigger] one[i].value) == times;
        let j = lemma_same_member(one, other, i);
        lemma_same_filter_len(one, other, has_value(one[i].value));
        assert(count_value(other, other[j].value) == times);
    }
    if has_multiple(other, times) {
        let i = choose|i: int|
            0 <= i < other.len() && count_value(other, #[trigger] other[i].value) == times;
        let j = lemma_same_member(other, one, i);
        lemma_same_filter_len(other, one, has_value(other[i].value));
        assert(count_value(one, one[j].value) == times);
    }
}

/// Exchanging two cards of a hand leaves the hand with the same cards.
proof fn lemma_swap_keeps_cards(cards: Seq<Card>, i: int, j: int)
    requires
        0 <= i < cards.len(),
        0 <= j < cards.len(),
    ensures
        cards.update(i, cards[j]).update(j, cards[i]).to_multiset() == cards.to_multiset(),
{
    broadcast use vstd::multiset::group_multiset_axioms;

    let half = cards.update(i, cards[j]);
    let full = half.update(j, cards[i]);
    vstd::seq_lib::to_multiset_update(cards, i, cards[j]);
    vstd::seq_lib::to_multiset_update(half, j, cards[i]);
    vstd::seq_lib::to_multiset_contains(cards, cards[i]);
    vstd::seq_lib::to_multiset_contains(cards, cards[j]);
    assert(cards.contains(cards[i]));
    assert(cards.contains(cards[j]));
    let m = cards.to_multiset();
    assert(half.to_multiset() == m.insert(cards[j]).remove(cards[i]));
    assert(full.to_multiset() == half.to_multiset().insert(cards[i]).remove(half[j]));
    assert forall|c: Card| full.to_multiset().count(c) == m.count(c) by {}
    assert(full.to_multiset() =~= m);
}

/// Exchanging two neighbours that do not both have a property leaves the
/// cards with that property in their order.
proof fn lemma_swap_keeps_order(cards: Seq<Card>, j: int, kept: spec_fn(Card) -> bool)
    requires
        1 <= j < cards.len(),
        !(kept(cards[j - 1]) && kept(cards[j])),
    ensures
        cards.update(j - 1, cards[j]).update(j, cards[j - 1]).filter(kept) == cards.filter(kept),
{
    let head = cards.take(j - 1);
    let tail = cards.skip(j + 1);
    let swapped = cards.update(j - 1, cards[j]).update(j, cards[j - 1]);
    assert(cards =~= head.push(cards[j - 1]).push(cards[j]) + tail);
    assert(swapped =~= head.push(cards[j]).push(cards[j - 1]) + tail);
    Seq::filter_distributes_over_add(head.push(cards[j - 1]).push(cards[j]), tail, kept);
    Seq::filter_distributes_over_add(head.push(cards[j]).push(cards[j - 1]), tail, kept);
    head.lemma_filter_push(cards[j - 1], kept);
    head.push(cards[j - 1]).lemma_filter_push(cards[j], kept);
    head.lemma_filter_push(cards[j], kept);
    head.push(cards[j]).lemma_filter_push(cards[j - 1], kept);
}

/// Tells whether a hand holds a Two.
fn has_two(cards: &Vec<Card>) -> (found: bool)
    ensures
        found == holds_two(cards@),
{
    let mut i: usize = 0;
    while i < cards.len()
        invariant
            i <= cards.len(),
            forall|k: int| 0 <= k < i ==> (#[trigger] cards@[k]).value != Value::Two,
        decreases cards.len() - i,
    {
        if cards[i].value == Value::Two {
            return true;
        }
        i += 1;
    }
    false
}

/// Sorts a hand by rank, lowest first, by letting each card in turn sink
/// below the higher cards before it.
fn sort_by_rank(cards: &mut Vec<Card>, ace_low: bool)
    ensures
        sorted_from(old(cards)@, final(cards)@, ace_low),
{
    let n = cards.len();
    let mut i: usize = 1;
    while i < n
        invariant
            cards.len() == n,
            1 <= i,
            cards@.to_multiset() == old(cards)@.to_multiset(),
            keeps_order(old(cards)@, cards@, ace_low),
            forall|a: int, b: int|
                0 <= a <= b < i && b < n ==> rank((#[trigger] cards@[a]).value, ace_low) <= rank(
                    (#[trigger] cards@[b]).value,
                    ace_low,
                ),
        decreases n - i,
    {
        let mut j: usize = i;
        while j > 0 && sort_value(cards[j - 1].value, ace_low) > sort_value(cards[j].value, ace_low)
            invariant
                cards.len() == n,
                j <= i < n,
                cards@.to_multiset() == old(cards)@.to_multiset(),
                keeps_order(old(cards)@, cards@, ace_low),
                forall|a: int, b: int|
                    0 <= a <= b <= i && a != j && b != j ==> rank(
                        (#[trigger] cards@[a]).value,
                        ace_low,
                    ) <= rank((#[trigger] cards@[b]).value, ace_low),
                forall|b: int|
                    j < b <= i ==> rank(cards@[j as int].value, ace_low) < rank(
                        (#[trigger] cards@[b]).value,
                        ace_low,
                    ),
            decreases j,
        {
            let ghost before = cards@;
            let below = cards[j - 1];
            let sinking = cards[j];
            cards.set(j - 1, sinking);
            cards.set(j, below);
            proof {
                lemma_swap_keeps_cards(before, j - 1, j as int);
                assert forall|at: int| #[trigger]
                    cards@.filter(ranked(at, ace_low)) == old(cards)@.filter(
                        ranked(at, ace_low),
                    ) by {
                    lemma_swap_keeps_order(before, j as int, ranked(at, ace_low));
                    assert(before.filter(ranked(at, ace_low)) == old(cards)@.filter(
                        ranked(at, ace_low),
                    ));
                }
            }
            j -= 1;
        }
        i += 1;
    }
}

/// Check that a selection of cards has consecutive values. The hand is left
/// sorted by rank.
pub fn is_consecutive(cards: &mut Vec<Card>) -> (straight: bool)
    ensures
        straight == consecutive(old(cards)@),
        old(cards)@.len() >= 2 ==> sorted_from(
            old(cards)@,
            final(cards)@,
            holds_two(old(cards)@),
        ),
        old(cards)@.len() < 2 ==> final(cards)@ == old(cards)@,
{
    if cards.len() < 2 {
        return false;
    }
    let ace_low = has_two(cards);
    sort_by_rank(cards, ace_low);
    proof {
        vstd::seq_lib::to_multiset_len(cards@);
        vstd::seq_lib::to_multiset_len(old(cards)@);
    }
    let mut i: usize = 0;
    while i < cards.len() - 1
        invariant
            cards.len() >= 2,
            old(cards)@.len() >= 2,
            i <= cards.len() - 1,
            ace_low == holds_two(old(cards)@),
            sorted_from(old(cards)@, cards@, ace_low),
            forall|k: int|
                0 <= k <= i ==> rank((#[trigger] cards@[k]).value, ace_low) == rank(
                    cards@[0].value,
                    ace_low,
                ) + k,
        decreases cards.len() - i,
    {
        if sort_value(cards[i].value, ace_low) - sort_value(cards[i + 1].value, ace_low) != -1 {
            proof {
                if consecutive(old(cards)@) {
                    let run = choose|run: Seq<Card>|
                        run.to_multiset() == old(cards)@.to_multiset() && #[trigger] is_run(
                            run,
                            ace_low,
                        );
                    lemma_sorted_run(run, cards@, ace_low);
                    assert(rank(cards@[i as int].value, ace_low) == rank(cards@[0].value, ace_low)
                        + i);
                    assert(rank(cards@[i + 1].value, ace_low) == rank(cards@[0].value, ace_low) + (
                    i + 1));
                }
            }
            return false;
        }
        i += 1;
    }
    proof {
        assert(is_run(cards@, ace_low));
    }
    true
}

} // verus!
