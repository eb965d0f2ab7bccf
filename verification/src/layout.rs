//! Where the cards lie on the screen and how they are written.

use vstd::prelude::*;
use vstd::string::StringExecFns;
use crate::board::{HPosition, Position, VPosition};
use crate::card::{Card, Suit, Value};
use crate::text::{decimal, digits, format_count, format_number};

verus! {

/// Columns of a card on the screen.
pub const CARD_WIDTH: i32 = 7;

/// Lines of a card on the screen.
pub const CARD_HEIGHT: i32 = 5;

/// Blank columns and lines between two cards.
pub const CARD_MARGIN: i32 = 2;

/// Blank columns and lines round the board.
pub const BOARD_MARGIN: i32 = 2;

/// Lines that tell of the game and the cursor.
pub const STATUS_HEIGHT: i32 = 2;

/// The least number of columns of a screen that shows the game.
pub const SCREEN_WIDTH: i32 = 50;

/// Colour pair of a card of a black suit: black on white.
pub const CARD_COLOR_BLACK: i16 = 1;

/// Colour pair of a card of a red suit: red on white.
pub const CARD_COLOR_RED: i16 = 2;

/// Colour pair of an empty stack: white on black.
pub const CARD_COLOR_EMPTY: i16 = 4;

/// Colour pair of the frame round a selected card: yellow on black.
pub const SELECTED_COLOR: i16 = 5;

/// Colour pair of the line that tells of the stack under the cursor: cyan
/// on black.
pub const CURSOR_INFO_COLOR: i16 = 6;

/// Colour pair of the line that tells of the game: green on black.
pub const GAME_INFO_COLOR: i16 = 7;

/// The screen column at which the cards of a board column begin.
pub open spec fn column_at(x: HPosition) -> int {
    match x {
        HPosition::Left => BOARD_MARGIN + CARD_MARGIN,
        HPosition::Center => BOARD_MARGIN + CARD_MARGIN * 2 + CARD_WIDTH,
        HPosition::Right => BOARD_MARGIN + CARD_MARGIN * 3 + CARD_WIDTH * 2,
    }
}

/// The screen line at which the cards of a board row begin.
pub open spec fn line_at(y: VPosition) -> int {
    match y {
        VPosition::Top => BOARD_MARGIN + CARD_MARGIN,
        VPosition::Middle => BOARD_MARGIN + CARD_MARGIN * 2 + CARD_HEIGHT,
        VPosition::Bottom => BOARD_MARGIN + CARD_MARGIN * 3 + CARD_HEIGHT * 2,
    }
}

/// How a card's value is written.
pub open spec fn value_text(value: Value) -> Seq<char> {
    match value {
        Value::Ace => "A"@,
        Value::Two => "2"@,
        Value::Three => "3"@,
        Value::Four => "4"@,
        Value::Five => "5"@,
        Value::Six => "6"@,
        Value::Seven => "7"@,
        Value::Eight => "8"@,
        Value::Nine => "9"@,
        Value::Ten => "10"@,
        Value::Jack => "J"@,
        Value::Queen => "Q"@,
        Value::King => "K"@,
    }
}

/// The sign of a suit.
pub open spec fn suit_text(suit: Suit) -> Seq<char> {
    match suit {
        Suit::Diamonds => "\u{2666}"@,
        Suit::Clubs => "\u{2663}"@,
        Suit::Spades => "\u{2660}"@,
        Suit::Hearts => "\u{2665}"@,
    }
}

/// The colour pair in which a suit is written: red for diamonds and hearts,
/// black for clubs and spades.
pub open spec fn suit_color(suit: Suit) -> i16 {
    match suit {
        Suit::Diamonds | Suit::Hearts => CARD_COLOR_RED,
        Suit::Clubs | Suit::Spades => CARD_COLOR_BLACK,
    }
}

/// The least number of lines of a screen that shows the game: three rows of
/// cards with their margins, and the status lines.
pub open spec fn spec_min_height() -> int {
    BOARD_MARGIN * 2 + CARD_MARGIN * 4 + STATUS_HEIGHT + CARD_HEIGHT * 3
}

/// What the player is told of a screen that is too small.
pub open spec fn resize_text() -> Seq<char> {
    "Please resize your terminal to be at least 50x"@ + decimal(spec_min_height())
}

/// What the player is told of the stack under the cursor.
pub open spec fn cursor_text(stacked: nat, all: nat) -> Seq<char> {
    "*"@ + digits(stacked) + "/"@ + digits(all) + " cards in the stack"@
}

/// What the player is told of the game: the lucky suit and the discards.
pub open spec fn status_text(suit: Suit, discards: int, discards_max: int) -> Seq<char> {
    "Lucky Suit: "@ + suit_text(suit) + "  Discards Left: "@ + decimal(discards) + "/"@ + decimal(
        discards_max,
    )
}

/// Location (x, y) for a card position
pub fn card_location(position: Position) -> (location: (i32, i32))
    ensures
        location.0 == column_at(position.x),
        location.1 == line_at(position.y),
{
    let left = BOARD_MARGIN + CARD_MARGIN;
    let center = BOARD_MARGIN + CARD_MARGIN * 2 + CARD_WIDTH;
    let right = BOARD_MARGIN + CARD_MARGIN * 3 + CARD_WIDTH * 2;
    let top = BOARD_MARGIN + CARD_MARGIN;
    let middle = BOARD_MARGIN + CARD_MARGIN * 2 + CARD_HEIGHT;
    let bottom = BOARD_MARGIN + CARD_MARGIN * 3 + CARD_HEIGHT * 2;
    match (position.x, position.y) {
        (HPosition::Left, VPosition::Top) => (left, top),
        (HPosition::Left, VPosition::Middle) => (left, middle),
        (HPosition::Left, VPosition::Bottom) => (left, bottom),
        (HPosition::Center, VPosition::Top) => (center, top),
        (HPosition::Center, VPosition::Middle) => (center, middle),
        (HPosition::Center, VPosition::Bottom) => (center, bottom),
        (HPosition::Right, VPosition::Top) => (right, top),
        (HPosition::Right, VPosition::Middle) => (right, middle),
        (HPosition::Right, VPosition::Bottom) => (right, bottom),
    }
}

/// Printed representation of a card's suit: the colour pair to write it in
/// and its sign.
pub fn layout_suit(card: Card) -> (layout: (i16, String))
    ensures
        layout.0 == suit_color(card.suit),
        layout.1@ == suit_text(card.suit),
{
    match card.suit {
        Suit::Diamonds => (CARD_COLOR_RED, String::from_str("\u{2666}")),
        Suit::Clubs => (CARD_COLOR_BLACK, String::from_str("\u{2663}")),
        Suit::Spades => (CARD_COLOR_BLACK, String::from_str("\u{2660}")),
        Suit::Hearts => (CARD_COLOR_RED, String::from_str("\u{2665}")),
    }
}

/// Printed representation of a card's value
pub fn layout_value(card: Card) -> (text: String)
    ensures
        text@ == value_text(card.value),
{
    String::from_str(
        match card.value {
            Value::Ace => "A",
            Value::Two => "2",
            Value::Three => "3",
            Value::Four => "4",
            Value::Five => "5",
            Value::Six => "6",
            Value::Seven => "7",
            Value::Eight => "8",
            Value::Nine => "9",
            Value::Ten => "10",
            Value::Jack => "J",
            Value::Queen => "Q",
            Value::King => "K",
        },
    )
}

/// The least number of lines of a screen that shows the game.
pub fn min_height() -> (lines: i32)
    ensures
        lines == spec_min_height(),
{
    BOARD_MARGIN * 2 + CARD_MARGIN * 4 + STATUS_HEIGHT + CARD_HEIGHT * 3
}

/// Check that the content can fit a screen of so many lines and columns.
pub fn screen_fits(lines: i32, columns: i32) -> (fits: bool)
    ensures
        fits == (lines >= spec_min_height() && columns >= SCREEN_WIDTH),
{
    !(lines < min_height() || columns < SCREEN_WIDTH)
}

/// What the player is told of a screen that is too small.
pub fn resize_message() -> (text: String)
    ensures
        text@ == resize_text(),
{
    let mut text = String::from_str("Please resize your terminal to be at least 50x");
    text.append(format_number(min_height()).as_str());
    text
}

/// What the player is told of the stack under the cursor: how many cards it
/// holds and how many the board holds.
pub fn cursor_message(stacked_cards: usize, all_cards: usize) -> (text: String)
    ensures
        text@ == cursor_text(stacked_cards as nat, all_cards as nat),
{
    let mut text = String::from_str("*");
    text.append(format_count(stacked_cards).as_str());
    text.append("/");
    text.append(format_count(all_cards).as_str());
    text.append(" cards in the stack");
    text
}

/// What the player is told of the game: the lucky suit and the discards
/// that are left of those allowed.
pub fn status_message(lucky_card: Card, discards_allowed: i32, discards_allowed_max: i32) -> (text:
    String)
    ensures
        text@ == status_text(
            lucky_card.suit,
            discards_allowed as int,
            discards_allowed_max as int,
        ),
{
    let (_, suit) = layout_suit(lucky_card);
    let mut text = String::from_str("Lucky Suit: ");
    text.append(suit.as_str());
    text.append("  Discards Left: ");
    text.append(format_number(discards_allowed).as_str());
    text.append("/");
    text.append(format_number(discards_allowed_max).as_str());
    text
}

/// The blanks before and after a label of the given width that is written
/// in the middle of an empty stack's frame: the smaller half comes first, and
/// a label as wide as the frame's inside or wider gets none.
pub fn label_margins(width: i32) -> (margins: (i32, i32))
    requires
        width >= 0,
    ensures
        margins.0 + margins.1 == if width < CARD_WIDTH - 2 {
            CARD_WIDTH - 2 - width
        } else {
            0
        },
        margins.0 == (margins.0 + margins.1) / 2,
{
    let available_width = if CARD_WIDTH - 2 - width > 0 {
        CARD_WIDTH - 2 - width
    } else {
        0
    };
    let lede = available_width / 2;
    (lede, available_width - lede)
}

} // verus!
