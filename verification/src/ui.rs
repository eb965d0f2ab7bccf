//! What the player sees and steers: the cursor, the selection of stacks and
//! the message line.

use vstd::prelude::*;
use crate::board::{HPosition, Position, VPosition};

verus! {

/// What the player sees and steers.
pub struct UI {
    /// The stack that the cursor points at
    pub cursor_position: Position,
    /// The line that tells the player of the last action
    pub message: String,
    /// The stacks that the player has selected, in the order of selection
    pub selection: Vec<Position>,
}

/// What the player can ask for.
#[derive(PartialEq, Eq, Structural, Clone, Copy, Debug)]
pub enum Action {
    CursorDown,
    CursorLeft,
    CursorRight,
    CursorUp,
    Help,
    Hint,
    Play,
    Quit,
    Resize,
    ToggleSelection,
    Unknown,
}

/// A key of the terminal: one of the keys that the game knows by name, or the
/// code of any other.
#[derive(PartialEq, Eq, Structural, Clone, Copy, Debug)]
pub enum Key {
    Left,
    Right,
    Up,
    Down,
    Resize,
    Enter,
    Code(i32),
}

/// What a key asks for. The arrows and the letters W, A, S, D or H, J, K, L
/// move the cursor; return plays, space toggles, Q quits, T hints and the
/// question mark helps.
pub open spec fn action_of(key: Key) -> Action {
    match key {
        Key::Left => Action::CursorLeft,
        Key::Right => Action::CursorRight,
        Key::Up => Action::CursorUp,
        Key::Down => Action::CursorDown,
        Key::Resize => Action::Resize,
        Key::Enter => Action::Play,
        Key::Code(code) => if code == 97 || code == 104 {
            Action::CursorLeft
        } else if code == 100 || code == 108 {
            Action::CursorRight
        } else if code == 119 || code == 107 {
            Action::CursorUp
        } else if code == 115 || code == 106 {
            Action::CursorDown
        } else if code == 13 || code == 10 {
            Action::Play
        } else if code == 32 {
            Action::ToggleSelection
        } else if code == 113 {
            Action::Quit
        } else if code == 116 {
            Action::Hint
        } else if code == 63 {
            Action::Help
        } else {
            Action::Unknown
        },
    }
}

/// Names the action that a key asks for.
pub fn action_for(key: Key) -> (action: Action)
    ensures
        action == action_of(key),
{
    match key {
        Key::Left | Key::Code(97) | Key::Code(104) => Action::CursorLeft,
        Key::Right | Key::Code(100) | Key::Code(108) => Action::CursorRight,
        Key::Up | Key::Code(119) | Key::Code(107) => Action::CursorUp,
        Key::Down | Key::Code(115) | Key::Code(106) => Action::CursorDown,
        Key::Resize => Action::Resize,
        Key::Enter | Key::Code(13) | Key::Code(10) => Action::Play,
        Key::Code(32) => Action::ToggleSelection,
        Key::Code(113) => Action::Quit,
        Key::Code(116) => Action::Hint,
        Key::Code(63) => Action::Help,
        _ => Action::Unknown,
    }
}

/// The row that the cursor reaches by a step up: the row above, or the same
/// row where there is none.
pub open spec fn row_above(y: VPosition) -> VPosition {
    match y {
        VPosition::Bottom => VPosition::Middle,
        _ => VPosition::Top,
    }
}

/// The row that the cursor reaches by a step down.
pub open spec fn row_below(y: VPosition) -> VPosition {
    match y {
        VPosition::Top => VPosition::Middle,
        _ => VPosition::Bottom,
    }
}

/// The column that the cursor reaches by a step to the left.
pub open spec fn column_left(x: HPosition) -> HPosition {
    match x {
        HPosition::Right => HPosition::Center,
        _ => HPosition::Left,
    }
}

/// The column that the cursor reaches by a step to the right.
pub open spec fn column_right(x: HPosition) -> HPosition {
    match x {
        HPosition::Left => HPosition::Center,
        _ => HPosition::Right,
    }
}

/// Where a cursor action takes the cursor. An action that is no cursor
/// action leaves it where it is.
pub open spec fn moved(position: Position, direction: Action) -> Position {
    match direction {
        Action::CursorUp => Position { x: position.x, y: row_above(position.y) },
        Action::CursorDown => Position { x: position.x, y: row_below(position.y) },
        Action::CursorLeft => Position { x: column_left(position.x), y: position.y },
        Action::CursorRight => Position { x: column_right(position.x), y: position.y },
        _ => position,
    }
}

/// The property of being another position than the given one.
pub open spec fn other_than(position: Position) -> spec_fn(Position) -> bool {
    |p: Position| p != position
}

/// A selection after the position was toggled: without the position where
/// it held it, else with the position added at its end.
pub open spec fn toggled(selection: Seq<Position>, position: Position) -> Seq<Position> {
    if selection.contains(position) {
        selection.filter(other_than(position))
    } else {
        selection.push(position)
    }
}

impl UI {
    /// Create a new UI with the cursor in the top left corner and no selection
    pub fn new() -> (ui: UI)
        ensures
            ui.cursor_position == (Position { x: HPosition::Left, y: VPosition::Top }),
            ui.message@ == Seq::<char>::empty(),
            ui.selection@ == Seq::<Position>::empty(),
    {
        UI {
            cursor_position: Position { x: HPosition::Left, y: VPosition::Top },
            message: String::new(),
            selection: Vec::new(),
        }
    }

    /// Toggle the selection of the cursor position
    pub fn toggle_selection(&mut self)
        ensures
            final(self).selection@ == toggled(old(self).selection@, old(self).cursor_position),
            final(self).cursor_position == old(self).cursor_position,
            final(self).message == old(self).message,
    {
        let pos = self.cursor_position;
        let ghost others = other_than(pos);
        let mut kept: Vec<Position> = Vec::new();
        let mut found = false;
        let mut i: usize = 0;
        while i < self.selection.len()
            invariant
                *self == *old(self),
                i <= self.selection.len(),
                pos == self.cursor_position,
                others == other_than(pos),
                found == self.selection@.take(i as int).contains(pos),
                kept@ == self.selection@.take(i as int).filter(others),
            decreases self.selection.len() - i,
        {
            proof {
                let head = self.selection@.take(i as int);
                let next = self.selection@[i as int];
                assert(self.selection@.take(i + 1) =~= head.push(next));
                head.lemma_filter_push(next, others);
                vstd::seq_lib::lemma_seq_contains_after_push(head, next, pos);
            }
            if self.selection[i] == pos {
                found = true;
            } else {
                kept.push(self.selection[i]);
            }
            i += 1;
        }
        proof {
            assert(self.selection@.take(i as int) =~= self.selection@);
        }
        if found {
            self.selection = kept;
        } else {
            self.selection.push(pos);
        }
    }

    /// Move the cursor position using a cursor action
    pub fn move_cursor(&mut self, direction: Action)
        ensures
            final(self).cursor_position == moved(old(self).cursor_position, direction),
            final(self).selection == old(self).selection,
            final(self).message == old(self).message,
    {
        match direction {
            Action::CursorUp => {
                match self.cursor_position.y {
                    VPosition::Bottom => self.cursor_position.y = VPosition::Middle,
                    VPosition::Middle => self.cursor_position.y = VPosition::Top,
                    _ => {},
                }
            },
            Action::CursorDown => {
                match self.cursor_position.y {
                    VPosition::Top => self.cursor_position.y = VPosition::Middle,
                    VPosition::Middle => self.cursor_position.y = VPosition::Bottom,
                    _ => {},
                }
            },
            Action::CursorLeft => {
                match self.cursor_position.x {
                    HPosition::Right => self.cursor_position.x = HPosition::Center,
                    HPosition::Center => self.cursor_position.x = HPosition::Left,
                    _ => {},
                }
            },
            Action::CursorRight => {
                match self.cursor_position.x {
                    HPosition::Left => self.cursor_position.x = HPosition::Center,
                    HPosition::Center => self.cursor_position.x = HPosition::Right,
                    _ => {},
                }
            },
            _ => {},
        }
    }
}

} // verus!
