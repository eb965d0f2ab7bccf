//! Rules engine for Thyme, a patience game played with poker hands on a
//! three-by-three grid of card stacks.

pub mod board;
pub mod card;
pub mod control;
pub mod deal;
pub mod deck;
pub mod game;
pub mod hands;
pub mod layout;
pub mod message;
pub mod permutation;
pub mod score;
pub mod text;
pub mod ui;
