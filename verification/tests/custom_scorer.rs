use libthyme::board::{Board, HPosition, Position, Stack, VPosition};
use libthyme::card::{Card, Suit, Value};
use libthyme::game::{Game, MoveError, MoveType};
use libthyme::score::{Play, Score, Scorer};

/// Counts the plays it is given and scores nothing.
struct Tally {
    plays: i32,
}

impl Scorer for Tally {
    fn new(_lucky_card: Card) -> Tally {
        Tally { plays: 0 }
    }

    fn check_play(&self, _play: Play) -> Score {
        Score { value: 0, bonus: 0, multiplier: 1 }
    }

    fn add_play(&mut self, _play: Play) {
        self.plays += 1;
    }

    fn bonus(&self, _position: Position) -> i32 {
        0
    }

    fn score(&self, _completion: bool) -> i32 {
        self.plays
    }

    fn format_as_score(&self, value: i32) -> String {
        format!("{} plays", value)
    }
}

#[test]
fn game_takes_a_scorer_of_the_callers_own() {
    let lucky_card = Card { value: Value::King, suit: Suit::Hearts };
    let top_left = Position { x: HPosition::Left, y: VPosition::Top };
    let middle = Position { x: HPosition::Center, y: VPosition::Middle };
    let stacks = vec![
        Stack { position: top_left, cards: vec![Card { value: Value::Six, suit: Suit::Hearts }] },
        Stack { position: middle, cards: vec![Card { value: Value::Six, suit: Suit::Clubs }] },
    ];
    let mut game = Game {
        board: Board { stacks: stacks, lucky_card: lucky_card },
        discards_allowed: 0,
        discards_allowed_max: 2,
        scorer: Tally::new(lucky_card),
    };
    assert_eq!(game.check(&vec![top_left, middle]), Ok(MoveType::Pair));
    assert_eq!(game.check(&vec![top_left]), Err(MoveError::NoDiscardsRemain));
    assert_eq!(game.scorer.score(false), 0);
    assert_eq!(game.scorer.format_as_score(3), "3 plays");
}
