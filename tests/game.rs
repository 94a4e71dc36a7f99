use wordle::algorithms::Unoptimized;
use wordle::Correctness::{Correct as C, Misplaced as M, Wrong as W};
use wordle::game::Turn;
use wordle::{Guess, Guesser, PlayError, Wordle};

const DICTIONARY: &str = "right 120\nwrong 80\nother 5\n";

/// Answers "right" once the history holds `turn` entries, "wrong" before.
struct RightAt {
    turn: usize,
}

impl Guesser for RightAt {
    fn guess(&mut self, history: &[Guess]) -> Option<String> {
        if history.len() == self.turn {
            return Some("right".to_string());
        }
        Some("wrong".to_string())
    }
}

struct AlwaysWrong;

impl Guesser for AlwaysWrong {
    fn guess(&mut self, _history: &[Guess]) -> Option<String> {
        Some("wrong".to_string())
    }
}

struct Fixed {
    word: &'static str,
}

impl Guesser for Fixed {
    fn guess(&mut self, _history: &[Guess]) -> Option<String> {
        Some(self.word.to_string())
    }
}

/// Records what it is shown, then gives the answer on the third turn.
struct Recorder {
    seen: Vec<(String, [wordle::Correctness; 5])>,
}

impl Guesser for Recorder {
    fn guess(&mut self, history: &[Guess]) -> Option<String> {
        self.seen.clear();
        for g in history {
            self.seen.push((g.word.clone(), g.mask));
        }
        match history.len() {
            0 => Some("wrong".to_string()),
            1 => Some("other".to_string()),
            _ => Some("right".to_string()),
        }
    }
}

fn engine() -> Wordle {
    Wordle::new(DICTIONARY).unwrap()
}

#[test]
fn genius() {
    let w = engine();
    assert_eq!(w.play("right", RightAt { turn: 0 }), Ok(Some(1)));
}

#[test]
fn magnificent() {
    let w = engine();
    assert_eq!(w.play("right", RightAt { turn: 1 }), Ok(Some(2)));
}

#[test]
fn impressive() {
    let w = engine();
    assert_eq!(w.play("right", RightAt { turn: 2 }), Ok(Some(3)));
}

#[test]
fn splendid() {
    let w = engine();
    assert_eq!(w.play("right", RightAt { turn: 3 }), Ok(Some(4)));
}

#[test]
fn great() {
    let w = engine();
    assert_eq!(w.play("right", RightAt { turn: 4 }), Ok(Some(5)));
}

#[test]
fn phew() {
    let w = engine();
    assert_eq!(w.play("right", RightAt { turn: 5 }), Ok(Some(6)));
}

#[test]
fn oops() {
    let w = engine();
    assert_eq!(w.play("right", AlwaysWrong), Ok(None));
}

#[test]
fn last_turn_still_wins() {
    let w = engine();
    assert_eq!(w.play("right", RightAt { turn: 31 }), Ok(Some(32)));
    assert_eq!(w.play("right", RightAt { turn: 32 }), Ok(None));
}

#[test]
fn winning_guess_needs_no_dictionary_entry() {
    let w = engine();
    assert_eq!(w.play("zebra", Fixed { word: "zebra" }), Ok(Some(1)));
}

#[test]
fn unknown_guess_is_an_error() {
    let w = engine();
    assert_eq!(w.play("right", Fixed { word: "zebra" }), Err(PlayError::UnknownWord));
}

#[test]
fn stub_strategy_is_unimplemented() {
    let w = engine();
    let g = Unoptimized::new(DICTIONARY).unwrap();
    assert_eq!(w.play("right", g), Err(PlayError::Unimplemented));
}

#[test]
fn history_holds_scored_guesses_only() {
    let w = engine();
    let mut r = Recorder { seen: Vec::new() };
    let mut history: Vec<Guess> = Vec::new();
    let mut turn = 1;
    let outcome = loop {
        let g = r.guess(&history);
        match w.take_turn("right", turn, g, &mut history) {
            Ok(Turn::Won(n)) => break n,
            Ok(Turn::Next) => turn += 1,
            other => panic!("{:?}", other),
        }
    };
    assert_eq!(outcome, 3);
    assert_eq!(history.len(), 2);
    assert_eq!(r.seen.len(), 2);
    assert_eq!(history[0].word, "wrong");
    assert_eq!(history[1].word, "other");
    assert_eq!(history[0].mask, [W, M, W, W, M]);
    assert_eq!(history[1].mask, [W, M, M, W, M]);
}

#[test]
fn take_turn_on_answer_leaves_history() {
    let w = engine();
    let mut history: Vec<Guess> = Vec::new();
    assert_eq!(w.take_turn("right", 1, Some("right".to_string()), &mut history), Ok(Turn::Won(1)));
    assert!(history.is_empty());
    assert_eq!(
        w.take_turn("right", 1, Some("zzzzz".to_string()), &mut history),
        Err(PlayError::UnknownWord)
    );
    assert!(history.is_empty());
    assert_eq!(w.take_turn("right", 1, None, &mut history), Err(PlayError::Unimplemented));
    assert!(history.is_empty());
}

#[test]
fn last_scored_turn_exhausts_the_game() {
    let w = engine();
    let mut history: Vec<Guess> = Vec::new();
    assert_eq!(w.take_turn("right", 31, Some("wrong".to_string()), &mut history), Ok(Turn::Next));
    assert_eq!(
        w.take_turn("right", 32, Some("wrong".to_string()), &mut history),
        Ok(Turn::Exhausted)
    );
    assert_eq!(history.len(), 2);
    assert_eq!(w.take_turn("right", 32, Some("right".to_string()), &mut history), Ok(Turn::Won(32)));
    assert_eq!(history.len(), 2);
}

#[test]
fn contains_checks_membership() {
    let w = engine();
    assert!(w.contains(&['w', 'r', 'o', 'n', 'g']));
    assert!(!w.contains(&['w', 'r', 'o', 'n']));
    assert!(!w.contains(&['z', 'z', 'z', 'z', 'z']));
}

#[test]
fn engine_rejects_malformed_dictionaries() {
    assert!(Wordle::new("right\n").is_none());
    assert!(Wordle::new("right x\n").is_none());
    assert!(Wordle::new("toolong 3\n").is_none());
    assert!(Wordle::new("right 3\r\nwrong 4").is_some());
    assert!(Wordle::new("").is_some());
}

#[test]
fn stub_strategy_rejects_malformed_dictionaries() {
    assert!(Unoptimized::new("right 1\nwrong\n").is_none());
    assert!(Unoptimized::new("right 1\nright 2\nlonger 3\n").is_some());
}

#[test]
fn stub_strategy_never_guesses() {
    let mut g = Unoptimized::new(DICTIONARY).unwrap();
    assert_eq!(g.guess(&[]), None);
}
