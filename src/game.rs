//! The game engine: a dictionary of valid words and the turn loop.

use vstd::prelude::*;
use crate::correctness::{Correctness, score, WORD_LEN};
use crate::text::{chars_of, parse_dictionary, lines, is_dictionary, is_first_space, entry_matches};

verus! {

/// Turns a strategy gets before the game counts as not solved.
pub const MAX_TURNS: usize = 32;

/// The word before the first space of a dictionary line.
pub open spec fn word_of(line: Seq<char>) -> Seq<char> {
    line.take(choose|p: int| is_first_space(line, p))
}

/// A dictionary text whose lines are all entries, each naming a five-letter word.
pub open spec fn is_word_dictionary(t: Seq<char>) -> bool {
    &&& is_dictionary(t)
    &&& forall|i: int| 0 <= i < lines(t).len() ==> (#[trigger] word_of(lines(t)[i])).len() == WORD_LEN
}

/// One scored turn: the word guessed and its mask against the answer.
pub struct Guess {
    pub word: String,
    pub mask: [Correctness; 5],
}

/// Why a game stopped without an outcome.
#[derive(Copy, Clone, Debug, PartialEq, Eq, Structural)]
pub enum PlayError {
    /// The strategy has no way to produce a guess.
    Unimplemented,
    /// The strategy guessed a word that is not in the dictionary.
    UnknownWord,
}

/// Where a game stands after one turn.
#[derive(Copy, Clone, Debug, PartialEq, Eq, Structural)]
pub enum Turn {
    /// The guess of the given turn was the answer.
    Won(usize),
    /// The guess was scored and turns are left.
    Next,
    /// The guess was scored and it was the last turn: not solved.
    Exhausted,
}

/// A strategy: given the turns so far, proposes the next word, or `None`
/// when it cannot propose one.
pub trait Guesser {
    fn guess(&mut self, history: &[Guess]) -> Option<String>;
}

/// The engine, holding the words a guess may be.
pub struct Wordle {
    dictionary: Vec<Vec<char>>,
}

/// Whether `a` and `b` hold the same characters.
pub fn same_chars(a: &[char], b: &[char]) -> (r: bool)
    ensures
        r == (a@ == b@),
{
    if a.len() != b.len() {
        return false;
    }
    let mut i: usize = 0;
    while i < a.len()
        invariant
            a.len() == b.len(),
            i <= a.len(),
            forall|k: int| 0 <= k < i ==> a@[k] == b@[k],
        decreases a.len() - i,
    {
        if a[i] != b[i] {
            return false;
        }
        i = i + 1;
    }
    assert(a@ =~= b@);
    true
}

impl Wordle {
    /// The words of the dictionary, in the order of its lines.
    pub closed spec fn words(&self) -> Seq<Seq<char>> {
        self.dictionary@.map_values(|w: Vec<char>| w@)
    }

    /// Every word of the dictionary has five letters.
    pub open spec fn wf(&self) -> bool {
        forall|i: int| 0 <= i < self.words().len() ==> (#[trigger] self.words()[i]).len() == WORD_LEN
    }

    /// Builds the engine from a dictionary text, keeping the word of each
    /// line; `None` when a line is not a word, a space and a count, or the
    /// word is not five letters long.
    pub fn new(dictionary: &str) -> (r: Option<Wordle>)
        ensures
            r is Some <==> is_word_dictionary(dictionary@),
            r matches Some(w) ==> {
                &&& w.wf()
                &&& w.words().len() == lines(dictionary@).len()
                &&& forall|i: int|
                    0 <= i < w.words().len() ==> #[trigger] w.words()[i] == word_of(
                        lines(dictionary@)[i],
                    )
            },
    {
        let entries = match parse_dictionary(dictionary) {
            None => return None,
            Some(e) => e,
        };
        let ghost ls = lines(dictionary@);
        let mut words: Vec<Vec<char>> = Vec::new();
        for e in it: entries
            invariant
                ls == lines(dictionary@),
                entries@.len() == ls.len(),
                it.seq() == entries@,
                forall|k: int|
                    0 <= k < entries@.len() ==> entry_matches(
                        #[trigger] ls[k],
                        entries@[k].0@,
                        entries@[k].1 as nat,
                    ),
                words@.len() == it.index(),
                forall|k: int|
                    0 <= k < words@.len() ==> #[trigger] words@[k]@ == word_of(ls[k]) && words@[k]@.len() == WORD_LEN,
        {
            let ghost k = it.index();
            assert(entry_matches(ls[k], e.0@, e.1 as nat));
            assert(e.0@ == word_of(ls[k])) by {
                assert(is_first_space(ls[k], e.0@.len() as int));
            }
            if e.0.len() != WORD_LEN {
                assert(!is_word_dictionary(dictionary@));
                return None;
            }
            words.push(e.0);
        }
        assert forall|k: int| 0 <= k < ls.len() implies (#[trigger] word_of(ls[k])).len() == WORD_LEN by {
            assert(words@[k]@ == word_of(ls[k]));
        }
        let w = Wordle { dictionary: words };
        assert(w.words() =~= words@.map_values(|v: Vec<char>| v@));
        Some(w)
    }

    /// Whether `word` is one of the dictionary's words.
    pub fn contains(&self, word: &[char]) -> (r: bool)
        ensures
            r == self.words().contains(word@),
    {
        let mut i: usize = 0;
        while i < self.dictionary.len()
            invariant
                i <= self.dictionary@.len(),
                forall|k: int| 0 <= k < i ==> self.words()[k] != word@,
            decreases self.dictionary.len() - i,
        {
            if same_chars(self.dictionary[i].as_slice(), word) {
                assert(self.words()[i as int] == word@);
                return true;
            }
            i = i + 1;
        }
        false
    }

    /// Settles turn number `turn` of a game against `answer`, given what
    /// the strategy proposed. No proposal fails the game. A guess equal to
    /// the answer wins on this turn: it needs no dictionary entry and is not
    /// recorded. Any other guess must be a dictionary word; it is scored and
    /// appended to `history`, and the game goes on unless this was the last
    /// turn.
    pub fn take_turn(
        &self,
        answer: &str,
        turn: usize,
        guess: Option<String>,
        history: &mut Vec<Guess>,
    ) -> (r: Result<Turn, PlayError>)
        requires
            self.wf(),
            answer@.len() == WORD_LEN,
            1 <= turn <= MAX_TURNS,
        ensures
            (guess is None) ==> (r == Err::<Turn, PlayError>(PlayError::Unimplemented)
                && final(history)@ == old(history)@),
            (guess is Some && guess->0@ == answer@) ==> (r == Ok::<Turn, PlayError>(
                Turn::Won(turn),
            ) && final(history)@ == old(history)@),
            (guess is Some && guess->0@ != answer@ && !self.words().contains(guess->0@)) ==> (r
                == Err::<Turn, PlayError>(PlayError::UnknownWord) && final(history)@ == old(
                history,
            )@),
            (guess is Some && guess->0@ != answer@ && self.words().contains(guess->0@)) ==> ({
                &&& r == (if turn == MAX_TURNS {
                    Ok::<Turn, PlayError>(Turn::Exhausted)
                } else {
                    Ok::<Turn, PlayError>(Turn::Next)
                })
                &&& final(history)@.len() == old(history)@.len() + 1
                &&& final(history)@.drop_last() == old(history)@
                &&& final(history)@.last().word@ == guess->0@
                &&& final(history)@.last().mask@ == score(answer@, guess->0@)
            }),
    {
        let guess = match guess {
            None => return Err(PlayError::Unimplemented),
            Some(g) => g,
        };
        let a = chars_of(answer);
        let g = chars_of(guess.as_str());
        if same_chars(g.as_slice(), a.as_slice()) {
            return Ok(Turn::Won(turn));
        }
        if !self.contains(g.as_slice()) {
            return Err(PlayError::UnknownWord);
        }
        proof {
            let i = choose|i: int| 0 <= i < self.words().len() && self.words()[i] == guess@;
            assert(self.words()[i].len() == WORD_LEN);
        }
        let mask = Correctness::compute(answer, guess.as_str());
        let ghost h0 = history@;
        history.push(Guess { word: guess, mask });
        assert(history@.drop_last() =~= h0);
        if turn == MAX_TURNS {
            Ok(Turn::Exhausted)
        } else {
            Ok(Turn::Next)
        }
    }

    /// Plays one game against `answer`: asks `guesser` for a word each turn,
    /// for at most `MAX_TURNS` turns. `Ok(Some(n))` when the `n`-th guess is
    /// the answer, `Ok(None)` when no guess was; an error when the guesser
    /// gives no word or a word outside the dictionary.
    pub fn play<G: Guesser>(&self, answer: &str, guesser: G) -> (r: Result<Option<usize>, PlayError>)
        requires
            self.wf(),
            answer@.len() == WORD_LEN,
        ensures
            r matches Ok(Some(n)) ==> 1 <= n <= MAX_TURNS,
    {
        let mut guesser = guesser;
        let mut history: Vec<Guess> = Vec::new();
        let mut turn: usize = 1;
        while turn <= MAX_TURNS
            invariant
                self.wf(),
                answer@.len() == WORD_LEN,
                1 <= turn <= MAX_TURNS,
                history@.len() == turn - 1,
            decreases MAX_TURNS - turn,
        {
            let guess = guesser.guess(history.as_slice());
            match self.take_turn(answer, turn, guess, &mut history) {
                Err(e) => return Err(e),
                Ok(Turn::Won(n)) => return Ok(Some(n)),
                Ok(Turn::Exhausted) => return Ok(None),
                Ok(Turn::Next) => {},
            }
            turn = turn + 1;
        }
        Ok(None)
    }
}

} // verus!
