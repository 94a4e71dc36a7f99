//! The per-letter score of a guess against a hidden answer.

use vstd::prelude::*;

verus! {

/// Number of letters in every word of the game.
pub const WORD_LEN: usize = 5;

/// How one letter of a guess relates to the answer.
#[derive(Copy, Clone, Debug, PartialEq, Eq, Structural)]
pub enum Correctness {
    /// The letter stands at this very position of the answer.
    Correct,
    /// The letter occurs elsewhere in the answer, at a position not yet credited.
    Misplaced,
    /// No remaining occurrence of the letter in the answer.
    Wrong,
}

/// 1 when `b` holds, else 0.
pub open spec fn indicator(b: bool) -> nat {
    if b { 1 } else { 0 }
}

/// How many of the five positions `0..5` satisfy `p`.
pub open spec fn count5(p: spec_fn(int) -> bool) -> nat {
    indicator(p(0)) + indicator(p(1)) + indicator(p(2)) + indicator(p(3)) + indicator(p(4))
}

/// How many times `c` occurs in the five-letter word `w`.
pub open spec fn occurrences(w: Seq<char>, c: char) -> nat {
    count5(|k: int| w[k] == c)
}

/// Answer positions holding `c` that are not an exact match: those a
/// misplaced `c` of the guess may be credited against.
pub open spec fn spare(answer: Seq<char>, guess: Seq<char>, c: char) -> nat {
    count5(|k: int| answer[k] == c && answer[k] != guess[k])
}

/// Guess positions before `i` that hold `c` and are not an exact match.
pub open spec fn open_before(answer: Seq<char>, guess: Seq<char>, c: char, i: int) -> nat {
    count5(|j: int| j < i && guess[j] == c && answer[j] != guess[j])
}

/// The score of guess position `i`: exact matches first, then each other
/// letter, from left to right, takes one of the answer's spare occurrences
/// of that letter while any is left.
pub open spec fn score_at(answer: Seq<char>, guess: Seq<char>, i: int) -> Correctness {
    if answer[i] == guess[i] {
        Correctness::Correct
    } else if open_before(answer, guess, guess[i], i) < spare(answer, guess, guess[i]) {
        Correctness::Misplaced
    } else {
        Correctness::Wrong
    }
}

/// The full mask of `guess` against `answer`, aligned with the guess.
pub open spec fn score(answer: Seq<char>, guess: Seq<char>) -> Seq<Correctness> {
    Seq::new(5, |i: int| score_at(answer, guess, i))
}

/// Answer positions that hold `c`, are not an exact match, and are marked used.
pub open spec fn used_spare(answer: Seq<char>, guess: Seq<char>, used: Seq<bool>, c: char) -> nat {
    count5(|k: int| used[k] && answer[k] == c && answer[k] != guess[k])
}

pub open spec fn min_nat(x: nat, y: nat) -> nat {
    if x <= y { x } else { y }
}

/// Marking the spare answer position `k` used while crediting guess position
/// `i` moves the counts of the letter at `k` by one, and no other.
proof fn lemma_take_counts(
    answer: Seq<char>,
    guess: Seq<char>,
    before: Seq<bool>,
    k: int,
    i: int,
    d: char,
)
    requires
        answer.len() == 5,
        guess.len() == 5,
        before.len() == 5,
        0 <= i < 5,
        0 <= k < 5,
        answer[i] != guess[i],
        answer[k] == guess[i],
        answer[k] != guess[k],
        !before[k],
    ensures
        used_spare(answer, guess, before.update(k, true), d) == used_spare(answer, guess, before, d)
            + indicator(d == guess[i]),
        open_before(answer, guess, d, i + 1) == open_before(answer, guess, d, i) + indicator(
            d == guess[i],
        ),
{
    let after = before.update(k, true);
    assert(after[0] == (before[0] || k == 0));
    assert(after[1] == (before[1] || k == 1));
    assert(after[2] == (before[2] || k == 2));
    assert(after[3] == (before[3] || k == 3));
    assert(after[4] == (before[4] || k == 4));
}

/// Crediting guess position `i` against the spare answer position `k` keeps
/// the used count of each letter at the number of credits it is owed.
proof fn lemma_take(answer: Seq<char>, guess: Seq<char>, before: Seq<bool>, k: int, i: int)
    requires
        answer.len() == 5,
        guess.len() == 5,
        before.len() == 5,
        0 <= i < 5,
        0 <= k < 5,
        answer[i] != guess[i],
        answer[k] == guess[i],
        !before[k],
        forall|m: int| 0 <= m < 5 && answer[m] == guess[m] ==> before[m],
        forall|d: char|
            #[trigger] used_spare(answer, guess, before, d) == min_nat(
                open_before(answer, guess, d, i),
                spare(answer, guess, d),
            ),
    ensures
        open_before(answer, guess, guess[i], i) < spare(answer, guess, guess[i]),
        forall|d: char|
            #[trigger] used_spare(answer, guess, before.update(k, true), d) == min_nat(
                open_before(answer, guess, d, i + 1),
                spare(answer, guess, d),
            ),
{
    let ch = guess[i];
    assert(answer[k] != guess[k]);
    assert(used_spare(answer, guess, before, ch) < spare(answer, guess, ch));
    assert forall|d: char|
        #[trigger] used_spare(answer, guess, before.update(k, true), d) == min_nat(
            open_before(answer, guess, d, i + 1),
            spare(answer, guess, d),
        ) by {
        lemma_take_counts(answer, guess, before, k, i, d);
        assert(used_spare(answer, guess, before, d) == min_nat(
            open_before(answer, guess, d, i),
            spare(answer, guess, d),
        ));
    }
}

/// When no spare occurrence of the letter at `i` is left, position `i` is
/// owed nothing and the used counts stay as they are.
proof fn lemma_no_take(answer: Seq<char>, guess: Seq<char>, before: Seq<bool>, i: int)
    requires
        answer.len() == 5,
        guess.len() == 5,
        before.len() == 5,
        0 <= i < 5,
        answer[i] != guess[i],
        forall|m: int| 0 <= m < 5 ==> !(answer[m] == guess[i] && !before[m]),
        forall|m: int| 0 <= m < 5 && answer[m] == guess[m] ==> before[m],
        forall|d: char|
            #[trigger] used_spare(answer, guess, before, d) == min_nat(
                open_before(answer, guess, d, i),
                spare(answer, guess, d),
            ),
    ensures
        !(open_before(answer, guess, guess[i], i) < spare(answer, guess, guess[i])),
        forall|d: char|
            #[trigger] used_spare(answer, guess, before, d) == min_nat(
                open_before(answer, guess, d, i + 1),
                spare(answer, guess, d),
            ),
{
    let ch = guess[i];
    assert(used_spare(answer, guess, before, ch) == spare(answer, guess, ch));
    assert forall|d: char|
        #[trigger] used_spare(answer, guess, before, d) == min_nat(
            open_before(answer, guess, d, i + 1),
            spare(answer, guess, d),
        ) by {
        assert(used_spare(answer, guess, before, d) == min_nat(
            open_before(answer, guess, d, i),
            spare(answer, guess, d),
        ));
    }
}

/// An exact match at `i` changes no count.
proof fn lemma_exact_step(answer: Seq<char>, guess: Seq<char>, before: Seq<bool>, i: int)
    requires
        answer.len() == 5,
        guess.len() == 5,
        before.len() == 5,
        0 <= i < 5,
        answer[i] == guess[i],
        forall|d: char|
            #[trigger] used_spare(answer, guess, before, d) == min_nat(
                open_before(answer, guess, d, i),
                spare(answer, guess, d),
            ),
    ensures
        forall|d: char|
            #[trigger] used_spare(answer, guess, before, d) == min_nat(
                open_before(answer, guess, d, i + 1),
                spare(answer, guess, d),
            ),
{
    assert forall|d: char|
        #[trigger] used_spare(answer, guess, before, d) == min_nat(
            open_before(answer, guess, d, i + 1),
            spare(answer, guess, d),
        ) by {
        assert(used_spare(answer, guess, before, d) == min_nat(
            open_before(answer, guess, d, i),
            spare(answer, guess, d),
        ));
    }
}

impl Correctness {
    /// Scores `guess` against `answer`.
    pub fn compute(answer: &str, guess: &str) -> (r: [Correctness; 5])
        requires
            answer@.len() == WORD_LEN,
            guess@.len() == WORD_LEN,
        ensures
            r@ == score(answer@, guess@),
    {
        let ghost a = answer@;
        let ghost g = guess@;
        let mut ac: [char; 5] = ['\0'; 5];
        let mut gc: [char; 5] = ['\0'; 5];
        for i in 0..WORD_LEN
            invariant
                a == answer@,
                g == guess@,
                a.len() == 5,
                g.len() == 5,
                forall|k: int| 0 <= k < i ==> ac@[k] == a[k] && gc@[k] == g[k],
        {
            ac[i] = answer.get_char(i);
            gc[i] = guess.get_char(i);
        }
        let mut c: [Correctness; 5] = [Correctness::Wrong; 5];
        let mut used: [bool; 5] = [false; 5];

        // exact matches first
        let mut i: usize = 0;
        while i < WORD_LEN
            invariant
                i <= 5,
                a.len() == 5,
                g.len() == 5,
                forall|k: int| 0 <= k < 5 ==> ac@[k] == a[k] && gc@[k] == g[k],
                c@ == Seq::new(5, |k: int| if k < i && a[k] == g[k] {
                    Correctness::Correct
                } else {
                    Correctness::Wrong
                }),
                used@ == Seq::new(5, |k: int| k < i && a[k] == g[k]),
            decreases 5 - i,
        {
            let same = ac[i] == gc[i];
            assert(same == (a[i as int] == g[i as int])) by {
                assert(ac@[i as int] == a[i as int]);
                assert(gc@[i as int] == g[i as int]);
            }
            if same {
                c[i] = Correctness::Correct;
                used[i] = true;
            }
            i = i + 1;
            assert(used@ =~= Seq::new(5, |k: int| k < i && a[k] == g[k]));
            assert(c@ =~= Seq::new(5, |k: int| if k < i && a[k] == g[k] {
                    Correctness::Correct
                } else {
                    Correctness::Wrong
                }));
        }
        assert(forall|ch: char| used_spare(a, g, used@, ch) == 0);

        // then the displaced ones, each taking the first unused occurrence
        let mut i: usize = 0;
        while i < WORD_LEN
            invariant
                i <= 5,
                a.len() == 5,
                g.len() == 5,
                used@.len() == 5,
                forall|k: int| 0 <= k < 5 ==> ac@[k] == a[k] && gc@[k] == g[k],
                forall|k: int| 0 <= k < i ==> c@[k] == score_at(a, g, k),
                forall|k: int|
                    i <= k < 5 ==> c@[k] == (if a[k] == g[k] {
                        Correctness::Correct
                    } else {
                        Correctness::Wrong
                    }),
                forall|k: int| 0 <= k < 5 && a[k] == g[k] ==> used@[k],
                forall|d: char|
                    #[trigger] used_spare(a, g, used@, d) == min_nat(
                        open_before(a, g, d, i as int),
                        spare(a, g, d),
                    ),
            decreases 5 - i,
        {
            let ghost before = used@;
            assert(ac@[i as int] == a[i as int] && gc@[i as int] == g[i as int]);
            if ac[i] != gc[i] {
                let mut j: usize = 0;
                let mut found: bool = false;
                while j < WORD_LEN && !found
                    invariant
                        0 <= i < 5,
                        a.len() == 5,
                        g.len() == 5,
                        before.len() == 5,
                        used@.len() == 5,
                        forall|k: int| 0 <= k < 5 ==> ac@[k] == a[k] && gc@[k] == g[k],
                        j <= 5,
                        !found ==> used@ == before,
                        !found ==> forall|k: int|
                            0 <= k < j ==> !(a[k] == g[i as int] && !before[k]),
                        found ==> j < 5 && a[j as int] == g[i as int] && !before[j as int]
                            && used@ == before.update(j as int, true),
                    decreases 5 - j + (if found { 0int } else { 1int }),
                {
                    assert(ac@[j as int] == a[j as int]);
                    if ac[j] == gc[i] && !used[j] {
                        used[j] = true;
                        found = true;
                    } else {
                        j = j + 1;
                    }
                }
                if found {
                    proof {
                        lemma_take(a, g, before, j as int, i as int);
                    }
                    c[i] = Correctness::Misplaced;
                } else {
                    proof {
                        lemma_no_take(a, g, before, i as int);
                    }
                }
            } else {
                proof {
                    lemma_exact_step(a, g, before, i as int);
                }
            }
            i = i + 1;
        }
        assert(c@ =~= score(a, g));
        c
    }
}

/// A word scored against itself is correct at every position.
pub proof fn lemma_self_all_correct(w: Seq<char>)
    requires
        w.len() == WORD_LEN,
    ensures
        forall|i: int| 0 <= i < 5 ==> #[trigger] score(w, w)[i] == Correctness::Correct,
{
}

/// When the guess shares no letter with the answer, every position is wrong.
pub proof fn lemma_disjoint_all_wrong(answer: Seq<char>, guess: Seq<char>)
    requires
        answer.len() == WORD_LEN,
        guess.len() == WORD_LEN,
        forall|i: int, j: int| 0 <= i < 5 && 0 <= j < 5 ==> answer[i] != guess[j],
    ensures
        forall|i: int| 0 <= i < 5 ==> #[trigger] score(answer, guess)[i] == Correctness::Wrong,
{
    assert forall|i: int| 0 <= i < 5 implies #[trigger] score(answer, guess)[i]
        == Correctness::Wrong by {
        assert(spare(answer, guess, guess[i]) == 0) by {
            assert(answer[0] != guess[i]);
            assert(answer[1] != guess[i]);
            assert(answer[2] != guess[i]);
            assert(answer[3] != guess[i]);
            assert(answer[4] != guess[i]);
        }
    }
}

/// When the guess holds the same letters as the answer, as many times each,
/// and no letter stands at its answer position, every position is misplaced.
pub proof fn lemma_rearranged_all_misplaced(answer: Seq<char>, guess: Seq<char>)
    requires
        answer.len() == WORD_LEN,
        guess.len() == WORD_LEN,
        forall|c: char| #[trigger] occurrences(answer, c) == occurrences(guess, c),
        forall|i: int| 0 <= i < 5 ==> answer[i] != guess[i],
    ensures
        forall|i: int| 0 <= i < 5 ==> #[trigger] score(answer, guess)[i] == Correctness::Misplaced,
{
    assert forall|i: int| 0 <= i < 5 implies #[trigger] score(answer, guess)[i]
        == Correctness::Misplaced by {
        let c = guess[i];
        assert(occurrences(answer, c) == occurrences(guess, c));
        assert(spare(answer, guess, c) == occurrences(answer, c));
        assert(open_before(answer, guess, c, i) < occurrences(guess, c));
    }
}

/// Scoring depends on the two words alone: equal inputs give equal masks.
pub proof fn lemma_score_deterministic(a1: Seq<char>, g1: Seq<char>, a2: Seq<char>, g2: Seq<char>)
    requires
        a1 == a2,
        g1 == g2,
    ensures
        score(a1, g1) == score(a2, g2),
{
}

/// Guess positions holding `c` that are not scored `Wrong`.
pub open spec fn credited(answer: Seq<char>, guess: Seq<char>, c: char) -> nat {
    count5(|i: int| guess[i] == c && score_at(answer, guess, i) != Correctness::Wrong)
}

/// Guess positions before `n` holding `c` that are scored `Misplaced`.
spec fn misplaced_before(answer: Seq<char>, guess: Seq<char>, c: char, n: int) -> nat {
    count5(
        |i: int|
            i < n && guess[i] == c && answer[i] != guess[i] && open_before(answer, guess, c, i)
                < spare(answer, guess, c),
    )
}

proof fn lemma_misplaced_step(answer: Seq<char>, guess: Seq<char>, c: char, n: int)
    requires
        answer.len() == WORD_LEN,
        guess.len() == WORD_LEN,
        0 <= n < 5,
        misplaced_before(answer, guess, c, n) == min_nat(
            open_before(answer, guess, c, n),
            spare(answer, guess, c),
        ),
    ensures
        misplaced_before(answer, guess, c, n + 1) == min_nat(
            open_before(answer, guess, c, n + 1),
            spare(answer, guess, c),
        ),
{
}

/// A letter is credited, as correct or misplaced, as many times as it
/// occurs in the guess, but never more often than it occurs in the answer.
pub proof fn lemma_credit_bounded_by_answer(answer: Seq<char>, guess: Seq<char>, c: char)
    requires
        answer.len() == WORD_LEN,
        guess.len() == WORD_LEN,
    ensures
        credited(answer, guess, c) == min_nat(occurrences(guess, c), occurrences(answer, c)),
{
    lemma_misplaced_step(answer, guess, c, 0);
    lemma_misplaced_step(answer, guess, c, 1);
    lemma_misplaced_step(answer, guess, c, 2);
    lemma_misplaced_step(answer, guess, c, 3);
    lemma_misplaced_step(answer, guess, c, 4);
    let exact = count5(|i: int| guess[i] == c && answer[i] == guess[i]);
    assert(occurrences(guess, c) == exact + open_before(answer, guess, c, 5));
    assert(occurrences(answer, c) == exact + spare(answer, guess, c));
    assert(credited(answer, guess, c) == exact + misplaced_before(answer, guess, c, 5));
}

} // verus!
