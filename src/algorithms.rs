//! Strategies that plug into the game engine.

use vstd::prelude::*;
use vstd::slice::slice_to_vec;
use crate::game::{Guess, Guesser, word_of, same_chars};
use crate::text::{parse_dictionary, lines, is_dictionary, is_first_space, entry_matches, decimal_value, unsigned_digits};

verus! {

/// The count written after the first space of a dictionary line.
pub open spec fn count_of(line: Seq<char>) -> nat {
    let p = choose|p: int| is_first_space(line, p);
    decimal_value(unsigned_digits(line.subrange(p + 1, line.len() as int)))
}

/// Word counts of the lines `ls`; where a word repeats, its last line wins.
pub open spec fn line_counts(ls: Seq<Seq<char>>) -> Map<Seq<char>, nat>
    decreases ls.len(),
{
    if ls.len() == 0 {
        Map::empty()
    } else {
        line_counts(ls.drop_last()).insert(word_of(ls.last()), count_of(ls.last()))
    }
}

/// The map that a list of distinct words with counts stands for.
pub open spec fn table_map(t: Seq<(Vec<char>, usize)>) -> Map<Seq<char>, nat> {
    Map::new(
        |k: Seq<char>| exists|i: int| 0 <= i < t.len() && (#[trigger] t[i]).0@ == k,
        |k: Seq<char>| t[choose|i: int| 0 <= i < t.len() && (#[trigger] t[i]).0@ == k].1 as nat,
    )
}

/// A strategy that keeps the count of every dictionary word still possible.
/// It does not pick words yet: asked for a guess, it gives none.
pub struct Unoptimized {
    remaining: Vec<(Vec<char>, usize)>,
}

impl Unoptimized {
    /// The words still possible, each with its count.
    pub closed spec fn remaining(&self) -> Map<Seq<char>, nat> {
        table_map(self.remaining@)
    }

    /// No word appears twice in the table.
    pub closed spec fn wf(&self) -> bool {
        forall|i: int, j: int|
            0 <= i < j < self.remaining@.len() ==> self.remaining@[i].0@ != self.remaining@[j].0@
    }

    /// Reads the dictionary text into the table of remaining words; `None`
    /// when a line is not a word, a space and a count.
    pub fn new(dictionary: &str) -> (r: Option<Unoptimized>)
        ensures
            r is Some <==> is_dictionary(dictionary@),
            r matches Some(u) ==> u.wf() && u.remaining() == line_counts(lines(dictionary@)),
    {
        let entries = match parse_dictionary(dictionary) {
            None => return None,
            Some(e) => e,
        };
        let ghost ls = lines(dictionary@);
        let mut table: Vec<(Vec<char>, usize)> = Vec::new();
        let mut k: usize = 0;
        while k < entries.len()
            invariant
                ls == lines(dictionary@),
                entries@.len() == ls.len(),
                k <= entries@.len(),
                forall|m: int|
                    0 <= m < entries@.len() ==> entry_matches(
                        #[trigger] ls[m],
                        entries@[m].0@,
                        entries@[m].1 as nat,
                    ),
                forall|i: int, j: int|
                    0 <= i < j < table@.len() ==> table@[i].0@ != table@[j].0@,
                forall|key: Seq<char>|
                    #[trigger] line_counts(ls.take(k as int)).contains_key(key) <==> exists|i: int|
                        0 <= i < table@.len() && (#[trigger] table@[i]).0@ == key,
                forall|i: int|
                    0 <= i < table@.len() ==> line_counts(ls.take(k as int))[(#[trigger] table@[i]).0@]
                        == table@[i].1 as nat,
            decreases entries.len() - k,
        {
            let word = &entries[k].0;
            let n = entries[k].1;
            proof {
                let line = ls[k as int];
                assert(entry_matches(line, word@, n as nat));
                assert(is_first_space(line, word@.len() as int));
                let p = choose|p: int| is_first_space(line, p);
                assert(p == word@.len());
                assert(ls.take(k + 1).drop_last() =~= ls.take(k as int));
            }
            let ghost m1 = line_counts(ls.take(k + 1));
            assert(m1 == line_counts(ls.take(k as int)).insert(word@, n as nat));
            let mut i: usize = 0;
            let mut found: bool = false;
            while i < table.len() && !found
                invariant
                    i <= table@.len(),
                    forall|q: int| 0 <= q < i ==> table@[q].0@ != word@,
                    found ==> i < table@.len() && table@[i as int].0@ == word@,
                decreases table.len() - i + (if found { 0int } else { 1int }),
            {
                if same_chars(table[i].0.as_slice(), word.as_slice()) {
                    found = true;
                } else {
                    i = i + 1;
                }
            }
            let ghost t0 = table@;
            let key = slice_to_vec(word.as_slice());
            if found {
                table.set(i, (key, n));
            } else {
                table.push((key, n));
            }
            proof {
                let m0 = line_counts(ls.take(k as int));
                assert forall|key: Seq<char>|
                    #[trigger] m1.contains_key(key) <==> exists|q: int|
                        0 <= q < table@.len() && (#[trigger] table@[q]).0@ == key by {
                    if key == word@ {
                        let q = if found { i as int } else { t0.len() as int };
                        assert(table@[q].0@ == key);
                    } else if m0.contains_key(key) {
                        let q = choose|q: int| 0 <= q < t0.len() && (#[trigger] t0[q]).0@ == key;
                        assert(table@[q] == t0[q]);
                    } else {
                        if exists|q: int| 0 <= q < table@.len() && (#[trigger] table@[q]).0@ == key {
                            let q = choose|q: int|
                                0 <= q < table@.len() && (#[trigger] table@[q]).0@ == key;
                            assert(q < t0.len() && t0[q].0@ == key);
                        }
                    }
                }
            }
            k = k + 1;
        }
        assert(ls.take(k as int) =~= ls);
        let u = Unoptimized { remaining: table };
        assert(u.remaining() =~= line_counts(ls));
        Some(u)
    }
}

impl Guesser for Unoptimized {
    /// Picking words is not implemented: every call fails.
    fn guess(&mut self, _history: &[Guess]) -> (r: Option<String>)
        ensures
            r is None,
    {
        None
    }
}

} // verus!
