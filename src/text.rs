//! The dictionary text: one entry per line, a word, a space, and a count.

use vstd::prelude::*;
use vstd::std_specs::iter::IteratorSpec;

verus! {

/// The characters of `s`, in order.
pub fn chars_of(s: &str) -> (r: Vec<char>)
    ensures
        r@ == s@,
{
    let mut r: Vec<char> = Vec::new();
    for c in it: s.chars()
        invariant
            r@ == it.seq().take(it.index() as int),
    {
        r.push(c);
    }
    assert(r@ =~= s@);
    r
}


/// The pieces of `t` between newline characters; there is always at least
/// one, and the last is what follows the final newline.
pub open spec fn pieces(t: Seq<char>) -> Seq<Seq<char>>
    decreases t.len(),
{
    if t.len() == 0 {
        seq![Seq::empty()]
    } else {
        let p = pieces(t.drop_last());
        if t.last() == '\n' {
            p.push(Seq::empty())
        } else {
            p.update(p.len() - 1, p.last().push(t.last()))
        }
    }
}

/// A line ended by `"\r\n"` loses its carriage return along with the newline.
pub open spec fn strip_cr(l: Seq<char>) -> Seq<char> {
    if l.len() > 0 && l.last() == '\r' {
        l.drop_last()
    } else {
        l
    }
}

/// The lines of `t`: split at each newline, a carriage return right before
/// a newline dropped, and no empty line after a final newline.
pub open spec fn lines(t: Seq<char>) -> Seq<Seq<char>> {
    let p = pieces(t);
    let ended = p.drop_last().map_values(|l: Seq<char>| strip_cr(l));
    if p.last().len() == 0 {
        ended
    } else {
        ended.push(p.last())
    }
}

pub open spec fn is_digit(c: char) -> bool {
    '0' <= c && c <= '9'
}

pub open spec fn digit_value(c: char) -> nat {
    (c as u32 - '0' as u32) as nat
}

/// The number written by the decimal digits `s`, most significant first.
pub open spec fn decimal_value(s: Seq<char>) -> nat
    decreases s.len(),
{
    if s.len() == 0 {
        0
    } else {
        decimal_value(s.drop_last()) * 10 + digit_value(s.last())
    }
}

/// `s` without a leading `'+'`.
pub open spec fn unsigned_digits(s: Seq<char>) -> Seq<char> {
    if s.len() > 0 && s[0] == '+' {
        s.drop_first()
    } else {
        s
    }
}

/// `s` reads as a count: an optional `'+'`, at least one decimal digit, and
/// a value that fits in `usize`.
pub open spec fn is_count(s: Seq<char>) -> bool {
    let d = unsigned_digits(s);
    &&& d.len() > 0
    &&& forall|i: int| 0 <= i < d.len() ==> is_digit(#[trigger] d[i])
    &&& decimal_value(d) <= usize::MAX
}

/// Position `p` holds the first space of `line`.
pub open spec fn is_first_space(line: Seq<char>, p: int) -> bool {
    &&& 0 <= p < line.len()
    &&& line[p] == ' '
    &&& forall|q: int| 0 <= q < p ==> line[q] != ' '
}

/// `line` is a word, a space, and a count; the word is what precedes the
/// first space.
pub open spec fn is_entry(line: Seq<char>) -> bool {
    exists|p: int| is_first_space(line, p) && is_count(line.subrange(p + 1, line.len() as int))
}

/// A dictionary text whose every line is an entry.
pub open spec fn is_dictionary(t: Seq<char>) -> bool {
    forall|i: int| 0 <= i < lines(t).len() ==> is_entry(#[trigger] lines(t)[i])
}

/// `(word, count)` is what the line `line` holds.
pub open spec fn entry_matches(line: Seq<char>, word: Seq<char>, count: nat) -> bool {
    &&& is_first_space(line, word.len() as int)
    &&& word == line.take(word.len() as int)
    &&& count == decimal_value(unsigned_digits(line.subrange(word.len() + 1int, line.len() as int)))
}

proof fn lemma_decimal_prefix(s: Seq<char>, j: int)
    requires
        0 <= j <= s.len(),
    ensures
        decimal_value(s.take(j)) <= decimal_value(s),
    decreases s.len(),
{
    if j < s.len() {
        assert(s.drop_last().take(j) =~= s.take(j));
        lemma_decimal_prefix(s.drop_last(), j);
    } else {
        assert(s.take(j) =~= s);
    }
}

/// Reads a count as `usize::from_str` does: an optional `'+'` and decimal
/// digits; `None` on anything else or on a value too large.
pub fn parse_count(s: &[char]) -> (r: Option<usize>)
    ensures
        r is Some <==> is_count(s@),
        r matches Some(n) ==> n == decimal_value(unsigned_digits(s@)),
{
    let start: usize = if s.len() > 0 && s[0] == '+' { 1 } else { 0 };
    let ghost d = unsigned_digits(s@);
    assert(d =~= s@.subrange(start as int, s@.len() as int));
    if start >= s.len() {
        return None;
    }
    let mut acc: usize = 0;
    let mut j: usize = start;
    while j < s.len()
        invariant
            start <= j <= s.len(),
            d == s@.subrange(start as int, s@.len() as int),
            d == unsigned_digits(s@),
            forall|i: int| 0 <= i < j - start ==> is_digit(#[trigger] d[i]),
            acc == decimal_value(d.take(j - start)),
        decreases s.len() - j,
    {
        let c = s[j];
        assert(d[j - start] == c);
        if !('0' <= c && c <= '9') {
            assert(!is_digit(d[j - start]));
            return None;
        }
        let dv = (c as u32 - '0' as u32) as usize;
        assert(d.take(j + 1 - start).drop_last() =~= d.take(j - start));
        assert(d.take(j + 1 - start).last() == c);
        assert(decimal_value(d.take(j + 1 - start)) == acc * 10 + dv);
        match acc.checked_mul(10) {
            None => {
                proof {
                    lemma_decimal_prefix(d, j + 1 - start);
                }
                return None;
            }
            Some(m) => match m.checked_add(dv) {
                None => {
                    proof {
                        lemma_decimal_prefix(d, j + 1 - start);
                    }
                    return None;
                }
                Some(v) => {
                    acc = v;
                }
            }
        }
        j = j + 1;
    }
    assert(d.take(j - start) =~= d);
    Some(acc)
}

/// Splits one line into its word and its count.
pub fn parse_entry(line: &[char]) -> (r: Option<(Vec<char>, usize)>)
    ensures
        r is Some <==> is_entry(line@),
        r matches Some(e) ==> entry_matches(line@, e.0@, e.1 as nat),
{
    let mut p: usize = 0;
    while p < line.len() && line[p] != ' '
        invariant
            p <= line.len(),
            forall|q: int| 0 <= q < p ==> line@[q] != ' ',
        decreases line.len() - p,
    {
        p = p + 1;
    }
    if p == line.len() {
        return None;
    }
    assert(is_first_space(line@, p as int));
    let mut word: Vec<char> = Vec::new();
    let mut k: usize = 0;
    while k < p
        invariant
            k <= p < line.len(),
            word@ == line@.take(k as int),
        decreases p - k,
    {
        word.push(line[k]);
        k = k + 1;
        assert(word@ =~= line@.take(k as int));
    }
    let mut rest: Vec<char> = Vec::new();
    let mut k: usize = p + 1;
    while k < line.len()
        invariant
            p < k <= line.len(),
            rest@ == line@.subrange(p + 1, k as int),
        decreases line.len() - k,
    {
        rest.push(line[k]);
        k = k + 1;
        assert(rest@ =~= line@.subrange(p + 1, k as int));
    }
    let ghost tail = line@.subrange(p + 1, line@.len() as int);
    assert(forall|q: int| is_first_space(line@, q) ==> q == p);
    match parse_count(rest.as_slice()) {
        None => {
            assert(!is_entry(line@));
            None
        },
        Some(n) => {
            assert(is_first_space(line@, p as int) && is_count(tail));
            Some((word, n))
        },
    }
}

/// Reads every line of a dictionary text as a word and a count, in order;
/// `None` when some line is not of that form.
pub fn parse_dictionary(text: &str) -> (r: Option<Vec<(Vec<char>, usize)>>)
    ensures
        r is Some <==> is_dictionary(text@),
        r matches Some(v) ==> {
            &&& v.len() == lines(text@).len()
            &&& forall|i: int|
                0 <= i < v.len() ==> entry_matches(
                    #[trigger] lines(text@)[i],
                    v[i].0@,
                    v[i].1 as nat,
                )
        },
{
    let t = chars_of(text);
    let ghost ts = text@;
    let mut entries: Vec<(Vec<char>, usize)> = Vec::new();
    let mut ok: bool = true;
    let mut cur: Vec<char> = Vec::new();
    let ghost mut done: Seq<Seq<char>> = Seq::empty();
    let mut j: usize = 0;
    while j < t.len()
        invariant
            t@ == ts,
            j <= t.len(),
            pieces(ts.take(j as int)) == done.push(cur@),
            ok <==> forall|i: int| 0 <= i < done.len() ==> is_entry(#[trigger] strip_cr(done[i])),
            ok ==> entries.len() == done.len(),
            ok ==> forall|i: int|
                0 <= i < done.len() ==> entry_matches(
                    #[trigger] strip_cr(done[i]),
                    entries@[i].0@,
                    entries@[i].1 as nat,
                ),
        decreases t.len() - j,
    {
        let c = t[j];
        assert(ts.take(j + 1).drop_last() =~= ts.take(j as int));
        if c == '\n' {
            let ghost piece = cur@;
            if cur.len() > 0 && cur[cur.len() - 1] == '\r' {
                cur.pop();
            }
            assert(cur@ =~= strip_cr(piece));
            let ghost was_ok = ok;
            if ok {
                match parse_entry(cur.as_slice()) {
                    Some(e) => {
                        entries.push(e);
                    },
                    None => {
                        ok = false;
                    },
                }
            }
            let ghost old_done = done;
            proof {
                done = done.push(piece);
                assert(forall|i: int| 0 <= i < old_done.len() ==> done[i] == old_done[i]);
                assert(done[old_done.len() as int] == piece);
                if !ok && !was_ok {
                    let w = choose|i: int|
                        0 <= i < old_done.len() && !is_entry(#[trigger] strip_cr(old_done[i]));
                    assert(!is_entry(strip_cr(done[w])));
                }
            }
            cur = Vec::new();
            assert(pieces(ts.take(j + 1)) =~= done.push(cur@));
        } else {
            cur.push(c);
            assert(pieces(ts.take(j + 1)) =~= done.push(cur@));
        }
        j = j + 1;
    }
    assert(ts.take(j as int) =~= ts);
    assert(done.map_values(|l: Seq<char>| strip_cr(l)).len() == done.len());
    if !ok {
        assert(!is_dictionary(ts)) by {
            let i = choose|i: int| 0 <= i < done.len() && !is_entry(#[trigger] strip_cr(done[i]));
            assert(lines(ts)[i] == strip_cr(done[i]));
        }
        return None;
    }
    if cur.len() > 0 {
        match parse_entry(cur.as_slice()) {
            Some(e) => {
                entries.push(e);
            },
            None => {
                assert(lines(ts)[done.len() as int] == cur@);
                return None;
            },
        }
    }
    assert(forall|i: int| 0 <= i < done.len() ==> lines(ts)[i] == strip_cr(done[i]));
    Some(entries)
}

} // verus!
