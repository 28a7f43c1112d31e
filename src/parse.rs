//! Reading a puzzle from its text: a line with the size `N`, then `N` lines
//! of column clues and `N` lines of row clues, each a list of positive
//! numbers separated by single spaces (an empty line for no runs).
use vstd::prelude::*;

use crate::grid::{rules_view, Nonogram};
use crate::line::clues_positive;
use crate::solver::MAX_SIDE;

verus! {

/// The text of the puzzle does not have the expected form.
#[derive(Debug, Clone, Copy, PartialEq, Eq)]
pub enum ParseError {
    /// The first line is not a size from 1 to `MAX_SIDE`.
    BadSize,
    /// Fewer lines than the size asks for.
    MissingLine,
    /// A clue line holds something other than positive numbers apart.
    BadClue,
}

/// The index of the last `sep` in `s`, or -1.
pub open spec fn last_sep(s: Seq<u8>, sep: u8) -> int
    decreases s.len(),
{
    if s.len() == 0 {
        -1
    } else if s.last() == sep {
        s.len() - 1
    } else {
        last_sep(s.drop_last(), sep)
    }
}

proof fn lemma_last_sep(s: Seq<u8>, sep: u8)
    ensures
        -1 <= last_sep(s, sep) < s.len(),
        last_sep(s, sep) >= 0 ==> s[last_sep(s, sep)] == sep,
        forall|j: int| last_sep(s, sep) < j < s.len() ==> #[trigger] s[j] != sep,
    decreases s.len(),
{
    if s.len() > 0 && s.last() != sep {
        lemma_last_sep(s.drop_last(), sep);
        assert forall|j: int| last_sep(s, sep) < j < s.len() implies #[trigger] s[j] != sep by {
            if j < s.len() - 1 {
                assert(s[j] == s.drop_last()[j]);
            }
        }
    }
}

/// The pieces of `s` between the bytes `sep`: always at least one.
pub open spec fn split(s: Seq<u8>, sep: u8) -> Seq<Seq<u8>>
    decreases s.len(),
    via split_decreases
{
    let k = last_sep(s, sep);
    if k < 0 {
        seq![s]
    } else {
        split(s.subrange(0, k), sep).push(s.subrange(k + 1, s.len() as int))
    }
}

#[via_fn]
proof fn split_decreases(s: Seq<u8>, sep: u8) {
    lemma_last_sep(s, sep);
}

/// A line without its final carriage return, if it has one.
pub open spec fn strip_cr(s: Seq<u8>) -> Seq<u8> {
    if s.len() > 0 && s.last() == 13 {
        s.drop_last()
    } else {
        s
    }
}

/// `s` is a nonempty run of decimal digits.
pub open spec fn all_digits(s: Seq<u8>) -> bool {
    s.len() > 0 && forall|j: int| 0 <= j < s.len() ==> 48 <= #[trigger] s[j] <= 57
}

/// The number that the decimal digits `s` write.
pub open spec fn digits_value(s: Seq<u8>) -> nat
    decreases s.len(),
{
    if s.len() == 0 {
        0
    } else {
        digits_value(s.drop_last()) * 10 + (s.last() - 48) as nat
    }
}

/// The positive number that `s` writes, if it writes one that fits.
pub open spec fn number_of(s: Seq<u8>) -> Option<usize> {
    if all_digits(s) && 1 <= digits_value(s) <= usize::MAX {
        Some(digits_value(s) as usize)
    } else {
        None
    }
}

/// The clues of one line: none for an empty line, else one positive number
/// for each space-separated piece.
pub open spec fn clues_of(line: Seq<u8>) -> Option<Seq<usize>> {
    let s = strip_cr(line);
    if s.len() == 0 {
        Some(Seq::empty())
    } else {
        let toks = split(s, 32);
        if forall|i: int| 0 <= i < toks.len() ==> (#[trigger] number_of(toks[i])) is Some {
            Some(Seq::new(toks.len(), |i: int| number_of(toks[i])->Some_0))
        } else {
            None
        }
    }
}

/// The size that the first line gives, if it is one from 1 to `MAX_SIDE`.
pub open spec fn size_of(line: Seq<u8>) -> Option<usize> {
    match number_of(strip_cr(line)) {
        Some(n) => if n <= MAX_SIDE { Some(n) } else { None },
        None => None,
    }
}

/// The lines of a text: the pieces between newlines, where a final newline
/// ends the last line rather than starting an empty one.
pub open spec fn file_lines(text: Seq<u8>) -> Seq<Seq<u8>> {
    if text.len() > 0 && text.last() == 10 {
        split(text, 10).drop_last()
    } else {
        split(text, 10)
    }
}

proof fn lemma_split_len(s: Seq<u8>, sep: u8)
    ensures
        split(s, sep).len() >= 1,
        s.len() > 0 && s.last() == sep ==> split(s, sep).len() >= 2,
    decreases s.len(),
{
    lemma_last_sep(s, sep);
    let k = last_sep(s, sep);
    if k >= 0 {
        lemma_split_len(s.subrange(0, k), sep);
    }
}

/// What the text of a puzzle gives: the size, then the column clues and the
/// row clues; or the first fault met.
pub open spec fn puzzle_of(text: Seq<u8>) -> Result<(usize, Seq<Seq<usize>>, Seq<Seq<usize>>), ParseError> {
    let lines = file_lines(text);
    match size_of(lines[0]) {
        None => Err(ParseError::BadSize),
        Some(n) => if lines.len() < 1 + 2 * n {
            Err(ParseError::MissingLine)
        } else if forall|i: int| 1 <= i < 1 + 2 * n ==> (#[trigger] clues_of(lines[i])) is Some {
            Ok((
                n,
                Seq::new(n as nat, |i: int| clues_of(lines[1 + i])->Some_0),
                Seq::new(n as nat, |i: int| clues_of(lines[1 + n + i])->Some_0),
            ))
        } else {
            Err(ParseError::BadClue)
        },
    }
}

proof fn lemma_split_no_sep(s: Seq<u8>, sep: u8)
    requires
        !s.contains(sep),
    ensures
        split(s, sep) == seq![s],
{
    lemma_last_sep(s, sep);
    if last_sep(s, sep) >= 0 {
        assert(s[last_sep(s, sep)] == sep);
    }
}

proof fn lemma_split_after(p: Seq<u8>, cur: Seq<u8>, sep: u8)
    requires
        !cur.contains(sep),
    ensures
        split(p + seq![sep] + cur, sep) == split(p, sep).push(cur),
{
    let s = p + seq![sep] + cur;
    let k = p.len() as int;
    lemma_last_sep_at(p, cur, sep);
    assert(s.subrange(0, k) =~= p);
    assert(s.subrange(k + 1, s.len() as int) =~= cur);
}

proof fn lemma_last_sep_at(p: Seq<u8>, cur: Seq<u8>, sep: u8)
    requires
        !cur.contains(sep),
    ensures
        last_sep(p + seq![sep] + cur, sep) == p.len(),
    decreases cur.len(),
{
    let s = p + seq![sep] + cur;
    if cur.len() == 0 {
        assert(s.last() == sep);
    } else {
        assert(s.last() == cur.last());
        assert(cur.contains(cur.last()) ==> cur.last() != sep);
        assert(cur[cur.len() - 1] == cur.last());
        assert(!cur.drop_last().contains(sep)) by {
            if cur.drop_last().contains(sep) {
                let j = choose|j: int| 0 <= j < cur.drop_last().len() && cur.drop_last()[j] == sep;
                assert(cur[j] == sep);
            }
        }
        lemma_last_sep_at(p, cur.drop_last(), sep);
        assert(s.drop_last() =~= p + seq![sep] + cur.drop_last());
    }
}

/// The pieces of `text` between the bytes `sep`.
pub fn split_bytes(text: &[u8], sep: u8) -> (parts: Vec<Vec<u8>>)
    ensures
        parts@.len() == split(text@, sep).len(),
        forall|i: int| 0 <= i < parts@.len() ==> (#[trigger] parts@[i])@ == split(text@, sep)[i],
{
    let mut parts: Vec<Vec<u8>> = Vec::new();
    let mut cur: Vec<u8> = Vec::new();
    let ghost mut before: Seq<u8> = Seq::empty();
    let ghost mut seen: bool = false;
    let mut i: usize = 0;
    while i < text.len()
        invariant
            i <= text@.len(),
            !cur@.contains(sep),
            seen ==> text@.subrange(0, i as int) == before + seq![sep] + cur@,
            !seen ==> text@.subrange(0, i as int) == cur@ && parts@.len() == 0,
            seen ==> parts@.len() == split(before, sep).len(),
            seen ==> forall|k: int| 0 <= k < parts@.len() ==> (#[trigger] parts@[k])@ == split(before, sep)[k],
        decreases text@.len() - i,
    {
        let b = text[i];
        if b == sep {
            proof {
                let whole = text@.subrange(0, i as int);
                if seen {
                    lemma_split_after(before, cur@, sep);
                } else {
                    lemma_split_no_sep(cur@, sep);
                }
                before = whole;
                seen = true;
            }
            parts.push(cur);
            cur = Vec::new();
            proof {
                assert(text@.subrange(0, i + 1) =~= before + seq![sep] + cur@);
                assert forall|k: int| 0 <= k < parts@.len() implies (#[trigger] parts@[k])@ == split(before, sep)[k] by {}
            }
        } else {
            let ghost old_cur = cur@;
            cur.push(b);
            proof {
                if cur@.contains(sep) {
                    let j = choose|j: int| 0 <= j < cur@.len() && cur@[j] == sep;
                    if j < old_cur.len() {
                        assert(old_cur[j] == sep);
                    }
                }
                if seen {
                    assert(text@.subrange(0, i + 1) =~= before + seq![sep] + cur@);
                } else {
                    assert(text@.subrange(0, i + 1) =~= cur@);
                }
            }
        }
        i = i + 1;
    }
    proof {
        assert(text@.subrange(0, text@.len() as int) =~= text@);
        if seen {
            lemma_split_after(before, cur@, sep);
        } else {
            lemma_split_no_sep(cur@, sep);
        }
    }
    parts.push(cur);
    proof {
        assert forall|k: int| 0 <= k < parts@.len() implies (#[trigger] parts@[k])@ == split(text@, sep)[k] by {}
    }
    parts
}

proof fn lemma_value_grows(s: Seq<u8>, i: int)
    requires
        0 <= i <= s.len(),
    ensures
        digits_value(s.subrange(0, i)) <= digits_value(s),
    decreases s.len() - i,
{
    if i < s.len() {
        lemma_value_grows(s.drop_last(), i);
        assert(s.drop_last().subrange(0, i) =~= s.subrange(0, i));
    } else {
        assert(s.subrange(0, i) =~= s);
    }
}

/// The positive number that the bytes write, if they are decimal digits and
/// it fits.
pub fn parse_number(tok: &[u8]) -> (r: Option<usize>)
    ensures
        r == number_of(tok@),
{
    if tok.len() == 0 {
        return None;
    }
    let mut acc: usize = 0;
    let mut i: usize = 0;
    while i < tok.len()
        invariant
            i <= tok@.len(),
            forall|j: int| 0 <= j < i ==> 48 <= #[trigger] tok@[j] <= 57,
            acc == digits_value(tok@.subrange(0, i as int)),
        decreases tok@.len() - i,
    {
        let b = tok[i];
        if b < 48 || b > 57 {
            return None;
        }
        let d = (b - 48) as usize;
        proof {
            assert(tok@.subrange(0, i + 1).drop_last() =~= tok@.subrange(0, i as int));
        }
        if acc > (usize::MAX - d) / 10 {
            proof {
                if all_digits(tok@) {
                    lemma_value_grows(tok@, i + 1);
                }
            }
            return None;
        }
        acc = acc * 10 + d;
        i = i + 1;
    }
    proof {
        assert(tok@.subrange(0, tok@.len() as int) =~= tok@);
    }
    if acc == 0 {
        None
    } else {
        Some(acc)
    }
}

/// The length of a line without its final carriage return.
fn content_len(line: &[u8]) -> (n: usize)
    ensures
        n <= line@.len(),
        line@.subrange(0, n as int) == strip_cr(line@),
{
    let len = line.len();
    if len > 0 && line[len - 1] == 13 {
        assert(line@.subrange(0, len - 1) =~= line@.drop_last());
        len - 1
    } else {
        assert(line@.subrange(0, len as int) =~= line@);
        len
    }
}

/// The clues of one line of the puzzle's text.
pub fn parse_clue_line(line: &[u8]) -> (r: Option<Vec<usize>>)
    ensures
        match r {
            Some(v) => clues_of(line@) == Some(v@) && clues_positive(v@),
            None => clues_of(line@) is None,
        },
{
    let n = content_len(line);
    let s = vstd::slice::slice_subrange(line, 0, n);
    let mut clues: Vec<usize> = Vec::new();
    if n == 0 {
        assert(clues@ =~= Seq::<usize>::empty());
        return Some(clues);
    }
    let toks = split_bytes(s, 32);
    let ghost ts = split(s@, 32);
    let mut i: usize = 0;
    while i < toks.len()
        invariant
            s@ == strip_cr(line@),
            s@.len() > 0,
            ts == split(s@, 32),
            toks@.len() == ts.len(),
            forall|k: int| 0 <= k < toks@.len() ==> (#[trigger] toks@[k])@ == ts[k],
            i <= ts.len(),
            clues@.len() == i,
            forall|k: int| 0 <= k < i ==> (#[trigger] number_of(ts[k])) == Some(clues@[k]),
            clues_positive(clues@),
        decreases ts.len() - i,
    {
        match parse_number(toks[i].as_slice()) {
            Some(v) => {
                clues.push(v);
            },
            None => {
                proof {
                    assert(number_of(ts[i as int]) is None);
                    assert(strip_cr(line@) == s@);
                    assert(!(forall|k: int| 0 <= k < ts.len() ==> (#[trigger] number_of(ts[k])) is Some));
                }
                return None;
            },
        }
        i = i + 1;
    }
    proof {
        assert(clues@ =~= Seq::new(ts.len(), |k: int| number_of(ts[k])->Some_0));
    }
    Some(clues)
}

/// Reads a puzzle from its text; every cell starts empty. Lines after the
/// last row's clues are not read.
pub fn parse_nonogram(text: &[u8]) -> (r: Result<Nonogram, ParseError>)
    ensures
        match r {
            Ok(p) => p.wf() && puzzle_of(text@) == Ok::<(usize, Seq<Seq<usize>>, Seq<Seq<usize>>), ParseError>(
                (p.size, rules_view(p.col_rules@), rules_view(p.row_rules@)),
            ) && p.cells() == Seq::new(p.size as nat, |i: int| Seq::new(p.size as nat, |j: int| false)),
            Err(e) => puzzle_of(text@) == Err::<(usize, Seq<Seq<usize>>, Seq<Seq<usize>>), ParseError>(e),
        },
{
    let lines = split_bytes(text, 10);
    let ghost ls = file_lines(text@);
    proof {
        lemma_split_len(text@, 10);
        assert forall|k: int| 0 <= k < ls.len() implies (#[trigger] lines@[k])@ == ls[k] by {
            assert(lines@[k]@ == split(text@, 10)[k]);
        }
    }
    let count = if text.len() > 0 && text[text.len() - 1] == 10 { lines.len() - 1 } else { lines.len() };
    assert(count == ls.len());
    let first = lines[0].as_slice();
    let n0 = content_len(first);
    let size = match parse_number(vstd::slice::slice_subrange(first, 0, n0)) {
        Some(v) => v,
        None => {
            proof {
                assert(lines@[0]@ == ls[0]);
            }
            return Err(ParseError::BadSize);
        },
    };
    proof {
        assert(lines@[0]@ == ls[0]);
        assert(size_of(ls[0]) == if size <= MAX_SIDE { Some(size) } else { None::<usize> });
    }
    if size > MAX_SIDE {
        return Err(ParseError::BadSize);
    }
    if count < 1 + 2 * size {
        return Err(ParseError::MissingLine);
    }
    let mut col_rules: Vec<Vec<usize>> = Vec::new();
    let mut row_rules: Vec<Vec<usize>> = Vec::new();
    let mut i: usize = 0;
    while i < 2 * size
        invariant
            1 <= size <= MAX_SIDE,
            size_of(ls[0]) == Some(size),
            ls == file_lines(text@),
            lines@.len() >= ls.len(),
            ls.len() >= 1 + 2 * size,
            forall|k: int| 0 <= k < ls.len() ==> (#[trigger] lines@[k])@ == ls[k],
            i <= 2 * size,
            col_rules@.len() == if i < size { i as int } else { size as int },
            row_rules@.len() == if i < size { 0 } else { i - size },
            forall|k: int| 1 <= k < 1 + i ==> (#[trigger] clues_of(ls[k])) is Some,
            forall|k: int| 0 <= k < col_rules@.len() ==> clues_of(ls[1 + k]) == Some(#[trigger] col_rules@[k]@),
            forall|k: int| 0 <= k < row_rules@.len() ==> clues_of(ls[1 + size + k]) == Some(#[trigger] row_rules@[k]@),
            forall|k: int| 0 <= k < col_rules@.len() ==> clues_positive(#[trigger] col_rules@[k]@),
            forall|k: int| 0 <= k < row_rules@.len() ==> clues_positive(#[trigger] row_rules@[k]@),
        decreases 2 * size - i,
    {
        match parse_clue_line(lines[1 + i].as_slice()) {
            Some(c) => {
                if i < size {
                    col_rules.push(c);
                } else {
                    row_rules.push(c);
                }
            },
            None => {
                proof {
                    assert(!(forall|k: int| 1 <= k < 1 + 2 * size ==> (#[trigger] clues_of(ls[k])) is Some)) by {
                        assert(clues_of(ls[1 + i as int]) is None);
                    }
                }
                return Err(ParseError::BadClue);
            },
        }
        i = i + 1;
    }
    proof {
        assert(size * size <= MAX_SIDE * MAX_SIDE) by (nonlinear_arith)
            requires
                size <= MAX_SIDE,
        ;
        assert(rules_view(col_rules@) =~= Seq::new(size as nat, |k: int| clues_of(ls[1 + k])->Some_0));
        assert(rules_view(row_rules@) =~= Seq::new(size as nat, |k: int| clues_of(ls[1 + size + k])->Some_0));
    }
    let p = Nonogram::new(size, col_rules, row_rules);
    Ok(p)
}

} // verus!
