//! Position arithmetic: motions by words, lines and paragraphs, search, and
//! the extents of text objects. Everything works on a `Buffer` and
//! (row, column) coordinates.

use vstd::prelude::*;

use crate::domain::buffer::{Buffer, line_of};
use crate::domain::text::{
    is_alphanumeric, is_ascii_alpha_spec, is_ascii_digit_spec, is_whitespace, spec_is_alphanumeric,
    spec_is_whitespace, string_from_chars,
    sub_chars,
};

verus! {

pub type Pos = (usize, usize);

#[derive(Clone, Copy, PartialEq, Eq, Debug, Structural)]
pub enum Class {
    Blank,
    Word,
    Punct,
}

/// A letter or digit: on ASCII the letters and digits themselves, beyond
/// it what `char::is_alphanumeric` answers.
pub open spec fn alnum(c: char) -> bool {
    if (c as u32) < 128 {
        is_ascii_alpha_spec(c) || is_ascii_digit_spec(c)
    } else {
        spec_is_alphanumeric(c)
    }
}

/// Character class for word motions: blanks, word characters (letters,
/// digits, `_`; every non-blank for WORD motions) and punctuation.
pub open spec fn class_of(c: char, big: bool) -> Class {
    if spec_is_whitespace(c) {
        Class::Blank
    } else if big {
        Class::Word
    } else if alnum(c) || c == '_' {
        Class::Word
    } else {
        Class::Punct
    }
}

pub fn class(c: char, big: bool) -> (r: Class)
    ensures
        r == class_of(c, big),
{
    if is_whitespace(c) {
        Class::Blank
    } else if big {
        Class::Word
    } else if is_alphanumeric(c) || c == '_' {
        Class::Word
    } else {
        Class::Punct
    }
}

/// The character at a position, `None` past the end of its line.
pub open spec fn char_at_spec(t: Seq<Seq<char>>, p: Pos) -> Option<char> {
    let line = line_of(t, p.0 as int);
    if p.1 < line.len() {
        Some(line[p.1 as int])
    } else {
        None
    }
}

pub open spec fn class_at(t: Seq<Seq<char>>, p: Pos, big: bool) -> Option<Class> {
    match char_at_spec(t, p) {
        Some(c) => Some(class_of(c, big)),
        None => None,
    }
}

pub open spec fn line_len_of(t: Seq<Seq<char>>, row: usize) -> nat {
    line_of(t, row as int).len()
}

/// A position inside the text: on an existing line, at most one column past
/// its end.
pub open spec fn pos_in(t: Seq<Seq<char>>, p: Pos) -> bool {
    p.0 < t.len() && p.1 <= t[p.0 as int].len()
}

/// Lexicographic order of positions.
pub open spec fn pos_le(a: Pos, b: Pos) -> bool {
    a.0 < b.0 || (a.0 == b.0 && a.1 <= b.1)
}

/// The next position in reading order; the end of a line counts as a
/// virtual line break. (Coordinates stay below `usize::MAX`, which every
/// text held in memory satisfies.)
pub open spec fn step_fwd_spec(t: Seq<Seq<char>>, p: Pos) -> Option<Pos> {
    if p.1 + 1 < line_len_of(t, p.0) && p.1 + 1 <= usize::MAX {
        Some((p.0, (p.1 + 1) as usize))
    } else if p.0 + 1 < t.len() && p.0 + 1 <= usize::MAX {
        Some(((p.0 + 1) as usize, 0usize))
    } else {
        None
    }
}

/// The previous position in reading order; from the start of a line it
/// goes to the last character of the line above.
pub open spec fn step_back_spec(t: Seq<Seq<char>>, p: Pos) -> Option<Pos> {
    if p.1 > 0 {
        Some((p.0, (p.1 - 1) as usize))
    } else if p.0 > 0 {
        let prev = (p.0 - 1) as usize;
        Some((prev, if line_len_of(t, prev) > 0 { (line_len_of(t, prev) - 1) as usize } else { 0usize }))
    } else {
        None
    }
}

pub open spec fn blank_or_none(t: Seq<Seq<char>>, p: Pos, big: bool) -> bool {
    class_at(t, p, big) == Some(Class::Blank) || char_at_spec(t, p) is None
}

/// From `p`, the first later position whose class is not `sc`, or the last
/// position of the text when there is none.
pub open spec fn leave_class(t: Seq<Seq<char>>, p: Pos, sc: Class, big: bool) -> Pos
    decreases t.len() - p.0, line_len_of(t, p.0) - p.1,
{
    match step_fwd_spec(t, p) {
        Some(np) => if class_at(t, np, big) == Some(sc) {
            leave_class(t, np, sc, big)
        } else {
            np
        },
        None => p,
    }
}

/// Where `w` stops: a non-blank character, or an empty line other than the
/// starting one.
pub open spec fn word_stop(t: Seq<Seq<char>>, p: Pos, from: Pos, big: bool) -> bool {
    match char_at_spec(t, p) {
        Some(c) => class_of(c, big) != Class::Blank,
        None => line_len_of(t, p.0) == 0 && p != from,
    }
}

/// From `p` onwards, the first position where `w` stops, or the last
/// position of the text.
pub open spec fn skip_to_word(t: Seq<Seq<char>>, p: Pos, from: Pos, big: bool) -> Pos
    decreases t.len() - p.0, line_len_of(t, p.0) - p.1,
{
    if word_stop(t, p, from, big) {
        p
    } else {
        match step_fwd_spec(t, p) {
            Some(np) => skip_to_word(t, np, from, big),
            None => p,
        }
    }
}

pub open spec fn next_word_start_spec(t: Seq<Seq<char>>, from: Pos, big: bool) -> Pos {
    let p1 = match class_at(t, from, big) {
        Some(sc) => if sc != Class::Blank {
            leave_class(t, from, sc, big)
        } else {
            from
        },
        None => from,
    };
    skip_to_word(t, p1, from, big)
}

/// Backwards from `p`, the first position holding a non-blank character or
/// lying on an empty line, or the start of the text.
pub open spec fn back_to_word(t: Seq<Seq<char>>, p: Pos, big: bool) -> Pos
    decreases p.0, p.1,
{
    if !blank_or_none(t, p, big) || line_len_of(t, p.0) == 0 {
        p
    } else {
        match step_back_spec(t, p) {
            Some(np) => back_to_word(t, np, big),
            None => p,
        }
    }
}

/// Backwards from `p` along its own line while the class stays `target`.
pub open spec fn run_back(t: Seq<Seq<char>>, p: Pos, target: Option<Class>, big: bool) -> Pos
    decreases p.0, p.1,
{
    match step_back_spec(t, p) {
        Some(np) => if class_at(t, np, big) == target && np.0 == p.0 {
            run_back(t, np, target, big)
        } else {
            p
        },
        None => p,
    }
}

pub open spec fn prev_word_start_spec(t: Seq<Seq<char>>, from: Pos, big: bool) -> Pos {
    match step_back_spec(t, from) {
        None => from,
        Some(p0) => {
            let q = back_to_word(t, p0, big);
            if blank_or_none(t, q, big) {
                q
            } else {
                run_back(t, q, class_at(t, q, big), big)
            }
        },
    }
}

/// Forwards from `p`, the first position holding a non-blank character, or
/// the last position of the text.
pub open spec fn fwd_to_word(t: Seq<Seq<char>>, p: Pos, big: bool) -> Pos
    decreases t.len() - p.0, line_len_of(t, p.0) - p.1,
{
    if !blank_or_none(t, p, big) {
        p
    } else {
        match step_fwd_spec(t, p) {
            Some(np) => fwd_to_word(t, np, big),
            None => p,
        }
    }
}

/// Forwards from `p` along its own line while the class stays `target`.
pub open spec fn run_fwd(t: Seq<Seq<char>>, p: Pos, target: Option<Class>, big: bool) -> Pos
    decreases t.len() - p.0, line_len_of(t, p.0) - p.1,
{
    match step_fwd_spec(t, p) {
        Some(np) => if np.0 == p.0 && class_at(t, np, big) == target {
            run_fwd(t, np, target, big)
        } else {
            p
        },
        None => p,
    }
}

pub open spec fn word_end_spec(t: Seq<Seq<char>>, from: Pos, big: bool) -> Pos {
    match step_fwd_spec(t, from) {
        None => from,
        Some(p0) => {
            let q = fwd_to_word(t, p0, big);
            if blank_or_none(t, q, big) {
                q
            } else {
                run_fwd(t, q, class_at(t, q, big), big)
            }
        },
    }
}

/// First index `>= i` of `line` holding `ch`.
pub open spec fn index_from(line: Seq<char>, ch: char, i: int) -> Option<int>
    decreases line.len() - i,
{
    if i < 0 || i >= line.len() {
        None
    } else if line[i] == ch {
        Some(i)
    } else {
        index_from(line, ch, i + 1)
    }
}

/// Last index `< end` of `line` holding `ch`.
pub open spec fn index_before(line: Seq<char>, ch: char, end: int) -> Option<int>
    decreases end,
{
    if end <= 0 {
        None
    } else if end - 1 < line.len() && line[end - 1] == ch {
        Some(end - 1)
    } else {
        index_before(line, ch, end - 1)
    }
}

/// The position at `col` on `row`.
pub open spec fn at_col(row: usize, col: int) -> Option<Pos> {
    Some((row, col as usize))
}

/// `f`, `t`, `F`, `T`: the next (or previous) occurrence of `ch` on the
/// cursor's line, or the column just before (after) it for `t` (`T`).
pub open spec fn find_in_line_spec(
    t: Seq<Seq<char>>,
    from: Pos,
    ch: char,
    forward: bool,
    till: bool,
) -> Option<Pos> {
    let line = line_of(t, from.0 as int);
    if forward {
        let start = from.1 + 1 + if till { 1int } else { 0int };
        match index_from(line, ch, start) {
            Some(idx) => at_col(from.0, if till { idx - 1 } else { idx }),
            None => None,
        }
    } else {
        match index_before(line, ch, from.1 as int) {
            Some(idx) => at_col(from.0, if till { idx + 1 } else { idx }),
            None => None,
        }
    }
}

/// First empty line at or after `row`.
pub open spec fn empty_row_from(t: Seq<Seq<char>>, row: int) -> Option<int>
    decreases t.len() - row,
{
    if row < 0 || row >= t.len() {
        None
    } else if t[row].len() == 0 {
        Some(row)
    } else {
        empty_row_from(t, row + 1)
    }
}

/// Last empty line strictly before `row` (rows past the end count as empty).
pub open spec fn empty_row_before(t: Seq<Seq<char>>, row: int) -> Option<int>
    decreases row,
{
    if row <= 0 {
        None
    } else if line_of(t, row - 1).len() == 0 {
        Some(row - 1)
    } else {
        empty_row_before(t, row - 1)
    }
}

pub open spec fn last_col(len: nat) -> usize {
    if len > 0 {
        (len - 1) as usize
    } else {
        0usize
    }
}

/// `}`: the next empty line, or the last character of the text.
pub open spec fn para_fwd_spec(t: Seq<Seq<char>>, from: Pos) -> Pos {
    match empty_row_from(t, from.0 + 1) {
        Some(r) => (r as usize, 0usize),
        None => ((t.len() - 1) as usize, last_col(t[t.len() - 1].len())),
    }
}

/// `{`: the previous empty line, or the start of the text.
pub open spec fn para_back_spec(t: Seq<Seq<char>>, from: Pos) -> Pos {
    match empty_row_before(t, from.0 as int) {
        Some(r) => (r as usize, 0usize),
        None => (0usize, 0usize),
    }
}

/// Whether `pat` occurs in `line` starting at column `col`.
pub open spec fn matches_at(line: Seq<char>, pat: Seq<char>, col: int) -> bool {
    0 <= col && col + pat.len() <= line.len() && line.subrange(col, col + pat.len()) == pat
}

/// First column in `[start, line.len())` where `pat` occurs.
pub open spec fn match_from(line: Seq<char>, pat: Seq<char>, start: int) -> Option<int>
    decreases line.len() - start,
{
    if start < 0 || start >= line.len() {
        None
    } else if matches_at(line, pat, start) {
        Some(start)
    } else {
        match_from(line, pat, start + 1)
    }
}

/// Last column in `[0, end)` where `pat` occurs.
pub open spec fn match_before(line: Seq<char>, pat: Seq<char>, end: int) -> Option<int>
    decreases end,
{
    if end <= 0 {
        None
    } else if matches_at(line, pat, end - 1) {
        Some(end - 1)
    } else {
        match_before(line, pat, end - 1)
    }
}

/// The row visited `i` steps down from `r0`, wrapping past the last line.
pub open spec fn row_down(r0: int, count: int, i: int) -> int {
    if r0 + i < count {
        r0 + i
    } else {
        r0 + i - count
    }
}

/// The row visited `i` steps up from `r0`, wrapping past the first line;
/// `count` steps bring it back to `r0`.
pub open spec fn row_up(r0: int, count: int, i: int) -> int {
    if i == count {
        r0
    } else if i <= r0 {
        r0 - i
    } else {
        r0 + count - i
    }
}

/// Forward search, from the `i`-th row visited on: the cursor's row after
/// the cursor first, then the following rows, wrapping around, and the
/// cursor's row once more from its start.
pub open spec fn search_fwd_from(t: Seq<Seq<char>>, from: Pos, pat: Seq<char>, i: int) -> Option<
    Pos,
>
    decreases t.len() + 1 - i,
{
    if i < 0 || i > t.len() {
        None
    } else {
        let row = row_down(from.0 as int, t.len() as int, i);
        let start = if i == 0 { from.1 + 1 } else { 0 };
        match match_from(t[row], pat, start) {
            Some(c) => at_col(row as usize, c),
            None => search_fwd_from(t, from, pat, i + 1),
        }
    }
}

/// Backward search, from the `i`-th row visited on: the cursor's row
/// before the cursor first, then the rows above, wrapping around, and the
/// cursor's row once more as a whole.
pub open spec fn search_back_from(t: Seq<Seq<char>>, from: Pos, pat: Seq<char>, i: int) -> Option<
    Pos,
>
    decreases t.len() + 1 - i,
{
    if i < 0 || i > t.len() {
        None
    } else {
        let row = row_up(from.0 as int, t.len() as int, i);
        let end = if i == 0 { from.1 as int } else { t[row].len() as int };
        match match_before(t[row], pat, end) {
            Some(c) => at_col(row as usize, c),
            None => search_back_from(t, from, pat, i + 1),
        }
    }
}

/// Where a search starts: rows past the end wrap round to the top.
pub open spec fn search_origin(t: Seq<Seq<char>>, from: Pos) -> Pos {
    ((from.0 as int % t.len() as int) as usize, from.1)
}

pub open spec fn search_spec(t: Seq<Seq<char>>, from: Pos, pat: Seq<char>, forward: bool) -> Option<
    Pos,
> {
    if pat.len() == 0 {
        None
    } else if forward {
        search_fwd_from(t, from, pat, 0)
    } else {
        search_back_from(t, from, pat, 0)
    }
}

/// Leftwards from `i` while the character before has class `cls`.
pub open spec fn run_left(line: Seq<char>, i: int, cls: Class, big: bool) -> int
    decreases i,
{
    if 0 < i && i - 1 < line.len() && class_of(line[i - 1], big) == cls {
        run_left(line, i - 1, cls, big)
    } else {
        i
    }
}

/// Rightwards from `i` while the character after has class `cls`.
pub open spec fn run_right(line: Seq<char>, i: int, cls: Class, big: bool) -> int
    decreases line.len() - i,
{
    if 0 <= i && i + 1 < line.len() && class_of(line[i + 1], big) == cls {
        run_right(line, i + 1, cls, big)
    } else {
        i
    }
}

/// The column the word commands look at: the cursor's, or the line's last.
pub open spec fn clamp_col(col: usize, len: nat) -> int {
    if col < len {
        col as int
    } else {
        len - 1
    }
}

/// `*`: the word under the cursor.
pub open spec fn word_under_spec(t: Seq<Seq<char>>, pos: Pos) -> Option<Seq<char>> {
    let line = line_of(t, pos.0 as int);
    if line.len() == 0 {
        None
    } else {
        let col = clamp_col(pos.1, line.len());
        if class_of(line[col], false) != Class::Word {
            None
        } else {
            let s = run_left(line, col, Class::Word, false);
            let e = run_right(line, col, Class::Word, false);
            Some(line.subrange(s, e + 1))
        }
    }
}

#[derive(Clone, Copy, Debug, PartialEq, Eq, Structural)]
pub enum TextObj {
    Word { inner: bool, big: bool },
    Quote { ch: char, inner: bool },
    Bracket { open: char, close: char, inner: bool },
    Para { inner: bool },
}

/// Columns of `line` at or after `i` holding `ch`, in order.
pub open spec fn quote_cols(line: Seq<char>, ch: char, i: int) -> Seq<int>
    decreases line.len() - i,
{
    if i < 0 || i >= line.len() {
        seq![]
    } else if line[i] == ch {
        seq![i] + quote_cols(line, ch, i + 1)
    } else {
        quote_cols(line, ch, i + 1)
    }
}

/// Quotes pair up in order (first with second, third with fourth, ...);
/// the first pair, from the `k`-th on, whose closing quote is not left of
/// `col`.
pub open spec fn quote_pair(q: Seq<int>, col: int, k: int) -> Option<(int, int)>
    decreases q.len() - 2 * k,
{
    if k < 0 || 2 * k + 1 >= q.len() {
        None
    } else if q[2 * k + 1] >= col {
        Some((q[2 * k], q[2 * k + 1]))
    } else {
        quote_pair(q, col, k + 1)
    }
}

/// Depth counter step for bracket matching, saturating at `i32::MAX`.
pub open spec fn depth_up(d: int) -> int {
    if d < i32::MAX {
        d + 1
    } else {
        d
    }
}

/// Backwards from `p` (the cursor is `pos`), the unmatched opening bracket:
/// every closing bracket passed (other than one under the cursor) must be
/// matched by an opening one first.
pub open spec fn open_bracket_back(
    t: Seq<Seq<char>>,
    p: Pos,
    pos: Pos,
    open: char,
    close: char,
    depth: int,
) -> Option<Pos>
    decreases p.0, p.1,
{
    let c = char_at_spec(t, p);
    if !(c == Some(close) && p != pos) && c == Some(open) && depth == 0 {
        Some(p)
    } else {
        let d = if c == Some(close) && p != pos {
            depth_up(depth)
        } else if c == Some(open) {
            depth - 1
        } else {
            depth
        };
        match step_back_spec(t, p) {
            Some(np) => open_bracket_back(t, np, pos, open, close, d),
            None => None,
        }
    }
}

/// Forwards from `p`, the closing bracket that matches the one at the start.
pub open spec fn close_bracket_fwd(t: Seq<Seq<char>>, p: Pos, open: char, close: char, depth: int) -> Option<
    Pos,
>
    decreases t.len() - p.0, line_len_of(t, p.0) - p.1,
{
    match step_fwd_spec(t, p) {
        None => None,
        Some(np) => {
            let c = char_at_spec(t, np);
            if c == Some(open) {
                close_bracket_fwd(t, np, open, close, depth_up(depth))
            } else if c == Some(close) {
                if depth == 0 {
                    Some(np)
                } else {
                    close_bracket_fwd(t, np, open, close, depth - 1)
                }
            } else {
                close_bracket_fwd(t, np, open, close, depth)
            }
        },
    }
}

pub open spec fn bracket_pair_spec(t: Seq<Seq<char>>, pos: Pos, open: char, close: char) -> Option<
    (Pos, Pos),
> {
    match open_bracket_back(t, pos, pos, open, close, 0) {
        None => None,
        Some(start) => match close_bracket_fwd(t, start, open, close, 0) {
            None => None,
            Some(end) => Some((start, end)),
        },
    }
}

/// Topmost row of the block of non-empty lines above `row`.
pub open spec fn para_top(t: Seq<Seq<char>>, row: int) -> int
    decreases row,
{
    if 0 < row && row - 1 < t.len() && t[row - 1].len() > 0 {
        para_top(t, row - 1)
    } else {
        row
    }
}

/// Bottom row reached going down from `row` while the next line's
/// emptiness is `empty`.
pub open spec fn para_down(t: Seq<Seq<char>>, row: int, empty: bool) -> int
    decreases t.len() - row,
{
    if 0 <= row && row + 1 < t.len() && (t[row + 1].len() == 0) == empty {
        para_down(t, row + 1, empty)
    } else {
        row
    }
}

/// The inclusive range a text object covers, and whether it is line-wise.
pub open spec fn textobj_spec(t: Seq<Seq<char>>, pos: Pos, obj: TextObj) -> Option<(Pos, Pos, bool)> {
    let row = pos.0;
    let line = line_of(t, row as int);
    match obj {
        TextObj::Word { inner, big } => {
            if line.len() == 0 {
                None
            } else {
                let col = clamp_col(pos.1, line.len());
                let target = class_of(line[col], big);
                let start = run_left(line, col, target, big);
                let end = run_right(line, col, target, big);
                if inner {
                    Some(((row, start as usize), (row, end as usize), false))
                } else {
                    let e = run_right(line, end, Class::Blank, big);
                    if e > end {
                        Some(((row, start as usize), (row, e as usize), false))
                    } else {
                        let s = run_left(line, start, Class::Blank, big);
                        Some(((row, s as usize), (row, end as usize), false))
                    }
                }
            }
        },
        TextObj::Quote { ch, inner } => {
            match quote_pair(quote_cols(line, ch, 0), pos.1 as int, 0) {
                None => None,
                Some((a, b)) => if inner {
                    if b == a + 1 {
                        None
                    } else {
                        Some(((row, (a + 1) as usize), (row, (b - 1) as usize), false))
                    }
                } else {
                    Some(((row, a as usize), (row, b as usize), false))
                },
            }
        },
        TextObj::Bracket { open, close, inner } => {
            match bracket_pair_spec(t, pos, open, close) {
                None => None,
                Some((start, end)) => if inner {
                    match (step_fwd_spec(t, start), step_back_spec(t, end)) {
                        (Some(s), Some(e)) => if pos_le(s, e) {
                            Some((s, e, false))
                        } else {
                            None
                        },
                        _ => None,
                    }
                } else {
                    Some((start, end, false))
                },
            }
        },
        TextObj::Para { inner } => {
            let top = para_top(t, row as int);
            let bot0 = para_down(t, row as int, false);
            let bot = if inner {
                bot0
            } else {
                para_down(t, bot0, true)
            };
            Some(((top as usize, 0usize), (bot as usize, last_col(line_of(t, bot).len())), true))
        },
    }
}

// ---------- executable motions ----------

fn char_at(buf: &Buffer, p: Pos) -> (r: Option<char>)
    ensures
        r == char_at_spec(buf.text(), p),
{
    buf.char_at(p.0, p.1)
}

fn class_at_exec(buf: &Buffer, p: Pos, big: bool) -> (r: Option<Class>)
    ensures
        r == class_at(buf.text(), p, big),
{
    match buf.char_at(p.0, p.1) {
        Some(c) => Some(class(c, big)),
        None => None,
    }
}

/// The next position; the end of a line counts as a virtual line break.
fn step_fwd(buf: &Buffer, p: Pos) -> (r: Option<Pos>)
    ensures
        r == step_fwd_spec(buf.text(), p),
        r matches Some(np) ==> pos_in(buf.text(), np),
{
    let (row, col) = p;
    let len = buf.line_len(row);
    let count = buf.line_count();
    if len > 0 && col < len - 1 {
        Some((row, col + 1))
    } else if count > 0 && row < count - 1 {
        Some((row + 1, 0))
    } else {
        None
    }
}

fn step_back(buf: &Buffer, p: Pos) -> (r: Option<Pos>)
    ensures
        r == step_back_spec(buf.text(), p),
        pos_in(buf.text(), p) ==> (r matches Some(np) ==> pos_in(buf.text(), np)),
{
    let (row, col) = p;
    if col > 0 {
        Some((row, col - 1))
    } else if row > 0 {
        let prev = row - 1;
        Some((prev, buf.line_len(prev).saturating_sub(1)))
    } else {
        None
    }
}

proof fn lemma_step_back_in(t: Seq<Seq<char>>, p: Pos)
    requires
        pos_in(t, p),
    ensures
        step_back_spec(t, p) matches Some(np) ==> pos_in(t, np),
{
}

proof fn lemma_skip_to_word_in(t: Seq<Seq<char>>, p: Pos, from: Pos, big: bool)
    requires
        pos_in(t, p),
    ensures
        pos_in(t, skip_to_word(t, p, from, big)),
    decreases t.len() - p.0, line_len_of(t, p.0) - p.1,
{
    if !word_stop(t, p, from, big) {
        if let Some(np) = step_fwd_spec(t, p) {
            lemma_skip_to_word_in(t, np, from, big);
        }
    }
}

proof fn lemma_leave_class_in(t: Seq<Seq<char>>, p: Pos, sc: Class, big: bool)
    requires
        pos_in(t, p),
    ensures
        pos_in(t, leave_class(t, p, sc, big)),
    decreases t.len() - p.0, line_len_of(t, p.0) - p.1,
{
    if let Some(np) = step_fwd_spec(t, p) {
        if class_at(t, np, big) == Some(sc) {
            lemma_leave_class_in(t, np, sc, big);
        }
    }
}

/// A position the word motions stand on: a character, or the start of an
/// empty line.
pub open spec fn stop_pos(t: Seq<Seq<char>>, p: Pos) -> bool {
    p.0 < t.len() && (p.1 < t[p.0 as int].len() || (t[p.0 as int].len() == 0 && p.1 == 0))
}

/// Strictly before, in reading order.
pub open spec fn pos_lt(a: Pos, b: Pos) -> bool {
    pos_le(a, b) && a != b
}

/// Where a word begins: an empty line, or a character that is not blank and
/// whose class differs from that of the position before it in reading
/// order (a line break alone does not part two words of one class).
pub open spec fn word_begins(t: Seq<Seq<char>>, q: Pos, big: bool) -> bool {
    &&& stop_pos(t, q)
    &&& (t[q.0 as int].len() == 0 || (class_at(t, q, big) != Some(Class::Blank) && match step_back_spec(t, q) {
        Some(b) => class_at(t, b, big) != class_at(t, q, big),
        None => true,
    }))
}

/// Stepping forwards goes to the next position the motions stand on, and
/// stepping back from there returns; with no step, `p` is the last one.
proof fn lemma_step_fwd_next(t: Seq<Seq<char>>, p: Pos)
    requires
        stop_pos(t, p),
        lines_fit(t),
    ensures
        step_fwd_spec(t, p) matches Some(np) ==> {
            &&& stop_pos(t, np)
            &&& pos_lt(p, np)
            &&& step_back_spec(t, np) == Some(p)
            &&& forall|q: Pos| stop_pos(t, q) && pos_lt(p, q) ==> pos_le(np, q)
        },
        step_fwd_spec(t, p) is None ==> forall|q: Pos| stop_pos(t, q) ==> pos_le(q, p),
{
    assert(t[p.0 as int].len() <= usize::MAX);
    if let Some(np) = step_fwd_spec(t, p) {
        if np.0 != p.0 {
            assert(t[np.0 as int].len() <= usize::MAX);
        }
    }
}

/// Stepping back from a position the motions stand on goes to the one
/// before it.
proof fn lemma_step_back_prev(t: Seq<Seq<char>>, x: Pos)
    requires
        stop_pos(t, x),
        lines_fit(t),
    ensures
        step_back_spec(t, x) matches Some(y) ==> (stop_pos(t, y) && pos_lt(y, x) && forall|q: Pos|
            stop_pos(t, q) && pos_lt(q, x) ==> pos_le(q, y)),
        step_back_spec(t, x) is None ==> forall|q: Pos| stop_pos(t, q) ==> pos_le(x, q),
{
    if x.1 == 0 && x.0 > 0 {
        assert(t[x.0 - 1].len() <= usize::MAX);
    }
}

/// Leaving a run of class `sc`: every position passed has that class; the
/// run ends at a position of another class, or at the last position.
proof fn lemma_leave_class(t: Seq<Seq<char>>, p: Pos, sc: Class, big: bool)
    requires
        stop_pos(t, p),
        lines_fit(t),
        class_at(t, p, big) == Some(sc),
    ensures
        stop_pos(t, leave_class(t, p, sc, big)),
        pos_le(p, leave_class(t, p, sc, big)),
        forall|x: Pos|
            stop_pos(t, x) && pos_le(p, x) && pos_lt(x, leave_class(t, p, sc, big)) ==> class_at(t, x, big) == Some(sc),
        class_at(t, leave_class(t, p, sc, big), big) == Some(sc) ==> step_fwd_spec(t, leave_class(t, p, sc, big)) is None,
        class_at(t, leave_class(t, p, sc, big), big) != Some(sc) ==> (step_back_spec(t, leave_class(t, p, sc, big))
            matches Some(b) && class_at(t, b, big) == Some(sc)),
    decreases t.len() - p.0, line_len_of(t, p.0) - p.1,
{
    lemma_step_fwd_next(t, p);
    if let Some(np) = step_fwd_spec(t, p) {
        if class_at(t, np, big) == Some(sc) {
            lemma_leave_class(t, np, sc, big);
        }
    }
}

/// Skipping to where `w` stops: every position passed is no such stop.
proof fn lemma_skip_to_word(t: Seq<Seq<char>>, p: Pos, from: Pos, big: bool)
    requires
        stop_pos(t, p),
        lines_fit(t),
    ensures
        stop_pos(t, skip_to_word(t, p, from, big)),
        pos_le(p, skip_to_word(t, p, from, big)),
        forall|x: Pos|
            stop_pos(t, x) && pos_le(p, x) && pos_lt(x, skip_to_word(t, p, from, big)) ==> !word_stop(t, x, from, big),
        word_stop(t, skip_to_word(t, p, from, big), from, big) || step_fwd_spec(t, skip_to_word(t, p, from, big)) is None,
    decreases t.len() - p.0, line_len_of(t, p.0) - p.1,
{
    lemma_step_fwd_next(t, p);
    if !word_stop(t, p, from, big) {
        if let Some(np) = step_fwd_spec(t, p) {
            lemma_skip_to_word(t, np, from, big);
        }
    }
}

/// `w` goes to the first position after `from` where a word begins, or,
/// when no word begins after it, to the last position of the text.
pub proof fn lemma_next_word_start_first(t: Seq<Seq<char>>, from: Pos, big: bool)
    requires
        stop_pos(t, from),
        lines_fit(t),
    ensures
        stop_pos(t, next_word_start_spec(t, from, big)),
        pos_le(from, next_word_start_spec(t, from, big)),
        forall|q: Pos|
            stop_pos(t, q) && pos_lt(from, q) && pos_lt(q, next_word_start_spec(t, from, big)) ==> !word_begins(t, q, big),
        next_word_start_spec(t, from, big) == from <==> step_fwd_spec(t, from) is None,
        next_word_start_spec(t, from, big) != from ==> word_begins(t, next_word_start_spec(t, from, big), big)
            || step_fwd_spec(t, next_word_start_spec(t, from, big)) is None,
{
    let r = next_word_start_spec(t, from, big);
    lemma_step_fwd_next(t, from);
    let p1 = match class_at(t, from, big) {
        Some(sc) => if sc != Class::Blank {
            leave_class(t, from, sc, big)
        } else {
            from
        },
        None => from,
    };
    let sc0 = class_at(t, from, big);
    if let Some(sc) = sc0 {
        if sc != Class::Blank {
            lemma_leave_class(t, from, sc, big);
        }
    }
    lemma_skip_to_word(t, p1, from, big);
    assert forall|q: Pos| stop_pos(t, q) && pos_lt(from, q) && pos_lt(q, r) implies !word_begins(t, q, big) by {
        lemma_step_back_prev(t, q);
        if pos_lt(q, p1) {
            let y = step_back_spec(t, q)->0;
            assert(pos_le(from, y));
        } else if word_begins(t, q, big) {
            assert(!word_stop(t, q, from, big));
        }
    }
    lemma_step_back_prev(t, r);
    if r != from && !(step_fwd_spec(t, r) is None) {
        assert(word_stop(t, r, from, big));
        if t[r.0 as int].len() != 0 {
            if r != p1 {
                let y = step_back_spec(t, r)->0;
                if y != from {
                    assert(pos_le(p1, y));
                    assert(!word_stop(t, y, from, big));
                }
            }
        }
    }
}

/// Where a word ends: a character that is not blank and whose next
/// position in reading order is on another line, of another class, or
/// missing.
pub open spec fn word_ends(t: Seq<Seq<char>>, q: Pos, big: bool) -> bool {
    &&& stop_pos(t, q)
    &&& !blank_or_none(t, q, big)
    &&& match step_fwd_spec(t, q) {
        Some(n) => n.0 != q.0 || class_at(t, n, big) != class_at(t, q, big),
        None => true,
    }
}

proof fn lemma_fwd_to_word(t: Seq<Seq<char>>, p: Pos, big: bool)
    requires
        stop_pos(t, p),
        lines_fit(t),
    ensures
        stop_pos(t, fwd_to_word(t, p, big)),
        pos_le(p, fwd_to_word(t, p, big)),
        forall|x: Pos| stop_pos(t, x) && pos_le(p, x) && pos_lt(x, fwd_to_word(t, p, big)) ==> blank_or_none(t, x, big),
        !blank_or_none(t, fwd_to_word(t, p, big), big) || step_fwd_spec(t, fwd_to_word(t, p, big)) is None,
    decreases t.len() - p.0, line_len_of(t, p.0) - p.1,
{
    lemma_step_fwd_next(t, p);
    if blank_or_none(t, p, big) {
        if let Some(np) = step_fwd_spec(t, p) {
            lemma_fwd_to_word(t, np, big);
        }
    }
}

proof fn lemma_run_fwd(t: Seq<Seq<char>>, p: Pos, target: Option<Class>, big: bool)
    requires
        stop_pos(t, p),
        lines_fit(t),
        class_at(t, p, big) == target,
    ensures
        stop_pos(t, run_fwd(t, p, target, big)),
        pos_le(p, run_fwd(t, p, target, big)),
        run_fwd(t, p, target, big).0 == p.0,
        class_at(t, run_fwd(t, p, target, big), big) == target,
        forall|x: Pos|
            stop_pos(t, x) && pos_le(p, x) && pos_lt(x, run_fwd(t, p, target, big)) ==> (step_fwd_spec(t, x) matches Some(
                n,
            ) && n.0 == x.0 && class_at(t, n, big) == target && class_at(t, x, big) == target),
        match step_fwd_spec(t, run_fwd(t, p, target, big)) {
            Some(n) => n.0 != p.0 || class_at(t, n, big) != target,
            None => true,
        },
    decreases t.len() - p.0, line_len_of(t, p.0) - p.1,
{
    lemma_step_fwd_next(t, p);
    if let Some(np) = step_fwd_spec(t, p) {
        if np.0 == p.0 && class_at(t, np, big) == target {
            lemma_run_fwd(t, np, target, big);
            let q = run_fwd(t, np, target, big);
            assert forall|x: Pos|
                stop_pos(t, x) && pos_le(p, x) && pos_lt(x, q) implies (step_fwd_spec(t, x) matches Some(n) && n.0
                == x.0 && class_at(t, n, big) == target && class_at(t, x, big) == target) by {
                if x != p {
                    assert(pos_le(np, x));
                }
            }
        }
    }
}

/// `e` goes to the first position after `from` where a word ends, or, when
/// no word ends after it, to the last position of the text.
pub proof fn lemma_word_end_first(t: Seq<Seq<char>>, from: Pos, big: bool)
    requires
        stop_pos(t, from),
        lines_fit(t),
    ensures
        stop_pos(t, word_end_spec(t, from, big)),
        pos_le(from, word_end_spec(t, from, big)),
        forall|q: Pos|
            stop_pos(t, q) && pos_lt(from, q) && pos_lt(q, word_end_spec(t, from, big)) ==> !word_ends(t, q, big),
        word_end_spec(t, from, big) == from <==> step_fwd_spec(t, from) is None,
        word_end_spec(t, from, big) != from ==> word_ends(t, word_end_spec(t, from, big), big) || step_fwd_spec(
            t,
            word_end_spec(t, from, big),
        ) is None,
{
    lemma_step_fwd_next(t, from);
    if let Some(p0) = step_fwd_spec(t, from) {
        lemma_fwd_to_word(t, p0, big);
        let q = fwd_to_word(t, p0, big);
        if !blank_or_none(t, q, big) {
            lemma_run_fwd(t, q, class_at(t, q, big), big);
            let r = run_fwd(t, q, class_at(t, q, big), big);
            lemma_step_fwd_next(t, r);
            assert forall|x: Pos| stop_pos(t, x) && pos_lt(from, x) && pos_lt(x, r) implies !word_ends(t, x, big) by {
                if pos_lt(x, q) {
                    assert(pos_le(p0, x));
                }
            }
        } else {
            assert forall|x: Pos| stop_pos(t, x) && pos_lt(from, x) && pos_lt(x, q) implies !word_ends(t, x, big) by {
                assert(pos_le(p0, x));
            }
        }
    }
}

/// Where `b` finds a word beginning: an empty line, or a character that is
/// not blank and starts its line or follows a character of another class
/// on it.
pub open spec fn word_begins_in_line(t: Seq<Seq<char>>, q: Pos, big: bool) -> bool {
    &&& stop_pos(t, q)
    &&& (t[q.0 as int].len() == 0 || (!blank_or_none(t, q, big) && (q.1 == 0 || class_at(
        t,
        (q.0, (q.1 - 1) as usize),
        big,
    ) != class_at(t, q, big))))
}

proof fn lemma_back_to_word(t: Seq<Seq<char>>, p: Pos, big: bool)
    requires
        stop_pos(t, p),
        lines_fit(t),
    ensures
        stop_pos(t, back_to_word(t, p, big)),
        pos_le(back_to_word(t, p, big), p),
        forall|x: Pos|
            stop_pos(t, x) && pos_lt(back_to_word(t, p, big), x) && pos_le(x, p) ==> blank_or_none(t, x, big)
                && t[x.0 as int].len() != 0,
        !blank_or_none(t, back_to_word(t, p, big), big) || t[back_to_word(t, p, big).0 as int].len() == 0
            || step_back_spec(t, back_to_word(t, p, big)) is None,
    decreases p.0, p.1,
{
    lemma_step_back_prev(t, p);
    if blank_or_none(t, p, big) && t[p.0 as int].len() != 0 {
        if let Some(np) = step_back_spec(t, p) {
            lemma_back_to_word(t, np, big);
        }
    }
}

proof fn lemma_run_back(t: Seq<Seq<char>>, p: Pos, target: Option<Class>, big: bool)
    requires
        stop_pos(t, p),
        lines_fit(t),
        class_at(t, p, big) == target,
        target is Some,
    ensures
        stop_pos(t, run_back(t, p, target, big)),
        pos_le(run_back(t, p, target, big), p),
        run_back(t, p, target, big).0 == p.0,
        class_at(t, run_back(t, p, target, big), big) == target,
        forall|x: Pos|
            stop_pos(t, x) && pos_lt(run_back(t, p, target, big), x) && pos_le(x, p) ==> x.0 == p.0 && x.1 > 0
                && class_at(t, (x.0, (x.1 - 1) as usize), big) == target && class_at(t, x, big) == target,
        match step_back_spec(t, run_back(t, p, target, big)) {
            Some(n) => n.0 != p.0 || class_at(t, n, big) != target,
            None => true,
        },
    decreases p.0, p.1,
{
    lemma_step_back_prev(t, p);
    if let Some(np) = step_back_spec(t, p) {
        if class_at(t, np, big) == target && np.0 == p.0 {
            lemma_run_back(t, np, target, big);
            let r = run_back(t, np, target, big);
            assert forall|x: Pos|
                stop_pos(t, x) && pos_lt(r, x) && pos_le(x, p) implies x.0 == p.0 && x.1 > 0 && class_at(
                t,
                (x.0, (x.1 - 1) as usize),
                big,
            ) == target && class_at(t, x, big) == target by {
                if x != p {
                    assert(pos_le(x, np));
                }
            }
        }
    }
}

/// `b` goes to the last position before `from` where a word begins on its
/// line, or, when none does, to the start of the text.
pub proof fn lemma_prev_word_start_last(t: Seq<Seq<char>>, from: Pos, big: bool)
    requires
        stop_pos(t, from),
        lines_fit(t),
    ensures
        stop_pos(t, prev_word_start_spec(t, from, big)),
        pos_le(prev_word_start_spec(t, from, big), from),
        forall|q: Pos|
            stop_pos(t, q) && pos_lt(prev_word_start_spec(t, from, big), q) && pos_lt(q, from) ==> !word_begins_in_line(
                t,
                q,
                big,
            ),
        prev_word_start_spec(t, from, big) == from <==> step_back_spec(t, from) is None,
        prev_word_start_spec(t, from, big) != from ==> word_begins_in_line(t, prev_word_start_spec(t, from, big), big)
            || step_back_spec(t, prev_word_start_spec(t, from, big)) is None,
{
    lemma_step_back_prev(t, from);
    if let Some(p0) = step_back_spec(t, from) {
        lemma_back_to_word(t, p0, big);
        let q = back_to_word(t, p0, big);
        if !blank_or_none(t, q, big) {
            lemma_run_back(t, q, class_at(t, q, big), big);
            let r = run_back(t, q, class_at(t, q, big), big);
            lemma_step_back_prev(t, r);
            assert forall|x: Pos| stop_pos(t, x) && pos_lt(r, x) && pos_lt(x, from) implies !word_begins_in_line(
                t,
                x,
                big,
            ) by {
                if pos_lt(q, x) {
                    assert(pos_le(x, p0));
                }
            }
        } else {
            lemma_step_back_prev(t, q);
            assert forall|x: Pos| stop_pos(t, x) && pos_lt(q, x) && pos_lt(x, from) implies !word_begins_in_line(
                t,
                x,
                big,
            ) by {
                assert(pos_le(x, p0));
            }
        }
    }
}

/// `w` / `W`: the start of the next word.
pub fn next_word_start(buf: &Buffer, from: Pos, big: bool) -> (r: Pos)
    ensures
        r == next_word_start_spec(buf.text(), from, big),
        pos_in(buf.text(), from) ==> pos_in(buf.text(), r),
        stop_pos(buf.text(), from) ==> {
            &&& forall|q: Pos|
                stop_pos(buf.text(), q) && pos_lt(from, q) && pos_lt(q, r) ==> !word_begins(buf.text(), q, big)
            &&& (r == from <==> step_fwd_spec(buf.text(), from) is None)
            &&& r != from ==> word_begins(buf.text(), r, big) || step_fwd_spec(buf.text(), r) is None
        },
{
    let ghost t = buf.text();
    proof {
        if stop_pos(t, from) {
            buf.lemma_fits();
            lemma_next_word_start_first(t, from, big);
        }
    }
    let mut p = from;
    let start_class = class_at_exec(buf, p, big);
    if let Some(sc) = start_class {
        if sc != Class::Blank {
            loop
                invariant_except_break
                    leave_class(t, from, sc, big) == leave_class(t, p, sc, big),
                    t == buf.text(),
                ensures
                    p == leave_class(t, from, sc, big),
                decreases t.len() - p.0, line_len_of(t, p.0) - p.1,
            {
                match step_fwd(buf, p) {
                    Some(np) => {
                        match class_at_exec(buf, np, big) {
                            Some(c) => {
                                if c == sc {
                                    p = np;
                                } else {
                                    p = np;
                                    break ;
                                }
                            },
                            None => {
                                p = np;
                                break ;
                            },
                        }
                    },
                    None => {
                        break ;
                    },
                }
            }
        }
    }
    let ghost p1 = p;
    assert(p1 == match class_at(t, from, big) {
        Some(sc) => if sc != Class::Blank {
            leave_class(t, from, sc, big)
        } else {
            from
        },
        None => from,
    });
    proof {
        if pos_in(t, from) {
            if let Some(sc) = class_at(t, from, big) {
                lemma_leave_class_in(t, from, sc, big);
            }
            lemma_skip_to_word_in(t, p1, from, big);
        }
    }
    loop
        invariant_except_break
            skip_to_word(t, p1, from, big) == skip_to_word(t, p, from, big),
            t == buf.text(),
        ensures
            p == skip_to_word(t, p1, from, big),
        decreases t.len() - p.0, line_len_of(t, p.0) - p.1,
    {
        match char_at(buf, p) {
            Some(c) => {
                if class(c, big) != Class::Blank {
                    break ;
                }
            },
            None => {
                if buf.line_len(p.0) == 0 && (p.0 != from.0 || p.1 != from.1) {
                    break ;
                }
            },
        }
        match step_fwd(buf, p) {
            Some(np) => p = np,
            None => break ,
        }
    }
    p
}

proof fn lemma_back_to_word_in(t: Seq<Seq<char>>, p: Pos, big: bool)
    requires
        pos_in(t, p),
    ensures
        pos_in(t, back_to_word(t, p, big)),
    decreases p.0, p.1,
{
    if !(!blank_or_none(t, p, big) || line_len_of(t, p.0) == 0) {
        lemma_step_back_in(t, p);
        if let Some(np) = step_back_spec(t, p) {
            lemma_back_to_word_in(t, np, big);
        }
    }
}

proof fn lemma_run_back_in(t: Seq<Seq<char>>, p: Pos, target: Option<Class>, big: bool)
    requires
        pos_in(t, p),
    ensures
        pos_in(t, run_back(t, p, target, big)),
    decreases p.0, p.1,
{
    lemma_step_back_in(t, p);
    if let Some(np) = step_back_spec(t, p) {
        if class_at(t, np, big) == target && np.0 == p.0 {
            lemma_run_back_in(t, np, target, big);
        }
    }
}

/// `b` / `B`: the start of the previous word.
pub fn prev_word_start(buf: &Buffer, from: Pos, big: bool) -> (r: Pos)
    ensures
        r == prev_word_start_spec(buf.text(), from, big),
        pos_in(buf.text(), from) ==> pos_in(buf.text(), r),
        stop_pos(buf.text(), from) ==> {
            &&& forall|q: Pos|
                stop_pos(buf.text(), q) && pos_lt(r, q) && pos_lt(q, from) ==> !word_begins_in_line(buf.text(), q, big)
            &&& (r == from <==> step_back_spec(buf.text(), from) is None)
            &&& r != from ==> word_begins_in_line(buf.text(), r, big) || step_back_spec(buf.text(), r) is None
        },
{
    let ghost t = buf.text();
    proof {
        if stop_pos(t, from) {
            buf.lemma_fits();
            lemma_prev_word_start_last(t, from, big);
        }
    }
    let mut p = match step_back(buf, from) {
        Some(p) => p,
        None => return from,
    };
    let ghost p0 = p;
    proof {
        if pos_in(t, from) {
            lemma_back_to_word_in(t, p0, big);
        }
    }
    loop
        invariant_except_break
            back_to_word(t, p0, big) == back_to_word(t, p, big),
            t == buf.text(),
        ensures
            p == back_to_word(t, p0, big),
        decreases p.0, p.1,
    {
        let c = class_at_exec(buf, p, big);
        let blank = match c {
            Some(k) => k == Class::Blank,
            None => true,
        };
        if !blank {
            break ;
        }
        if buf.line_len(p.0) == 0 {
            break ;
        }
        match step_back(buf, p) {
            Some(np) => p = np,
            None => break ,
        }
    }
    let ghost q = p;
    let target = class_at_exec(buf, p, big);
    let blank = match target {
        Some(k) => k == Class::Blank,
        None => true,
    };
    if blank {
        return p;
    }
    proof {
        if pos_in(t, from) {
            lemma_run_back_in(t, q, target, big);
        }
    }
    loop
        invariant_except_break
            run_back(t, q, target, big) == run_back(t, p, target, big),
            t == buf.text(),
        ensures
            p == run_back(t, q, target, big),
        decreases p.0, p.1,
    {
        match step_back(buf, p) {
            Some(np) => {
                if class_at_exec(buf, np, big) == target && np.0 == p.0 {
                    p = np;
                } else {
                    break ;
                }
            },
            None => break ,
        }
    }
    p
}

proof fn lemma_fwd_to_word_in(t: Seq<Seq<char>>, p: Pos, big: bool)
    requires
        pos_in(t, p),
    ensures
        pos_in(t, fwd_to_word(t, p, big)),
    decreases t.len() - p.0, line_len_of(t, p.0) - p.1,
{
    if blank_or_none(t, p, big) {
        if let Some(np) = step_fwd_spec(t, p) {
            lemma_fwd_to_word_in(t, np, big);
        }
    }
}

proof fn lemma_run_fwd_in(t: Seq<Seq<char>>, p: Pos, target: Option<Class>, big: bool)
    requires
        pos_in(t, p),
    ensures
        pos_in(t, run_fwd(t, p, target, big)),
    decreases t.len() - p.0, line_len_of(t, p.0) - p.1,
{
    if let Some(np) = step_fwd_spec(t, p) {
        if np.0 == p.0 && class_at(t, np, big) == target {
            lemma_run_fwd_in(t, np, target, big);
        }
    }
}

/// `e` / `E`: the end of the current or next word.
pub fn word_end(buf: &Buffer, from: Pos, big: bool) -> (r: Pos)
    ensures
        r == word_end_spec(buf.text(), from, big),
        pos_in(buf.text(), from) ==> pos_in(buf.text(), r),
        stop_pos(buf.text(), from) ==> {
            &&& forall|q: Pos| stop_pos(buf.text(), q) && pos_lt(from, q) && pos_lt(q, r) ==> !word_ends(buf.text(), q, big)
            &&& (r == from <==> step_fwd_spec(buf.text(), from) is None)
            &&& r != from ==> word_ends(buf.text(), r, big) || step_fwd_spec(buf.text(), r) is None
        },
{
    let ghost t = buf.text();
    proof {
        if stop_pos(t, from) {
            buf.lemma_fits();
            lemma_word_end_first(t, from, big);
        }
    }
    let mut p = match step_fwd(buf, from) {
        Some(p) => p,
        None => return from,
    };
    let ghost p0 = p;
    proof {
        lemma_fwd_to_word_in(t, p0, big);
    }
    loop
        invariant_except_break
            fwd_to_word(t, p0, big) == fwd_to_word(t, p, big),
            t == buf.text(),
        ensures
            p == fwd_to_word(t, p0, big),
        decreases t.len() - p.0, line_len_of(t, p.0) - p.1,
    {
        let c = class_at_exec(buf, p, big);
        let blank = match c {
            Some(k) => k == Class::Blank,
            None => true,
        };
        if !blank {
            break ;
        }
        match step_fwd(buf, p) {
            Some(np) => p = np,
            None => break ,
        }
    }
    let ghost q = p;
    let target = class_at_exec(buf, p, big);
    let blank = match target {
        Some(k) => k == Class::Blank,
        None => true,
    };
    if blank {
        return p;
    }
    proof {
        lemma_run_fwd_in(t, q, target, big);
    }
    loop
        invariant_except_break
            run_fwd(t, q, target, big) == run_fwd(t, p, target, big),
            t == buf.text(),
        ensures
            p == run_fwd(t, q, target, big),
        decreases t.len() - p.0, line_len_of(t, p.0) - p.1,
    {
        match step_fwd(buf, p) {
            Some(np) => {
                if np.0 == p.0 && class_at_exec(buf, np, big) == target {
                    p = np;
                } else {
                    break ;
                }
            },
            None => break ,
        }
    }
    p
}

/// `f`, `t`, `F`, `T` on the cursor's line.
pub fn find_in_line(buf: &Buffer, from: Pos, ch: char, forward: bool, till: bool) -> (r: Option<Pos>)
    requires
        !forward ==> from.1 <= line_of(buf.text(), from.0 as int).len(),
    ensures
        r == find_in_line_spec(buf.text(), from, ch, forward, till),
        r matches Some(p) ==> p.0 == from.0 && p.1 <= line_of(buf.text(), from.0 as int).len(),
{
    let ghost t = buf.text();
    let (row, col) = from;
    let line = buf.line(row);
    let ghost l = line@;
    if forward {
        let extra: usize = if till { 1 } else { 0 };
        if col >= line.len() || line.len() - col - 1 < extra {
            proof {
                assert(index_from(l, ch, col + 1 + extra) is None);
            }
            return None;
        }
        let start = col + 1 + extra;
        let mut j = start;
        while j < line.len()
            invariant
                start <= j <= l.len(),
                line@ == l,
                start == col + 1 + extra,
                extra == (if till { 1usize } else { 0usize }),
                row == from.0,
                l == line_of(t, from.0 as int),
                col == from.1,
                t == buf.text(),
                forward,
                index_from(l, ch, start as int) == index_from(l, ch, j as int),
            decreases line.len() - j,
        {
            if line[j] == ch {
                proof {
                    assert(index_from(l, ch, j as int) == Some(j as int));
                }
                return Some((row, if till { j - 1 } else { j }));
            }
            j = j + 1;
        }
        None
    } else {
        let mut j = col;
        while j > 0
            invariant
                j <= col,
                col <= l.len(),
                line@ == l,
                row == from.0,
                col == from.1,
                l == line_of(t, from.0 as int),
                t == buf.text(),
                !forward,
                index_before(l, ch, col as int) == index_before(l, ch, j as int),
            decreases j,
        {
            if line[j - 1] == ch {
                let idx = j - 1;
                proof {
                    assert(index_before(l, ch, j as int) == Some(idx as int));
                }
                return Some((row, if till { idx + 1 } else { idx }));
            }
            j = j - 1;
        }
        None
    }
}

proof fn lemma_index_from_bounds(l: Seq<char>, ch: char, i: int)
    ensures
        index_from(l, ch, i) matches Some(j) ==> 0 <= i <= j < l.len() && l[j] == ch,
    decreases l.len() - i,
{
    if 0 <= i < l.len() && l[i] != ch {
        lemma_index_from_bounds(l, ch, i + 1);
    }
}

/// `}`: the next empty line, or the last character of the text.
pub fn para_fwd(buf: &Buffer, from: Pos) -> (r: Pos)
    requires
        buf.wf(),
    ensures
        r == para_fwd_spec(buf.text(), from),
        pos_in(buf.text(), r),
{
    let ghost t = buf.text();
    let count = buf.line_count();
    if from.0 >= count {
        return (count - 1, buf.line_len(count - 1).saturating_sub(1));
    }
    let mut row = from.0 + 1;
    while row < count
        invariant
            from.0 + 1 <= row <= count,
            count == t.len(),
            t == buf.text(),
            empty_row_from(t, from.0 + 1) == empty_row_from(t, row as int),
        decreases count - row,
    {
        if buf.line_len(row) == 0 {
            return (row, 0);
        }
        row = row + 1;
    }
    (count - 1, buf.line_len(count - 1).saturating_sub(1))
}

/// `{`: the previous empty line, or the start of the text.
pub fn para_back(buf: &Buffer, from: Pos) -> (r: Pos)
    requires
        buf.wf(),
    ensures
        r == para_back_spec(buf.text(), from),
        from.0 < buf.text().len() ==> pos_in(buf.text(), r),
{
    let ghost t = buf.text();
    let mut row = from.0;
    while row > 0
        invariant
            row <= from.0,
            t == buf.text(),
            empty_row_before(t, from.0 as int) == empty_row_before(t, row as int),
        decreases row,
    {
        row = row - 1;
        if buf.line_len(row) == 0 {
            return (row, 0);
        }
    }
    (0, 0)
}

fn matches_at_exec(line: &[char], pat: &Vec<char>, col: usize) -> (r: bool)
    ensures
        r == matches_at(line@, pat@, col as int),
{
    if col > line.len() || pat.len() > line.len() - col {
        return false;
    }
    let n = line.len();
    let mut k: usize = 0;
    while k < pat.len()
        invariant
            k <= pat@.len(),
            n == line@.len(),
            col + pat@.len() <= line@.len(),
            forall|m: int| 0 <= m < k ==> line@[col + m] == pat@[m],
        decreases pat.len() - k,
    {
        if line[col + k] != pat[k] {
            assert(line@.subrange(col as int, col + pat@.len())[k as int] != pat@[k as int]);
            return false;
        }
        k = k + 1;
    }
    assert(line@.subrange(col as int, col + pat@.len()) =~= pat@);
    true
}

proof fn lemma_match_from_in(l: Seq<char>, pat: Seq<char>, s: int)
    ensures
        match_from(l, pat, s) matches Some(c) ==> 0 <= c < l.len(),
    decreases l.len() - s,
{
    if 0 <= s < l.len() && !matches_at(l, pat, s) {
        lemma_match_from_in(l, pat, s + 1);
    }
}

proof fn lemma_match_before_in(l: Seq<char>, pat: Seq<char>, e: int)
    requires
        pat.len() > 0,
    ensures
        match_before(l, pat, e) matches Some(c) ==> 0 <= c < l.len(),
    decreases e,
{
    if e > 0 && !matches_at(l, pat, e - 1) {
        lemma_match_before_in(l, pat, e - 1);
    }
}

proof fn lemma_search_fwd_in(t: Seq<Seq<char>>, from: Pos, pat: Seq<char>, i: int)
    requires
        lines_fit(t),
        from.0 < t.len(),
    ensures
        search_fwd_from(t, from, pat, i) matches Some(p) ==> p.0 < t.len() && p.1 < t[p.0 as int].len(),
    decreases t.len() + 1 - i,
{
    if 0 <= i <= t.len() {
        let row = row_down(from.0 as int, t.len() as int, i);
        let start = if i == 0 { from.1 + 1 } else { 0 };
        lemma_match_from_in(t[row], pat, start);
        lemma_search_fwd_in(t, from, pat, i + 1);
    }
}

proof fn lemma_search_back_in(t: Seq<Seq<char>>, from: Pos, pat: Seq<char>, i: int)
    requires
        lines_fit(t),
        from.0 < t.len(),
        pat.len() > 0,
    ensures
        search_back_from(t, from, pat, i) matches Some(p) ==> p.0 < t.len() && p.1 < t[p.0 as int].len(),
    decreases t.len() + 1 - i,
{
    if 0 <= i <= t.len() {
        let row = row_up(from.0 as int, t.len() as int, i);
        let end = if i == 0 { from.1 as int } else { t[row].len() as int };
        lemma_match_before_in(t[row], pat, end);
        lemma_search_back_in(t, from, pat, i + 1);
    }
}

/// Rows and columns of the text fit in `usize`, as in any text in memory.
pub open spec fn lines_fit(t: Seq<Seq<char>>) -> bool {
    t.len() <= usize::MAX && forall|r: int| 0 <= r < t.len() ==> #[trigger] t[r].len() <= usize::MAX
}

/// A search from inside the text lands on a character.
pub proof fn lemma_search_in(t: Seq<Seq<char>>, from: Pos, pat: Seq<char>, forward: bool)
    requires
        lines_fit(t),
        from.0 < t.len(),
    ensures
        search_spec(t, from, pat, forward) matches Some(p) ==> p.0 < t.len() && p.1 < t[p.0 as int].len(),
{
    if pat.len() > 0 {
        lemma_search_fwd_in(t, from, pat, 0);
        lemma_search_back_in(t, from, pat, 0);
    }
}

proof fn lemma_match_from_past_end(l: Seq<char>, pat: Seq<char>, s: int)
    requires
        s >= l.len(),
    ensures
        match_from(l, pat, s) is None,
{
}

fn first_match_from(line: &[char], pat: &Vec<char>, start: usize) -> (r: Option<usize>)
    requires
        start <= line@.len(),
    ensures
        r == (match match_from(line@, pat@, start as int) {
            Some(c) => Some(c as usize),
            None => None::<usize>,
        }),
        r matches Some(c) ==> start <= c < line@.len(),
{
    let len = line.len();
    let mut col = start;
    while col < len
        invariant
            start <= col <= len,
            len == line@.len(),
            match_from(line@, pat@, start as int) == match_from(line@, pat@, col as int),
        decreases len - col,
    {
        if matches_at_exec(line, pat, col) {
            return Some(col);
        }
        col = col + 1;
    }
    None
}

fn last_match_before(line: &[char], pat: &Vec<char>, end: usize) -> (r: Option<usize>)
    requires
        pat@.len() > 0,
    ensures
        r == (match match_before(line@, pat@, end as int) {
            Some(c) => Some(c as usize),
            None => None::<usize>,
        }),
        r matches Some(c) ==> c < line@.len(),
{
    let mut col = end;
    while col > 0
        invariant
            col <= end,
            pat@.len() > 0,
            match_before(line@, pat@, end as int) == match_before(line@, pat@, col as int),
        decreases col,
    {
        if matches_at_exec(line, pat, col - 1) {
            return Some(col - 1);
        }
        col = col - 1;
    }
    None
}

/// Substring search through the buffer, wrapping around its ends.
pub fn search(buf: &Buffer, from: Pos, pattern: &str, forward: bool) -> (r: Option<Pos>)
    requires
        buf.wf(),
    ensures
        r == search_spec(buf.text(), search_origin(buf.text(), from), pattern@, forward),
        from.0 < buf.text().len() ==> r == search_spec(buf.text(), from, pattern@, forward),
        r matches Some(p) ==> p.0 < buf.text().len() && p.1 < buf.text()[p.0 as int].len(),
{
    let count = buf.line_count();
    let start = (from.0 % count, from.1);
    proof {
        if from.0 < count {
            vstd::arithmetic::div_mod::lemma_small_mod(from.0 as nat, count as nat);
        }
    }
    search_from(buf, start, pattern, forward)
}

fn search_from(buf: &Buffer, from: Pos, pattern: &str, forward: bool) -> (r: Option<Pos>)
    requires
        buf.wf(),
        from.0 < buf.text().len(),
    ensures
        r == search_spec(buf.text(), from, pattern@, forward),
        r matches Some(p) ==> p.0 < buf.text().len() && p.1 < buf.text()[p.0 as int].len(),
{
    let ghost t = buf.text();
    let pat = crate::domain::text::chars_of(pattern);
    if pat.len() == 0 {
        return None;
    }
    let count = buf.line_count();
    if forward {
        let mut i: usize = 0;
        let mut row = from.0;
        loop
            invariant
                i <= count,
                count == t.len(),
                t == buf.text(),
                pat@ == pattern@,
                pat@.len() > 0,
                from.0 < count,
                row as int == row_down(from.0 as int, count as int, i as int),
                row < count,
                search_fwd_from(t, from, pat@, 0) == search_fwd_from(t, from, pat@, i as int),
                forward,
            decreases count - i,
        {
            let line = buf.line(row);
            let len = line.len();
            let start = if i == 0 {
                if from.1 < len {
                    from.1 + 1
                } else {
                    len
                }
            } else {
                0
            };
            let ghost l = t[row as int];
            let ghost st: int = if i == 0 { from.1 + 1 } else { 0 };
            proof {
                if st >= len {
                    lemma_match_from_past_end(l, pat@, st);
                    lemma_match_from_past_end(l, pat@, start as int);
                }
            }
            if let Some(c) = first_match_from(line, &pat, start) {
                proof {
                    assert(search_fwd_from(t, from, pat@, i as int) == Some((row, c)));
                }
                return Some((row, c));
            }
            proof {
                assert(search_fwd_from(t, from, pat@, i as int) == search_fwd_from(
                    t,
                    from,
                    pat@,
                    i + 1,
                ));
            }
            if i == count {
                assert(search_fwd_from(t, from, pat@, i + 1) is None);
                return None;
            }
            row = if row + 1 == count { 0 } else { row + 1 };
            i = i + 1;
        }
    } else {
        let mut i: usize = 0;
        let mut row = from.0;
        loop
            invariant
                i <= count,
                count == t.len(),
                t == buf.text(),
                pat@ == pattern@,
                pat@.len() > 0,
                from.0 < count,
                row as int == row_up(from.0 as int, count as int, i as int),
                row < count,
                search_back_from(t, from, pat@, 0) == search_back_from(t, from, pat@, i as int),
                !forward,
            decreases count - i,
        {
            let line = buf.line(row);
            let end = if i == 0 { from.1 } else { line.len() };
            if let Some(c) = last_match_before(line, &pat, end) {
                proof {
                    assert(search_back_from(t, from, pat@, i as int) == Some((row, c)));
                }
                return Some((row, c));
            }
            proof {
                assert(search_back_from(t, from, pat@, i as int) == search_back_from(
                    t,
                    from,
                    pat@,
                    i + 1,
                ));
            }
            if i == count {
                assert(search_back_from(t, from, pat@, i + 1) is None);
                return None;
            }
            if i + 1 == count {
                row = from.0;
            } else if row == 0 {
                row = count - 1;
            } else {
                row = row - 1;
            }
            i = i + 1;
        }
    }
}

fn run_left_exec(line: &[char], i: usize, cls: Class, big: bool) -> (r: usize)
    ensures
        r == run_left(line@, i as int, cls, big),
        r <= i,
{
    let mut j = i;
    while j > 0 && j - 1 < line.len() && class(line[j - 1], big) == cls
        invariant
            j <= i,
            run_left(line@, i as int, cls, big) == run_left(line@, j as int, cls, big),
        decreases j,
    {
        j = j - 1;
    }
    j
}

fn run_right_exec(line: &[char], i: usize, cls: Class, big: bool) -> (r: usize)
    requires
        i < line@.len(),
    ensures
        r == run_right(line@, i as int, cls, big),
        i <= r < line@.len(),
{
    let mut j = i;
    while j < line.len() - 1 && class(line[j + 1], big) == cls
        invariant
            i <= j < line@.len(),
            run_right(line@, i as int, cls, big) == run_right(line@, j as int, cls, big),
        decreases line.len() - j,
    {
        j = j + 1;
    }
    j
}

proof fn lemma_quote_cols_props(l: Seq<char>, ch: char, i: int)
    requires
        0 <= i,
    ensures
        forall|m: int| 0 <= m < quote_cols(l, ch, i).len() ==> i <= #[trigger] quote_cols(l, ch, i)[m] < l.len(),
        forall|m: int, n: int| 0 <= m < n < quote_cols(l, ch, i).len() ==> #[trigger] quote_cols(l, ch, i)[m] < #[trigger] quote_cols(l, ch, i)[n],
    decreases l.len() - i,
{
    if i < l.len() {
        lemma_quote_cols_props(l, ch, i + 1);
        let rest = quote_cols(l, ch, i + 1);
        let cur = quote_cols(l, ch, i);
        if l[i] == ch {
            assert(cur == seq![i] + rest);
            assert forall|m: int| 0 <= m < cur.len() implies i <= #[trigger] cur[m] < l.len() by {
                if m > 0 {
                    assert(cur[m] == rest[m - 1]);
                }
            }
            assert forall|m: int, n: int| 0 <= m < n < cur.len() implies #[trigger] cur[m] < #[trigger] cur[n] by {
                assert(cur[n] == rest[n - 1]);
                if m > 0 {
                    assert(cur[m] == rest[m - 1]);
                }
            }
        } else {
            assert(cur == rest);
        }
    } else {
        assert(quote_cols(l, ch, i).len() == 0);
    }
}

/// The word under the cursor, for the `*` command.
pub fn word_under_cursor(buf: &Buffer, pos: Pos) -> (r: Option<String>)
    ensures
        match r {
            Some(w) => word_under_spec(buf.text(), pos) == Some(w@),
            None => word_under_spec(buf.text(), pos) is None,
        },
{
    let line = buf.line(pos.0);
    if line.len() == 0 {
        return None;
    }
    let col = if pos.1 < line.len() { pos.1 } else { line.len() - 1 };
    if class(line[col], false) != Class::Word {
        return None;
    }
    let start = run_left_exec(line, col, Class::Word, false);
    let end = run_right_exec(line, col, Class::Word, false);
    let chars = sub_chars(line, start, end + 1);
    Some(string_from_chars(chars.as_slice()))
}

fn para_top_exec(buf: &Buffer, row: usize) -> (r: usize)
    ensures
        r == para_top(buf.text(), row as int),
        r <= row,
{
    let ghost t = buf.text();
    let mut top = row;
    while top > 0 && buf.line_len(top - 1) > 0
        invariant
            top <= row,
            t == buf.text(),
            para_top(t, row as int) == para_top(t, top as int),
        decreases top,
    {
        top = top - 1;
    }
    top
}

fn para_down_exec(buf: &Buffer, row: usize, empty: bool) -> (r: usize)
    requires
        buf.wf(),
    ensures
        r == para_down(buf.text(), row as int, empty),
        r >= row,
        row < buf.text().len() ==> r < buf.text().len(),
{
    let ghost t = buf.text();
    let count = buf.line_count();
    let mut bot = row;
    while bot < count - 1 && (buf.line_len(bot + 1) == 0) == empty
        invariant
            row <= bot,
            count == t.len(),
            count >= 1,
            t == buf.text(),
            row < count ==> bot < count,
            para_down(t, row as int, empty) == para_down(t, bot as int, empty),
        decreases count - bot,
    {
        bot = bot + 1;
    }
    bot
}

/// The opening and closing bracket around the cursor.
fn find_bracket_pair(buf: &Buffer, pos: Pos, open: char, close: char) -> (r: Option<(Pos, Pos)>)
    ensures
        r == bracket_pair_spec(buf.text(), pos, open, close),
        r matches Some((s, e)) ==> pos_in(buf.text(), s) && pos_in(buf.text(), e) && pos_le(s, e),
{
    let ghost t = buf.text();
    let mut depth: i32 = 0;
    let mut p = pos;
    let start;
    loop
        invariant_except_break
            t == buf.text(),
            0 <= depth,
            open_bracket_back(t, pos, pos, open, close, 0) == open_bracket_back(
                t,
                p,
                pos,
                open,
                close,
                depth as int,
            ),
        ensures
            open_bracket_back(t, pos, pos, open, close, 0) == Some(start),
            char_at_spec(t, start) == Some(open),
        decreases p.0, p.1,
    {
        let c = char_at(buf, p);
        let closing = c == Some(close) && (p.0 != pos.0 || p.1 != pos.1);
        if !closing && c == Some(open) && depth == 0 {
            start = p;
            break ;
        }
        if closing {
            if depth < i32::MAX {
                depth = depth + 1;
            }
        } else if c == Some(open) {
            depth = depth - 1;
        }
        match step_back(buf, p) {
            Some(np) => p = np,
            None => return None,
        }
    }
    let mut depth: i32 = 0;
    let mut p = start;
    let end;
    loop
        invariant_except_break
            t == buf.text(),
            0 <= depth,
            pos_le(start, p),
            close_bracket_fwd(t, start, open, close, 0) == close_bracket_fwd(
                t,
                p,
                open,
                close,
                depth as int,
            ),
            open_bracket_back(t, pos, pos, open, close, 0) == Some(start),
        ensures
            close_bracket_fwd(t, start, open, close, 0) == Some(end),
            pos_le(start, end),
            pos_in(t, end),
        decreases t.len() - p.0, line_len_of(t, p.0) - p.1,
    {
        let np = match step_fwd(buf, p) {
            Some(np) => np,
            None => return None,
        };
        p = np;
        let c = char_at(buf, p);
        if c == Some(open) {
            if depth < i32::MAX {
                depth = depth + 1;
            }
        } else if c == Some(close) {
            if depth == 0 {
                end = p;
                break ;
            }
            depth = depth - 1;
        }
    }
    Some((start, end))
}

/// The range of a text object: inclusive start and end positions, and
/// whether it covers whole lines.
pub fn textobj_range(buf: &Buffer, pos: Pos, obj: TextObj) -> (r: Option<(Pos, Pos, bool)>)
    requires
        buf.wf(),
        pos.0 < usize::MAX,
    ensures
        r == textobj_spec(buf.text(), pos, obj),
        pos.0 < buf.text().len() ==> (r matches Some((s, e, lw)) ==> pos_in(buf.text(), s)
            && pos_in(buf.text(), e) && pos_le(s, e)),
{
    let ghost t = buf.text();
    let row = pos.0;
    match obj {
        TextObj::Word { inner, big } => {
            let line = buf.line(row);
            if line.len() == 0 {
                return None;
            }
            let col = if pos.1 < line.len() { pos.1 } else { line.len() - 1 };
            let target = class(line[col], big);
            let mut start = run_left_exec(line, col, target, big);
            let mut end = run_right_exec(line, col, target, big);
            if !inner {
                let e = run_right_exec(line, end, Class::Blank, big);
                if e > end {
                    end = e;
                } else {
                    start = run_left_exec(line, start, Class::Blank, big);
                }
            }
            Some(((row, start), (row, end), false))
        },
        TextObj::Quote { ch, inner } => {
            let line = buf.line(row);
            let ghost l = line@;
            let mut positions: Vec<usize> = Vec::new();
            let mut i: usize = 0;
            while i < line.len()
                invariant
                    i <= l.len(),
                    line@ == l,
                    positions@.map_values(|x: usize| x as int) + quote_cols(l, ch, i as int)
                        == quote_cols(l, ch, 0),
                    forall|k: int| 0 <= k < positions@.len() ==> #[trigger] positions@[k] < i,
                decreases line.len() - i,
            {
                if line[i] == ch {
                    let ghost before = positions@;
                    positions.push(i);
                    assert(positions@.map_values(|x: usize| x as int) =~= before.map_values(
                        |x: usize| x as int,
                    ).push(i as int));
                    assert(positions@.map_values(|x: usize| x as int) + quote_cols(
                        l,
                        ch,
                        i + 1,
                    ) =~= before.map_values(|x: usize| x as int) + quote_cols(l, ch, i as int));
                }
                i = i + 1;
            }
            let ghost q = quote_cols(l, ch, 0);
            assert(positions@.map_values(|x: usize| x as int) =~= q);
            let mut k: usize = 0;
            let n = positions.len();
            while k < n / 2
                invariant
                    n == positions@.len(),
                    n == q.len(),
                    forall|m: int| 0 <= m < n ==> #[trigger] q[m] == positions@[m] as int,
                    k <= n / 2,
                    quote_pair(q, pos.1 as int, 0) == quote_pair(q, pos.1 as int, k as int),
                    q == quote_cols(l, ch, 0),
                    l == line_of(t, row as int),
                    t == buf.text(),
                    row == pos.0,
                    obj == (TextObj::Quote { ch, inner }),
                decreases n / 2 - k,
            {
                if positions[2 * k + 1] >= pos.1 {
                    let a = positions[2 * k];
                    let b = positions[2 * k + 1];
                    proof {
                        assert(quote_pair(q, pos.1 as int, k as int) == Some((a as int, b as int)));
                        lemma_quote_cols_props(l, ch, 0);
                        assert(q[2 * k as int] < q[2 * k + 1]);
                    }
                    if inner {
                        if b == a + 1 {
                            return None;
                        }
                        return Some(((row, a + 1), (row, b - 1), false));
                    } else {
                        return Some(((row, a), (row, b), false));
                    }
                }
                k = k + 1;
            }
            assert(quote_pair(q, pos.1 as int, k as int) is None);
            None
        },
        TextObj::Bracket { open, close, inner } => {
            let (start, end) = match find_bracket_pair(buf, pos, open, close) {
                Some(pr) => pr,
                None => return None,
            };
            if inner {
                let s = match step_fwd(buf, start) {
                    Some(s) => s,
                    None => return None,
                };
                let e = match step_back(buf, end) {
                    Some(e) => e,
                    None => return None,
                };
                if s.0 > e.0 || (s.0 == e.0 && s.1 > e.1) {
                    return None;
                }
                Some((s, e, false))
            } else {
                Some((start, end, false))
            }
        },
        TextObj::Para { inner } => {
            let top = para_top_exec(buf, row);
            let mut bot = para_down_exec(buf, row, false);
            if !inner {
                bot = para_down_exec(buf, bot, true);
            }
            Some(((top, 0), (bot, buf.line_len(bot).saturating_sub(1)), true))
        },
    }
}


/// A search lands on an occurrence of the pattern, and finds none only when
/// the pattern occurs nowhere in the text: it goes once round every line.
pub proof fn lemma_search_finds(t: Seq<Seq<char>>, from: Pos, pat: Seq<char>, forward: bool)
    requires
        lines_fit(t),
        from.0 < t.len(),
        pat.len() > 0,
    ensures
        search_spec(t, from, pat, forward) matches Some(p) ==> p.0 < t.len() && matches_at(t[p.0 as int], pat, p.1 as int),
        search_spec(t, from, pat, forward) is None <==> forall|r: int, c: int|
            0 <= r < t.len() ==> !#[trigger] matches_at(t[r], pat, c),
{
    let n = t.len() as int;
    let r0 = from.0 as int;
    if forward {
        lemma_search_fwd_cover(t, from, pat, 0);
        if search_spec(t, from, pat, forward) is None {
            assert forall|r: int, c: int| 0 <= r < t.len() implies !#[trigger] matches_at(t[r], pat, c) by {
                let j = if r == r0 { n } else if r > r0 { r - r0 } else { r - r0 + n };
                assert(row_down(r0, n, j) == r);
                if j != 0 && 0 <= c {
                    assert(!matches_at(t[row_down(r0, n, j)], pat, c));
                }
            }
        }
    } else {
        lemma_search_back_cover(t, from, pat, 0);
        if search_spec(t, from, pat, forward) is None {
            assert forall|r: int, c: int| 0 <= r < t.len() implies !#[trigger] matches_at(t[r], pat, c) by {
                let j = if r == r0 { n } else if r < r0 { r0 - r } else { r0 + n - r };
                assert(row_up(r0, n, j) == r);
                if j != 0 && 0 <= c < t[r].len() {
                    assert(!matches_at(t[row_up(r0, n, j)], pat, c));
                }
            }
        }
    }
}

/// `match_from` finds the first occurrence from `s` on.
proof fn lemma_match_from_first(l: Seq<char>, pat: Seq<char>, s: int)
    requires
        0 <= s,
        pat.len() > 0,
    ensures
        match_from(l, pat, s) matches Some(c) ==> s <= c && matches_at(l, pat, c),
        match_from(l, pat, s) is None ==> forall|c: int| s <= c ==> !#[trigger] matches_at(l, pat, c),
    decreases l.len() - s,
{
    if s < l.len() && !matches_at(l, pat, s) {
        lemma_match_from_first(l, pat, s + 1);
    }
}

/// `match_before` finds the last occurrence before `e`.
proof fn lemma_match_before_last(l: Seq<char>, pat: Seq<char>, e: int)
    ensures
        match_before(l, pat, e) matches Some(c) ==> c < e && matches_at(l, pat, c),
        match_before(l, pat, e) is None ==> forall|c: int| c < e ==> !#[trigger] matches_at(l, pat, c),
    decreases e,
{
    if e > 0 && !matches_at(l, pat, e - 1) {
        lemma_match_before_last(l, pat, e - 1);
    }
}

/// The forward search from step `i` finds a match, or none of the rows it
/// still visits holds one.
proof fn lemma_search_fwd_cover(t: Seq<Seq<char>>, from: Pos, pat: Seq<char>, i: int)
    requires
        lines_fit(t),
        from.0 < t.len(),
        pat.len() > 0,
        0 <= i,
    ensures
        search_fwd_from(t, from, pat, i) matches Some(p) ==> p.0 < t.len() && matches_at(t[p.0 as int], pat, p.1 as int),
        search_fwd_from(t, from, pat, i) is None ==> forall|j: int, c: int|
            i <= j <= t.len() && (if j == 0 { from.1 + 1 } else { 0 }) <= c ==> !#[trigger] matches_at(
                t[row_down(from.0 as int, t.len() as int, j)],
                pat,
                c,
            ),
    decreases t.len() + 1 - i,
{
    if i <= t.len() {
        let row = row_down(from.0 as int, t.len() as int, i);
        let start = if i == 0 { from.1 + 1 } else { 0 };
        lemma_match_from_first(t[row], pat, start);
        lemma_search_fwd_cover(t, from, pat, i + 1);
    }
}

/// The backward search from step `i` finds a match, or none of the rows it
/// still visits holds one before where it looks from.
proof fn lemma_search_back_cover(t: Seq<Seq<char>>, from: Pos, pat: Seq<char>, i: int)
    requires
        lines_fit(t),
        from.0 < t.len(),
        pat.len() > 0,
        0 <= i,
    ensures
        search_back_from(t, from, pat, i) matches Some(p) ==> p.0 < t.len() && matches_at(t[p.0 as int], pat, p.1 as int),
        search_back_from(t, from, pat, i) is None ==> forall|j: int, c: int|
            i <= j <= t.len() && c < (if j == 0 {
                from.1 as int
            } else {
                t[row_up(from.0 as int, t.len() as int, j)].len() as int
            }) ==> !#[trigger] matches_at(t[row_up(from.0 as int, t.len() as int, j)], pat, c),
    decreases t.len() + 1 - i,
{
    if i <= t.len() {
        let row = row_up(from.0 as int, t.len() as int, i);
        let end = if i == 0 { from.1 as int } else { t[row].len() as int };
        lemma_match_before_last(t[row], pat, end);
        lemma_search_back_cover(t, from, pat, i + 1);
    }
}

} // verus!
