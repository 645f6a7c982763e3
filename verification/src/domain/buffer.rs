//! The trainer's text buffer: lines held as `Vec<char>`, so that Cyrillic
//! and any other non-ASCII text behaves as one character per `char`.

use vstd::prelude::*;

use crate::domain::text::{chars_of, is_whitespace, spec_is_whitespace, string_from_chars};

verus! {

/// The line `row` of a text, or the empty line when `row` is past the end.
pub open spec fn line_of(t: Seq<Seq<char>>, row: int) -> Seq<char> {
    if 0 <= row < t.len() {
        t[row]
    } else {
        seq![]
    }
}

/// Index of the first character at or after `i` that is not whitespace.
pub open spec fn non_blank_from(line: Seq<char>, i: int) -> Option<int>
    decreases line.len() - i,
{
    if i < 0 || i >= line.len() {
        None
    } else if !spec_is_whitespace(line[i]) {
        Some(i)
    } else {
        non_blank_from(line, i + 1)
    }
}

/// Column of the first non-blank character of a line; 0 when there is none.
pub open spec fn first_non_blank_of(line: Seq<char>) -> nat {
    match non_blank_from(line, 0) {
        Some(i) => i as nat,
        None => 0,
    }
}

/// The last column the cursor may stand on. In Normal mode the cursor sits
/// *on* a character, so the limit is one less than in Insert mode.
pub open spec fn max_col_of(len: nat, insert_mode: bool) -> nat {
    if insert_mode {
        len
    } else if len == 0 {
        0
    } else {
        (len - 1) as nat
    }
}

/// Where `clamp_cursor` puts a cursor `p`: on the last line at most, and no
/// further right than the mode allows.
pub open spec fn clamp_spec(t: Seq<Seq<char>>, p: (usize, usize), insert_mode: bool) -> (usize, usize) {
    let row = if t.len() == 0 {
        0
    } else if p.0 < t.len() {
        p.0 as int
    } else {
        t.len() - 1
    };
    let m = max_col_of(line_of(t, row).len(), insert_mode);
    (row as usize, if p.1 <= m { p.1 } else { m as usize })
}

pub proof fn lemma_non_blank_from(line: Seq<char>, i: int)
    ensures
        non_blank_from(line, i) matches Some(j) ==> {
            &&& 0 <= i <= j < line.len()
            &&& !spec_is_whitespace(line[j])
            &&& forall|k: int| i <= k < j ==> spec_is_whitespace(#[trigger] line[k])
        },
        non_blank_from(line, i) is None ==> forall|k: int|
            0 <= i <= k < line.len() ==> spec_is_whitespace(#[trigger] line[k]),
    decreases line.len() - i,
{
    if 0 <= i < line.len() && spec_is_whitespace(line[i]) {
        lemma_non_blank_from(line, i + 1);
    }
}

/// The first non-blank column lies on a character of the line, unless the
/// line is empty.
pub proof fn lemma_first_non_blank_in_line(line: Seq<char>)
    ensures
        line.len() > 0 ==> first_non_blank_of(line) < line.len(),
        line.len() == 0 ==> first_non_blank_of(line) == 0,
{
    lemma_non_blank_from(line, 0);
}

/// A clamped cursor lies inside the text, in either mode.
pub proof fn lemma_clamp_in(t: Seq<Seq<char>>, p: (usize, usize), insert_mode: bool)
    requires
        t.len() >= 1,
    ensures
        clamp_spec(t, p, insert_mode).0 < t.len(),
        clamp_spec(t, p, insert_mode).1 <= t[clamp_spec(t, p, insert_mode).0 as int].len(),
        p.0 < t.len() ==> clamp_spec(t, p, insert_mode).0 == p.0,
{
}

/// A copy of a line.
pub fn copy_line(line: &Vec<char>) -> (r: Vec<char>)
    ensures
        r@ == line@,
{
    let r = line.clone();
    assert(r@ =~= line@);
    r
}

/// A copy of a whole text.
pub fn copy_text(lines: &Vec<Vec<char>>) -> (r: Vec<Vec<char>>)
    ensures
        r@.map_values(|l: Vec<char>| l@) == lines@.map_values(|l: Vec<char>| l@),
{
    let mut out: Vec<Vec<char>> = Vec::new();
    let mut i: usize = 0;
    while i < lines.len()
        invariant
            i <= lines@.len(),
            out@.len() == i,
            forall|j: int| 0 <= j < i ==> (#[trigger] out@[j])@ == lines@[j]@,
        decreases lines.len() - i,
    {
        out.push(copy_line(&lines[i]));
        i = i + 1;
    }
    assert(out@.map_values(|l: Vec<char>| l@) =~= lines@.map_values(|l: Vec<char>| l@));
    out
}

#[derive(Debug)]
pub struct Buffer {
    lines: Vec<Vec<char>>,
    /// (row, column), both counted from zero.
    pub cursor: (usize, usize),
}

impl Clone for Buffer {
    fn clone(&self) -> (r: Self)
        ensures
            r.text() == self.text(),
            r.pos() == self.pos(),
    {
        Buffer { lines: copy_text(&self.lines), cursor: self.cursor }
    }
}

impl Buffer {
    /// Where the cursor stands: (row, column).
    pub closed spec fn pos(&self) -> (usize, usize) {
        self.cursor
    }

    /// The cursor position; the same as reading the `cursor` field.
    pub fn cursor_pos(&self) -> (r: (usize, usize))
        ensures
            r == self.pos(),
    {
        self.cursor
    }

    /// Moves the cursor; the same as writing the `cursor` field.
    pub fn set_cursor(&mut self, p: (usize, usize))
        ensures
            final(self).pos() == p,
            final(self).text() == old(self).text(),
    {
        self.cursor = p;
    }

    /// The buffer's text, one character sequence per line.
    pub closed spec fn text(&self) -> Seq<Seq<char>> {
        self.lines@.map_values(|l: Vec<char>| l@)
    }

    /// Rows and columns of a buffer's text fit in `usize`.
    pub proof fn lemma_fits(&self)
        ensures
            crate::vim::motion::lines_fit(self.text()),
    {
        assert(self.lines.len() == self.lines@.len());
        assert forall|r: int| 0 <= r < self.text().len() implies #[trigger] self.text()[r].len() <= usize::MAX by {
            assert(self.lines@[r].len() == self.lines@[r]@.len());
        }
    }

    /// A buffer always holds at least one (possibly empty) line.
    pub open spec fn wf(&self) -> bool {
        self.text().len() >= 1
    }

    /// The line at `row`, empty past the end.
    pub open spec fn line_spec(&self, row: int) -> Seq<char> {
        line_of(self.text(), row)
    }

    pub fn new(lines: &[String]) -> (r: Self)
        ensures
            r.text() == (if lines@.len() == 0 {
                seq![Seq::<char>::empty()]
            } else {
                lines@.map_values(|s: String| s@)
            }),
            r.pos() == (0usize, 0usize),
            r.wf(),
    {
        let mut out: Vec<Vec<char>> = Vec::new();
        let mut i: usize = 0;
        while i < lines.len()
            invariant
                i <= lines@.len(),
                out@.len() == i,
                forall|j: int| 0 <= j < i ==> (#[trigger] out@[j])@ == lines@[j]@,
            decreases lines.len() - i,
        {
            out.push(chars_of(lines[i].as_str()));
            i = i + 1;
        }
        if out.len() == 0 {
            out.push(Vec::new());
        }
        let r = Buffer { lines: out, cursor: (0, 0) };
        assert(r.text() =~= (if lines@.len() == 0 {
            seq![Seq::<char>::empty()]
        } else {
            lines@.map_values(|s: String| s@)
        }));
        r
    }

    pub fn from_str_slice(lines: &[&str]) -> (r: Self)
        ensures
            r.text() == (if lines@.len() == 0 {
                seq![Seq::<char>::empty()]
            } else {
                lines@.map_values(|s: &str| s@)
            }),
            r.pos() == (0usize, 0usize),
            r.wf(),
    {
        let mut out: Vec<Vec<char>> = Vec::new();
        let mut i: usize = 0;
        while i < lines.len()
            invariant
                i <= lines@.len(),
                out@.len() == i,
                forall|j: int| 0 <= j < i ==> (#[trigger] out@[j])@ == lines@[j]@,
            decreases lines.len() - i,
        {
            out.push(chars_of(lines[i]));
            i = i + 1;
        }
        if out.len() == 0 {
            out.push(Vec::new());
        }
        let r = Buffer { lines: out, cursor: (0, 0) };
        assert(r.text() =~= (if lines@.len() == 0 {
            seq![Seq::<char>::empty()]
        } else {
            lines@.map_values(|s: &str| s@)
        }));
        r
    }

    /// The text as one `String` per line.
    pub fn to_lines(&self) -> (r: Vec<String>)
        ensures
            r@.len() == self.text().len(),
            forall|i: int| 0 <= i < r@.len() ==> (#[trigger] r@[i])@ == self.text()[i],
    {
        let mut out: Vec<String> = Vec::new();
        let mut i: usize = 0;
        while i < self.lines.len()
            invariant
                i <= self.lines@.len(),
                out@.len() == i,
                forall|j: int| 0 <= j < i ==> (#[trigger] out@[j])@ == self.text()[j],
            decreases self.lines.len() - i,
        {
            out.push(string_from_chars(self.lines[i].as_slice()));
            i = i + 1;
        }
        out
    }

    pub fn line_count(&self) -> (r: usize)
        ensures
            r == self.text().len(),
    {
        self.lines.len()
    }

    /// The characters of line `row`; empty when `row` is past the end.
    pub fn line(&self, row: usize) -> (r: &[char])
        ensures
            r@ == self.line_spec(row as int),
    {
        if row < self.lines.len() {
            self.lines[row].as_slice()
        } else {
            &[]
        }
    }

    /// Mutable access to line `row`; the buffer afterwards holds whatever
    /// the caller leaves in it.
    pub fn line_mut(&mut self, row: usize) -> (r: &mut Vec<char>)
        requires
            row < old(self).text().len(),
        ensures
            r@ == old(self).text()[row as int],
            final(self).text() == old(self).text().update(row as int, final(r)@),
            final(self).pos() == old(self).pos(),
    {
        &mut self.lines[row]
    }

    pub fn line_len(&self, row: usize) -> (r: usize)
        ensures
            r == self.line_spec(row as int).len(),
    {
        if row < self.lines.len() {
            self.lines[row].len()
        } else {
            0
        }
    }

    pub fn char_at(&self, row: usize, col: usize) -> (r: Option<char>)
        ensures
            r == (if col < self.line_spec(row as int).len() {
                Some(self.line_spec(row as int)[col as int])
            } else {
                None
            }),
    {
        if row < self.lines.len() && col < self.lines[row].len() {
            Some(self.lines[row][col])
        } else {
            None
        }
    }

    /// The character under the cursor.
    pub fn cur_char(&self) -> (r: Option<char>)
        ensures
            r == (if self.pos().1 < self.line_spec(self.pos().0 as int).len() {
                Some(self.line_spec(self.pos().0 as int)[self.pos().1 as int])
            } else {
                None
            }),
    {
        self.char_at(self.cursor.0, self.cursor.1)
    }

    /// Inserts a line before `at`, or after the last line when `at` is past
    /// the end.
    pub fn insert_line(&mut self, at: usize, line: Vec<char>)
        ensures
            final(self).text() == old(self).text().insert(
                if at <= old(self).text().len() { at as int } else { old(self).text().len() as int },
                line@,
            ),
            final(self).pos() == old(self).pos(),
    {
        let at = if at <= self.lines.len() { at } else { self.lines.len() };
        self.lines.insert(at, line);
        assert(self.text() =~= old(self).text().insert(at as int, line@));
    }

    /// Removes line `at` and returns it; a buffer left with no lines gets
    /// one empty line back.
    pub fn remove_line(&mut self, at: usize) -> (r: Vec<char>)
        requires
            at < old(self).text().len(),
        ensures
            r@ == old(self).text()[at as int],
            final(self).text() == (if old(self).text().len() == 1 {
                seq![Seq::<char>::empty()]
            } else {
                old(self).text().remove(at as int)
            }),
            final(self).pos() == old(self).pos(),
    {
        let removed = self.lines.remove(at);
        if self.lines.len() == 0 {
            self.lines.push(Vec::new());
        }
        assert(self.text() =~= (if old(self).text().len() == 1 {
            seq![Seq::<char>::empty()]
        } else {
            old(self).text().remove(at as int)
        }));
        removed
    }

    pub fn set_line(&mut self, at: usize, line: Vec<char>)
        requires
            at < old(self).text().len(),
        ensures
            final(self).text() == old(self).text().update(at as int, line@),
            final(self).pos() == old(self).pos(),
    {
        self.lines.set(at, line);
        assert(self.text() =~= old(self).text().update(at as int, line@));
    }

    pub fn lines_raw(&self) -> (r: &Vec<Vec<char>>)
        ensures
            r@.map_values(|l: Vec<char>| l@) == self.text(),
    {
        &self.lines
    }

    /// Replaces the whole text; no lines at all becomes one empty line.
    pub fn set_lines(&mut self, lines: Vec<Vec<char>>)
        ensures
            final(self).text() == (if lines@.len() == 0 {
                seq![Seq::<char>::empty()]
            } else {
                lines@.map_values(|l: Vec<char>| l@)
            }),
            final(self).pos() == old(self).pos(),
    {
        self.lines = if lines.len() == 0 {
            let mut v: Vec<Vec<char>> = Vec::new();
            v.push(Vec::new());
            v
        } else {
            lines
        };
        assert(self.text() =~= (if lines@.len() == 0 {
            seq![Seq::<char>::empty()]
        } else {
            lines@.map_values(|l: Vec<char>| l@)
        }));
    }

    /// The last column allowed on `row`: on a character in Normal mode, one
    /// past the last character in Insert mode.
    pub fn max_col(&self, row: usize, insert_mode: bool) -> (r: usize)
        ensures
            r == max_col_of(self.line_spec(row as int).len(), insert_mode),
    {
        let len = self.line_len(row);
        if insert_mode {
            len
        } else if len == 0 {
            0
        } else {
            len - 1
        }
    }

    /// Pulls the cursor back inside the buffer.
    pub fn clamp_cursor(&mut self, insert_mode: bool)
        ensures
            final(self).text() == old(self).text(),
            final(self).pos() == clamp_spec(old(self).text(), old(self).pos(), insert_mode),
    {
        let (mut row, mut col) = self.cursor;
        let last = if self.lines.len() == 0 { 0 } else { self.lines.len() - 1 };
        if row > last {
            row = last;
        }
        let m = self.max_col(row, insert_mode);
        if col > m {
            col = m;
        }
        self.cursor = (row, col);
    }

    /// Column of the first non-blank character of `row`, 0 when there is none.
    pub fn first_non_blank(&self, row: usize) -> (r: usize)
        ensures
            r == first_non_blank_of(self.line_spec(row as int)),
    {
        let line = self.line(row);
        let mut i: usize = 0;
        while i < line.len()
            invariant
                i <= line@.len(),
                line@ == self.line_spec(row as int),
                non_blank_from(line@, 0) == non_blank_from(line@, i as int),
            decreases line.len() - i,
        {
            if !is_whitespace(line[i]) {
                return i;
            }
            i = i + 1;
        }
        0
    }
}

} // verus!
