//! A modal vim interpreter: it reads the stream of keystrokes as commands
//! and runs them on the buffer. It supports the subset that the lessons
//! cover; everything else reports itself through `StepResult::Unsupported`.

use vstd::prelude::*;

use crate::domain::buffer::{
    Buffer, clamp_spec, copy_line, copy_text, first_non_blank_of, lemma_first_non_blank_in_line,
    lemma_non_blank_from, line_of, max_col_of, non_blank_from,
};
use crate::domain::keys::Key;
use crate::domain::text::{
    extend_chars, is_ascii_alpha_spec, is_whitespace, pop_char, push_char, remove_range,
    spec_is_whitespace, sub_chars,
};
use crate::vim::grammar::{
    Cmd, InsertKind, MotionKind, Parse, Target, Unsupported, cmd_ok, count_from, lemma_parse_ok, parse,
    parse_spec, unsupported_label, unsupported_name,
};
use crate::vim::motion::{
    Pos, char_at_spec, find_in_line, find_in_line_spec, index_before, index_from, last_col, next_word_start,
    next_word_start_spec, para_back, para_back_spec, para_fwd, para_fwd_spec, pos_in, pos_le,
    prev_word_start, prev_word_start_spec, search, search_spec, textobj_range, textobj_spec, stop_pos, pos_lt,
    step_fwd_spec, step_back_spec, word_begins, word_begins_in_line, word_ends, lemma_next_word_start_first,
    lemma_word_end_first, lemma_prev_word_start_last, lemma_search_finds, matches_at, Class, TextObj, class_of,
    run_left, run_right, empty_row_from, empty_row_before,
    word_end, word_end_spec, word_under_cursor, word_under_spec,
};

verus! {

#[derive(Clone, Copy, PartialEq, Eq, Debug, Structural)]
pub enum Mode {
    Normal,
    Insert,
    Visual,
    VisualLine,
}

#[derive(Clone, Debug, PartialEq)]
pub enum StepResult {
    /// The command ran.
    Consumed,
    /// Waiting for the rest of a sequence (`d`, `2`, `f`...).
    Pending,
    /// The command exists in vim but the trainer does not support it yet.
    Unsupported(String),
    /// The keystroke means nothing.
    Ignored,
}

/// The text a list of lines spells.
pub open spec fn text_of(lines: Seq<Vec<char>>) -> Seq<Seq<char>> {
    lines.map_values(|l: Vec<char>| l@)
}

proof fn lemma_text_of_push(s: Seq<Vec<char>>, x: Vec<char>)
    ensures
        text_of(s.push(x)) == text_of(s).push(x@),
{
    assert(text_of(s.push(x)) =~= text_of(s).push(x@));
}

/// A saved state for undo and redo: the text and the cursor.
struct Snapshot {
    lines: Vec<Vec<char>>,
    cursor: Pos,
}

impl Snapshot {
    spec fn sview(&self) -> (Seq<Seq<char>>, Pos) {
        (text_of(self.lines@), self.cursor)
    }
}

/// What a register holds: lines of text, and whether they go in as whole
/// lines.
struct Register {
    lines: Vec<Vec<char>>,
    linewise: bool,
}

impl Register {
    spec fn rview(&self) -> (Seq<Seq<char>>, bool) {
        (text_of(self.lines@), self.linewise)
    }

    fn copy(&self) -> (r: Register)
        ensures
            r.rview() == self.rview(),
    {
        Register { lines: copy_text(&self.lines), linewise: self.linewise }
    }
}

/// Number of registers: the unnamed one and one per ASCII letter.
pub const REGISTER_SLOTS: usize = 53;

/// The slot of a register name: `"` first, then `a`-`z`, then `A`-`Z`.
pub open spec fn slot_of(c: char) -> int {
    if 'a' <= c <= 'z' {
        (c as int) - ('a' as int) + 1
    } else if 'A' <= c <= 'Z' {
        (c as int) - ('A' as int) + 27
    } else {
        0
    }
}

/// A register name that commands may use: `"` or an ASCII letter.
pub open spec fn reg_name_ok(c: char) -> bool {
    c == '"' || is_ascii_alpha_spec(c)
}

/// Each register has a slot of its own: no two names share one, so the
/// slots hold one entry per name.
pub proof fn lemma_slots_distinct(c1: char, c2: char)
    requires
        reg_name_ok(c1),
        reg_name_ok(c2),
        c1 != c2,
    ensures
        slot_of(c1) != slot_of(c2),
        0 <= slot_of(c1) < REGISTER_SLOTS,
{
}

fn slot(c: char) -> (r: usize)
    requires
        reg_name_ok(c),
    ensures
        r == slot_of(c),
        r < REGISTER_SLOTS,
{
    let v = c as u32;
    if 'a' as u32 <= v && v <= 'z' as u32 {
        (v - 'a' as u32) as usize + 1
    } else if 'A' as u32 <= v && v <= 'Z' as u32 {
        (v - 'A' as u32) as usize + 27
    } else {
        0
    }
}

/// The view of a search: its pattern and direction.
pub open spec fn search_of(s: Option<(String, bool)>) -> Option<(Seq<char>, bool)> {
    match s {
        Some((p, f)) => Some((p@, f)),
        None => None,
    }
}

fn copy_keys(keys: &[Key]) -> (r: Vec<Key>)
    ensures
        r@ == keys@,
{
    let mut out: Vec<Key> = Vec::new();
    let mut i: usize = 0;
    while i < keys.len()
        invariant
            i <= keys@.len(),
            out@ == keys@.take(i as int),
        decreases keys.len() - i,
    {
        out.push(keys[i]);
        i = i + 1;
        assert(out@ =~= keys@.take(i as int));
    }
    assert(out@ =~= keys@);
    out
}

pub struct Engine {
    pub buf: Buffer,
    pub mode: Mode,
    pending: Vec<Key>,
    registers: Vec<Option<Register>>,
    undo: Vec<Snapshot>,
    redo: Vec<Snapshot>,
    visual_anchor: Pos,
    last_find: Option<(char, bool, bool)>,
    pub last_search: Option<(String, bool)>,
    /// The search being typed: (text so far, forward).
    pub cmdline: Option<(String, bool)>,
    /// The last change, as keystrokes, for the `.` command.
    last_change: Vec<Key>,
    recording: Option<Vec<Key>>,
    replaying: bool,
    /// Rows touched by the last change, for highlighting what changed.
    pub last_touched: Option<(usize, usize)>,
}

impl Engine {
    /// The buffer's text.
    pub closed spec fn text(&self) -> Seq<Seq<char>> {
        self.buf.text()
    }

    /// The cursor.
    pub closed spec fn cursor(&self) -> Pos {
        self.buf.pos()
    }

    /// Text and cursor together, as undo saves them.
    pub open spec fn snap(&self) -> (Seq<Seq<char>>, Pos) {
        (self.text(), self.cursor())
    }

    /// The keys of a command typed so far.
    pub closed spec fn pending_seq(&self) -> Seq<Key> {
        self.pending@
    }

    /// Undo history, oldest first.
    pub closed spec fn undo_seq(&self) -> Seq<(Seq<Seq<char>>, Pos)> {
        self.undo@.map_values(|s: Snapshot| s.sview())
    }

    /// Redo history, oldest first.
    pub closed spec fn redo_seq(&self) -> Seq<(Seq<Seq<char>>, Pos)> {
        self.redo@.map_values(|s: Snapshot| s.sview())
    }

    /// The last search: pattern and direction.
    pub closed spec fn search_view(&self) -> Option<(Seq<char>, bool)> {
        search_of(self.last_search)
    }

    /// The contents of register `c`.
    pub closed spec fn register_view(&self, c: char) -> Option<(Seq<Seq<char>>, bool)> {
        match self.registers@[slot_of(c)] {
            Some(r) => Some(r.rview()),
            None => None,
        }
    }

    /// The current mode.
    pub closed spec fn mode_of(&self) -> Mode {
        self.mode
    }

    /// The search being typed, if any: text so far and direction.
    pub closed spec fn cmdline_view(&self) -> Option<(Seq<char>, bool)> {
        search_of(self.cmdline)
    }

    /// Rows touched by the last change.
    pub closed spec fn touched(&self) -> Option<(usize, usize)> {
        self.last_touched
    }

    /// What `;` and `,` repeat: target character, direction, till.
    pub closed spec fn find_view(&self) -> Option<(char, bool, bool)> {
        self.last_find
    }

    /// Where a selection started.
    pub closed spec fn anchor(&self) -> Pos {
        self.visual_anchor
    }

    /// The keys of the last complete change, which `.` feeds again.
    pub closed spec fn change_seq(&self) -> Seq<Key> {
        self.last_change@
    }

    /// The keys of a change still being typed (one that went on in Insert
    /// mode), if any.
    pub closed spec fn recording_seq(&self) -> Option<Seq<Key>> {
        match self.recording {
            Some(v) => Some(v@),
            None => None,
        }
    }

    /// Whether `.` is feeding the last change again right now.
    pub closed spec fn is_replaying(&self) -> bool {
        self.replaying
    }

    pub closed spec fn regs_ok(&self) -> bool {
        self.registers@.len() == REGISTER_SLOTS
    }

    /// A well-formed engine: a buffer of at least one line, the cursor
    /// inside it, and every register slot present.
    pub closed spec fn wf(&self) -> bool {
        &&& self.buf.wf()
        &&& pos_in(self.buf.text(), self.buf.pos())
        &&& self.regs_ok()
    }

    /// Everything but the buffer and the touched rows is unchanged.
    spec fn keeps_state(&self, other: &Engine) -> bool {
        &&& self.mode == other.mode
        &&& self.pending == other.pending
        &&& self.registers == other.registers
        &&& self.undo == other.undo
        &&& self.redo == other.redo
        &&& self.visual_anchor == other.visual_anchor
        &&& self.last_find == other.last_find
        &&& self.last_search == other.last_search
        &&& self.cmdline == other.cmdline
        &&& self.last_change == other.last_change
        &&& self.recording == other.recording
        &&& self.replaying == other.replaying
    }

    /// The record of changes is untouched.
    spec fn records_kept(&self, other: &Engine) -> bool {
        &&& self.last_change == other.last_change
        &&& self.recording == other.recording
        &&& self.replaying == other.replaying
    }

    /// Command `cmd`, typed as `keys`, recorded itself as `cmd_records` says.
    spec fn records_by(o: &Engine, cmd: Cmd, keys: Seq<Key>, n: &Engine) -> bool {
        &&& (n.recording_seq(), n.change_seq()) == cmd_records(o, cmd, keys, o.recording_seq())
        &&& n.replaying == o.replaying
    }

    pub fn new(buf: Buffer) -> (r: Self)
        ensures
            r.text() == buf.text(),
            r.cursor() == buf.pos(),
            r.mode_of() == Mode::Normal,
            r.pending_seq() == Seq::<Key>::empty(),
            r.undo_seq() == Seq::<(Seq<Seq<char>>, Pos)>::empty(),
            r.redo_seq() == Seq::<(Seq<Seq<char>>, Pos)>::empty(),
            r.search_view() is None,
            r.cmdline_view() is None,
            r.touched() is None,
            r.find_view() is None,
            r.anchor() == (0usize, 0usize),
            r.change_seq() == Seq::<Key>::empty(),
            r.recording_seq() is None,
            !r.is_replaying(),
            forall|c: char| reg_name_ok(c) ==> r.register_view(c) is None,
            r.wf() <==> (buf.wf() && pos_in(buf.text(), buf.pos())),
    {
        let mut registers: Vec<Option<Register>> = Vec::new();
        let mut i: usize = 0;
        while i < REGISTER_SLOTS
            invariant
                i <= REGISTER_SLOTS,
                registers@.len() == i,
                forall|j: int| 0 <= j < i ==> registers@[j] is None,
            decreases REGISTER_SLOTS - i,
        {
            registers.push(None);
            i = i + 1;
        }
        let r = Engine {
            buf,
            mode: Mode::Normal,
            pending: Vec::new(),
            registers,
            undo: Vec::new(),
            redo: Vec::new(),
            visual_anchor: (0, 0),
            last_find: None,
            last_search: None,
            cmdline: None,
            last_change: Vec::new(),
            recording: None,
            replaying: false,
            last_touched: None,
        };
        assert(r.undo_seq() =~= Seq::<(Seq<Seq<char>>, Pos)>::empty());
        assert(r.redo_seq() =~= Seq::<(Seq<Seq<char>>, Pos)>::empty());
        assert forall|c: char| reg_name_ok(c) implies r.register_view(c) is None by {
            assert(0 <= slot_of(c) < REGISTER_SLOTS);
        }
        r
    }

    /// Whether the engine is well formed: a buffer of at least one line
    /// with the cursor inside it. An engine made from such a buffer is.
    pub fn is_well_formed(&self) -> (r: bool)
        ensures
            r == self.wf(),
    {
        let count = self.buf.line_count();
        let (row, col) = self.buf.cursor_pos();
        count >= 1 && row < count && col <= self.buf.line_len(row) && self.registers.len() == REGISTER_SLOTS
    }

    /// The buffer; the same as reading the `buf` field.
    pub fn buffer(&self) -> (r: &Buffer)
        ensures
            r.text() == self.text(),
            r.pos() == self.cursor(),
    {
        &self.buf
    }

    /// The mode; the same as reading the `mode` field.
    pub fn current_mode(&self) -> (r: Mode)
        ensures
            r == self.mode_of(),
    {
        self.mode
    }

    /// Rows touched by the last change; the same as reading `last_touched`.
    pub fn touched_rows(&self) -> (r: Option<(usize, usize)>)
        ensures
            r == self.touched(),
    {
        self.last_touched
    }

    /// The keys of the command typed so far.
    pub fn pending_keys(&self) -> (r: &[Key])
        ensures
            r@ == self.pending_seq(),
    {
        self.pending.as_slice()
    }

    /// The selection in Visual modes, from its first to its last position:
    /// the anchor and the cursor, in order.
    pub open spec fn visual_range_spec(&self) -> Option<(Pos, Pos)> {
        if self.mode_of() == Mode::Visual || self.mode_of() == Mode::VisualLine {
            let (a, b) = (self.anchor(), self.cursor());
            Some(if pos_le(a, b) { (a, b) } else { (b, a) })
        } else {
            None
        }
    }

    /// The selection in Visual modes, from its first to its last position.
    pub fn visual_range(&self) -> (r: Option<(Pos, Pos)>)
        ensures
            r == self.visual_range_spec(),
    {
        match self.mode {
            Mode::Visual | Mode::VisualLine => {
                let a = self.visual_anchor;
                let b = self.buf.cursor_pos();
                Some(if a.0 < b.0 || (a.0 == b.0 && a.1 <= b.1) { (a, b) } else { (b, a) })
            },
            _ => None,
        }
    }

    fn snapshot(&self) -> (r: Snapshot)
        ensures
            r.sview() == self.snap(),
    {
        Snapshot { lines: copy_text(self.buf.lines_raw()), cursor: self.buf.cursor_pos() }
    }

    proof fn lemma_push_view(s: Seq<Snapshot>, x: Snapshot)
        ensures
            s.push(x).map_values(|v: Snapshot| v.sview()) == s.map_values(|v: Snapshot| v.sview()).push(
                x.sview(),
            ),
    {
        assert(s.push(x).map_values(|v: Snapshot| v.sview()) =~= s.map_values(
            |v: Snapshot| v.sview(),
        ).push(x.sview()));
    }

    proof fn lemma_pop_view(s: Seq<Snapshot>)
        requires
            s.len() > 0,
        ensures
            s.drop_last().map_values(|v: Snapshot| v.sview()) == s.map_values(
                |v: Snapshot| v.sview(),
            ).drop_last(),
    {
        assert(s.drop_last().map_values(|v: Snapshot| v.sview()) =~= s.map_values(
            |v: Snapshot| v.sview(),
        ).drop_last());
    }

    /// Saves the current state for `u`; a new change forgets what was undone.
    fn push_undo(&mut self)
        ensures
            final(self).undo_seq() == old(self).undo_seq().push(old(self).snap()),
            final(self).redo_seq() == Seq::<(Seq<Seq<char>>, Pos)>::empty(),
            final(self).undo@.len() == old(self).undo@.len() + 1,
            final(self).undo@.drop_last() == old(self).undo@,
            final(self).buf == old(self).buf,
            final(self).mode == old(self).mode,
            final(self).pending == old(self).pending,
            final(self).registers == old(self).registers,
            final(self).visual_anchor == old(self).visual_anchor,
            final(self).last_find == old(self).last_find,
            final(self).last_search == old(self).last_search,
            final(self).cmdline == old(self).cmdline,
            final(self).last_change == old(self).last_change,
            final(self).recording == old(self).recording,
            final(self).replaying == old(self).replaying,
            final(self).last_touched == old(self).last_touched,
    {
        let snap = self.snapshot();
        proof {
            Self::lemma_push_view(self.undo@, snap);
        }
        self.undo.push(snap);
        self.redo.clear();
        assert(self.undo@.drop_last() =~= old(self).undo@);
        assert(self.redo_seq() =~= Seq::<(Seq<Seq<char>>, Pos)>::empty());
    }

    /// Forgets the undo step just saved, for a command that did nothing.
    fn drop_undo(&mut self)
        requires
            old(self).undo@.len() > 0,
        ensures
            final(self).undo@ == old(self).undo@.drop_last(),
            final(self).undo_seq() == old(self).undo_seq().drop_last(),
            final(self).redo == old(self).redo,
            final(self).buf == old(self).buf,
            final(self).mode == old(self).mode,
            final(self).pending == old(self).pending,
            final(self).registers == old(self).registers,
            final(self).visual_anchor == old(self).visual_anchor,
            final(self).last_find == old(self).last_find,
            final(self).last_search == old(self).last_search,
            final(self).cmdline == old(self).cmdline,
            final(self).last_change == old(self).last_change,
            final(self).recording == old(self).recording,
            final(self).replaying == old(self).replaying,
            final(self).last_touched == old(self).last_touched,
    {
        proof {
            Self::lemma_pop_view(self.undo@);
        }
        let _ = self.undo.pop();
    }

    /// Stores text in register `reg`, if one was named, and always in the
    /// unnamed register.
    fn store_register(&mut self, reg: Option<char>, lines: Vec<Vec<char>>, linewise: bool)
        requires
            old(self).regs_ok(),
            reg matches Some(c) ==> reg_name_ok(c),
        ensures
            final(self).regs_ok(),
            final(self).register_view('"') == Some((text_of(lines@), linewise)),
            reg matches Some(c) ==> final(self).register_view(c) == Some((text_of(lines@), linewise)),
            forall|c: char|
                reg_name_ok(c) && slot_of(c) != 0 && reg != Some(c) ==> final(self).register_view(c)
                    == old(self).register_view(c),
            final(self).buf == old(self).buf,
            final(self).mode == old(self).mode,
            final(self).pending == old(self).pending,
            final(self).undo == old(self).undo,
            final(self).redo == old(self).redo,
            final(self).visual_anchor == old(self).visual_anchor,
            final(self).last_find == old(self).last_find,
            final(self).last_search == old(self).last_search,
            final(self).cmdline == old(self).cmdline,
            final(self).last_change == old(self).last_change,
            final(self).recording == old(self).recording,
            final(self).replaying == old(self).replaying,
            final(self).last_touched == old(self).last_touched,
    {
        let value = Register { lines, linewise };
        if let Some(r) = reg {
            let k = slot(r);
            self.registers.set(k, Some(value.copy()));
        }
        self.registers.set(0, Some(value));
        proof {
            assert forall|c: char|
                reg_name_ok(c) && slot_of(c) != 0 && reg != Some(c) implies self.register_view(c)
                == old(self).register_view(c) by {
                if let Some(r) = reg {
                    if slot_of(c) == slot_of(r) {
                        assert(c == r);
                    }
                }
            }
        }
    }

    /// A copy of register `reg`, or of the unnamed register.
    fn register(&self, reg: Option<char>) -> (r: Option<Register>)
        requires
            self.regs_ok(),
            reg matches Some(c) ==> reg_name_ok(c),
        ensures
            match r {
                Some(v) => self.register_view(reg.unwrap_or('"')) == Some(v.rview()),
                None => self.register_view(reg.unwrap_or('"')) is None,
            },
    {
        let name = match reg {
            Some(c) => c,
            None => '"',
        };
        match &self.registers[slot(name)] {
            Some(v) => Some(v.copy()),
            None => None,
        }
    }
}

/// Where a search for the last pattern, in its own direction, puts the
/// cursor; it stays put when nothing matches.
pub open spec fn search_move(t: Seq<Seq<char>>, p: Pos, last: Option<(Seq<char>, bool)>) -> Pos {
    match last {
        Some((pat, dir)) => match search_spec(t, p, pat, dir) {
            Some(q) => q,
            None => p,
        },
        None => p,
    }
}

/// What an Insert-mode key does to the text and the cursor.
pub open spec fn insert_key_effect(t: Seq<Seq<char>>, p: Pos, key: Key) -> (Seq<Seq<char>>, Pos) {
    let (row, col) = p;
    let line = t[row as int];
    match key {
        Key::Char(c) => (
            t.update(row as int, line.take(col as int) + seq![c] + line.skip(col as int)),
            (row, (col + 1) as usize),
        ),
        Key::Tab => (
            t.update(row as int, line.take(col as int) + seq![' ', ' ', ' ', ' '] + line.skip(col as int)),
            (row, (col + 4) as usize),
        ),
        Key::Enter => (
            t.update(row as int, line.take(col as int)).insert(row + 1, line.skip(col as int)),
            ((row + 1) as usize, 0usize),
        ),
        Key::Backspace => if col > 0 {
            (t.update(row as int, line.remove(col - 1)), (row, (col - 1) as usize))
        } else if row > 0 {
            (
                t.remove(row as int).update(row - 1, t[row - 1] + line),
                ((row - 1) as usize, t[row - 1].len() as usize),
            )
        } else {
            (t, p)
        },
        Key::Esc => (t, clamp_spec(t, (row, if col > 0 { (col - 1) as usize } else { 0usize }), false)),
        Key::Ctrl(_) => (t, p),
    }
}

impl Engine {
    /// The change being typed is complete: it becomes what `.` repeats.
    fn finish_change(&mut self)
        ensures
            final(self).recording_seq() is None,
            final(self).change_seq() == (match old(self).recording_seq() {
                Some(k) => k,
                None => old(self).change_seq(),
            }),
            final(self).buf == old(self).buf,
            final(self).mode == old(self).mode,
            final(self).pending == old(self).pending,
            final(self).registers == old(self).registers,
            final(self).undo == old(self).undo,
            final(self).redo == old(self).redo,
            final(self).visual_anchor == old(self).visual_anchor,
            final(self).last_find == old(self).last_find,
            final(self).last_search == old(self).last_search,
            final(self).cmdline == old(self).cmdline,
            final(self).replaying == old(self).replaying,
            final(self).last_touched == old(self).last_touched,
    {
        if let Some(rec) = self.recording.take() {
            self.last_change = rec;
        }
    }

    /// Moves the cursor to the next match of the last search, in the
    /// search's own direction.
    fn do_search(&mut self)
        requires
            old(self).wf(),
        ensures
            final(self).wf(),
            final(self).text() == old(self).text(),
            final(self).cursor() == search_move(old(self).text(), old(self).cursor(), old(self).search_view()),
            final(self).keeps_state(old(self)),
            final(self).last_touched == old(self).last_touched,
    {
        let pos = self.buf.cursor_pos();
        let found = match &self.last_search {
            Some((pattern, dir)) => search(&self.buf, pos, pattern.as_str(), *dir),
            None => None,
        };
        if let Some(p) = found {
            self.buf.set_cursor(p);
        }
    }

    /// A key typed at the search prompt.
    fn feed_cmdline(&mut self, key: Key) -> (r: StepResult)
        requires
            old(self).wf(),
            old(self).cmdline is Some,
        ensures
            final(self).wf(),
            final(self).visual_anchor == old(self).visual_anchor && final(self).last_find == old(self).last_find && final(self).last_touched == old(self).last_touched,
            final(self).records_kept(old(self)),
            final(self).text() == old(self).text(),
            final(self).mode == old(self).mode,
            final(self).pending == old(self).pending,
            final(self).undo == old(self).undo,
            final(self).redo == old(self).redo,
            final(self).registers == old(self).registers,
            ({
                let (typed, fwd) = old(self).cmdline_view().unwrap();
                match key {
                    Key::Esc => r == StepResult::Consumed && final(self).cmdline_view() is None
                        && final(self).cursor() == old(self).cursor()
                        && final(self).last_search == old(self).last_search,
                    Key::Enter => {
                        let last = if typed.len() > 0 { Some((typed, fwd)) } else { old(self).search_view() };
                        &&& r == StepResult::Consumed
                        &&& final(self).cmdline_view() is None
                        &&& final(self).search_view() == last
                        &&& final(self).cursor() == search_move(old(self).text(), old(self).cursor(), last)
                    },
                    Key::Backspace => r == StepResult::Pending && final(self).cmdline_view() == Some(
                        (if typed.len() == 0 { typed } else { typed.drop_last() }, fwd),
                    ) && final(self).cursor() == old(self).cursor()
                        && final(self).last_search == old(self).last_search,
                    Key::Char(c) => r == StepResult::Pending && final(self).cmdline_view() == Some(
                        (typed.push(c), fwd),
                    ) && final(self).cursor() == old(self).cursor()
                        && final(self).last_search == old(self).last_search,
                    _ => r == StepResult::Ignored && final(self).cmdline == old(self).cmdline
                        && final(self).cursor() == old(self).cursor()
                        && final(self).last_search == old(self).last_search,
                }
            }),
    {
        match key {
            Key::Esc => {
                self.cmdline = None;
                StepResult::Consumed
            },
            Key::Enter => {
                let (text, forward) = self.cmdline.take().unwrap();
                if !text.as_str().is_empty() {
                    self.last_search = Some((text, forward));
                }
                // Search the way the prompt was opened: `?` looks backwards.
                self.do_search();
                StepResult::Consumed
            },
            Key::Backspace => {
                let (mut text, forward) = self.cmdline.take().unwrap();
                pop_char(&mut text);
                self.cmdline = Some((text, forward));
                StepResult::Pending
            },
            Key::Char(c) => {
                let (mut text, forward) = self.cmdline.take().unwrap();
                push_char(&mut text, c);
                self.cmdline = Some((text, forward));
                StepResult::Pending
            },
            _ => StepResult::Ignored,
        }
    }

    /// Types one character at the cursor.
    fn insert_char(&mut self, c: char)
        requires
            old(self).wf(),
        ensures
            final(self).wf(),
            final(self).last_touched == Some((old(self).cursor().0, old(self).cursor().0)),
            (final(self).text(), final(self).cursor()) == insert_key_effect(
                old(self).text(),
                old(self).cursor(),
                Key::Char(c),
            ),
            final(self).keeps_state(old(self)),
    {
        let (row, col0) = self.buf.cursor_pos();
        let len = self.buf.line_len(row);
        let col = if col0 < len { col0 } else { len };
        let ghost line = self.buf.text()[row as int];
        {
            let l = self.buf.line_mut(row);
            l.insert(col, c);
            assert(l@ =~= line.take(col as int) + seq![c] + line.skip(col as int));
        }
        let newlen = self.buf.line_len(row);
        assert(newlen == len + 1);
        self.buf.set_cursor((row, col + 1));
        self.last_touched = Some((row, row));
    }

    /// `<Tab>` in Insert mode: four spaces.
    fn insert_tab(&mut self)
        requires
            old(self).wf(),
        ensures
            final(self).wf(),
            final(self).last_touched == Some((old(self).cursor().0, old(self).cursor().0)),
            (final(self).text(), final(self).cursor()) == insert_key_effect(
                old(self).text(),
                old(self).cursor(),
                Key::Tab,
            ),
            final(self).keeps_state(old(self)),
    {
        let (row, col0) = self.buf.cursor_pos();
        let len = self.buf.line_len(row);
        let col = if col0 < len { col0 } else { len };
        let ghost line = self.buf.text()[row as int];
        {
            let l = self.buf.line_mut(row);
            l.insert(col, ' ');
            assert(l@ =~= line.take(col as int) + seq![' '] + line.skip(col as int));
            // Reading the length after each insertion bounds it by `usize::MAX`.
            let _n1 = l.len();
            l.insert(col + 1, ' ');
            assert(l@ =~= line.take(col as int) + seq![' ', ' '] + line.skip(col as int));
            let _n2 = l.len();
            l.insert(col + 2, ' ');
            assert(l@ =~= line.take(col as int) + seq![' ', ' ', ' '] + line.skip(col as int));
            let _n3 = l.len();
            l.insert(col + 3, ' ');
            assert(l@ =~= line.take(col as int) + seq![' ', ' ', ' ', ' '] + line.skip(col as int));
        }
        let _width = self.buf.line_len(row);
        self.buf.set_cursor((row, col + 4));
        self.last_touched = Some((row, row));
    }

    /// `<CR>` in Insert mode: splits the line at the cursor.
    fn insert_newline(&mut self)
        requires
            old(self).wf(),
        ensures
            final(self).wf(),
            final(self).last_touched == Some((old(self).cursor().0, (old(self).cursor().0 + 1) as usize)),
            (final(self).text(), final(self).cursor()) == insert_key_effect(
                old(self).text(),
                old(self).cursor(),
                Key::Enter,
            ),
            final(self).keeps_state(old(self)),
    {
        let ghost t = self.buf.text();
        let count = self.buf.line_count();
        let (row, col0) = self.buf.cursor_pos();
        let line = self.buf.line(row);
        let len = line.len();
        let col = if col0 < len { col0 } else { len };
        let head = sub_chars(line, 0, col);
        let tail = sub_chars(line, col, len);
        proof {
            assert(head@ =~= t[row as int].take(col as int));
            assert(tail@ =~= t[row as int].skip(col as int));
        }
        self.buf.set_line(row, head);
        self.buf.insert_line(row + 1, tail);
        self.buf.set_cursor((row + 1, 0));
        self.last_touched = Some((row, row + 1));
    }

    /// `<BS>` in Insert mode: deletes the character before the cursor, or
    /// joins the line to the one above.
    fn insert_backspace(&mut self)
        requires
            old(self).wf(),
        ensures
            final(self).wf(),
            final(self).last_touched == Some((if old(self).cursor().0 > 0 { (old(self).cursor().0 - 1) as usize } else { 0usize }, old(self).cursor().0)),
            (final(self).text(), final(self).cursor()) == insert_key_effect(
                old(self).text(),
                old(self).cursor(),
                Key::Backspace,
            ),
            final(self).keeps_state(old(self)),
    {
        let ghost t = self.buf.text();
        let (row, col) = self.buf.cursor_pos();
        if col > 0 {
            let l = self.buf.line_mut(row);
            l.remove(col - 1);
            self.buf.set_cursor((row, col - 1));
        } else if row > 0 {
            let cur = self.buf.remove_line(row);
            let prev_len = self.buf.line_len(row - 1);
            {
                let l = self.buf.line_mut(row - 1);
                extend_chars(l, cur.as_slice());
            }
            self.buf.set_cursor((row - 1, prev_len));
        }
        self.last_touched = Some((if row > 0 { row - 1 } else { 0 }, row));
    }

    /// `<Esc>` in Insert mode: back to Normal mode, the cursor one step left.
    fn insert_escape(&mut self)
        requires
            old(self).wf(),
        ensures
            final(self).wf(),
            final(self).last_touched == old(self).last_touched,
            final(self).recording_seq() is None,
            final(self).change_seq() == (match old(self).recording_seq() {
                Some(k) => k,
                None => old(self).change_seq(),
            }),
            (final(self).text(), final(self).cursor()) == insert_key_effect(
                old(self).text(),
                old(self).cursor(),
                Key::Esc,
            ),
            final(self).mode == Mode::Normal,
            final(self).pending == old(self).pending,
            final(self).registers == old(self).registers,
            final(self).undo == old(self).undo,
            final(self).redo == old(self).redo,
            final(self).visual_anchor == old(self).visual_anchor,
            final(self).last_find == old(self).last_find,
            final(self).last_search == old(self).last_search,
            final(self).cmdline == old(self).cmdline,
            final(self).replaying == old(self).replaying,
    {
        let ghost t = self.buf.text();
        self.mode = Mode::Normal;
        let (row, col) = self.buf.cursor_pos();
        if col > 0 {
            self.buf.set_cursor((row, col - 1));
        }
        self.buf.clamp_cursor(false);
        self.finish_change();
        proof {
            crate::domain::buffer::lemma_clamp_in(t, (row, if col > 0 { (col - 1) as usize } else { 0usize }), false);
        }
    }

    /// A key typed in Insert mode.
    fn feed_insert(&mut self, key: Key) -> (r: StepResult)
        requires
            old(self).wf(),
        ensures
            final(self).wf(),
            final(self).last_touched == insert_touched(old(self).last_touched, old(self).cursor(), key),
            (final(self).text(), final(self).cursor()) == insert_key_effect(
                old(self).text(),
                old(self).cursor(),
                key,
            ),
            final(self).mode == (if key == Key::Esc { Mode::Normal } else { old(self).mode }),
            !(key is Ctrl) ==> r == StepResult::Consumed,
            key is Ctrl ==> (r is Unsupported && r->Unsupported_0@ == unsupported_name(
                Unsupported::InsertCtrl,
            )),
            final(self).pending == old(self).pending,
            final(self).registers == old(self).registers,
            final(self).undo == old(self).undo,
            final(self).redo == old(self).redo,
            final(self).visual_anchor == old(self).visual_anchor,
            final(self).last_find == old(self).last_find,
            final(self).last_search == old(self).last_search,
            final(self).cmdline == old(self).cmdline,
            final(self).replaying == old(self).replaying,
            key == Key::Esc ==> {
                &&& final(self).recording_seq() is None
                &&& final(self).change_seq() == (match old(self).recording_seq() {
                    Some(k) => k,
                    None => old(self).change_seq(),
                })
            },
            key != Key::Esc ==> final(self).recording == old(self).recording && final(self).last_change
                == old(self).last_change,
    {
        match key {
            Key::Esc => {
                self.insert_escape();
                StepResult::Consumed
            },
            Key::Char(c) => {
                self.insert_char(c);
                StepResult::Consumed
            },
            Key::Tab => {
                self.insert_tab();
                StepResult::Consumed
            },
            Key::Enter => {
                self.insert_newline();
                StepResult::Consumed
            },
            Key::Backspace => {
                self.insert_backspace();
                StepResult::Consumed
            },
            Key::Ctrl(_) => StepResult::Unsupported(unsupported_label(Unsupported::InsertCtrl)),
        }
    }
}

/// What `f`/`t`/`F`/`T` leave for `;` and `,` to repeat.
pub open spec fn next_find(m: MotionKind, lf: Option<(char, bool, bool)>) -> Option<(char, bool, bool)> {
    match m {
        MotionKind::Find { ch, forward, till } => Some((ch, forward, till)),
        _ => lf,
    }
}

pub open spec fn min_col(col: usize, m: nat) -> usize {
    if col <= m {
        col
    } else {
        m as usize
    }
}

/// The line `G` with a count (or `gg`) goes to: the count, kept within the
/// text, counted from one.
pub open spec fn goto_row(count: usize, lines: nat) -> int {
    if count < 1 {
        0
    } else if count > lines {
        lines - 1
    } else {
        count - 1
    }
}

/// One step of a motion from `pos`; `None` where it cannot move (the first
/// or last line, no such character, no match).
pub open spec fn motion_once_spec(
    t: Seq<Seq<char>>,
    m: MotionKind,
    pos: Pos,
    count: usize,
    lf: Option<(char, bool, bool)>,
    ls: Option<(Seq<char>, bool)>,
) -> Option<Pos> {
    let (row, col) = pos;
    let len = line_of(t, row as int).len();
    match m {
        MotionKind::Left => Some((row, if col > 0 { (col - 1) as usize } else { 0usize })),
        MotionKind::Right => Some(
            (row, if col < max_col_of(len, false) { (col + 1) as usize } else { max_col_of(len, false) as usize }),
        ),
        MotionKind::Down => if row + 1 >= t.len() {
            None
        } else {
            Some(((row + 1) as usize, min_col(col, max_col_of(line_of(t, row + 1).len(), false))))
        },
        MotionKind::Up => if row == 0 {
            None
        } else {
            Some(((row - 1) as usize, min_col(col, max_col_of(line_of(t, row - 1).len(), false))))
        },
        MotionKind::WordFwd { big } => Some(next_word_start_spec(t, pos, big)),
        MotionKind::WordBack { big } => Some(prev_word_start_spec(t, pos, big)),
        MotionKind::WordEnd { big } => Some(word_end_spec(t, pos, big)),
        MotionKind::LineStart => Some((row, 0usize)),
        MotionKind::FirstNonBlank => Some((row, first_non_blank_of(line_of(t, row as int)) as usize)),
        MotionKind::LineEnd => Some((row, max_col_of(len, false) as usize)),
        MotionKind::GotoLine => {
            let target = goto_row(count, t.len());
            Some((target as usize, first_non_blank_of(line_of(t, target)) as usize))
        },
        MotionKind::FileEnd => Some(
            ((t.len() - 1) as usize, first_non_blank_of(line_of(t, t.len() - 1)) as usize),
        ),
        MotionKind::ParaFwd => Some(para_fwd_spec(t, pos)),
        MotionKind::ParaBack => Some(para_back_spec(t, pos)),
        MotionKind::Find { ch, forward, till } => find_in_line_spec(t, pos, ch, forward, till),
        MotionKind::RepeatFind { reverse } => match lf {
            Some((ch, f, till)) => find_in_line_spec(t, pos, ch, if reverse { !f } else { f }, till),
            None => None,
        },
        MotionKind::SearchNext { reverse } => match ls {
            Some((pat, f)) => search_spec(t, pos, pat, if reverse { !f } else { f }),
            None => None,
        },
    }
}

/// `k` steps of a motion; `None` as soon as one step cannot move.
pub open spec fn motion_iter(
    t: Seq<Seq<char>>,
    m: MotionKind,
    k: nat,
    pos: Pos,
    count: usize,
    lf: Option<(char, bool, bool)>,
    ls: Option<(Seq<char>, bool)>,
) -> Option<Pos>
    decreases k,
{
    if k == 0 {
        Some(pos)
    } else {
        match motion_once_spec(t, m, pos, count, lf, ls) {
            Some(p) => motion_iter(t, m, (k - 1) as nat, p, count, lf, ls),
            None => None,
        }
    }
}

/// A motion with a count: the step repeated `count` times (at least once).
pub open spec fn motion_spec(
    t: Seq<Seq<char>>,
    m: MotionKind,
    count: usize,
    pos: Pos,
    lf: Option<(char, bool, bool)>,
    ls: Option<(Seq<char>, bool)>,
) -> Option<Pos> {
    motion_iter(t, m, if count == 0 { 1 } else { count as nat }, pos, count, next_find(m, lf), ls)
}

impl Engine {
    fn apply_motion_once(&mut self, m: MotionKind, pos: Pos, count: usize) -> (r: Option<Pos>)
        requires
            old(self).wf(),
            pos_in(old(self).text(), pos),
            old(self).last_find == next_find(m, old(self).last_find),
        ensures
            r == motion_once_spec(old(self).text(), m, pos, count, old(self).last_find, old(self).search_view()),
            r matches Some(p) ==> pos_in(old(self).text(), p),
            *final(self) == *old(self),
    {
        let ghost t = self.buf.text();
        let (row, col) = pos;
        let n = self.buf.line_count();
        let p = match m {
            MotionKind::Left => (row, if col > 0 { col - 1 } else { 0 }),
            MotionKind::Right => {
                let mc = self.buf.max_col(row, false);
                (row, if col < mc { col + 1 } else { mc })
            },
            MotionKind::Down => {
                if row + 1 >= n {
                    return None;
                }
                let mc = self.buf.max_col(row + 1, false);
                (row + 1, if col <= mc { col } else { mc })
            },
            MotionKind::Up => {
                if row == 0 {
                    return None;
                }
                let mc = self.buf.max_col(row - 1, false);
                (row - 1, if col <= mc { col } else { mc })
            },
            MotionKind::WordFwd { big } => next_word_start(&self.buf, pos, big),
            MotionKind::WordBack { big } => prev_word_start(&self.buf, pos, big),
            MotionKind::WordEnd { big } => word_end(&self.buf, pos, big),
            MotionKind::LineStart => (row, 0),
            MotionKind::FirstNonBlank => {
                proof {
                    lemma_first_non_blank_in_line(t[row as int]);
                }
                (row, self.buf.first_non_blank(row))
            },
            MotionKind::LineEnd => (row, self.buf.max_col(row, false)),
            MotionKind::GotoLine => {
                let target = if count < 1 {
                    0
                } else if count > n {
                    n - 1
                } else {
                    count - 1
                };
                proof {
                    lemma_first_non_blank_in_line(t[target as int]);
                }
                return Some((target, self.buf.first_non_blank(target)));
            },
            MotionKind::FileEnd => {
                let last = n - 1;
                proof {
                    lemma_first_non_blank_in_line(t[last as int]);
                }
                return Some((last, self.buf.first_non_blank(last)));
            },
            MotionKind::ParaFwd => para_fwd(&self.buf, pos),
            MotionKind::ParaBack => para_back(&self.buf, pos),
            MotionKind::Find { ch, forward, till } => {
                match find_in_line(&self.buf, pos, ch, forward, till) {
                    Some(p) => p,
                    None => return None,
                }
            },
            MotionKind::RepeatFind { reverse } => {
                let (ch, forward, till) = match self.last_find {
                    Some(f) => f,
                    None => return None,
                };
                let forward = if reverse { !forward } else { forward };
                match find_in_line(&self.buf, pos, ch, forward, till) {
                    Some(p) => p,
                    None => return None,
                }
            },
            MotionKind::SearchNext { reverse } => {
                let found = match &self.last_search {
                    Some((pattern, dir)) => {
                        let forward = if reverse { !*dir } else { *dir };
                        search(&self.buf, pos, pattern.as_str(), forward)
                    },
                    None => None,
                };
                match found {
                    Some(p) => p,
                    None => return None,
                }
            },
        };
        Some(p)
    }

    /// Applies a motion `count` times (at least once) from `from`; `None`
    /// when a step cannot move. `f`/`t` remember their target for `;`.
    fn apply_motion(&mut self, m: MotionKind, count: usize, from: Pos) -> (r: Option<Pos>)
        requires
            old(self).wf(),
            pos_in(old(self).text(), from),
        ensures
            r == motion_spec(old(self).text(), m, count, from, old(self).last_find, old(self).search_view()),
            r matches Some(p) ==> pos_in(old(self).text(), p),
            final(self).last_find == next_find(m, old(self).last_find),
            final(self).buf == old(self).buf,
            final(self).mode == old(self).mode,
            final(self).pending == old(self).pending,
            final(self).registers == old(self).registers,
            final(self).undo == old(self).undo,
            final(self).redo == old(self).redo,
            final(self).visual_anchor == old(self).visual_anchor,
            final(self).last_search == old(self).last_search,
            final(self).cmdline == old(self).cmdline,
            final(self).last_change == old(self).last_change,
            final(self).recording == old(self).recording,
            final(self).replaying == old(self).replaying,
            final(self).last_touched == old(self).last_touched,
    {
        let ghost t = self.buf.text();
        if let MotionKind::Find { ch, forward, till } = m {
            self.last_find = Some((ch, forward, till));
        }
        let ghost lf = self.last_find;
        let ghost ls = self.search_view();
        let total: usize = if count == 0 { 1 } else { count };
        let mut pos = from;
        let mut i: usize = 0;
        while i < total
            invariant
                i <= total,
                total == (if count == 0 { 1 } else { count as nat }),
                self.wf(),
                t == self.buf.text(),
                lf == self.last_find,
                lf == next_find(m, lf),
                lf == next_find(m, old(self).last_find),
                ls == self.search_view(),
                pos_in(t, pos),
                motion_iter(t, m, total as nat, from, count, lf, ls) == motion_iter(
                    t,
                    m,
                    (total - i) as nat,
                    pos,
                    count,
                    lf,
                    ls,
                ),
                self.buf == old(self).buf,
                self.mode == old(self).mode,
                self.pending == old(self).pending,
                self.registers == old(self).registers,
                self.undo == old(self).undo,
                self.redo == old(self).redo,
                self.visual_anchor == old(self).visual_anchor,
                self.last_search == old(self).last_search,
                self.cmdline == old(self).cmdline,
                self.last_change == old(self).last_change,
                self.recording == old(self).recording,
                self.replaying == old(self).replaying,
                self.last_touched == old(self).last_touched,
            decreases total - i,
        {
            match self.apply_motion_once(m, pos, count) {
                Some(p) => pos = p,
                None => return None,
            }
            i = i + 1;
        }
        Some(pos)
    }
}

/// Length of a line's leading whitespace.
pub open spec fn indent_len(line: Seq<char>) -> nat {
    match non_blank_from(line, 0) {
        Some(i) => i as nat,
        None => line.len(),
    }
}

pub proof fn lemma_indent_len(line: Seq<char>)
    ensures
        indent_len(line) <= line.len(),
        indent_spec(line).len() == indent_len(line),
{
    lemma_non_blank_from(line, 0);
}

/// A line's leading whitespace.
pub open spec fn indent_spec(line: Seq<char>) -> Seq<char> {
    line.take(indent_len(line) as int)
}

/// The text left after deleting rows `a..=b`; a text with no lines left
/// keeps one empty line.
pub open spec fn without_rows(t: Seq<Seq<char>>, a: int, b: int) -> Seq<Seq<char>> {
    let rest = t.take(a) + t.skip(b + 1);
    if rest.len() == 0 {
        seq![Seq::<char>::empty()]
    } else {
        rest
    }
}

pub open spec fn min_nat(a: int, b: int) -> int {
    if a <= b {
        a
    } else {
        b
    }
}

/// A range an operator can act on: both ends inside the text, in order,
/// and line-wise ranges start at column zero.
pub open spec fn range_ok(t: Seq<Seq<char>>, s: Pos, e: Pos, lw: bool) -> bool {
    &&& pos_in(t, s)
    &&& pos_in(t, e)
    &&& pos_le(s, e)
    &&& (lw ==> s.1 == 0)
}

/// The text an operator takes from the inclusive range `s..=e`.
pub open spec fn extract_spec(t: Seq<Seq<char>>, s: Pos, e: Pos, lw: bool) -> Seq<Seq<char>> {
    if lw {
        t.subrange(s.0 as int, e.0 + 1)
    } else if s.0 == e.0 {
        let line = t[s.0 as int];
        seq![line.subrange(min_nat(s.1 as int, line.len() as int), min_nat(e.1 + 1, line.len() as int))]
    } else {
        seq![t[s.0 as int].skip(s.1 as int)] + t.subrange(s.0 + 1, e.0 as int) + seq![
            t[e.0 as int].take(min_nat(e.1 + 1, t[e.0 as int].len() as int)),
        ]
    }
}

/// The text and cursor after deleting the inclusive range `s..=e`. A
/// line-wise change keeps one line, indented like the first line deleted.
pub open spec fn delete_spec(t: Seq<Seq<char>>, s: Pos, e: Pos, lw: bool, change: bool) -> (
    Seq<Seq<char>>,
    Pos,
) {
    if lw {
        let rest = without_rows(t, s.0 as int, e.0 as int);
        if change {
            let ind = indent_spec(t[s.0 as int]);
            (rest.insert(s.0 as int, ind), (s.0, ind.len() as usize))
        } else {
            let row = min_nat(s.0 as int, rest.len() - 1);
            (rest, (row as usize, first_non_blank_of(rest[row]) as usize))
        }
    } else if s.0 == e.0 {
        let line = t[s.0 as int];
        let lo = min_nat(s.1 as int, line.len() as int);
        let hi = min_nat(e.1 + 1, line.len() as int);
        (t.update(s.0 as int, line.take(lo) + line.skip(hi)), s)
    } else {
        let head = t[s.0 as int].take(s.1 as int);
        let last = t[e.0 as int];
        let tail = last.skip(min_nat(e.1 + 1, last.len() as int));
        (t.take(s.0 as int) + seq![head + tail] + t.skip(e.0 + 1), s)
    }
}

impl Engine {
    /// The leading whitespace of line `row`.
    fn indent_of(&self, row: usize) -> (r: Vec<char>)
        ensures
            r@ == indent_spec(line_of(self.text(), row as int)),
    {
        let line = self.buf.line(row);
        let mut out: Vec<char> = Vec::new();
        let mut i: usize = 0;
        proof {
            lemma_non_blank_from(line@, 0);
        }
        while i < line.len() && is_whitespace(line[i])
            invariant
                i <= line@.len(),
                out@ == line@.take(i as int),
                non_blank_from(line@, 0) == non_blank_from(line@, i as int),
            decreases line.len() - i,
        {
            out.push(line[i]);
            i = i + 1;
            assert(out@ =~= line@.take(i as int));
        }
        assert(indent_len(line@) == i);
        out
    }

    /// Deletes rows `a..=b`, bottom first.
    fn remove_rows(&mut self, a: usize, b: usize)
        requires
            a <= b < old(self).text().len(),
        ensures
            final(self).text() == without_rows(old(self).text(), a as int, b as int),
            final(self).cursor() == old(self).cursor(),
            final(self).keeps_state(old(self)),
            final(self).last_touched == old(self).last_touched,
    {
        let ghost t = self.buf.text();
        let mut r = b;
        loop
            invariant_except_break
                a <= r <= b,
                self.buf.text() == t.take(r + 1) + t.skip(b + 1),
            invariant
                b < t.len(),
                self.buf.pos() == old(self).buf.pos(),
                self.keeps_state(old(self)),
                self.last_touched == old(self).last_touched,
            ensures
                self.buf.text() == without_rows(t, a as int, b as int),
            decreases r,
        {
            let ghost cur = self.buf.text();
            self.buf.remove_line(r);
            if r == a {
                assert(cur.remove(r as int) =~= t.take(a as int) + t.skip(b + 1));
                break;
            }
            assert(cur.remove(r as int) =~= t.take(r as int) + t.skip(b + 1));
            r = r - 1;
        }
    }

    /// The text in the inclusive range `start..=end`.
    fn extract(&self, start: Pos, end: Pos, linewise: bool) -> (r: Vec<Vec<char>>)
        requires
            range_ok(self.text(), start, end, linewise),
        ensures
            text_of(r@) == extract_spec(self.text(), start, end, linewise),
    {
        let ghost t = self.text();
        let count = self.buf.line_count();
        let mut out: Vec<Vec<char>> = Vec::new();
        if linewise {
            let mut r = start.0;
            while r <= end.0
                invariant
                    start.0 <= r <= end.0 + 1,
                    end.0 < t.len(),
                    count == t.len(),
                    t == self.text(),
                    text_of(out@) == t.subrange(start.0 as int, r as int),
                decreases end.0 + 1 - r,
            {
                let l = self.buf.line(r);
                let copy = sub_chars(l, 0, l.len());
                assert(l@.subrange(0, l@.len() as int) =~= l@);
                proof {
                    lemma_text_of_push(out@, copy);
                }
                out.push(copy);
                assert(text_of(out@) =~= t.subrange(start.0 as int, r + 1));
                r = r + 1;
            }
        } else if start.0 == end.0 {
            let line = self.buf.line(start.0);
            let len = line.len();
            let hi = if end.1 < len { end.1 + 1 } else { len };
            let lo = if start.1 < len { start.1 } else { len };
            out.push(sub_chars(line, lo, hi));
            assert(text_of(out@) =~= extract_spec(t, start, end, linewise));
        } else {
            let first = self.buf.line(start.0);
            out.push(sub_chars(first, start.1, first.len()));
            let mut r = start.0 + 1;
            assert(text_of(out@) =~= seq![t[start.0 as int].skip(start.1 as int)] + t.subrange(
                start.0 + 1,
                r as int,
            ));
            while r < end.0
                invariant
                    start.0 + 1 <= r <= end.0,
                    end.0 < t.len(),
                    t == self.text(),
                    start.1 <= t[start.0 as int].len(),
                    text_of(out@) == seq![t[start.0 as int].skip(start.1 as int)] + t.subrange(
                        start.0 + 1,
                        r as int,
                    ),
                decreases end.0 - r,
            {
                let l = self.buf.line(r);
                let copy = sub_chars(l, 0, l.len());
                assert(l@.subrange(0, l@.len() as int) =~= l@);
                proof {
                    lemma_text_of_push(out@, copy);
                }
                out.push(copy);
                assert(text_of(out@) =~= seq![t[start.0 as int].skip(start.1 as int)] + t.subrange(
                    start.0 + 1,
                    r + 1,
                ));
                r = r + 1;
            }
            let last = self.buf.line(end.0);
            let len = last.len();
            let hi = if end.1 < len { end.1 + 1 } else { len };
            out.push(sub_chars(last, 0, hi));
            assert(text_of(out@) =~= extract_spec(t, start, end, linewise));
        }
        out
    }

    /// Deletes the inclusive range `start..=end`; a line-wise change leaves
    /// an indented empty line to type on.
    fn delete_range(&mut self, start: Pos, end: Pos, linewise: bool, change: bool)
        requires
            old(self).wf(),
            range_ok(old(self).text(), start, end, linewise),
        ensures
            final(self).wf(),
            (final(self).text(), final(self).cursor()) == delete_spec(
                old(self).text(),
                start,
                end,
                linewise,
                change,
            ),
            final(self).keeps_state(old(self)),
            final(self).last_touched == old(self).last_touched,
    {
        let ghost t = self.text();
        if linewise {
            if change {
                let indent = self.indent_of(start.0);
                self.remove_rows(start.0, end.0);
                let len = indent.len();
                self.buf.insert_line(start.0, indent);
                self.buf.set_cursor((start.0, len));
            } else {
                self.remove_rows(start.0, end.0);
                let count = self.buf.line_count();
                let row = if start.0 < count - 1 { start.0 } else { count - 1 };
                proof {
                    lemma_first_non_blank_in_line(self.buf.text()[row as int]);
                }
                let col = self.buf.first_non_blank(row);
                self.buf.set_cursor((row, col));
            }
            return;
        }
        if start.0 == end.0 {
            let len = self.buf.line_len(start.0);
            let e = if end.1 < len { end.1 + 1 } else { len };
            let s = if start.1 < len { start.1 } else { len };
            let l = self.buf.line_mut(start.0);
            let _ = remove_range(l, s, e);
        } else {
            let first = self.buf.line(start.0);
            let mut merged = sub_chars(first, 0, start.1);
            let last = self.buf.line(end.0);
            let len = last.len();
            let hi = if end.1 < len { end.1 + 1 } else { len };
            let tail = sub_chars(last, hi, len);
            assert(tail@ =~= t[end.0 as int].skip(hi as int));
            self.remove_rows(start.0 + 1, end.0);
            extend_chars(&mut merged, tail.as_slice());
            assert(t.take(start.0 + 1) + t.skip(end.0 + 1) =~= without_rows(t, start.0 + 1, end.0 as int));
            self.buf.set_line(start.0, merged);
            assert(self.buf.text() =~= delete_spec(t, start, end, linewise, change).0);
        }
        self.buf.set_cursor(start);
    }
}

/// `cw` on a non-blank character acts like `ce`, as in vim.
pub open spec fn effective_motion(t: Seq<Seq<char>>, cur: Pos, op: char, m: MotionKind) -> MotionKind {
    match m {
        MotionKind::WordFwd { big } => if op == 'c' && (char_at_spec(t, cur) matches Some(c)
            && !spec_is_whitespace(c)) {
            MotionKind::WordEnd { big }
        } else {
            m
        },
        _ => m,
    }
}

/// The whole lines `a..=b` (in either order) as an operator range.
pub open spec fn line_range(t: Seq<Seq<char>>, a: usize, b: usize) -> (Pos, Pos, bool) {
    let (lo, hi) = if a <= b { (a, b) } else { (b, a) };
    ((lo, 0usize), (hi, last_col(line_of(t, hi as int).len())), true)
}

/// The range an operator covers when it moves from `start` to `end`. An
/// exclusive motion leaves out its last position; one that ends at the
/// start of a line stops at the end of the line above.
pub open spec fn motion_range(t: Seq<Seq<char>>, start: Pos, end: Pos, m: MotionKind) -> Option<(Pos, Pos, bool)> {
    if m.is_linewise() {
        Some(line_range(t, start.0, end.0))
    } else {
        let (s, e) = if pos_le(start, end) { (start, end) } else { (end, start) };
        if m.is_inclusive() {
            Some((s, e, false))
        } else if s == e {
            None
        } else if e.1 == 0 {
            if e.0 == 0 {
                None
            } else {
                let e2 = ((e.0 - 1) as usize, last_col(line_of(t, e.0 - 1).len()));
                if pos_le(s, e2) {
                    Some((s, e2, false))
                } else {
                    None
                }
            }
        } else {
            Some((s, (e.0, (e.1 - 1) as usize), false))
        }
    }
}

/// The range of a Visual-mode selection; an anchor left outside the text
/// by a later edit is first pulled back inside it.
pub open spec fn selection_spec(t: Seq<Seq<char>>, mode: Mode, anchor: Pos, cur: Pos) -> Option<(Pos, Pos, bool)> {
    if mode == Mode::Visual || mode == Mode::VisualLine {
        let a0 = clamp_spec(t, anchor, true);
        let (a, b) = if pos_le(a0, cur) { (a0, cur) } else { (cur, a0) };
        if mode == Mode::VisualLine {
            Some(line_range(t, a.0, b.0))
        } else {
            Some((a, b, false))
        }
    } else {
        None
    }
}

/// The inclusive range an operator acts on, and whether it is line-wise.
pub open spec fn resolve_spec(
    t: Seq<Seq<char>>,
    cur: Pos,
    mode: Mode,
    anchor: Pos,
    op: char,
    target: Target,
    lf: Option<(char, bool, bool)>,
    ls: Option<(Seq<char>, bool)>,
) -> Option<(Pos, Pos, bool)> {
    match target {
        Target::Lines(n) => {
            let last = if n == 0 { cur.0 as int } else { min_nat(cur.0 + n - 1, t.len() - 1) };
            Some(line_range(t, cur.0, last as usize))
        },
        Target::Obj(obj) => textobj_spec(t, cur, obj),
        Target::Selection => selection_spec(t, mode, anchor, cur),
        Target::Motion(m0, count) => {
            let m = effective_motion(t, cur, op, m0);
            match motion_spec(t, m, count, cur, lf, ls) {
                Some(end) => motion_range(t, cur, end, m),
                None => None,
            }
        },
    }
}

/// What an operator leaves in the text and the cursor, and its mode after.
pub open spec fn operator_spec(t: Seq<Seq<char>>, cur: Pos, mode: Mode, op: char, s: Pos, e: Pos, lw: bool) -> (
    Seq<Seq<char>>,
    Pos,
    Mode,
) {
    let visual = mode == Mode::Visual || mode == Mode::VisualLine;
    if op == 'y' {
        (t, clamp_spec(t, if lw { (s.0, cur.1) } else { s }, false), if visual { Mode::Normal } else { mode })
    } else {
        let (t2, c2) = delete_spec(t, s, e, lw, op == 'c');
        if op == 'c' {
            (t2, c2, Mode::Insert)
        } else {
            (t2, clamp_spec(t2, c2, false), if visual { Mode::Normal } else { mode })
        }
    }
}

impl Engine {
    /// The range and line-wise flag an operator's target covers, or `None`
    /// when the target is empty or cannot be found.
    fn resolve_target(&mut self, op: char, target: Target) -> (r: Option<(Pos, Pos, bool)>)
        requires
            old(self).wf(),
        ensures
            r == resolve_spec(
                old(self).text(),
                old(self).cursor(),
                old(self).mode,
                old(self).visual_anchor,
                op,
                target,
                old(self).last_find,
                old(self).search_view(),
            ),
            r matches Some((s, e, lw)) ==> range_ok(old(self).text(), s, e, lw),
            final(self).last_find == (match target {
                Target::Motion(m0, _) => next_find(
                    effective_motion(old(self).text(), old(self).cursor(), op, m0),
                    old(self).last_find,
                ),
                _ => old(self).last_find,
            }),
            final(self).buf == old(self).buf,
            final(self).mode == old(self).mode,
            final(self).pending == old(self).pending,
            final(self).registers == old(self).registers,
            final(self).undo == old(self).undo,
            final(self).redo == old(self).redo,
            final(self).visual_anchor == old(self).visual_anchor,
            final(self).last_search == old(self).last_search,
            final(self).cmdline == old(self).cmdline,
            final(self).last_change == old(self).last_change,
            final(self).recording == old(self).recording,
            final(self).replaying == old(self).replaying,
            final(self).last_touched == old(self).last_touched,
    {
        let ghost t = self.text();
        let count = self.buf.line_count();
        let cur = self.buf.cursor_pos();
        match target {
            Target::Lines(n) => {
                let start = cur.0;
                let extra = if n > 0 { n - 1 } else { 0 };
                let end = if extra < count - start { start + extra } else { count - 1 };
                let len = self.buf.line_len(end);
                Some(((start, 0), (end, if len > 0 { len - 1 } else { 0 }), true))
            },
            Target::Obj(obj) => textobj_range(&self.buf, cur, obj),
            Target::Selection => {
                if !(self.mode == Mode::Visual || self.mode == Mode::VisualLine) {
                    return None;
                }
                let (ar, ac) = self.visual_anchor;
                let row = if ar < count { ar } else { count - 1 };
                let alen = self.buf.line_len(row);
                let a0 = (row, if ac <= alen { ac } else { alen });
                let (a, b) = if a0.0 < cur.0 || (a0.0 == cur.0 && a0.1 <= cur.1) { (a0, cur) } else { (cur, a0) };
                if self.mode == Mode::VisualLine {
                    let len = self.buf.line_len(b.0);
                    Some(((a.0, 0), (b.0, if len > 0 { len - 1 } else { 0 }), true))
                } else {
                    Some((a, b, false))
                }
            },
            Target::Motion(m0, n) => {
                let m = match m0 {
                    MotionKind::WordFwd { big } => {
                        let blank_or_none = match self.buf.cur_char() {
                            Some(c) => is_whitespace(c),
                            None => true,
                        };
                        if op == 'c' && !blank_or_none {
                            MotionKind::WordEnd { big }
                        } else {
                            m0
                        }
                    },
                    _ => m0,
                };
                assert(m == effective_motion(t, cur, op, m0));
                let end = match self.apply_motion(m, n, cur) {
                    Some(p) => p,
                    None => return None,
                };
                if m.linewise() {
                    let (lo, hi) = if cur.0 <= end.0 { (cur.0, end.0) } else { (end.0, cur.0) };
                    let len = self.buf.line_len(hi);
                    return Some(((lo, 0), (hi, if len > 0 { len - 1 } else { 0 }), true));
                }
                let (s, e) = if cur.0 < end.0 || (cur.0 == end.0 && cur.1 <= end.1) { (cur, end) } else { (end, cur) };
                if m.inclusive() {
                    return Some((s, e, false));
                }
                if s.0 == e.0 && s.1 == e.1 {
                    return None;
                }
                if e.1 == 0 {
                    if e.0 == 0 {
                        return None;
                    }
                    let len = self.buf.line_len(e.0 - 1);
                    let e2 = (e.0 - 1, if len > 0 { len - 1 } else { 0 });
                    if e2.0 < s.0 || (e2.0 == s.0 && e2.1 < s.1) {
                        return None;
                    }
                    Some((s, e2, false))
                } else {
                    Some((s, (e.0, e.1 - 1), false))
                }
            },
        }
    }

    /// Runs operator `op` (`d`, `c` or `y`) on its target; `false` when the
    /// target covers nothing.
    fn apply_operator(&mut self, op: char, target: Target, reg: Option<char>) -> (r: bool)
        requires
            old(self).wf(),
            reg matches Some(c) ==> reg_name_ok(c),
        ensures
            final(self).wf(),
            match resolve_spec(
                old(self).text(),
                old(self).cursor(),
                old(self).mode,
                old(self).visual_anchor,
                op,
                target,
                old(self).last_find,
                old(self).search_view(),
            ) {
                None => !r && final(self).buf == old(self).buf && final(self).mode == old(self).mode
                    && final(self).registers == old(self).registers && final(self).last_touched == old(
                    self,
                ).last_touched,
                Some((s, e, lw)) => {
                    &&& r ==> final(self).last_touched == Some((s.0, e.0))
                    &&& forall|c: char|
                        reg_name_ok(c) && c != '"' && reg != Some(c) ==> final(self).register_view(c) == old(
                            self,
                        ).register_view(c)
                    &&& final(self).register_view('"') == Some((extract_spec(old(self).text(), s, e, lw), lw))
                    &&& (reg matches Some(c) ==> final(self).register_view(c) == Some(
                        (extract_spec(old(self).text(), s, e, lw), lw),
                    ))
                    &&& (r <==> (op == 'd' || op == 'c' || op == 'y'))
                    &&& r ==> (final(self).text(), final(self).cursor(), final(self).mode) == operator_spec(
                        old(self).text(),
                        old(self).cursor(),
                        old(self).mode,
                        op,
                        s,
                        e,
                        lw,
                    )
                },
            },
            final(self).pending == old(self).pending,
            final(self).undo == old(self).undo,
            final(self).redo == old(self).redo,
            final(self).visual_anchor == old(self).visual_anchor,
            final(self).last_search == old(self).last_search,
            final(self).cmdline == old(self).cmdline,
            final(self).last_change == old(self).last_change,
            final(self).recording == old(self).recording,
            final(self).replaying == old(self).replaying,
            final(self).last_find == (match target {
                Target::Motion(m0, _) => next_find(
                    effective_motion(old(self).text(), old(self).cursor(), op, m0),
                    old(self).last_find,
                ),
                _ => old(self).last_find,
            }),
    {
        let ghost t = self.text();
        let (start, end, linewise) = match self.resolve_target(op, target) {
            Some(x) => x,
            None => return false,
        };
        let text = self.extract(start, end, linewise);
        self.store_register(reg, text, linewise);
        if op == 'y' {
            if self.mode == Mode::Visual || self.mode == Mode::VisualLine {
                self.mode = Mode::Normal;
            }
            let cur = self.buf.cursor_pos();
            self.buf.set_cursor(if linewise { (start.0, cur.1) } else { start });
            self.buf.clamp_cursor(false);
            proof {
                crate::domain::buffer::lemma_clamp_in(t, if linewise { (start.0, cur.1) } else { start }, false);
            }
        } else if op == 'd' || op == 'c' {
            let change = op == 'c';
            self.delete_range(start, end, linewise, change);
            if self.mode == Mode::Visual || self.mode == Mode::VisualLine {
                self.mode = Mode::Normal;
            }
            if change {
                self.mode = Mode::Insert;
            } else {
                let ghost t2 = self.text();
                let ghost c2 = self.cursor();
                self.buf.clamp_cursor(false);
                proof {
                    crate::domain::buffer::lemma_clamp_in(t2, c2, false);
                }
            }
        } else {
            return false;
        }
        self.last_touched = Some((start.0, end.0));
        true
    }
}

/// `n` copies of a sequence, one after another.
pub open spec fn repeat_seq<A>(s: Seq<A>, n: nat) -> Seq<A>
    decreases n,
{
    if n == 0 {
        Seq::empty()
    } else {
        repeat_seq(s, (n - 1) as nat) + s
    }
}

/// Text and cursor after putting register lines `lines` (`lw`: whole lines)
/// `count` times after (or before) the cursor. Several lines put inside a
/// line split it, and are put once. The cursor ends on the last character
/// put; when nothing was put, where the text would have gone, kept on a
/// character.
pub open spec fn put_spec(t: Seq<Seq<char>>, cur: Pos, lines: Seq<Seq<char>>, lw: bool, after: bool, count: usize) -> (
    Seq<Seq<char>>,
    Pos,
) {
    let (row, col) = cur;
    if lw {
        let at = if after { row + 1 } else { row as int };
        let t2 = t.take(at) + repeat_seq(lines, count as nat) + t.skip(at);
        (t2, (at as usize, first_non_blank_of(t2[at]) as usize))
    } else {
        let line = t[row as int];
        let at = if after { min_nat(col + 1, line.len() as int) } else { col as int };
        if lines.len() == 1 {
            let chunk = repeat_seq(lines[0], count as nat);
            let end = at + chunk.len();
            (
                t.update(row as int, line.take(at) + chunk + line.skip(at)),
                (row, if chunk.len() > 0 {
                    (end - 1) as usize
                } else if at < line.len() {
                    at as usize
                } else {
                    last_col(line.len())
                }),
            )
        } else {
            let k = lines.len();
            let t2 = t.take(row as int) + seq![line.take(at) + lines[0]] + lines.subrange(1, k - 1) + seq![
                lines[k - 1] + line.skip(at),
            ] + t.skip(row + 1);
            (t2, ((row + k - 1) as usize, last_col(lines[k - 1].len())))
        }
    }
}

/// A line joined with the next: the next line's leading blanks go, and one
/// space separates the two unless either side is empty.
pub open spec fn joined(a: Seq<char>, b: Seq<char>) -> Seq<char> {
    let tb = b.skip(indent_len(b) as int);
    if a.len() > 0 && tb.len() > 0 {
        a + seq![' '] + tb
    } else {
        a + tb
    }
}

/// Where the cursor goes after joining `a` with the next line: where the
/// two met, kept on a character of the joined line.
pub open spec fn join_col(a: Seq<char>, j: Seq<char>) -> usize {
    if a.len() < j.len() {
        a.len() as usize
    } else {
        last_col(j.len())
    }
}

/// `k` joins of line `row` with the line below, stopping at the last line.
/// The cursor goes where the last join met, on a character.
pub open spec fn join_iter(t: Seq<Seq<char>>, row: int, k: nat, cur: Pos) -> (Seq<Seq<char>>, Pos)
    decreases k,
{
    if k == 0 || row + 1 >= t.len() || row < 0 {
        (t, cur)
    } else {
        let j = joined(t[row], t[row + 1]);
        let t2 = t.remove(row + 1).update(row, j);
        join_iter(t2, row, (k - 1) as nat, (row as usize, join_col(t[row], j)))
    }
}

impl Engine {
    /// Puts a register's text at the cursor, `count` times.
    #[verifier::spinoff_prover]
    #[verifier::rlimit(40)]
    fn put(&mut self, register: Register, after: bool, count: usize)
        requires
            old(self).wf(),
            register.lines@.len() > 0,
            count >= 1,
        ensures
            final(self).wf(),
            (final(self).text(), final(self).cursor()) == put_spec(
                old(self).text(),
                old(self).cursor(),
                register.rview().0,
                register.linewise,
                after,
                count,
            ),
            final(self).keeps_state(old(self)),
            final(self).last_touched == Some(
                put_rows(old(self).cursor(), register.rview().0, register.linewise, after, count),
            ),
    {
        let ghost t = self.text();
        let ghost lines = register.rview().0;
        let (row, col) = self.buf.cursor_pos();
        let count0 = self.buf.line_count();
        if register.linewise {
            let at = if after { row + 1 } else { row };
            let mut inserted: usize = 0;
            let mut k: usize = 0;
            while k < count
                invariant
                    k <= count,
                    at <= t.len(),
                    lines == text_of(register.lines@),
                    self.text() == t.take(at as int) + repeat_seq(lines, k as nat) + t.skip(at as int),
                    inserted == repeat_seq(lines, k as nat).len(),
                    self.buf.pos() == old(self).buf.pos(),
                    self.keeps_state(old(self)),
                decreases count - k,
            {
                let mut j: usize = 0;
                while j < register.lines.len()
                    invariant
                        j <= register.lines@.len(),
                        k < count,
                        at <= t.len(),
                        lines == text_of(register.lines@),
                        self.text() == t.take(at as int) + repeat_seq(lines, k as nat) + lines.take(j as int)
                            + t.skip(at as int),
                        inserted == repeat_seq(lines, k as nat).len() + j,
                        self.buf.pos() == old(self).buf.pos(),
                        self.keeps_state(old(self)),
                    decreases register.lines@.len() - j,
                {
                    let ghost before = self.text();
                    let n = self.buf.line_count();
                    assert(at + inserted <= n);
                    self.buf.insert_line(at + inserted, copy_line(&register.lines[j]));
                    assert(self.text() =~= t.take(at as int) + repeat_seq(lines, k as nat) + lines.take(
                        j + 1,
                    ) + t.skip(at as int));
                    let n2 = self.buf.line_count();
                    assert(inserted < n2);
                    inserted = inserted + 1;
                    j = j + 1;
                }
                assert(lines.take(lines.len() as int) =~= lines);
                k = k + 1;
                assert(repeat_seq(lines, k as nat) == repeat_seq(lines, (k - 1) as nat) + lines);
                assert(self.text() =~= t.take(at as int) + repeat_seq(lines, k as nat) + t.skip(at as int));
            }
            let ghost t2 = self.text();
            assert(repeat_seq(lines, count as nat) == repeat_seq(lines, (count - 1) as nat) + lines);
            assert(at < t2.len());
            proof {
                lemma_first_non_blank_in_line(t2[at as int]);
            }
            let c = self.buf.first_non_blank(at);
            let total = self.buf.line_count();
            assert(at + inserted <= total);
            self.buf.set_cursor((at, c));
            self.last_touched = Some((at, if inserted > 0 { at + inserted - 1 } else { at }));
            return;
        }
        let len = self.buf.line_len(row);
        let at = if after { if col < len { col + 1 } else { len } } else { col };
        if register.lines.len() == 1 {
            let mut chunk: Vec<char> = Vec::new();
            let mut k: usize = 0;
            while k < count
                invariant
                    k <= count,
                    register.lines@.len() == 1,
                    lines == text_of(register.lines@),
                    chunk@ == repeat_seq(lines[0], k as nat),
                decreases count - k,
            {
                extend_chars(&mut chunk, register.lines[0].as_slice());
                k = k + 1;
            }
            let n = chunk.len();
            let line = self.buf.line(row);
            let mut merged = sub_chars(line, 0, at);
            let tail = sub_chars(line, at, len);
            extend_chars(&mut merged, chunk.as_slice());
            extend_chars(&mut merged, tail.as_slice());
            self.buf.set_line(row, merged);
            let newlen = self.buf.line_len(row);
            assert(newlen == at + n + (len - at));
            let c = if n > 0 {
                at + n - 1
            } else if at < len {
                at
            } else if len > 0 {
                len - 1
            } else {
                0
            };
            self.buf.set_cursor((row, c));
            self.last_touched = Some((row, row));
        } else {
            let line = self.buf.line(row);
            let mut first = sub_chars(line, 0, at);
            let tail = sub_chars(line, at, len);
            extend_chars(&mut first, register.lines[0].as_slice());
            self.buf.set_line(row, first);
            let mut at_row = row;
            let mut j: usize = 1;
            while j < register.lines.len()
                invariant
                    1 <= j <= register.lines@.len(),
                    at_row == row + j - 1,
                    row < t.len(),
                    lines == text_of(register.lines@),
                    tail@ == t[row as int].skip(at as int),
                    self.text() == t.take(row as int) + seq![t[row as int].take(at as int) + lines[0]]
                        + lines.subrange(1, j as int) + t.skip(row + 1),
                    self.buf.pos() == old(self).buf.pos(),
                    self.keeps_state(old(self)),
                decreases register.lines@.len() - j,
            {
                let n = self.buf.line_count();
                at_row = at_row + 1;
                self.buf.insert_line(at_row, copy_line(&register.lines[j]));
                j = j + 1;
                assert(self.text() =~= t.take(row as int) + seq![t[row as int].take(at as int) + lines[0]]
                    + lines.subrange(1, j as int) + t.skip(row + 1));
            }
            let last_len = self.buf.line_len(at_row);
            {
                let l = self.buf.line_mut(at_row);
                extend_chars(l, tail.as_slice());
            }
            let k = register.lines.len();
            assert(self.text() =~= put_spec(t, (row, col), lines, false, after, count).0);
            self.buf.set_cursor((at_row, if last_len > 0 { last_len - 1 } else { 0 }));
            self.last_touched = Some((row, at_row));
        }
    }

    /// Joins line `row` with the next `joins` times.
    fn join_lines(&mut self, joins: usize)
        requires
            old(self).wf(),
        ensures
            final(self).wf(),
            (final(self).text(), final(self).cursor()) == join_iter(
                old(self).text(),
                old(self).cursor().0 as int,
                joins as nat,
                old(self).cursor(),
            ),
            final(self).keeps_state(old(self)),
            final(self).last_touched == Some((old(self).cursor().0, old(self).cursor().0)),
    {
        let ghost t0 = self.text();
        let row = self.buf.cursor_pos().0;
        let mut i: usize = 0;
        while i < joins
            invariant
                i <= joins,
                self.wf(),
                self.buf.pos().0 == row,
                join_iter(t0, row as int, joins as nat, old(self).cursor()) == join_iter(
                    self.text(),
                    row as int,
                    (joins - i) as nat,
                    self.cursor(),
                ),
                self.keeps_state(old(self)),
            ensures
                join_iter(t0, row as int, joins as nat, old(self).cursor()) == (self.text(), self.cursor()),
            decreases joins - i,
        {
            let count = self.buf.line_count();
            if row + 1 >= count {
                break;
            }
            let ghost t = self.text();
            let ghost c0 = self.cursor();
            let next = self.buf.remove_line(row + 1);
            let start = indent_len_exec(next.as_slice());
            let trimmed = sub_chars(next.as_slice(), start, next.len());
            assert(trimmed@ =~= t[row + 1].skip(indent_len(t[row + 1]) as int));
            let len = self.buf.line_len(row);
            let ghost mid = self.text();
            assert(mid == t.remove(row + 1));
            {
                let l = self.buf.line_mut(row);
                if l.len() > 0 && trimmed.len() > 0 {
                    l.push(' ');
                }
                extend_chars(l, trimmed.as_slice());
                assert(l@ =~= joined(t[row as int], t[row + 1]));
            }
            assert(self.text() =~= t.remove(row + 1).update(row as int, joined(t[row as int], t[row + 1])));
            let jlen = self.buf.line_len(row);
            let col = if len < jlen {
                len
            } else if jlen > 0 {
                jlen - 1
            } else {
                0
            };
            self.buf.set_cursor((row, col));
            assert(join_iter(t, row as int, (joins - i) as nat, c0) == join_iter(
                self.text(),
                row as int,
                (joins - i - 1) as nat,
                self.cursor(),
            ));
            i = i + 1;
        }
        self.last_touched = Some((row, row));
    }
}

/// Length of the leading whitespace of `line`.
fn indent_len_exec(line: &[char]) -> (r: usize)
    ensures
        r == indent_len(line@),
        r <= line@.len(),
{
    let mut i: usize = 0;
    while i < line.len() && is_whitespace(line[i])
        invariant
            i <= line@.len(),
            non_blank_from(line@, 0) == non_blank_from(line@, i as int),
        decreases line.len() - i,
    {
        i = i + 1;
    }
    proof {
        lemma_non_blank_from(line@, i as int);
    }
    i
}

pub type Snap = (Seq<Seq<char>>, Pos);

/// The text and cursor a saved state gives back: a text saved with no
/// lines comes back as one empty line, and the cursor is kept inside it.
pub open spec fn restore(s: Snap) -> Snap {
    let text = if s.0.len() == 0 { seq![Seq::<char>::empty()] } else { s.0 };
    (text, clamp_spec(text, s.1, false))
}

/// `k` steps back through a history: each step restores the newest saved
/// state and saves the current one on the other history.
pub open spec fn undo_steps(cur: Snap, from: Seq<Snap>, to: Seq<Snap>, k: nat) -> (Snap, Seq<Snap>, Seq<Snap>)
    decreases k,
{
    if k == 0 || from.len() == 0 {
        (cur, from, to)
    } else {
        undo_steps(restore(from.last()), from.drop_last(), to.push(cur), (k - 1) as nat)
    }
}

/// The columns `x`/`X` delete: `count` characters from the cursor, or
/// before it.
pub open spec fn del_char_range(len: nat, col: usize, before: bool, count: usize) -> (int, int) {
    if before {
        (if col >= count { col - count } else { 0 }, col as int)
    } else {
        (col as int, min_nat(col + count, len as int))
    }
}

/// Text and cursor after the keys that start Insert mode.
pub open spec fn insert_entry_spec(t: Seq<Seq<char>>, cur: Pos, kind: InsertKind) -> Snap {
    let (row, col) = cur;
    let line = t[row as int];
    match kind {
        InsertKind::Before => (t, cur),
        InsertKind::After => (t, (row, min_nat(col + 1, line.len() as int) as usize)),
        InsertKind::LineStart => (t, (row, first_non_blank_of(line) as usize)),
        InsertKind::LineEnd => (t, (row, line.len() as usize)),
        InsertKind::OpenBelow => (
            t.insert(row + 1, indent_spec(line)),
            ((row + 1) as usize, indent_len(line) as usize),
        ),
        InsertKind::OpenAbove => (t.insert(row as int, indent_spec(line)), (row, indent_len(line) as usize)),
    }
}

/// The line `r` after `count` characters from `col` are replaced by `ch`.
pub open spec fn replaced(line: Seq<char>, col: int, count: int, ch: char) -> Seq<char> {
    Seq::new(line.len(), |j: int| if col <= j < col + count { ch } else { line[j] })
}

/// The rows a put touches: the lines put, or the line put into.
pub open spec fn put_rows(cur: Pos, lines: Seq<Seq<char>>, lw: bool, after: bool, count: usize) -> (usize, usize) {
    let row = cur.0;
    if lw {
        let at = if after { row + 1 } else { row as int };
        let n = repeat_seq(lines, count as nat).len();
        (at as usize, (if n > 0 { at + n - 1 } else { at }) as usize)
    } else if lines.len() == 1 {
        (row, row)
    } else {
        (row, (row + lines.len() - 1) as usize)
    }
}

impl Engine {
    /// Every register is as it was.
    pub open spec fn regs_kept(o: &Engine, n: &Engine) -> bool {
        forall|c: char| reg_name_ok(c) ==> n.register_view(c) == o.register_view(c)
    }

    /// `v` was stored by register `reg`: the unnamed register and the named
    /// one, if any, hold it; the other named registers are as they were.
    pub open spec fn stored(o: &Engine, n: &Engine, reg: Option<char>, v: (Seq<Seq<char>>, bool)) -> bool {
        &&& n.register_view('"') == Some(v)
        &&& (reg matches Some(c) ==> n.register_view(c) == Some(v))
        &&& forall|c: char| reg_name_ok(c) && c != '"' && reg != Some(c) ==> n.register_view(c) == o.register_view(c)
    }

    /// What command `cmd` does beyond the text, the cursor, the mode and
    /// the history: registers, the remembered find and search, the anchor
    /// of a selection, and the rows it touched.
    pub open spec fn cmd_frame(o: &Engine, cmd: Cmd, n: &Engine) -> bool {
        let t = o.text();
        let (row, col) = o.cursor();
        let line = t[row as int];
        &&& (!(cmd is EnterVisual) ==> n.anchor() == o.anchor())
        &&& (!(cmd is SearchWord) ==> n.search_view() == o.search_view())
        &&& n.find_view() == match cmd {
            Cmd::Move(m, _) => next_find(m, o.find_view()),
            Cmd::Op { op, target, .. } => match target {
                Target::Motion(m0, _) => next_find(effective_motion(t, o.cursor(), op, m0), o.find_view()),
                _ => o.find_view(),
            },
            _ => o.find_view(),
        }
        &&& match cmd {
            Cmd::Op { op, target, reg } => match resolve_spec(
                t,
                o.cursor(),
                o.mode_of(),
                o.anchor(),
                op,
                target,
                o.find_view(),
                o.search_view(),
            ) {
                Some((s, e, lw)) => Self::stored(o, n, reg, (extract_spec(t, s, e, lw), lw)) && n.touched() == Some(
                    (s.0, e.0),
                ),
                None => Self::regs_kept(o, n) && n.touched() is None,
            },
            Cmd::Insert(kind) => Self::regs_kept(o, n) && n.touched() == match kind {
                InsertKind::OpenBelow => Some(((row + 1) as usize, (row + 1) as usize)),
                InsertKind::OpenAbove => Some((row, row)),
                _ => None,
            },
            Cmd::DelChar { before, count, reg } => {
                let (from, to) = del_char_range(line.len(), col, before, count);
                if from >= to {
                    Self::regs_kept(o, n) && n.touched() is None
                } else {
                    Self::stored(o, n, reg, (seq![line.subrange(from, to)], false)) && n.touched() == Some((row, row))
                }
            },
            Cmd::ToEol { op, reg } => Self::stored(o, n, reg, (seq![line.skip(col as int)], false)) && n.touched()
                == Some((row, row)),
            Cmd::SubstChar { count, reg } => {
                let to = min_nat(col + count, line.len() as int);
                Self::stored(o, n, reg, (seq![line.subrange(col as int, to)], false)) && n.touched() == Some((row, row))
            },
            Cmd::SubstLine { reg } => Self::stored(o, n, reg, (seq![line], true)) && n.touched() == Some((row, row)),
            Cmd::Replace { ch, count } => Self::regs_kept(o, n) && n.touched() == (if col + count > line.len() {
                None
            } else {
                Some((row, row))
            }),
            Cmd::Put { after, count, reg } => Self::regs_kept(o, n) && n.touched() == match o.register_view(
                reg.unwrap_or('"'),
            ) {
                Some((lines, lw)) if lines.len() > 0 => Some(put_rows(o.cursor(), lines, lw, after, count)),
                _ => None,
            },
            Cmd::Join(_) => Self::regs_kept(o, n) && n.touched() == Some((row, row)),
            _ => Self::regs_kept(o, n) && n.touched() is None,
        }
    }

    /// A change was saved for `u`: the state before it is the newest undo
    /// step and nothing is left to redo.
    pub open spec fn change_saved(o: &Engine, n: &Engine) -> bool {
        n.undo_seq() == o.undo_seq().push(o.snap()) && n.redo_seq().len() == 0
    }

    /// Undo history, registers and search are untouched.
    pub open spec fn same_rest(o: &Engine, n: &Engine) -> bool {
        &&& n.undo_seq() == o.undo_seq()
        &&& n.redo_seq() == o.redo_seq()
        &&& n.search_view() == o.search_view()
        &&& n.cmdline_view() == o.cmdline_view()
        &&& forall|c: char| reg_name_ok(c) ==> n.register_view(c) == o.register_view(c)
    }

    /// What command `cmd` does, in terms of the engine's model.
    #[verifier::opaque]
    pub open spec fn cmd_effect(o: &Engine, cmd: Cmd, n: &Engine) -> bool {
        let t = o.text();
        let (row, col) = o.cursor();
        let line = t[row as int];
        &&& (!(cmd is StartSearch) && cmd != Cmd::Dot ==> n.cmdline_view() == o.cmdline_view())
        &&& (cmd != Cmd::Dot ==> Self::cmd_frame(o, cmd, n))
        &&& match cmd {
            Cmd::Move(m, k) => {
                let dest = match motion_spec(t, m, k, o.cursor(), o.find_view(), o.search_view()) {
                    Some(p) => p,
                    None => o.cursor(),
                };
                &&& n.text() == t
                &&& n.cursor() == clamp_spec(t, dest, false)
                &&& n.mode_of() == o.mode_of()
                &&& n.find_view() == next_find(m, o.find_view())
                &&& Self::same_rest(o, n)
            },
            Cmd::Op { op, target, reg } => {
                &&& n.redo_seq().len() == 0
                &&& match resolve_spec(
                    t,
                    o.cursor(),
                    o.mode_of(),
                    o.anchor(),
                    op,
                    target,
                    o.find_view(),
                    o.search_view(),
                ) {
                    None => n.undo_seq() == o.undo_seq() && n.text() == t && n.cursor() == o.cursor()
                        && n.mode_of() == o.mode_of(),
                    Some((s, e, lw)) => {
                        &&& n.register_view('"') == Some((extract_spec(t, s, e, lw), lw))
                        &&& (reg matches Some(c) ==> n.register_view(c) == Some((extract_spec(t, s, e, lw), lw)))
                        &&& ((op == 'd' || op == 'c' || op == 'y') ==> Self::change_saved(o, n) && (
                        n.text(),
                        n.cursor(),
                        n.mode_of(),
                    ) == operator_spec(t, o.cursor(), o.mode_of(), op, s, e, lw))
                    },
                }
            },
            Cmd::Insert(kind) => {
                &&& Self::change_saved(o, n)
                &&& (n.text(), n.cursor()) == insert_entry_spec(t, o.cursor(), kind)
                &&& n.mode_of() == Mode::Insert
            },
            Cmd::EnterVisual { linewise } => {
                &&& n.text() == t
                &&& n.cursor() == o.cursor()
                &&& n.mode_of() == (if linewise { Mode::VisualLine } else { Mode::Visual })
                &&& n.anchor() == (if o.mode_of() == Mode::Normal { o.cursor() } else { o.anchor() })
                &&& Self::same_rest(o, n)
            },
            Cmd::DelChar { before, count, reg } => {
                let (from, to) = del_char_range(line.len(), col, before, count);
                &&& n.mode_of() == o.mode_of()
                &&& n.redo_seq().len() == 0
                &&& if from >= to {
                    n.text() == t && n.cursor() == o.cursor() && n.undo_seq() == o.undo_seq()
                } else {
                    let t2 = t.update(row as int, line.take(from) + line.skip(to));
                    &&& Self::change_saved(o, n)
                    &&& n.text() == t2
                    &&& n.cursor() == clamp_spec(t2, (row, from as usize), false)
                    &&& n.register_view('"') == Some((seq![line.subrange(from, to)], false))
                }
            },
            Cmd::ToEol { op, reg } => {
                let t2 = t.update(row as int, line.take(col as int));
                &&& Self::change_saved(o, n)
                &&& n.text() == t2
                &&& n.cursor() == (if op == 'c' { o.cursor() } else { clamp_spec(t2, o.cursor(), false) })
                &&& n.mode_of() == (if op == 'c' { Mode::Insert } else { o.mode_of() })
                &&& n.register_view('"') == Some((seq![line.skip(col as int)], false))
            },
            Cmd::SubstChar { count, reg } => {
                let to = min_nat(col + count, line.len() as int);
                &&& Self::change_saved(o, n)
                &&& n.text() == t.update(row as int, line.take(col as int) + line.skip(to))
                &&& n.cursor() == o.cursor()
                &&& n.mode_of() == Mode::Insert
                &&& n.register_view('"') == Some((seq![line.subrange(col as int, to)], false))
            },
            Cmd::SubstLine { reg } => {
                &&& Self::change_saved(o, n)
                &&& n.text() == t.update(row as int, indent_spec(line))
                &&& n.cursor() == (row, indent_len(line) as usize)
                &&& n.mode_of() == Mode::Insert
                &&& n.register_view('"') == Some((seq![line], true))
            },
            Cmd::Replace { ch, count } => {
                &&& n.mode_of() == o.mode_of()
                &&& if col + count > line.len() {
                    n.text() == t && n.cursor() == o.cursor() && Self::same_rest(o, n)
                } else {
                    &&& Self::change_saved(o, n)
                    &&& n.text() == t.update(row as int, replaced(line, col as int, count as int, ch))
                    &&& n.cursor() == (row, (col + count - 1) as usize)
                    }
            },
            Cmd::Put { after, count, reg } => {
                &&& n.mode_of() == o.mode_of()
                &&& match o.register_view(reg.unwrap_or('"')) {
                    Some((lines, lw)) if lines.len() > 0 => {
                        &&& Self::change_saved(o, n)
                        &&& (n.text(), n.cursor()) == put_spec(t, o.cursor(), lines, lw, after, count)
                            },
                    _ => n.text() == t && n.cursor() == o.cursor() && Self::same_rest(o, n),
                }
            },
            Cmd::Undo(k) => {
                &&& (n.snap(), n.undo_seq(), n.redo_seq()) == undo_steps(o.snap(), o.undo_seq(), o.redo_seq(), k as nat)
                &&& n.mode_of() == o.mode_of()
                &&& n.cmdline_view() == o.cmdline_view()
            },
            Cmd::Redo(k) => {
                &&& (n.snap(), n.redo_seq(), n.undo_seq()) == undo_steps(o.snap(), o.redo_seq(), o.undo_seq(), k as nat)
                &&& n.mode_of() == o.mode_of()
                &&& n.cmdline_view() == o.cmdline_view()
            },
            Cmd::Join(k) => {
                &&& Self::change_saved(o, n)
                &&& (n.text(), n.cursor()) == join_iter(t, row as int, (if k < 2 { 1 } else { k - 1 }) as nat, o.cursor())
                &&& n.mode_of() == o.mode_of()
            },
            Cmd::StartSearch { forward } => {
                &&& n.cmdline_view() == Some((Seq::<char>::empty(), forward))
                &&& n.text() == t
                &&& n.cursor() == o.cursor()
                &&& n.mode_of() == o.mode_of()
                &&& n.undo_seq() == o.undo_seq()
                &&& n.redo_seq() == o.redo_seq()
            },
            Cmd::SearchWord => {
                &&& n.text() == t
                &&& n.mode_of() == o.mode_of()
                &&& n.undo_seq() == o.undo_seq()
                &&& n.redo_seq() == o.redo_seq()
                &&& match word_under_spec(t, o.cursor()) {
                    Some(w) => n.search_view() == Some((w, true)) && n.cursor() == search_move(
                        t,
                        o.cursor(),
                        Some((w, true)),
                    ),
                    None => n.search_view() == o.search_view() && n.cursor() == o.cursor(),
                }
            },
            Cmd::Dot => true,
            Cmd::Escape => {
                &&& n.mode_of() == Mode::Normal
                &&& n.text() == t
                &&& n.cursor() == clamp_spec(t, o.cursor(), false)
                &&& n.undo_seq() == o.undo_seq()
                &&& n.redo_seq() == o.redo_seq()
            },
        }
    }
}

impl Engine {
    /// Starts recording a change that continues in Insert mode.
    fn start_change_record(&mut self, keys: &[Key])
        ensures
            final(self).recording_seq() == (if old(self).replaying { old(self).recording_seq() } else { Some(keys@) }),
            final(self).buf == old(self).buf,
            final(self).mode == old(self).mode,
            final(self).pending == old(self).pending,
            final(self).registers == old(self).registers,
            final(self).undo == old(self).undo,
            final(self).redo == old(self).redo,
            final(self).visual_anchor == old(self).visual_anchor,
            final(self).last_find == old(self).last_find,
            final(self).last_search == old(self).last_search,
            final(self).cmdline == old(self).cmdline,
            final(self).last_change == old(self).last_change,
            final(self).replaying == old(self).replaying,
            final(self).last_touched == old(self).last_touched,
    {
        if !self.replaying {
            self.recording = Some(copy_keys(keys));
        }
    }

    /// Remembers a complete change for `.`.
    fn set_change(&mut self, keys: &[Key])
        ensures
            (final(self).recording_seq(), final(self).change_seq()) == (if old(self).replaying {
                (old(self).recording_seq(), old(self).change_seq())
            } else {
                (None, keys@)
            }),
            final(self).buf == old(self).buf,
            final(self).mode == old(self).mode,
            final(self).pending == old(self).pending,
            final(self).registers == old(self).registers,
            final(self).undo == old(self).undo,
            final(self).redo == old(self).redo,
            final(self).visual_anchor == old(self).visual_anchor,
            final(self).last_find == old(self).last_find,
            final(self).last_search == old(self).last_search,
            final(self).cmdline == old(self).cmdline,
            final(self).replaying == old(self).replaying,
            final(self).last_touched == old(self).last_touched,
    {
        if !self.replaying {
            self.last_change = copy_keys(keys);
            self.recording = None;
        }
    }

    fn cmd_move(&mut self, m: MotionKind, k: usize)
        requires
            old(self).last_touched is None,
            old(self).wf(),
        ensures
            final(self).wf(),
            Self::cmd_effect(old(self), Cmd::Move(m, k), final(self)),
            final(self).records_kept(old(self)),
            final(self).pending == old(self).pending,
    {
        proof {
            reveal(Engine::cmd_effect);
        }
        let ghost t = self.text();
        let cur = self.buf.cursor_pos();
        if let Some(p) = self.apply_motion(m, k, cur) {
            self.buf.set_cursor(p);
        }
        let ghost p = self.cursor();
        self.buf.clamp_cursor(false);
        proof {
            crate::domain::buffer::lemma_clamp_in(t, p, false);
        }
    }

    #[verifier::spinoff_prover]
    #[verifier::rlimit(60)]
    fn cmd_op(&mut self, op: char, target: Target, reg: Option<char>, keys: &[Key])
        requires
            old(self).last_touched is None,
            old(self).wf(),
            op == 'd' || op == 'c' || op == 'y',
            reg matches Some(c) ==> reg_name_ok(c),
        ensures
            final(self).wf(),
            Self::cmd_effect(old(self), Cmd::Op { op, target, reg }, final(self)),
            Self::records_by(old(self), Cmd::Op { op, target, reg }, keys@, final(self)),
            final(self).pending == old(self).pending,
    {
        self.push_undo();
        if op == 'c' {
            self.start_change_record(keys);
        } else if op != 'y' {
            self.set_change(keys);
        }
        let ghost mid = *self;
        if !self.apply_operator(op, target, reg) {
            self.drop_undo();
            self.recording = None;
            assert(self.undo@ =~= old(self).undo@);
        }
        assert(Self::cmd_effect(old(self), Cmd::Op { op, target, reg }, self)) by {
            reveal(Engine::cmd_effect);
        }
    }

    /// Moves to where Insert mode starts, opening a line if asked.
    fn enter_insert(&mut self, kind: InsertKind)
        requires
            old(self).wf(),
        ensures
            final(self).wf(),
            (final(self).text(), final(self).cursor()) == insert_entry_spec(
                old(self).text(),
                old(self).cursor(),
                kind,
            ),
            final(self).mode == Mode::Insert,
            final(self).last_touched == match kind {
                InsertKind::OpenBelow => Some(((old(self).cursor().0 + 1) as usize, (old(self).cursor().0 + 1) as usize)),
                InsertKind::OpenAbove => Some((old(self).cursor().0, old(self).cursor().0)),
                _ => old(self).last_touched,
            },
            final(self).pending == old(self).pending,
            final(self).registers == old(self).registers,
            final(self).undo == old(self).undo,
            final(self).redo == old(self).redo,
            final(self).visual_anchor == old(self).visual_anchor,
            final(self).last_find == old(self).last_find,
            final(self).last_search == old(self).last_search,
            final(self).cmdline == old(self).cmdline,
            final(self).last_change == old(self).last_change,
            final(self).recording == old(self).recording,
            final(self).replaying == old(self).replaying,
    {
        let ghost t = self.text();
        let count = self.buf.line_count();
        let (row, col) = self.buf.cursor_pos();
        match kind {
            InsertKind::Before => {},
            InsertKind::After => {
                let len = self.buf.line_len(row);
                self.buf.set_cursor((row, if col < len { col + 1 } else { len }));
            },
            InsertKind::LineStart => {
                proof {
                    lemma_first_non_blank_in_line(t[row as int]);
                }
                let c = self.buf.first_non_blank(row);
                self.buf.set_cursor((row, c));
            },
            InsertKind::LineEnd => {
                let len = self.buf.line_len(row);
                self.buf.set_cursor((row, len));
            },
            InsertKind::OpenBelow => {
                proof {
                    lemma_indent_len(t[row as int]);
                }
                let indent = self.indent_of(row);
                let len = indent.len();
                self.buf.insert_line(row + 1, indent);
                self.buf.set_cursor((row + 1, len));
                self.last_touched = Some((row + 1, row + 1));
            },
            InsertKind::OpenAbove => {
                proof {
                    lemma_indent_len(t[row as int]);
                }
                let indent = self.indent_of(row);
                let len = indent.len();
                self.buf.insert_line(row, indent);
                self.buf.set_cursor((row, len));
                self.last_touched = Some((row, row));
            },
        }
        self.mode = Mode::Insert;
    }

    fn cmd_insert(&mut self, kind: InsertKind, keys: &[Key])
        requires
            old(self).last_touched is None,
            old(self).wf(),
        ensures
            final(self).wf(),
            Self::cmd_effect(old(self), Cmd::Insert(kind), final(self)),
            Self::records_by(old(self), Cmd::Insert(kind), keys@, final(self)),
            final(self).pending == old(self).pending,
    {
        proof {
            reveal(Engine::cmd_effect);
        }
        self.push_undo();
        self.start_change_record(keys);
        self.enter_insert(kind);
    }

    fn cmd_enter_visual(&mut self, linewise: bool)
        requires
            old(self).last_touched is None,
            old(self).wf(),
        ensures
            final(self).wf(),
            Self::cmd_effect(old(self), Cmd::EnterVisual { linewise }, final(self)),
            final(self).records_kept(old(self)),
            final(self).pending == old(self).pending,
    {
        proof {
            reveal(Engine::cmd_effect);
        }
        if self.mode == Mode::Normal {
            self.visual_anchor = self.buf.cursor_pos();
        }
        self.mode = if linewise { Mode::VisualLine } else { Mode::Visual };
    }

    fn cmd_del_char(&mut self, before: bool, count: usize, reg: Option<char>, keys: &[Key])
        requires
            old(self).last_touched is None,
            old(self).wf(),
            reg matches Some(c) ==> reg_name_ok(c),
        ensures
            final(self).wf(),
            Self::cmd_effect(old(self), Cmd::DelChar { before, count, reg }, final(self)),
            Self::records_by(old(self), Cmd::DelChar { before, count, reg }, keys@, final(self)),
            final(self).pending == old(self).pending,
    {
        proof {
            reveal(Engine::cmd_effect);
        }
        let ghost t = self.text();
        self.push_undo();
        self.set_change(keys);
        let (row, col) = self.buf.cursor_pos();
        let len = self.buf.line_len(row);
        let (from, to) = if before {
            (if col >= count { col - count } else { 0 }, col)
        } else {
            (col, if count < len - col { col + count } else { len })
        };
        if from >= to {
            self.drop_undo();
            assert(self.undo@ =~= old(self).undo@);
            return;
        }
        let removed = {
            let l = self.buf.line_mut(row);
            remove_range(l, from, to)
        };
        let mut lines: Vec<Vec<char>> = Vec::new();
        lines.push(removed);
        assert(text_of(lines@) =~= seq![t[row as int].subrange(from as int, to as int)]);
        self.store_register(reg, lines, false);
        let ghost t2 = self.text();
        self.buf.set_cursor((row, from));
        self.buf.clamp_cursor(false);
        proof {
            crate::domain::buffer::lemma_clamp_in(t2, (row, from), false);
        }
        self.last_touched = Some((row, row));
    }

    fn cmd_to_eol(&mut self, op: char, reg: Option<char>, keys: &[Key])
        requires
            old(self).last_touched is None,
            old(self).wf(),
            reg matches Some(c) ==> reg_name_ok(c),
        ensures
            final(self).wf(),
            Self::cmd_effect(old(self), Cmd::ToEol { op, reg }, final(self)),
            Self::records_by(old(self), Cmd::ToEol { op, reg }, keys@, final(self)),
            final(self).pending == old(self).pending,
    {
        proof {
            reveal(Engine::cmd_effect);
        }
        let ghost t = self.text();
        self.push_undo();
        if op == 'c' {
            self.start_change_record(keys);
        } else {
            self.set_change(keys);
        }
        let (row, col) = self.buf.cursor_pos();
        let len = self.buf.line_len(row);
        let ghost line = t[row as int];
        let removed = if col < len {
            let l = self.buf.line_mut(row);
            let r = remove_range(l, col, len);
            assert(line.skip(len as int) =~= Seq::<char>::empty());
            assert(l@ =~= line.take(col as int));
            assert(r@ =~= line.skip(col as int));
            r
        } else {
            assert(line.take(col as int) =~= line);
            assert(t.update(row as int, line) =~= t);
            assert(line.skip(col as int) =~= Seq::<char>::empty());
            Vec::new()
        };
        assert(self.text() =~= t.update(row as int, t[row as int].take(col as int)));
        let mut lines: Vec<Vec<char>> = Vec::new();
        lines.push(removed);
        assert(text_of(lines@) =~= seq![t[row as int].skip(col as int)]);
        self.store_register(reg, lines, false);
        self.last_touched = Some((row, row));
        if op == 'c' {
            self.mode = Mode::Insert;
            self.buf.set_cursor((row, col));
        } else {
            let ghost t2 = self.text();
            self.buf.clamp_cursor(false);
            proof {
                crate::domain::buffer::lemma_clamp_in(t2, (row, col), false);
            }
        }
    }

    fn cmd_subst_char(&mut self, count: usize, reg: Option<char>, keys: &[Key])
        requires
            old(self).last_touched is None,
            old(self).wf(),
            reg matches Some(c) ==> reg_name_ok(c),
        ensures
            final(self).wf(),
            Self::cmd_effect(old(self), Cmd::SubstChar { count, reg }, final(self)),
            Self::records_by(old(self), Cmd::SubstChar { count, reg }, keys@, final(self)),
            final(self).pending == old(self).pending,
    {
        proof {
            reveal(Engine::cmd_effect);
        }
        let ghost t = self.text();
        self.push_undo();
        self.start_change_record(keys);
        let (row, col) = self.buf.cursor_pos();
        let len = self.buf.line_len(row);
        let to = if count < len - col { col + count } else { len };
        let removed = {
            let l = self.buf.line_mut(row);
            remove_range(l, col, to)
        };
        let mut lines: Vec<Vec<char>> = Vec::new();
        lines.push(removed);
        assert(text_of(lines@) =~= seq![t[row as int].subrange(col as int, to as int)]);
        self.store_register(reg, lines, false);
        self.mode = Mode::Insert;
        self.last_touched = Some((row, row));
    }

    fn cmd_subst_line(&mut self, reg: Option<char>, keys: &[Key])
        requires
            old(self).last_touched is None,
            old(self).wf(),
            reg matches Some(c) ==> reg_name_ok(c),
        ensures
            final(self).wf(),
            Self::cmd_effect(old(self), Cmd::SubstLine { reg }, final(self)),
            Self::records_by(old(self), Cmd::SubstLine { reg }, keys@, final(self)),
            final(self).pending == old(self).pending,
    {
        proof {
            reveal(Engine::cmd_effect);
        }
        let ghost t = self.text();
        self.push_undo();
        self.start_change_record(keys);
        let row = self.buf.cursor_pos().0;
        let line = self.buf.line(row);
        let old_line = sub_chars(line, 0, line.len());
        assert(old_line@ =~= t[row as int]);
        proof {
            lemma_indent_len(t[row as int]);
        }
        let indent = self.indent_of(row);
        let mut lines: Vec<Vec<char>> = Vec::new();
        lines.push(old_line);
        assert(text_of(lines@) =~= seq![t[row as int]]);
        self.store_register(reg, lines, true);
        let indent_len = indent.len();
        self.buf.set_line(row, indent);
        self.buf.set_cursor((row, indent_len));
        self.mode = Mode::Insert;
        self.last_touched = Some((row, row));
    }

    fn cmd_replace(&mut self, ch: char, count: usize, keys: &[Key])
        requires
            old(self).last_touched is None,
            old(self).wf(),
            count >= 1,
        ensures
            final(self).wf(),
            Self::cmd_effect(old(self), Cmd::Replace { ch, count }, final(self)),
            Self::records_by(old(self), Cmd::Replace { ch, count }, keys@, final(self)),
            final(self).pending == old(self).pending,
    {
        proof {
            reveal(Engine::cmd_effect);
        }
        let ghost t = self.text();
        let (row, col) = self.buf.cursor_pos();
        let len = self.buf.line_len(row);
        if count > len - col {
            return;
        }
        self.push_undo();
        self.set_change(keys);
        let ghost line = t[row as int];
        {
            let l = self.buf.line_mut(row);
            let mut i: usize = 0;
            while i < count
                invariant
                    i <= count,
                    col + count <= len,
                    l@.len() == len,
                    line.len() == len,
                    forall|j: int| 0 <= j < len ==> #[trigger] l@[j] == (if col <= j < col + i { ch } else { line[j] }),
                decreases count - i,
            {
                l.set(col + i, ch);
                i = i + 1;
            }
            assert(l@ =~= replaced(line, col as int, count as int, ch));
        }
        self.buf.set_cursor((row, col + count - 1));
        self.last_touched = Some((row, row));
    }

    fn cmd_put(&mut self, after: bool, count: usize, reg: Option<char>, keys: &[Key])
        requires
            old(self).last_touched is None,
            old(self).wf(),
            count >= 1,
            reg matches Some(c) ==> reg_name_ok(c),
        ensures
            final(self).wf(),
            Self::cmd_effect(old(self), Cmd::Put { after, count, reg }, final(self)),
            Self::records_by(old(self), Cmd::Put { after, count, reg }, keys@, final(self)),
            final(self).pending == old(self).pending,
    {
        proof {
            reveal(Engine::cmd_effect);
        }
        let register = match self.register(reg) {
            Some(r) => r,
            None => return,
        };
        if register.lines.len() == 0 {
            return;
        }
        self.push_undo();
        self.set_change(keys);
        self.put(register, after, count);
    }

    fn cmd_undo(&mut self, n: usize)
        requires
            old(self).last_touched is None,
            old(self).wf(),
        ensures
            final(self).wf(),
            Self::cmd_effect(old(self), Cmd::Undo(n), final(self)),
            final(self).records_kept(old(self)),
            final(self).pending == old(self).pending,
    {
        proof {
            reveal(Engine::cmd_effect);
        }
        let mut i: usize = 0;
        while i < n
            invariant
                i <= n,
                self.wf(),
                undo_steps(old(self).snap(), old(self).undo_seq(), old(self).redo_seq(), n as nat)
                    == undo_steps(self.snap(), self.undo_seq(), self.redo_seq(), (n - i) as nat),
                self.mode == old(self).mode,
                self.pending == old(self).pending,
                self.cmdline == old(self).cmdline,
                self.records_kept(old(self)),
                self.registers == old(self).registers,
                self.visual_anchor == old(self).visual_anchor,
                self.last_find == old(self).last_find,
                self.last_search == old(self).last_search,
                self.last_touched == old(self).last_touched,
            decreases n - i,
        {
            let ghost before = (self.snap(), self.undo_seq(), self.redo_seq());
            if self.undo.len() > 0 {
                proof {
                    Self::lemma_pop_view(self.undo@);
                }
                let snap = self.undo.pop().unwrap();
                let cur = self.snapshot();
                proof {
                    Self::lemma_push_view(self.redo@, cur);
                }
                self.redo.push(cur);
                self.buf.set_lines(snap.lines);
                self.buf.set_cursor(snap.cursor);
                let ghost t = self.text();
                self.buf.clamp_cursor(false);
                proof {
                    crate::domain::buffer::lemma_clamp_in(t, snap.cursor, false);
                }
            }
            i = i + 1;
        }
    }

    fn cmd_redo(&mut self, n: usize)
        requires
            old(self).last_touched is None,
            old(self).wf(),
        ensures
            final(self).wf(),
            Self::cmd_effect(old(self), Cmd::Redo(n), final(self)),
            final(self).records_kept(old(self)),
            final(self).pending == old(self).pending,
    {
        proof {
            reveal(Engine::cmd_effect);
        }
        let mut i: usize = 0;
        while i < n
            invariant
                i <= n,
                self.wf(),
                undo_steps(old(self).snap(), old(self).redo_seq(), old(self).undo_seq(), n as nat)
                    == undo_steps(self.snap(), self.redo_seq(), self.undo_seq(), (n - i) as nat),
                self.mode == old(self).mode,
                self.pending == old(self).pending,
                self.cmdline == old(self).cmdline,
                self.records_kept(old(self)),
                self.registers == old(self).registers,
                self.visual_anchor == old(self).visual_anchor,
                self.last_find == old(self).last_find,
                self.last_search == old(self).last_search,
                self.last_touched == old(self).last_touched,
            decreases n - i,
        {
            if self.redo.len() > 0 {
                proof {
                    Self::lemma_pop_view(self.redo@);
                }
                let snap = self.redo.pop().unwrap();
                let cur = self.snapshot();
                proof {
                    Self::lemma_push_view(self.undo@, cur);
                }
                self.undo.push(cur);
                self.buf.set_lines(snap.lines);
                self.buf.set_cursor(snap.cursor);
                let ghost t = self.text();
                self.buf.clamp_cursor(false);
                proof {
                    crate::domain::buffer::lemma_clamp_in(t, snap.cursor, false);
                }
            }
            i = i + 1;
        }
    }

    fn cmd_join(&mut self, n: usize, keys: &[Key])
        requires
            old(self).last_touched is None,
            old(self).wf(),
        ensures
            final(self).wf(),
            Self::cmd_effect(old(self), Cmd::Join(n), final(self)),
            Self::records_by(old(self), Cmd::Join(n), keys@, final(self)),
            final(self).pending == old(self).pending,
    {
        proof {
            reveal(Engine::cmd_effect);
        }
        let joins = if n < 2 { 1 } else { n - 1 };
        self.push_undo();
        self.set_change(keys);
        self.join_lines(joins);
    }

    fn cmd_search_word(&mut self)
        requires
            old(self).last_touched is None,
            old(self).wf(),
        ensures
            final(self).wf(),
            Self::cmd_effect(old(self), Cmd::SearchWord, final(self)),
            final(self).records_kept(old(self)),
            final(self).pending == old(self).pending,
    {
        proof {
            reveal(Engine::cmd_effect);
        }
        let cur = self.buf.cursor_pos();
        if let Some(word) = word_under_cursor(&self.buf, cur) {
            self.last_search = Some((word, true));
            self.do_search();
        }
    }

    fn cmd_escape(&mut self)
        requires
            old(self).last_touched is None,
            old(self).wf(),
        ensures
            final(self).wf(),
            Self::cmd_effect(old(self), Cmd::Escape, final(self)),
            final(self).records_kept(old(self)),
            final(self).pending@.len() == 0,
    {
        proof {
            reveal(Engine::cmd_effect);
        }
        let ghost t = self.text();
        let ghost p = self.cursor();
        self.mode = Mode::Normal;
        self.pending.clear();
        self.buf.clamp_cursor(false);
        proof {
            crate::domain::buffer::lemma_clamp_in(t, p, false);
        }
    }
}

/// What one keystroke does to everything but the record of changes, as
/// far as the engine's model shows it. `in_feed`: the key came through
/// `feed`, which also drops a pending command when the key was refused.
///
/// At the search prompt the key edits or runs the search; in Insert mode
/// it edits the text; otherwise it extends the pending command, and the
/// grammar decides: an incomplete command waits, a meaningless one is
/// dropped, an unsupported one is reported, and a complete one runs (`.`
/// itself only clears the pending keys here; `feed` then repeats).
pub open spec fn key_post(o: &Engine, key: Key, r: StepResult, n: &Engine, in_feed: bool) -> bool {
    &&& n.wf()
    &&& if o.cmdline_view() is Some {
        let (typed, fwd) = o.cmdline_view().unwrap();
        &&& n.text() == o.text()
        &&& n.mode_of() == o.mode_of()
        &&& n.undo_seq() == o.undo_seq()
        &&& n.redo_seq() == o.redo_seq()
        &&& n.pending_seq() == o.pending_seq()
        &&& Engine::regs_kept(o, n)
        &&& marks_kept(o, n)
        &&& (key != Key::Enter ==> n.search_view() == o.search_view())
        &&& match key {
            Key::Esc => r == StepResult::Consumed && n.cmdline_view() is None && n.cursor() == o.cursor(),
            Key::Enter => {
                let last = if typed.len() > 0 { Some((typed, fwd)) } else { o.search_view() };
                &&& r == StepResult::Consumed
                &&& n.cmdline_view() is None
                &&& n.search_view() == last
                &&& n.cursor() == search_move(o.text(), o.cursor(), last)
            },
            Key::Backspace => r == StepResult::Pending && n.cmdline_view() == Some(
                (if typed.len() == 0 { typed } else { typed.drop_last() }, fwd),
            ) && n.cursor() == o.cursor(),
            Key::Char(c) => r == StepResult::Pending && n.cmdline_view() == Some((typed.push(c), fwd))
                && n.cursor() == o.cursor(),
            _ => r == StepResult::Ignored && n.cmdline_view() == o.cmdline_view() && n.cursor() == o.cursor(),
        }
    } else if o.mode_of() == Mode::Insert {
        &&& (n.text(), n.cursor()) == insert_key_effect(o.text(), o.cursor(), key)
        &&& n.mode_of() == (if key == Key::Esc { Mode::Normal } else { Mode::Insert })
        &&& Engine::same_rest(o, n)
        &&& n.find_view() == o.find_view()
        &&& n.anchor() == o.anchor()
        &&& n.touched() == insert_touched(o.touched(), o.cursor(), key)
        &&& if key is Ctrl {
            &&& r is Unsupported
            &&& r->Unsupported_0@ == unsupported_name(Unsupported::InsertCtrl)
            &&& if in_feed { n.pending_seq().len() == 0 } else { n.pending_seq() == o.pending_seq() }
        } else {
            r == StepResult::Consumed && n.pending_seq() == o.pending_seq()
        }
    } else {
        let keys = o.pending_seq().push(key);
        match parse_spec(o.mode_of(), keys) {
            Parse::Incomplete => {
                &&& r == StepResult::Pending
                &&& n.pending_seq() == keys
                &&& marks_kept(o, n)
                &&& n.text() == o.text()
                &&& n.cursor() == o.cursor()
                &&& n.mode_of() == o.mode_of()
                &&& Engine::same_rest(o, n)
            },
            Parse::Invalid => {
                &&& r == StepResult::Ignored
                &&& n.pending_seq().len() == 0
                &&& marks_kept(o, n)
                &&& n.text() == o.text()
                &&& n.cursor() == o.cursor()
                &&& n.mode_of() == o.mode_of()
                &&& Engine::same_rest(o, n)
            },
            Parse::Unsupported(u) => {
                &&& r is Unsupported
                &&& r->Unsupported_0@ == unsupported_name(u)
                &&& marks_kept(o, n)
                &&& n.pending_seq().len() == 0
                &&& n.text() == o.text()
                &&& n.cursor() == o.cursor()
                &&& n.mode_of() == o.mode_of()
                &&& Engine::same_rest(o, n)
            },
            Parse::Done(cmd, _) => {
                &&& r == StepResult::Consumed
                &&& n.pending_seq().len() == 0
                &&& if cmd == Cmd::Dot {
                    dot_taken(o, n)
                } else {
                    Engine::cmd_effect(o, cmd, n)
                }
            },
        }
    }
}

/// The remembered find, the anchor of a selection and the touched rows are
/// as they were.
pub open spec fn marks_kept(o: &Engine, n: &Engine) -> bool {
    &&& n.find_view() == o.find_view()
    &&& n.anchor() == o.anchor()
    &&& n.touched() == o.touched()
}

/// The rows a key typed in Insert mode touches: its line, the line split
/// with the next, or the line joined to the one above.
pub open spec fn insert_touched(t0: Option<(usize, usize)>, cur: Pos, key: Key) -> Option<(usize, usize)> {
    let row = cur.0;
    match key {
        Key::Char(_) => Some((row, row)),
        Key::Tab => Some((row, row)),
        Key::Enter => Some((row, (row + 1) as usize)),
        Key::Backspace => Some((if row > 0 { (row - 1) as usize } else { 0usize }, row)),
        _ => t0,
    }
}

/// `.` is taken: the pending keys are gone and nothing else has changed
/// yet but the highlight of touched rows.
pub open spec fn dot_taken(o: &Engine, n: &Engine) -> bool {
    &&& n.text() == o.text()
    &&& n.cursor() == o.cursor()
    &&& n.mode_of() == o.mode_of()
    &&& n.find_view() == o.find_view()
    &&& n.anchor() == o.anchor()
    &&& n.touched() is None
    &&& Engine::same_rest(o, n)
}

/// The recording as `feed` extends it before handling the key: a change
/// still being typed takes in every key.
pub open spec fn rec_push(rec: Option<Seq<Key>>, key: Key) -> Option<Seq<Key>> {
    match rec {
        Some(s) => Some(s.push(key)),
        None => None,
    }
}

/// What command `cmd`, typed as `keys`, does to the record of changes,
/// from recording `rec`: (recording, last change). A change that goes on
/// in Insert mode starts a recording; one that is complete at once becomes
/// the last change; an operator with nothing to act on drops the
/// recording. While `.` repeats, nothing new is recorded.
pub open spec fn cmd_records(o: &Engine, cmd: Cmd, keys: Seq<Key>, rec: Option<Seq<Key>>) -> (Option<Seq<Key>>, Seq<Key>) {
    let ch = o.change_seq();
    let rep = o.is_replaying();
    let start = (if rep { rec } else { Some(keys) }, ch);
    let set = if rep { (rec, ch) } else { (None, keys) };
    let t = o.text();
    let (row, col) = o.cursor();
    match cmd {
        Cmd::Op { op, target, reg } => {
            let found = resolve_spec(
                t,
                o.cursor(),
                o.mode_of(),
                o.anchor(),
                op,
                target,
                o.find_view(),
                o.search_view(),
            ) is Some;
            let (r1, c1) = if op == 'c' {
                start
            } else if op != 'y' {
                set
            } else {
                (rec, ch)
            };
            (if found { r1 } else { None }, c1)
        },
        Cmd::Insert(_) => start,
        Cmd::SubstChar { .. } => start,
        Cmd::SubstLine { .. } => start,
        Cmd::ToEol { op, .. } => if op == 'c' { start } else { set },
        Cmd::DelChar { .. } => set,
        Cmd::Join(_) => set,
        Cmd::Replace { count, .. } => if col + count <= t[row as int].len() { set } else { (rec, ch) },
        Cmd::Put { reg, .. } => match o.register_view(reg.unwrap_or('"')) {
            Some((lines, _)) if lines.len() > 0 => set,
            _ => (rec, ch),
        },
        _ => (rec, ch),
    }
}

/// What a key does to the record of changes, from recording `rec`:
/// (recording, last change). `<Esc>` in Insert mode completes the change
/// being typed.
pub open spec fn records_after(o: &Engine, rec: Option<Seq<Key>>, key: Key) -> (Option<Seq<Key>>, Seq<Key>) {
    if o.cmdline_view() is Some {
        (rec, o.change_seq())
    } else if o.mode_of() == Mode::Insert {
        if key == Key::Esc {
            match rec {
                Some(s) => (None, s),
                None => (None, o.change_seq()),
            }
        } else {
            (rec, o.change_seq())
        }
    } else {
        let keys = o.pending_seq().push(key);
        match parse_spec(o.mode_of(), keys) {
            Parse::Done(cmd, _) => cmd_records(o, cmd, keys, rec),
            _ => (rec, o.change_seq()),
        }
    }
}

/// One key as the engine handles it, `.` only taken: the model's effect
/// and the record of changes.
pub open spec fn step_post(o: &Engine, key: Key, r: StepResult, n: &Engine) -> bool {
    &&& key_post(o, key, r, n, false)
    &&& (n.recording_seq(), n.change_seq()) == records_after(o, o.recording_seq(), key)
    &&& n.is_replaying() == o.is_replaying()
}

/// Handling `keys` one after another, from `s`, can end in `m`.
pub open spec fn replay_post(s: Engine, keys: Seq<Key>, m: Engine) -> bool
    decreases keys.len(),
{
    if keys.len() == 0 {
        m == s
    } else {
        exists|e: Engine, r: StepResult|
            #![trigger step_post(&e, keys.last(), r, &m)]
            replay_post(s, keys.drop_last(), e) && step_post(&e, keys.last(), r, &m)
    }
}

/// The key is `.`: it completes the `.` command.
pub open spec fn is_dot(o: &Engine, key: Key) -> bool {
    &&& o.cmdline_view() is None
    &&& o.mode_of() != Mode::Insert
    &&& parse_spec(o.mode_of(), o.pending_seq().push(key)) matches Parse::Done(Cmd::Dot, _)
}

/// Where `.` starts repeating from `o`: the key taken, with recording
/// `rec`, and repeating under way.
pub open spec fn dot_start(o: &Engine, rec: Option<Seq<Key>>, s: &Engine) -> bool {
    &&& s.wf()
    &&& s.pending_seq().len() == 0
    &&& dot_taken(o, s)
    &&& s.recording_seq() == rec
    &&& s.change_seq() == o.change_seq()
    &&& s.is_replaying()
}

/// `n` is `m` with the repeating over.
pub open spec fn dot_end(m: &Engine, n: &Engine) -> bool {
    &&& n.wf() == m.wf()
    &&& n.text() == m.text()
    &&& n.cursor() == m.cursor()
    &&& n.mode_of() == m.mode_of()
    &&& n.pending_seq() == m.pending_seq()
    &&& n.find_view() == m.find_view()
    &&& n.anchor() == m.anchor()
    &&& n.touched() == m.touched()
    &&& Engine::same_rest(m, n)
    &&& n.recording_seq() == m.recording_seq()
    &&& n.change_seq() == m.change_seq()
    &&& !n.is_replaying()
}

/// What one keystroke fed to the engine does, as far as the engine's model
/// shows it: the key's effect and the record of changes, or, for `.`, the
/// keys of the last change handled again, one after another.
pub open spec fn feed_post(o: &Engine, key: Key, r: StepResult, n: &Engine) -> bool {
    let rec = rec_push(o.recording_seq(), key);
    if is_dot(o, key) {
        &&& r == StepResult::Consumed
        &&& n.wf()
        &&& exists|s: Engine, m: Engine|
            #![trigger replay_post(s, o.change_seq(), m), dot_end(&m, n)]
            dot_start(o, rec, &s) && replay_post(s, o.change_seq(), m) && dot_end(&m, n)
    } else {
        &&& key_post(o, key, r, n, true)
        &&& (n.recording_seq(), n.change_seq()) == records_after(o, rec, key)
        &&& n.is_replaying() == o.is_replaying()
    }
}

impl Engine {
    /// Runs a parsed command; `true` for `.`, which the caller repeats.
    fn exec(&mut self, cmd: Cmd, keys: &[Key]) -> (dot: bool)
        requires
            old(self).wf(),
            cmd_ok(cmd),
        ensures
            final(self).wf(),
            dot == (cmd == Cmd::Dot),
            Self::cmd_effect(old(self), cmd, final(self)),
            cmd != Cmd::Dot && cmd != Cmd::Escape ==> final(self).pending == old(self).pending,
            cmd == Cmd::Escape ==> final(self).pending@.len() == 0,
            Self::records_by(old(self), cmd, keys@, final(self)),
            cmd == Cmd::Dot ==> final(self).last_touched is None && final(self).buf == old(self).buf
                && final(self).keeps_state(old(self)),
    {
        self.last_touched = None;
        let ghost mid = *self;
        match cmd {
            Cmd::Move(m, n) => self.cmd_move(m, n),
            Cmd::Op { op, target, reg } => self.cmd_op(op, target, reg, keys),
            Cmd::Insert(kind) => self.cmd_insert(kind, keys),
            Cmd::EnterVisual { linewise } => self.cmd_enter_visual(linewise),
            Cmd::DelChar { before, count, reg } => self.cmd_del_char(before, count, reg, keys),
            Cmd::ToEol { op, reg } => self.cmd_to_eol(op, reg, keys),
            Cmd::SubstChar { count, reg } => self.cmd_subst_char(count, reg, keys),
            Cmd::SubstLine { reg } => self.cmd_subst_line(reg, keys),
            Cmd::Replace { ch, count } => self.cmd_replace(ch, count, keys),
            Cmd::Put { after, count, reg } => self.cmd_put(after, count, reg, keys),
            Cmd::Undo(n) => self.cmd_undo(n),
            Cmd::Redo(n) => self.cmd_redo(n),
            Cmd::Join(n) => self.cmd_join(n, keys),
            Cmd::StartSearch { forward } => {
                self.cmdline = Some((String::new(), forward));
                assert(self.cmdline_view() == Some((Seq::<char>::empty(), forward)));
                proof {
                    reveal(Engine::cmd_effect);
                }
            },
            Cmd::SearchWord => self.cmd_search_word(),
            Cmd::Dot => {
                proof {
                    reveal(Engine::cmd_effect);
                }
                return true;
            },
            Cmd::Escape => self.cmd_escape(),
        }
        proof {
            Self::lemma_effect_ignores_pending(old(self), &mid, cmd, self);
        }
        false
    }

    /// What a command does does not depend on the keys that were pending.
    proof fn lemma_effect_ignores_pending(a: &Engine, b: &Engine, cmd: Cmd, n: &Engine)
        requires
            a.buf == b.buf,
            a.mode == b.mode,
            a.registers == b.registers,
            a.undo == b.undo,
            a.redo == b.redo,
            a.visual_anchor == b.visual_anchor,
            a.last_find == b.last_find,
            a.last_search == b.last_search,
            a.cmdline == b.cmdline,
        ensures
            Self::cmd_effect(a, cmd, n) == Self::cmd_effect(b, cmd, n),
    {
        reveal(Engine::cmd_effect);
    }

    /// What a key does does not depend on the recording of a change.
    proof fn lemma_key_post_origin(a: &Engine, b: &Engine, key: Key, r: StepResult, n: &Engine, f: bool)
        requires
            a.buf == b.buf,
            a.mode == b.mode,
            a.pending == b.pending,
            a.registers == b.registers,
            a.undo == b.undo,
            a.redo == b.redo,
            a.visual_anchor == b.visual_anchor,
            a.last_find == b.last_find,
            a.last_search == b.last_search,
            a.cmdline == b.cmdline,
            a.last_touched == b.last_touched,
        ensures
            key_post(a, key, r, n, f) == key_post(b, key, r, n, f),
    {
        if let Parse::Done(cmd, _) = parse_spec(a.mode_of(), a.pending_seq().push(key)) {
            Self::lemma_effect_ignores_pending(a, b, cmd, n);
        }
    }

    /// A key in Normal or Visual mode: it extends the pending command.
    fn feed_normal(&mut self, key: Key) -> (r: (StepResult, bool))
        requires
            old(self).wf(),
            old(self).cmdline is None,
            old(self).mode != Mode::Insert,
        ensures
            step_post(old(self), key, r.0, final(self)),
            r.1 <==> is_dot(old(self), key),
    {
        self.pending.push(key);
        let keys = copy_keys(self.pending.as_slice());
        proof {
            lemma_parse_ok(self.mode, keys@);
        }
        match parse(self.mode, keys.as_slice()) {
            Parse::Incomplete => (StepResult::Pending, false),
            Parse::Invalid => {
                self.pending.clear();
                (StepResult::Ignored, false)
            },
            Parse::Unsupported(u) => {
                self.pending.clear();
                (StepResult::Unsupported(unsupported_label(u)), false)
            },
            Parse::Done(cmd, _used) => {
                self.pending.clear();
                let ghost mid = *self;
                let dot = self.exec(cmd, keys.as_slice());
                proof {
                    Self::lemma_effect_ignores_pending(old(self), &mid, cmd, self);
                }
                (StepResult::Consumed, dot)
            },
        }
    }

    /// One keystroke, routed by the engine's state; `true` when it was `.`.
    fn step(&mut self, key: Key) -> (r: (StepResult, bool))
        requires
            old(self).wf(),
        ensures
            step_post(old(self), key, r.0, final(self)),
            r.1 <==> is_dot(old(self), key),
    {
        if self.cmdline.is_some() {
            (self.feed_cmdline(key), false)
        } else if self.mode == Mode::Insert {
            (self.feed_insert(key), false)
        } else {
            self.feed_normal(key)
        }
    }

    /// `.`: handles the keys of the last change again. A `.` met while
    /// repeating does nothing.
    fn repeat_last_change(&mut self)
        requires
            old(self).wf(),
        ensures
            exists|s: Engine, m: Engine|
                #![trigger replay_post(s, old(self).change_seq(), m)]
                s == (Engine { replaying: true, ..*old(self) }) && replay_post(s, old(self).change_seq(), m)
                    && *final(self) == (Engine { replaying: false, ..m }) && m.wf(),
    {
        let change = copy_keys(self.last_change.as_slice());
        self.replaying = true;
        let ghost s = *self;
        assert(change@.take(0) =~= Seq::<Key>::empty());
        let mut i: usize = 0;
        while i < change.len()
            invariant
                i <= change@.len(),
                change@ == old(self).change_seq(),
                s == (Engine { replaying: true, ..*old(self) }),
                self.wf(),
                replay_post(s, change@.take(i as int), *self),
            decreases change.len() - i,
        {
            let ghost e = *self;
            let (r, _) = self.step(change[i]);
            proof {
                let k = change@.take(i as int + 1);
                assert(k.drop_last() =~= change@.take(i as int));
                assert(k.last() == change@[i as int]);
                let cur = *self;
                assert(replay_post(s, k.drop_last(), e) && step_post(&e, k.last(), r, &cur));
                assert(replay_post(s, k, cur));
            }
            i = i + 1;
        }
        assert(change@.take(i as int) =~= change@);
        let ghost m = *self;
        self.replaying = false;
    }

    /// The entry point: one keystroke.
    pub fn feed(&mut self, key: Key) -> (r: StepResult)
        requires
            old(self).wf(),
        ensures
            feed_post(old(self), key, r, final(self)),
    {
        if self.recording.is_some() {
            let mut rec = self.recording.take().unwrap();
            rec.push(key);
            self.recording = Some(rec);
        }
        let ghost mid = *self;
        assert(mid.recording_seq() == rec_push(old(self).recording_seq(), key));
        let (result, dot) = self.step(key);
        let ghost after = *self;
        proof {
            assert(records_after(old(self), rec_push(old(self).recording_seq(), key), key) == records_after(&mid, mid.recording_seq(), key));
        }
        if dot {
            let ghost taken = *self;
            self.repeat_last_change();
            proof {
                let (s, m) = choose|s: Engine, m: Engine|
                    s == (Engine { replaying: true, ..taken }) && replay_post(s, taken.change_seq(), m)
                        && *self == (Engine { replaying: false, ..m }) && m.wf();
                assert(dot_start(old(self), rec_push(old(self).recording_seq(), key), &s));
                assert(dot_end(&m, self));
            }
        }
        if let StepResult::Unsupported(_) = result {
            self.pending.clear();
        }
        proof {
            if !dot {
                Self::lemma_key_post_origin(old(self), &mid, key, result, self, true);
                if !(result is Unsupported) {
                    assert(key_post(&mid, key, result, &after, false));
                }
            }
        }
        result
    }
}

// ---------- laws ----------

/// The keystroke `key` completes, in Normal or Visual mode, a command that
/// is neither `u`, `<C-r>` nor `.`.
pub open spec fn completes_edit(e: &Engine, key: Key) -> bool {
    &&& e.cmdline_view() is None
    &&& e.mode_of() != Mode::Insert
    &&& match parse_spec(e.mode_of(), e.pending_seq().push(key)) {
        Parse::Done(cmd, _) => !(cmd is Undo) && !(cmd is Redo) && cmd != Cmd::Dot,
        _ => false,
    }
}

/// Ready for a new command in Normal mode.
pub open spec fn idle(e: &Engine) -> bool {
    e.cmdline_view() is None && e.mode_of() == Mode::Normal && e.pending_seq().len() == 0
}

/// A command that changes the text saves the state before it for undo.
pub proof fn law_changes_are_saved(e0: &Engine, key: Key, r: StepResult, e1: &Engine)
    requires
        e0.wf(),
        completes_edit(e0, key),
        feed_post(e0, key, r, e1),
        e1.text() != e0.text(),
    ensures
        Engine::change_saved(e0, e1),
{
    reveal(Engine::cmd_effect);
    lemma_parse_ok(e0.mode_of(), e0.pending_seq().push(key));
}

/// `u` right after a change gives back the text from before the change,
/// with the cursor where it was (kept on a character).
pub proof fn law_undo_restores(
    e0: &Engine,
    key: Key,
    r1: StepResult,
    e1: &Engine,
    r2: StepResult,
    e2: &Engine,
)
    requires
        e0.wf(),
        completes_edit(e0, key),
        feed_post(e0, key, r1, e1),
        e1.text() != e0.text(),
        idle(e1),
        feed_post(e1, Key::Char('u'), r2, e2),
    ensures
        e2.text() == e0.text(),
        e2.cursor() == clamp_spec(e0.text(), e0.cursor(), false),
        e2.undo_seq() == e0.undo_seq(),
{
    reveal(Engine::cmd_effect);
    law_changes_are_saved(e0, key, r1, e1);
    assert(e1.pending_seq().push(Key::Char('u')) =~= seq![Key::Char('u')]);
    assert(parse_spec(Mode::Normal, seq![Key::Char('u')]) == Parse::Done(Cmd::Undo(1), 1));
    reveal_with_fuel(undo_steps, 2);
    assert(e1.undo_seq().drop_last() =~= e0.undo_seq());
}

/// `<C-r>` right after `u` gives back the text from before the `u`.
pub proof fn law_redo_after_undo(
    e1: &Engine,
    r2: StepResult,
    e2: &Engine,
    r3: StepResult,
    e3: &Engine,
)
    requires
        e1.wf(),
        idle(e1),
        e1.undo_seq().len() > 0,
        feed_post(e1, Key::Char('u'), r2, e2),
        feed_post(e2, Key::Ctrl('r'), r3, e3),
    ensures
        e3.text() == e1.text(),
        e3.cursor() == clamp_spec(e1.text(), e1.cursor(), false),
{
    reveal(Engine::cmd_effect);
    assert(e1.pending_seq().push(Key::Char('u')) =~= seq![Key::Char('u')]);
    assert(parse_spec(Mode::Normal, seq![Key::Char('u')]) == Parse::Done(Cmd::Undo(1), 1));
    reveal_with_fuel(undo_steps, 2);
    assert(idle(e2));
    assert(e2.pending_seq().push(Key::Ctrl('r')) =~= seq![Key::Ctrl('r')]);
    assert(parse_spec(Mode::Normal, seq![Key::Ctrl('r')]) == Parse::Done(Cmd::Redo(1), 1));
}

/// The key completes, in Normal or Visual mode, a change that is whole at
/// once: `x`/`X`, `J`, `D`, `d` with something to delete, `r` within the
/// line, or `p`/`P` with something to put.
pub open spec fn completes_change(e: &Engine, key: Key) -> bool {
    let t = e.text();
    let (row, col) = e.cursor();
    &&& e.cmdline_view() is None
    &&& e.mode_of() != Mode::Insert
    &&& match parse_spec(e.mode_of(), e.pending_seq().push(key)) {
        Parse::Done(cmd, _) => match cmd {
            Cmd::DelChar { .. } => true,
            Cmd::Join(_) => true,
            Cmd::ToEol { op, .. } => op != 'c',
            Cmd::Op { op, target, .. } => op == 'd' && resolve_spec(
                t,
                e.cursor(),
                e.mode_of(),
                e.anchor(),
                op,
                target,
                e.find_view(),
                e.search_view(),
            ) is Some,
            Cmd::Replace { count, .. } => col + count <= t[row as int].len(),
            Cmd::Put { reg, .. } => e.register_view(reg.unwrap_or('"')) matches Some((lines, _)) && lines.len() > 0,
            _ => false,
        },
        _ => false,
    }
}

/// `.` repeats the last change: a change that is whole at once remembers
/// the keys it was typed with, and `.` typed next handles those keys again
/// from where the change left the engine.
pub proof fn law_dot_repeats_last_change(
    e0: &Engine,
    key: Key,
    r1: StepResult,
    e1: &Engine,
    r2: StepResult,
    e2: &Engine,
)
    requires
        e0.wf(),
        !e0.is_replaying(),
        completes_change(e0, key),
        feed_post(e0, key, r1, e1),
        idle(e1),
        feed_post(e1, Key::Char('.'), r2, e2),
    ensures
        e1.change_seq() == e0.pending_seq().push(key),
        exists|s: Engine, m: Engine|
            #![trigger replay_post(s, e0.pending_seq().push(key), m)]
            dot_start(e1, None, &s) && replay_post(s, e0.pending_seq().push(key), m) && dot_end(&m, e2),
{
    lemma_parse_ok(e0.mode_of(), e0.pending_seq().push(key));
    assert(e1.pending_seq().push(Key::Char('.')) =~= seq![Key::Char('.')]);
    assert(parse_spec(Mode::Normal, seq![Key::Char('.')]) == Parse::Done(Cmd::Dot, 1));
    assert(is_dot(e1, Key::Char('.')));
}

/// Handling `keys` one after another through `feed`, from `e`, can end in `n`.
pub open spec fn feeds_post(e: Engine, keys: Seq<Key>, n: Engine) -> bool
    decreases keys.len(),
{
    if keys.len() == 0 {
        n == e
    } else {
        exists|m: Engine, r: StepResult|
            #![trigger feed_post(&m, keys.last(), r, &n)]
            feeds_post(e, keys.drop_last(), m) && feed_post(&m, keys.last(), r, &n)
    }
}

/// A key the engine does not take as a command (it waits, ignores or
/// refuses it) changes neither the text, the cursor, the mode nor the
/// history; one that it ignores or refuses outside the search prompt also
/// leaves nothing pending.
pub proof fn law_refused_keys_change_nothing(e0: &Engine, key: Key, r: StepResult, e1: &Engine)
    requires
        e0.wf(),
        prompt_clear(e0),
        feed_post(e0, key, r, e1),
        r != StepResult::Consumed,
    ensures
        e1.text() == e0.text(),
        e1.cursor() == e0.cursor(),
        e1.mode_of() == e0.mode_of(),
        e1.undo_seq() == e0.undo_seq(),
        e1.redo_seq() == e0.redo_seq(),
        r is Ignored || r is Unsupported ==> e1.pending_seq().len() == 0,
        r == StepResult::Pending ==> e1.pending_seq().len() > 0 || e1.cmdline_view() is Some,
{
}

/// While the search prompt is open no command keys are pending.
pub open spec fn prompt_clear(e: &Engine) -> bool {
    e.cmdline_view() is Some ==> e.pending_seq().len() == 0
}

proof fn lemma_key_prompt_clear(o: &Engine, key: Key, r: StepResult, n: &Engine, f: bool)
    requires
        prompt_clear(o),
        key_post(o, key, r, n, f),
    ensures
        prompt_clear(n),
{
    reveal(Engine::cmd_effect);
}

proof fn lemma_replay_prompt_clear(s: Engine, keys: Seq<Key>, m: Engine)
    requires
        prompt_clear(&s),
        replay_post(s, keys, m),
    ensures
        prompt_clear(&m),
    decreases keys.len(),
{
    if keys.len() > 0 {
        let (e, r) = choose|e: Engine, r: StepResult|
            replay_post(s, keys.drop_last(), e) && step_post(&e, keys.last(), r, &m);
        lemma_replay_prompt_clear(s, keys.drop_last(), e);
        lemma_key_prompt_clear(&e, keys.last(), r, &m, false);
    }
}

/// Every key keeps the search prompt free of pending command keys; a new
/// engine starts so, with no prompt open.
pub proof fn law_prompt_stays_clear(e0: &Engine, key: Key, r: StepResult, e1: &Engine)
    requires
        prompt_clear(e0),
        feed_post(e0, key, r, e1),
    ensures
        prompt_clear(e1),
{
    if is_dot(e0, key) {
        let (s, m) = choose|s: Engine, m: Engine|
            dot_start(e0, rec_push(e0.recording_seq(), key), &s) && replay_post(s, e0.change_seq(), m) && dot_end(
                &m,
                e1,
            );
        lemma_replay_prompt_clear(s, e0.change_seq(), m);
    } else {
        lemma_key_prompt_clear(e0, key, r, e1, true);
    }
}

/// `v` or `V` typed in Normal mode starts a selection at the cursor.
pub proof fn law_selection_starts_at_cursor(e0: &Engine, key: Key, r: StepResult, e1: &Engine)
    requires
        e0.wf(),
        idle(e0),
        key == Key::Char('v') || key == Key::Char('V'),
        feed_post(e0, key, r, e1),
    ensures
        e1.mode_of() == (if key == Key::Char('v') { Mode::Visual } else { Mode::VisualLine }),
        e1.anchor() == e0.cursor(),
        e1.cursor() == e0.cursor(),
        e1.visual_range_spec() == Some((e0.cursor(), e0.cursor())),
{
    reveal(Engine::cmd_effect);
    assert(e0.pending_seq().push(key) =~= seq![key]);
    if key == Key::Char('v') {
        assert(parse_spec(Mode::Normal, seq![key]) == Parse::Done(Cmd::EnterVisual { linewise: false }, 1));
    } else {
        assert(parse_spec(Mode::Normal, seq![key]) == Parse::Done(Cmd::EnterVisual { linewise: true }, 1));
    }
}

/// A motion in a selection moves only the cursor: the selection keeps its
/// anchor and its mode, and so spans from the anchor to the cursor.
pub proof fn law_selection_follows_the_cursor(e0: &Engine, key: Key, r: StepResult, e1: &Engine)
    requires
        e0.wf(),
        e0.cmdline_view() is None,
        e0.mode_of() == Mode::Visual || e0.mode_of() == Mode::VisualLine,
        parse_spec(e0.mode_of(), e0.pending_seq().push(key)) matches Parse::Done(Cmd::Move(_, _), _),
        feed_post(e0, key, r, e1),
    ensures
        e1.anchor() == e0.anchor(),
        e1.mode_of() == e0.mode_of(),
        e1.text() == e0.text(),
        e1.visual_range_spec() == Some(
            if pos_le(e0.anchor(), e1.cursor()) {
                (e0.anchor(), e1.cursor())
            } else {
                (e1.cursor(), e0.anchor())
            },
        ),
{
    reveal(Engine::cmd_effect);
}

/// Typing in Insert mode keeps the history and stays in Insert mode until
/// `<Esc>`.
proof fn lemma_typing(e1: Engine, ins: Seq<Key>, e: Engine)
    requires
        e1.wf(),
        e1.cmdline_view() is None,
        e1.mode_of() == Mode::Insert,
        e1.pending_seq().len() == 0,
        forall|i: int| 0 <= i < ins.len() ==> ins[i] != Key::Esc,
        feeds_post(e1, ins, e),
    ensures
        e.wf(),
        e.cmdline_view() is None,
        e.mode_of() == Mode::Insert,
        e.pending_seq().len() == 0,
        e.undo_seq() == e1.undo_seq(),
    decreases ins.len(),
{
    if ins.len() > 0 {
        let (m, r) = choose|m: Engine, r: StepResult|
            feeds_post(e1, ins.drop_last(), m) && feed_post(&m, ins.last(), r, &e);
        lemma_typing(e1, ins.drop_last(), m);
        assert(ins.last() == ins[ins.len() - 1]);
    }
}

/// `u` after a change typed through Insert mode (`i`, `a`, `o`, `cw`, `s`,
/// ... then text, then `<Esc>`) gives back the text from before the change,
/// with the cursor where it was (kept on a character).
pub proof fn law_undo_restores_typed_change(
    e0: &Engine,
    key: Key,
    r0: StepResult,
    e1: &Engine,
    ins: Seq<Key>,
    e2: &Engine,
    r3: StepResult,
    e3: &Engine,
    r4: StepResult,
    e4: &Engine,
)
    requires
        e0.wf(),
        completes_edit(e0, key),
        feed_post(e0, key, r0, e1),
        e1.mode_of() == Mode::Insert,
        forall|i: int| 0 <= i < ins.len() ==> ins[i] != Key::Esc,
        feeds_post(*e1, ins, *e2),
        feed_post(e2, Key::Esc, r3, e3),
        feed_post(e3, Key::Char('u'), r4, e4),
    ensures
        e4.text() == e0.text(),
        e4.cursor() == clamp_spec(e0.text(), e0.cursor(), false),
{
    reveal(Engine::cmd_effect);
    lemma_parse_ok(e0.mode_of(), e0.pending_seq().push(key));
    assert(Engine::change_saved(e0, e1));
    lemma_typing(*e1, ins, *e2);
    assert(idle(e3));
    assert(e3.pending_seq().push(Key::Char('u')) =~= seq![Key::Char('u')]);
    assert(parse_spec(Mode::Normal, seq![Key::Char('u')]) == Parse::Done(Cmd::Undo(1), 1));
    reveal_with_fuel(undo_steps, 2);
}

/// Outside Insert mode the cursor stands on a character, or at the start
/// of an empty line.
pub open spec fn on_char(e: &Engine) -> bool {
    e.mode_of() != Mode::Insert ==> e.cursor().1 <= max_col_of(e.text()[e.cursor().0 as int].len(), false)
}

spec fn snap_on_char(s: Snap) -> bool {
    s.1.0 < s.0.len() && s.1.1 <= max_col_of(s.0[s.1.0 as int].len(), false)
}

proof fn lemma_undo_on_char(cur: Snap, from: Seq<Snap>, to: Seq<Snap>, k: nat)
    requires
        snap_on_char(cur),
    ensures
        snap_on_char(undo_steps(cur, from, to, k).0),
    decreases k,
{
    if k > 0 && from.len() > 0 {
        let r = restore(from.last());
        crate::domain::buffer::lemma_clamp_in(r.0, from.last().1, false);
        lemma_undo_on_char(r, from.drop_last(), to.push(cur), (k - 1) as nat);
    }
}

proof fn lemma_join_on_char(t: Seq<Seq<char>>, row: int, k: nat, cur: Pos)
    requires
        cur.0 as int == row,
        0 <= row < t.len(),
        cur.1 <= max_col_of(t[row].len(), false),
    ensures
        join_iter(t, row, k, cur).1.0 as int == row,
        row < join_iter(t, row, k, cur).0.len(),
        join_iter(t, row, k, cur).1.1 <= max_col_of(join_iter(t, row, k, cur).0[row].len(), false),
    decreases k,
{
    if k > 0 && row + 1 < t.len() {
        let j = joined(t[row], t[row + 1]);
        let t2 = t.remove(row + 1).update(row, j);
        assert(t2[row] == j);
        lemma_join_on_char(t2, row, (k - 1) as nat, (row as usize, join_col(t[row], j)));
    }
}

proof fn lemma_put_on_char(t: Seq<Seq<char>>, cur: Pos, lines: Seq<Seq<char>>, lw: bool, after: bool, count: usize)
    requires
        pos_in(t, cur),
        cur.1 <= max_col_of(t[cur.0 as int].len(), false),
        lines.len() > 0,
        count >= 1,
        crate::vim::motion::lines_fit(t),
        crate::vim::motion::lines_fit(put_spec(t, cur, lines, lw, after, count).0),
    ensures
        put_spec(t, cur, lines, lw, after, count).1.0 < put_spec(t, cur, lines, lw, after, count).0.len(),
        put_spec(t, cur, lines, lw, after, count).1.1 <= max_col_of(
            put_spec(t, cur, lines, lw, after, count).0[put_spec(t, cur, lines, lw, after, count).1.0 as int].len(),
            false,
        ),
{
    let (row, col) = cur;
    if lw {
        let at = if after { row + 1 } else { row as int };
        let rs = repeat_seq(lines, count as nat);
        lemma_repeat_len(lines, count as nat);
        assert(lines[0] == lines[0]);
        let t2 = t.take(at) + rs + t.skip(at);
        assert(t2[at] == rs[0]);
        crate::domain::buffer::lemma_first_non_blank_in_line(t2[at]);
    } else {
        let line = t[row as int];
        let at = if after { min_nat(col + 1, line.len() as int) } else { col as int };
        if lines.len() == 1 {
            let chunk = repeat_seq(lines[0], count as nat);
            let t2 = t.update(row as int, line.take(at) + chunk + line.skip(at));
            assert(t2[row as int].len() == line.len() + chunk.len());
            assert(t2[row as int].len() <= usize::MAX);
        } else {
            let k = lines.len();
            let t2 = t.take(row as int) + seq![line.take(at) + lines[0]] + lines.subrange(1, k - 1) + seq![
                lines[k - 1] + line.skip(at),
            ] + t.skip(row + 1);
            assert(t2[row + k - 1] == lines[k - 1] + line.skip(at));
            assert(t2.len() <= usize::MAX);
        }
    }
}

proof fn lemma_repeat_len<A>(s: Seq<A>, n: nat)
    requires
        n > 0,
        s.len() > 0,
    ensures
        repeat_seq(s, n).len() >= s.len(),
        repeat_seq(s, n)[0] == s[0],
    decreases n,
{
    if n > 1 {
        lemma_repeat_len(s, (n - 1) as nat);
    } else {
        assert(repeat_seq(s, 0).len() == 0);
    }
}

/// What one key does keeps the cursor on a character outside Insert mode.
proof fn lemma_key_on_char(o: &Engine, key: Key, r: StepResult, n: &Engine, f: bool)
    requires
        o.wf(),
        on_char(o),
        key_post(o, key, r, n, f),
    ensures
        on_char(n),
{
    reveal(Engine::cmd_effect);
    o.buf.lemma_fits();
    let t = o.text();
    let p = o.cursor();
    crate::domain::buffer::lemma_clamp_in(t, p, false);
    if let Some((pat, dir)) = o.search_view() {
        crate::vim::motion::lemma_search_in(t, p, pat, dir);
    }
    if let Some((typed, fwd)) = o.cmdline_view() {
        crate::vim::motion::lemma_search_in(t, p, typed, fwd);
    } else if o.mode_of() == Mode::Insert {
        if key == Key::Esc {
            crate::domain::buffer::lemma_clamp_in(t, (p.0, if p.1 > 0 { (p.1 - 1) as usize } else { 0usize }), false);
        }
    } else {
        if let Parse::Done(cmd, _) = parse_spec(o.mode_of(), o.pending_seq().push(key)) {
            lemma_parse_ok(o.mode_of(), o.pending_seq().push(key));
            lemma_cmd_on_char(o, cmd, n);
        }
    }
}

proof fn lemma_cmd_on_char(o: &Engine, cmd: Cmd, n: &Engine)
    requires
        o.wf(),
        on_char(o),
        o.mode_of() != Mode::Insert,
        n.wf(),
        cmd != Cmd::Dot ==> Engine::cmd_effect(o, cmd, n),
        cmd == Cmd::Dot ==> dot_taken(o, n),
        cmd_ok(cmd),
    ensures
        on_char(n),
{
    reveal(Engine::cmd_effect);
    o.buf.lemma_fits();
    let t = o.text();
    let p = o.cursor();
    let (row, col) = p;
    match cmd {
        Cmd::Move(m, k) => {
            let dest = match motion_spec(t, m, k, p, o.find_view(), o.search_view()) {
                Some(q) => q,
                None => p,
            };
            crate::domain::buffer::lemma_clamp_in(t, dest, false);
        },
        Cmd::Op { op, target, reg } => {
            if let Some((s, e, lw)) = resolve_spec(t, p, o.mode_of(), o.anchor(), op, target, o.find_view(), o.search_view()) {
                if op == 'y' {
                    crate::domain::buffer::lemma_clamp_in(t, if lw { (s.0, p.1) } else { s }, false);
                } else if op != 'c' {
                    let (t2, c2) = delete_spec(t, s, e, lw, false);
                    crate::domain::buffer::lemma_clamp_in(t2, c2, false);
                }
            }
        },
        Cmd::DelChar { before, count, reg } => {
            let (from, to) = del_char_range(t[row as int].len(), col, before, count);
            if from < to {
                let t2 = t.update(row as int, t[row as int].take(from) + t[row as int].skip(to));
                crate::domain::buffer::lemma_clamp_in(t2, (row, from as usize), false);
            }
        },
        Cmd::ToEol { op, reg } => {
            let t2 = t.update(row as int, t[row as int].take(col as int));
            crate::domain::buffer::lemma_clamp_in(t2, p, false);
        },
        Cmd::Put { after, count, reg } => {
            if let Some((lines, lw)) = o.register_view(reg.unwrap_or('"')) {
                if lines.len() > 0 {
                    n.buf.lemma_fits();
                    lemma_put_on_char(t, p, lines, lw, after, count);
                }
            }
        },
        Cmd::Undo(k) => {
            lemma_undo_on_char(o.snap(), o.undo_seq(), o.redo_seq(), k as nat);
        },
        Cmd::Redo(k) => {
            lemma_undo_on_char(o.snap(), o.redo_seq(), o.undo_seq(), k as nat);
        },
        Cmd::Join(k) => {
            lemma_join_on_char(t, row as int, (if k < 2 { 1 } else { k - 1 }) as nat, p);
        },
        Cmd::SearchWord => {
            if let Some(w) = word_under_spec(t, p) {
                crate::vim::motion::lemma_search_in(t, p, w, true);
            }
        },
        Cmd::Escape => {
            crate::domain::buffer::lemma_clamp_in(t, p, false);
        },
        _ => {},
    }
}

/// Repeating keys keeps the cursor on a character outside Insert mode.
proof fn lemma_replay_on_char(s: Engine, keys: Seq<Key>, m: Engine)
    requires
        s.wf(),
        on_char(&s),
        replay_post(s, keys, m),
    ensures
        on_char(&m),
        m.wf(),
    decreases keys.len(),
{
    if keys.len() > 0 {
        let (e, r) = choose|e: Engine, r: StepResult|
            replay_post(s, keys.drop_last(), e) && step_post(&e, keys.last(), r, &m);
        lemma_replay_on_char(s, keys.drop_last(), e);
        lemma_key_on_char(&e, keys.last(), r, &m, false);
    }
}

/// Outside Insert mode the cursor stands on a character (or at the start
/// of an empty line), and every key keeps it so.
pub proof fn law_cursor_stays_on_a_character(e0: &Engine, key: Key, r: StepResult, e1: &Engine)
    requires
        e0.wf(),
        on_char(e0),
        feed_post(e0, key, r, e1),
    ensures
        on_char(e1),
{
    if is_dot(e0, key) {
        let (s, m) = choose|s: Engine, m: Engine|
            dot_start(e0, rec_push(e0.recording_seq(), key), &s) && replay_post(s, e0.change_seq(), m) && dot_end(
                &m,
                e1,
            );
        lemma_replay_on_char(s, e0.change_seq(), m);
    } else {
        lemma_key_on_char(e0, key, r, e1, true);
    }
}

/// `k` is where the leading blanks of `line` end: every character before
/// it is white space, and the one at it, if any, is not.
pub open spec fn blank_prefix(line: Seq<char>, k: int) -> bool {
    &&& 0 <= k <= line.len()
    &&& forall|i: int| 0 <= i < k ==> spec_is_whitespace(#[trigger] line[i])
    &&& k < line.len() ==> !spec_is_whitespace(line[k])
}

proof fn lemma_indent_is_blank_prefix(line: Seq<char>)
    ensures
        blank_prefix(line, indent_len(line) as int),
        indent_spec(line) == line.take(indent_len(line) as int),
{
    lemma_non_blank_from(line, 0);
}

/// `J` joins the cursor's line with the next: the line, then one space when
/// both parts have text, then the next line without its leading blanks.
/// The lines above stay, the lines below move up by one.
#[verifier::spinoff_prover]
#[verifier::rlimit(30)]
pub proof fn law_join_trims_the_next_line(e0: &Engine, r: StepResult, e1: &Engine)
    requires
        e0.wf(),
        idle(e0),
        e0.cursor().0 + 1 < e0.text().len(),
        feed_post(e0, Key::Char('J'), r, e1),
    ensures
        e1.text().len() + 1 == e0.text().len(),
        forall|i: int| 0 <= i < e0.cursor().0 ==> #[trigger] e1.text()[i] == e0.text()[i],
        forall|i: int| e0.cursor().0 < i < e1.text().len() ==> #[trigger] e1.text()[i] == e0.text()[i + 1],
        exists|k: int|
            #![trigger blank_prefix(e0.text()[e0.cursor().0 + 1], k)]
            blank_prefix(e0.text()[e0.cursor().0 + 1], k) && e1.text()[e0.cursor().0 as int] == e0.text()[
                e0.cursor().0 as int] + (if e0.text()[e0.cursor().0 as int].len() > 0 && k < e0.text()[e0.cursor().0
                + 1].len() {
                seq![' ']
            } else {
                Seq::<char>::empty()
            }) + e0.text()[e0.cursor().0 + 1].skip(k),
{
    reveal(Engine::cmd_effect);
    let t = e0.text();
    let row = e0.cursor().0 as int;
    assert(e0.pending_seq().push(Key::Char('J')) =~= seq![Key::Char('J')]);
    assert(parse_spec(Mode::Normal, seq![Key::Char('J')]) == Parse::Done(Cmd::Join(1), 1));
    let a = t[row];
    let b = t[row + 1];
    let j = joined(a, b);
    let t2 = t.remove(row + 1).update(row, j);
    reveal_with_fuel(join_iter, 2);
    assert(e1.text() == t2);
    lemma_indent_is_blank_prefix(b);
    let k = indent_len(b) as int;
    assert(e1.text()[row] == a + (if a.len() > 0 && k < b.len() { seq![' '] } else { Seq::<char>::empty() })
        + b.skip(k));
}

/// `o` and `O` open a line below or above the cursor's line that holds that
/// line's leading blanks, and put the cursor at its end in Insert mode;
/// every other line stays.
#[verifier::spinoff_prover]
#[verifier::rlimit(30)]
pub proof fn law_open_line_copies_indent(e0: &Engine, key: Key, r: StepResult, e1: &Engine)
    requires
        e0.wf(),
        idle(e0),
        key == Key::Char('o') || key == Key::Char('O'),
        feed_post(e0, key, r, e1),
    ensures
        e1.mode_of() == Mode::Insert,
        exists|k: int|
            #![trigger blank_prefix(e0.text()[e0.cursor().0 as int], k)]
            blank_prefix(e0.text()[e0.cursor().0 as int], k) && {
                let at = if key == Key::Char('o') { e0.cursor().0 + 1 } else { e0.cursor().0 as int };
                &&& e1.text() == e0.text().insert(at, e0.text()[e0.cursor().0 as int].take(k))
                &&& e1.cursor() == (at as usize, k as usize)
            },
{
    reveal(Engine::cmd_effect);
    assert(e0.pending_seq().push(key) =~= seq![key]);
    if key == Key::Char('o') {
        assert(parse_spec(Mode::Normal, seq![key]) == Parse::Done(Cmd::Insert(InsertKind::OpenBelow), 1));
    } else {
        assert(parse_spec(Mode::Normal, seq![key]) == Parse::Done(Cmd::Insert(InsertKind::OpenAbove), 1));
    }
    lemma_indent_is_blank_prefix(e0.text()[e0.cursor().0 as int]);
}

/// `x` deletes the character under the cursor into the unnamed register
/// and `X` the one before it; with no such character nothing changes.
#[verifier::spinoff_prover]
#[verifier::rlimit(30)]
pub proof fn law_x_deletes_one_character(e0: &Engine, key: Key, r: StepResult, e1: &Engine)
    requires
        e0.wf(),
        idle(e0),
        key == Key::Char('x') || key == Key::Char('X'),
        feed_post(e0, key, r, e1),
    ensures
        ({
            let t = e0.text();
            let (row, col) = e0.cursor();
            let a = t[row as int];
            let k = if key == Key::Char('x') { col as int } else { col - 1 };
            if 0 <= k < a.len() {
                &&& e1.text() == t.update(row as int, a.take(k) + a.skip(k + 1))
                &&& e1.register_view('"') == Some((seq![seq![a[k]]], false))
            } else {
                e1.text() == t
            }
        }),
{
    reveal(Engine::cmd_effect);
    assert(e0.pending_seq().push(key) =~= seq![key]);
    assert(parse_spec(Mode::Normal, seq![key]) == Parse::Done(
        Cmd::DelChar { before: key == Key::Char('X'), count: 1, reg: None },
        1,
    ));
    let a = e0.text()[e0.cursor().0 as int];
    let col = e0.cursor().1 as int;
    let k = if key == Key::Char('x') { col } else { col - 1 };
    if 0 <= k < a.len() {
        assert(a.subrange(k, k + 1) =~= seq![a[k]]);
    }
}

/// `r` and a character replace the character under the cursor, which
/// stays there; with no character under the cursor nothing changes.
#[verifier::spinoff_prover]
#[verifier::rlimit(30)]
pub proof fn law_r_replaces_one_character(e0: &Engine, c: char, r: StepResult, e1: &Engine)
    requires
        e0.wf(),
        e0.cmdline_view() is None,
        e0.mode_of() == Mode::Normal,
        e0.pending_seq() == seq![Key::Char('r')],
        feed_post(e0, Key::Char(c), r, e1),
    ensures
        ({
            let t = e0.text();
            let (row, col) = e0.cursor();
            let a = t[row as int];
            if col < a.len() {
                e1.text() == t.update(row as int, a.update(col as int, c)) && e1.cursor() == e0.cursor()
            } else {
                e1.text() == t
            }
        }),
{
    reveal(Engine::cmd_effect);
    assert(e0.pending_seq().push(Key::Char(c)) =~= seq![Key::Char('r'), Key::Char(c)]);
    assert(parse_spec(Mode::Normal, seq![Key::Char('r'), Key::Char(c)]) == Parse::Done(
        Cmd::Replace { ch: c, count: 1 },
        2,
    ));
    let a = e0.text()[e0.cursor().0 as int];
    let col = e0.cursor().1 as int;
    if col < a.len() {
        assert(replaced(a, col, 1, c) =~= a.update(col, c));
    }
}

/// `D` and `C` cut the line from the cursor to its end into the unnamed
/// register; `C` goes on in Insert mode where the text was cut.
#[verifier::spinoff_prover]
#[verifier::rlimit(30)]
pub proof fn law_cut_to_end_of_line(e0: &Engine, key: Key, r: StepResult, e1: &Engine)
    requires
        e0.wf(),
        idle(e0),
        key == Key::Char('D') || key == Key::Char('C'),
        feed_post(e0, key, r, e1),
    ensures
        e1.text() == e0.text().update(e0.cursor().0 as int, e0.text()[e0.cursor().0 as int].take(e0.cursor().1 as int)),
        e1.register_view('"') == Some((seq![e0.text()[e0.cursor().0 as int].skip(e0.cursor().1 as int)], false)),
        key == Key::Char('C') ==> e1.mode_of() == Mode::Insert && e1.cursor() == e0.cursor(),
        key == Key::Char('D') ==> e1.mode_of() == Mode::Normal,
{
    reveal(Engine::cmd_effect);
    assert(e0.pending_seq().push(key) =~= seq![key]);
    assert(parse_spec(Mode::Normal, seq![key]) == Parse::Done(
        Cmd::ToEol { op: if key == Key::Char('D') { 'd' } else { 'c' }, reg: None },
        1,
    ));
}

/// `s` deletes the character under the cursor, if any, and `S` empties the
/// line down to its leading blanks; both go on in Insert mode, at the
/// cursor for `s` and after the blanks for `S`.
#[verifier::spinoff_prover]
#[verifier::rlimit(30)]
pub proof fn law_substitute(e0: &Engine, key: Key, r: StepResult, e1: &Engine)
    requires
        e0.wf(),
        idle(e0),
        key == Key::Char('s') || key == Key::Char('S'),
        feed_post(e0, key, r, e1),
    ensures
        e1.mode_of() == Mode::Insert,
        key == Key::Char('s') ==> {
            let t = e0.text();
            let (row, col) = e0.cursor();
            let a = t[row as int];
            &&& e1.cursor() == e0.cursor()
            &&& e1.text() == (if col < a.len() {
                t.update(row as int, a.take(col as int) + a.skip(col + 1))
            } else {
                t
            })
        },
        key == Key::Char('S') ==> exists|k: int|
            #![trigger blank_prefix(e0.text()[e0.cursor().0 as int], k)]
            blank_prefix(e0.text()[e0.cursor().0 as int], k) && e1.text() == e0.text().update(
                e0.cursor().0 as int,
                e0.text()[e0.cursor().0 as int].take(k),
            ) && e1.cursor() == (e0.cursor().0, k as usize),
{
    reveal(Engine::cmd_effect);
    assert(e0.pending_seq().push(key) =~= seq![key]);
    if key == Key::Char('s') {
        assert(parse_spec(Mode::Normal, seq![key]) == Parse::Done(Cmd::SubstChar { count: 1, reg: None }, 1));
        let t = e0.text();
        let (row, col) = e0.cursor();
        let a = t[row as int];
        if col >= a.len() {
            assert(a.take(col as int) + a.skip(a.len() as int) =~= a);
            assert(t.update(row as int, a) =~= t);
        }
    } else {
        assert(parse_spec(Mode::Normal, seq![key]) == Parse::Done(Cmd::SubstLine { reg: None }, 1));
        lemma_indent_is_blank_prefix(e0.text()[e0.cursor().0 as int]);
    }
}

/// `i`, `a`, `I` and `A` start Insert mode without changing the text: at
/// the cursor, after the character under it, at the first character that
/// is not blank (or the start, on a blank line), and at the end of the line.
#[verifier::spinoff_prover]
#[verifier::rlimit(30)]
pub proof fn law_insert_entry_points(e0: &Engine, key: Key, r: StepResult, e1: &Engine)
    requires
        e0.wf(),
        idle(e0),
        key == Key::Char('i') || key == Key::Char('a') || key == Key::Char('I') || key == Key::Char('A'),
        feed_post(e0, key, r, e1),
    ensures
        e1.mode_of() == Mode::Insert,
        e1.text() == e0.text(),
        e1.cursor().0 == e0.cursor().0,
        key == Key::Char('i') ==> e1.cursor().1 == e0.cursor().1,
        key == Key::Char('a') ==> e1.cursor().1 == (if e0.cursor().1 < e0.text()[e0.cursor().0 as int].len() {
            e0.cursor().1 + 1
        } else {
            e0.cursor().1 as int
        }),
        key == Key::Char('A') ==> e1.cursor().1 == e0.text()[e0.cursor().0 as int].len(),
        key == Key::Char('I') ==> exists|k: int|
            #![trigger blank_prefix(e0.text()[e0.cursor().0 as int], k)]
            blank_prefix(e0.text()[e0.cursor().0 as int], k) && e1.cursor().1 == (if k < e0.text()[e0.cursor().0 as int].len() {
                k
            } else {
                0
            }),
{
    reveal(Engine::cmd_effect);
    assert(e0.pending_seq().push(key) =~= seq![key]);
    let kind = if key == Key::Char('i') {
        InsertKind::Before
    } else if key == Key::Char('a') {
        InsertKind::After
    } else if key == Key::Char('I') {
        InsertKind::LineStart
    } else {
        InsertKind::LineEnd
    };
    assert(parse_spec(Mode::Normal, seq![key]) == Parse::Done(Cmd::Insert(kind), 1));
    let a = e0.text()[e0.cursor().0 as int];
    e0.buf.lemma_fits();
    assert(a.len() <= usize::MAX);
    lemma_non_blank_from(a, 0);
    if key == Key::Char('I') {
        let k = indent_len(a) as int;
        lemma_indent_is_blank_prefix(a);
        assert(blank_prefix(a, k));
    }
}

/// In Insert mode a typed character goes in at the cursor, which moves past
/// it; `<Tab>` puts four spaces; `<CR>` splits the line at the cursor,
/// which goes to the start of the new line; `<BS>` deletes the character
/// before the cursor, or at the start of a line joins it to the line above.
#[verifier::spinoff_prover]
#[verifier::rlimit(30)]
pub proof fn law_typing_in_insert_mode(e0: &Engine, key: Key, r: StepResult, e1: &Engine)
    requires
        e0.wf(),
        e0.cmdline_view() is None,
        e0.mode_of() == Mode::Insert,
        feed_post(e0, key, r, e1),
    ensures
        ({
            let t = e0.text();
            let (row, col) = e0.cursor();
            let a = t[row as int];
            match key {
                Key::Char(c) => e1.text() == t.update(row as int, a.take(col as int) + seq![c] + a.skip(col as int))
                    && e1.cursor() == (row, (col + 1) as usize) && e1.mode_of() == Mode::Insert,
                Key::Tab => e1.text() == t.update(
                    row as int,
                    a.take(col as int) + seq![' ', ' ', ' ', ' '] + a.skip(col as int),
                ) && e1.cursor() == (row, (col + 4) as usize),
                Key::Enter => e1.text() == t.update(row as int, a.take(col as int)).insert(
                    row + 1,
                    a.skip(col as int),
                ) && e1.cursor() == ((row + 1) as usize, 0usize),
                Key::Backspace => if col > 0 {
                    e1.text() == t.update(row as int, a.take(col - 1) + a.skip(col as int)) && e1.cursor() == (
                        row,
                        (col - 1) as usize,
                    )
                } else if row > 0 {
                    e1.text() == t.remove(row as int).update(row - 1, t[row - 1] + a) && e1.cursor() == (
                        (row - 1) as usize,
                        t[row - 1].len() as usize,
                    )
                } else {
                    e1.text() == t
                },
                _ => true,
            }
        }),
{
    let a = e0.text()[e0.cursor().0 as int];
    let col = e0.cursor().1 as int;
    if key == Key::Backspace && col > 0 {
        assert(a.remove(col - 1) =~= a.take(col - 1) + a.skip(col));
    }
}

/// `p` and `P` put one line of text from the unnamed register after the
/// cursor's character (or at the start of an empty line) and before it;
/// whole lines go below and above the cursor's line.
#[verifier::spinoff_prover]
#[verifier::rlimit(30)]
pub proof fn law_put_places_the_register(e0: &Engine, key: Key, r: StepResult, e1: &Engine)
    requires
        e0.wf(),
        idle(e0),
        key == Key::Char('p') || key == Key::Char('P'),
        feed_post(e0, key, r, e1),
    ensures
        ({
            let t = e0.text();
            let (row, col) = e0.cursor();
            let a = t[row as int];
            match e0.register_view('"') {
                Some((lines, lw)) => if lines.len() == 1 && !lw {
                    let at = if key == Key::Char('p') { if col < a.len() { col + 1 } else { a.len() as int } } else { col as int };
                    e1.text() == t.update(row as int, a.take(at) + lines[0] + a.skip(at))
                } else if lines.len() > 0 && lw {
                    let at = if key == Key::Char('p') { row + 1 } else { row as int };
                    e1.text() == t.take(at) + lines + t.skip(at)
                } else {
                    true
                },
                None => e1.text() == t,
            }
        }),
{
    reveal(Engine::cmd_effect);
    assert(e0.pending_seq().push(key) =~= seq![key]);
    assert(parse_spec(Mode::Normal, seq![key]) == Parse::Done(Cmd::Put { after: key == Key::Char('p'), count: 1, reg: None }, 1));
    reveal_with_fuel(repeat_seq, 2);
    if let Some((lines, lw)) = e0.register_view('"') {
        assert(repeat_seq(lines, 1) =~= lines);
        if lines.len() == 1 {
            assert(repeat_seq(lines[0], 1) =~= lines[0]);
        }
    }
}


/// The last column the cursor can stand on in a line of `len` characters.
pub open spec fn last_col_of(len: nat) -> int {
    if len == 0 {
        0
    } else {
        len - 1
    }
}

/// The single-key motions from Normal mode leave the text alone and put
/// the cursor: `h` one column left (not past the start), `l` one column
/// right (not past the last character), `0` at the start, `$` on the last
/// character, `^` on the first character that is not blank (the start on
/// a blank line), `j` and `k` on the next and previous line in the same
/// column or that line's last one (they stay where there is no such line),
/// and `G` on the last line at its first character that is not blank.
#[verifier::spinoff_prover]
#[verifier::rlimit(30)]
pub proof fn law_single_key_motions(e0: &Engine, key: Key, r: StepResult, e1: &Engine)
    requires
        e0.wf(),
        idle(e0),
        key == Key::Char('h') || key == Key::Char('l') || key == Key::Char('0') || key == Key::Char('$')
            || key == Key::Char('^') || key == Key::Char('j') || key == Key::Char('k') || key == Key::Char('G'),
        feed_post(e0, key, r, e1),
    ensures
        e1.text() == e0.text(),
        e1.mode_of() == Mode::Normal,
        key == Key::Char('h') ==> e1.cursor().0 == e0.cursor().0 && e1.cursor().1 == (if e0.cursor().1 > 0 {
            e0.cursor().1 - 1
        } else {
            0
        }),
        key == Key::Char('l') ==> e1.cursor().0 == e0.cursor().0 && e1.cursor().1 == (if e0.cursor().1 + 1
            < e0.text()[e0.cursor().0 as int].len() {
            e0.cursor().1 + 1
        } else {
            last_col_of(e0.text()[e0.cursor().0 as int].len())
        }),
        key == Key::Char('0') ==> e1.cursor().0 == e0.cursor().0 && e1.cursor().1 == 0,
        key == Key::Char('$') ==> e1.cursor().0 == e0.cursor().0 && e1.cursor().1 == last_col_of(
            e0.text()[e0.cursor().0 as int].len(),
        ),
        key == Key::Char('j') && e0.cursor().0 + 1 < e0.text().len() ==> e1.cursor().0 == e0.cursor().0 + 1
            && e1.cursor().1 == min_nat(e0.cursor().1 as int, last_col_of(e0.text()[e0.cursor().0 + 1].len())),
        key == Key::Char('k') && e0.cursor().0 > 0 ==> e1.cursor().0 == e0.cursor().0 - 1 && e1.cursor().1
            == min_nat(e0.cursor().1 as int, last_col_of(e0.text()[e0.cursor().0 - 1].len())),
        (key == Key::Char('j') && e0.cursor().0 + 1 >= e0.text().len()) || (key == Key::Char('k')
            && e0.cursor().0 == 0) ==> e1.cursor().0 == e0.cursor().0 && e1.cursor().1 == min_nat(
            e0.cursor().1 as int,
            last_col_of(e0.text()[e0.cursor().0 as int].len()),
        ),
        key == Key::Char('^') ==> exists|k: int|
            #![trigger blank_prefix(e0.text()[e0.cursor().0 as int], k)]
            blank_prefix(e0.text()[e0.cursor().0 as int], k) && e1.cursor().0 == e0.cursor().0
                && e1.cursor().1 == (if k < e0.text()[e0.cursor().0 as int].len() { k } else { 0 }),
        key == Key::Char('G') ==> exists|k: int|
            #![trigger blank_prefix(e0.text()[e0.text().len() - 1], k)]
            blank_prefix(e0.text()[e0.text().len() - 1], k) && e1.cursor().0 == e0.text().len() - 1
                && e1.cursor().1 == (if k < e0.text()[e0.text().len() - 1].len() { k } else { 0 }),
{
    let m = if key == Key::Char('h') {
        MotionKind::Left
    } else if key == Key::Char('l') {
        MotionKind::Right
    } else if key == Key::Char('0') {
        MotionKind::LineStart
    } else if key == Key::Char('$') {
        MotionKind::LineEnd
    } else if key == Key::Char('^') {
        MotionKind::FirstNonBlank
    } else if key == Key::Char('j') {
        MotionKind::Down
    } else if key == Key::Char('k') {
        MotionKind::Up
    } else {
        MotionKind::FileEnd
    };
    assert(e0.pending_seq().push(key) =~= seq![key]);
    assert(parse_spec(Mode::Normal, seq![key]) == Parse::Done(Cmd::Move(m, 1), 1));
    lemma_single_key_move(e0, key, m, r, e1);
    let t = e0.text();
    let cur = e0.cursor();
    e0.buf.lemma_fits();
    if key == Key::Char('^') {
        lemma_non_blank_from(t[cur.0 as int], 0);
        lemma_indent_is_blank_prefix(t[cur.0 as int]);
        assert(blank_prefix(t[cur.0 as int], indent_len(t[cur.0 as int]) as int));
    } else if key == Key::Char('G') {
        lemma_non_blank_from(t[t.len() - 1], 0);
        lemma_indent_is_blank_prefix(t[t.len() - 1]);
        assert(blank_prefix(t[t.len() - 1], indent_len(t[t.len() - 1]) as int));
    }
}

/// One key that parses to a single step of motion `m` moves the cursor to
/// where that step goes, kept on a character, and changes nothing else the
/// motion laws speak of.
proof fn lemma_single_key_move(e0: &Engine, key: Key, m: MotionKind, r: StepResult, e1: &Engine)
    requires
        e0.wf(),
        e0.cmdline_view() is None,
        e0.mode_of() == Mode::Normal,
        parse_spec(Mode::Normal, e0.pending_seq().push(key)) == Parse::Done(
            Cmd::Move(m, 1),
            (e0.pending_seq().len() + 1) as usize,
        ),
        feed_post(e0, key, r, e1),
    ensures
        pos_in(e0.text(), e0.cursor()),
        e1.text() == e0.text(),
        e1.mode_of() == Mode::Normal,
        e1.cursor() == clamp_spec(
            e0.text(),
            match motion_once_spec(e0.text(), m, e0.cursor(), 1, next_find(m, e0.find_view()), e0.search_view()) {
                Some(p) => p,
                None => e0.cursor(),
            },
            false,
        ),
{
    reveal(Engine::cmd_effect);
    reveal_with_fuel(motion_iter, 2);
}


/// `dd` deletes the cursor's line and `yy` copies it; either way the line
/// goes to the unnamed register as a whole line. After `dd` the line below
/// (or above, when it was the last) takes its place and the cursor goes to
/// its first character that is not blank; deleting the only line leaves one
/// empty line. `yy` leaves the text as it was.
#[verifier::spinoff_prover]
#[verifier::rlimit(30)]
pub proof fn law_whole_line_delete_and_yank(e0: &Engine, key: Key, r: StepResult, e1: &Engine)
    requires
        e0.wf(),
        e0.cmdline_view() is None,
        e0.mode_of() == Mode::Normal,
        key == Key::Char('d') || key == Key::Char('y'),
        e0.pending_seq() == seq![key],
        feed_post(e0, key, r, e1),
    ensures
        e1.register_view('"') == Some((seq![e0.text()[e0.cursor().0 as int]], true)),
        e1.mode_of() == Mode::Normal,
        key == Key::Char('y') ==> e1.text() == e0.text() && e1.cursor().0 == e0.cursor().0 && e1.cursor().1
            == min_nat(e0.cursor().1 as int, last_col_of(e0.text()[e0.cursor().0 as int].len())),
        key == Key::Char('d') && e0.text().len() == 1 ==> e1.text() == seq![Seq::<char>::empty()] && e1.cursor()
            == (0usize, 0usize),
        key == Key::Char('d') && e0.text().len() > 1 ==> e1.text() == e0.text().remove(e0.cursor().0 as int),
        key == Key::Char('d') && e0.text().len() > 1 ==> e1.cursor().0 == (if e0.cursor().0 + 1 < e0.text().len() {
            e0.cursor().0 as int
        } else {
            e0.cursor().0 - 1
        }),
        key == Key::Char('d') && e0.text().len() > 1 ==> exists|k: int|
            #![trigger blank_prefix(e1.text()[e1.cursor().0 as int], k)]
            blank_prefix(e1.text()[e1.cursor().0 as int], k) && e1.cursor().1 == (if k < e1.text()[e1.cursor().0 as int].len() {
                k
            } else {
                0
            }),
{
    let t = e0.text();
    let row = e0.cursor().0 as int;
    lemma_line_op(e0, key, r, e1);
    e0.buf.lemma_fits();
    let (s, e, lw) = line_range(t, row as usize, row as usize);
    assert(extract_spec(t, s, e, true) =~= seq![t[row]]);
    if key == Key::Char('d') {
        let rest = t.take(row) + t.skip(row + 1);
        if t.len() > 1 {
            assert(rest =~= t.remove(row));
            let at = if row + 1 < t.len() { row } else { row - 1 };
            lemma_non_blank_from(rest[at], 0);
            lemma_indent_is_blank_prefix(rest[at]);
            assert(e1.text() == rest);
            if at < row {
                assert(rest[at] == t[at]);
            } else {
                assert(rest[at] == t[at + 1]);
            }
            assert(blank_prefix(e1.text()[at], indent_len(rest[at]) as int));
        } else {
            assert(rest.len() == 0);
        }
    }
}

/// The effect of a doubled operator key on the cursor's line, as the
/// operator's contract gives it.
proof fn lemma_line_op(e0: &Engine, key: Key, r: StepResult, e1: &Engine)
    requires
        e0.wf(),
        e0.cmdline_view() is None,
        e0.mode_of() == Mode::Normal,
        key == Key::Char('d') || key == Key::Char('y') || key == Key::Char('c'),
        e0.pending_seq() == seq![key],
        feed_post(e0, key, r, e1),
    ensures
        ({
            let t = e0.text();
            let row = e0.cursor().0;
            let (s, e, lw) = line_range(t, row, row);
            let op = if key == Key::Char('d') { 'd' } else if key == Key::Char('y') { 'y' } else { 'c' };
            &&& lw
            &&& e1.register_view('"') == Some((extract_spec(t, s, e, true), true))
            &&& (e1.text(), e1.cursor(), e1.mode_of()) == operator_spec(t, e0.cursor(), Mode::Normal, op, s, e, true)
        }),
{
    reveal(Engine::cmd_effect);
    let op = if key == Key::Char('d') { 'd' } else if key == Key::Char('y') { 'y' } else { 'c' };
    assert(e0.pending_seq().push(key) =~= seq![key, key]);
    assert(parse_spec(Mode::Normal, seq![key, key]) == Parse::Done(
        Cmd::Op { op, target: Target::Lines(1), reg: None },
        2,
    ));
}


/// Esc ends Insert mode without touching the text: the cursor steps back
/// one column onto the last character typed, and stays at the start of the
/// line when it is there.
#[verifier::spinoff_prover]
#[verifier::rlimit(30)]
pub proof fn law_escape_leaves_insert_mode(e0: &Engine, r: StepResult, e1: &Engine)
    requires
        e0.wf(),
        e0.cmdline_view() is None,
        e0.mode_of() == Mode::Insert,
        feed_post(e0, Key::Esc, r, e1),
    ensures
        e1.text() == e0.text(),
        e1.mode_of() == Mode::Normal,
        e1.cursor().0 == e0.cursor().0,
        e1.cursor().1 == (if e0.cursor().1 > 0 { e0.cursor().1 - 1 } else { 0 }),
{
}


/// `f` and `t` with a character look for it on the cursor's line after the
/// cursor (`t` from the second character on), `F` and `T` before it. `f`
/// and `F` land on the nearest such character, `t` just before it and `T`
/// just after it (kept on the line's last character). Where there is none,
/// the cursor stays. The text is left alone.
#[verifier::spinoff_prover]
#[verifier::rlimit(30)]
pub proof fn law_find_on_the_line(e0: &Engine, kind: char, ch: char, r: StepResult, e1: &Engine)
    requires
        e0.wf(),
        e0.cmdline_view() is None,
        e0.mode_of() == Mode::Normal,
        kind == 'f' || kind == 'F' || kind == 't' || kind == 'T',
        e0.pending_seq() == seq![Key::Char(kind)],
        feed_post(e0, Key::Char(ch), r, e1),
    ensures
        e1.text() == e0.text(),
        e1.mode_of() == Mode::Normal,
        e1.cursor().0 == e0.cursor().0,
        ({
            let a = e0.text()[e0.cursor().0 as int];
            let col = e0.cursor().1 as int;
            let c1 = e1.cursor().1 as int;
            let stays = c1 == min_nat(col, last_col_of(a.len()));
            &&& kind == 'f' ==> (col < c1 < a.len() && a[c1] == ch && forall|i: int| col < i < c1 ==> a[i] != ch)
                || (stays && forall|i: int| col < i < a.len() ==> a[i] != ch)
            &&& kind == 't' ==> (col < c1 && c1 + 1 < a.len() && a[c1 + 1] == ch && forall|i: int|
                col + 1 < i <= c1 ==> a[i] != ch) || (stays && forall|i: int| col + 1 < i < a.len() ==> a[i] != ch)
            &&& kind == 'F' ==> (0 <= c1 < col && a[c1] == ch && forall|i: int| c1 < i < col ==> a[i] != ch) || (
            stays && forall|i: int| 0 <= i < col ==> a[i] != ch)
            &&& kind == 'T' ==> (exists|j: int|
                #![trigger a[j]]
                0 <= j < col && a[j] == ch && (forall|i: int| j < i < col ==> a[i] != ch) && c1 == min_nat(
                    j + 1,
                    last_col_of(a.len()),
                )) || (stays && forall|i: int| 0 <= i < col ==> a[i] != ch)
        }),
{
    let m = MotionKind::Find { ch, forward: kind == 'f' || kind == 't', till: kind == 't' || kind == 'T' };
    assert(e0.pending_seq().push(Key::Char(ch)) =~= seq![Key::Char(kind), Key::Char(ch)]);
    assert(parse_spec(Mode::Normal, seq![Key::Char(kind), Key::Char(ch)]) == Parse::Done(Cmd::Move(m, 1), 2));
    lemma_single_key_move(e0, Key::Char(ch), m, r, e1);
    e0.buf.lemma_fits();
    let t = e0.text();
    let row = e0.cursor().0 as int;
    let col = e0.cursor().1 as int;
    let a = t[row];
    assert(line_of(t, row) == a);
    if kind == 'f' || kind == 't' {
        lemma_index_from_first(a, ch, col + 1 + if kind == 't' { 1int } else { 0int });
    } else {
        lemma_index_before_last(a, ch, col);
    }
}

/// `index_from` finds the first occurrence at or after `i`.
proof fn lemma_index_from_first(l: Seq<char>, ch: char, i: int)
    requires
        0 <= i,
    ensures
        match index_from(l, ch, i) {
            Some(j) => i <= j < l.len() && l[j] == ch && forall|k: int| i <= k < j ==> l[k] != ch,
            None => forall|k: int| i <= k < l.len() ==> l[k] != ch,
        },
    decreases l.len() - i,
{
    if i < l.len() && l[i] != ch {
        lemma_index_from_first(l, ch, i + 1);
    }
}

/// `index_before` finds the last occurrence before `end`.
proof fn lemma_index_before_last(l: Seq<char>, ch: char, end: int)
    requires
        end <= l.len(),
    ensures
        match index_before(l, ch, end) {
            Some(j) => 0 <= j < end && l[j] == ch && forall|k: int| j < k < end ==> l[k] != ch,
            None => forall|k: int| 0 <= k < end ==> l[k] != ch,
        },
    decreases end,
{
    if end > 0 && l[end - 1] != ch {
        lemma_index_before_last(l, ch, end - 1);
    }
}


/// The word motions from a cursor on a character (or on an empty line):
/// `w` (`W`) goes forward to the nearest place where a word begins, `e`
/// (`E`) to the nearest place where one ends, and `b` (`B`) back to the
/// nearest place on a line where one begins; none of the places passed over
/// qualifies. At the end (or start) of the text the cursor stops there. The
/// text is left alone.
#[verifier::spinoff_prover]
#[verifier::rlimit(30)]
pub proof fn law_word_motions(e0: &Engine, key: Key, r: StepResult, e1: &Engine)
    requires
        e0.wf(),
        idle(e0),
        stop_pos(e0.text(), e0.cursor()),
        key == Key::Char('w') || key == Key::Char('W') || key == Key::Char('e') || key == Key::Char('E')
            || key == Key::Char('b') || key == Key::Char('B'),
        feed_post(e0, key, r, e1),
    ensures
        e1.text() == e0.text(),
        e1.mode_of() == Mode::Normal,
        stop_pos(e0.text(), e1.cursor()),
        ({
            let t = e0.text();
            let p = e0.cursor();
            let q = e1.cursor();
            let big = key == Key::Char('W') || key == Key::Char('E') || key == Key::Char('B');
            &&& (key == Key::Char('w') || key == Key::Char('W')) ==> {
                &&& pos_le(p, q)
                &&& forall|x: Pos| stop_pos(t, x) && pos_lt(p, x) && pos_lt(x, q) ==> !word_begins(t, x, big)
                &&& (q == p <==> step_fwd_spec(t, p) is None)
                &&& (q != p ==> word_begins(t, q, big) || step_fwd_spec(t, q) is None)
            }
            &&& (key == Key::Char('e') || key == Key::Char('E')) ==> {
                &&& pos_le(p, q)
                &&& forall|x: Pos| stop_pos(t, x) && pos_lt(p, x) && pos_lt(x, q) ==> !word_ends(t, x, big)
                &&& (q == p <==> step_fwd_spec(t, p) is None)
                &&& (q != p ==> word_ends(t, q, big) || step_fwd_spec(t, q) is None)
            }
            &&& (key == Key::Char('b') || key == Key::Char('B')) ==> {
                &&& pos_le(q, p)
                &&& forall|x: Pos| stop_pos(t, x) && pos_lt(q, x) && pos_lt(x, p) ==> !word_begins_in_line(t, x, big)
                &&& (q == p <==> step_back_spec(t, p) is None)
                &&& (q != p ==> word_begins_in_line(t, q, big) || step_back_spec(t, q) is None)
            }
        }),
{
    let big = key == Key::Char('W') || key == Key::Char('E') || key == Key::Char('B');
    let m = if key == Key::Char('w') || key == Key::Char('W') {
        MotionKind::WordFwd { big }
    } else if key == Key::Char('e') || key == Key::Char('E') {
        MotionKind::WordEnd { big }
    } else {
        MotionKind::WordBack { big }
    };
    assert(e0.pending_seq().push(key) =~= seq![key]);
    assert(parse_spec(Mode::Normal, seq![key]) == Parse::Done(Cmd::Move(m, 1), 1));
    lemma_single_key_move(e0, key, m, r, e1);
    e0.buf.lemma_fits();
    let t = e0.text();
    let p = e0.cursor();
    if key == Key::Char('w') || key == Key::Char('W') {
        lemma_next_word_start_first(t, p, big);
    } else if key == Key::Char('e') || key == Key::Char('E') {
        lemma_word_end_first(t, p, big);
    } else {
        lemma_prev_word_start_last(t, p, big);
    }
}


/// A count typed before `x` deletes that many characters from the cursor on
/// (as many as the line has), and before `X` that many before the cursor
/// (as many as there are); what was deleted goes to the unnamed register.
#[verifier::spinoff_prover]
#[verifier::rlimit(30)]
pub proof fn law_counted_x(e0: &Engine, d: char, key: Key, r: StepResult, e1: &Engine)
    requires
        e0.wf(),
        e0.cmdline_view() is None,
        e0.mode_of() == Mode::Normal,
        '1' <= d <= '9',
        e0.pending_seq() == seq![Key::Char(d)],
        key == Key::Char('x') || key == Key::Char('X'),
        feed_post(e0, key, r, e1),
    ensures
        e1.mode_of() == Mode::Normal,
        ({
            let n = (d as int) - ('0' as int);
            let t = e0.text();
            let row = e0.cursor().0 as int;
            let col = e0.cursor().1 as int;
            let a = t[row];
            let from = if key == Key::Char('x') { col } else if col >= n { col - n } else { 0 };
            let to = if key == Key::Char('X') { col } else if col + n <= a.len() { col + n } else { a.len() as int };
            if from < to {
                &&& e1.text() == t.update(row, a.take(from) + a.skip(to))
                &&& e1.register_view('"') == Some((seq![a.subrange(from, to)], false))
                &&& e1.cursor().0 == row
                &&& key == Key::Char('X') && col < a.len() ==> e1.cursor().1 == from
            } else {
                e1.text() == t && e1.cursor() == e0.cursor()
            }
        }),
{
    reveal(Engine::cmd_effect);
    reveal_with_fuel(count_from, 3);
    let n = ((d as u32) - ('0' as u32)) as usize;
    assert(e0.pending_seq().push(key) =~= seq![Key::Char(d), key]);
    assert(count_from(seq![Key::Char(d), key], 0, None) == (Some(n), 1int));
    assert(parse_spec(Mode::Normal, seq![Key::Char(d), key]) == Parse::Done(
        Cmd::DelChar { before: key == Key::Char('X'), count: n, reg: None },
        2,
    ));
    e0.buf.lemma_fits();
}


/// `gg` goes to the first line and a count before `G` to that line,
/// counted from one (the last line when the text is shorter); the cursor
/// lands on the line's first character that is not blank (its start on a
/// blank line). The text is left alone.
#[verifier::spinoff_prover]
#[verifier::rlimit(30)]
pub proof fn law_goto_line(e0: &Engine, first: char, key: Key, r: StepResult, e1: &Engine)
    requires
        e0.wf(),
        e0.cmdline_view() is None,
        e0.mode_of() == Mode::Normal,
        (first == 'g' && key == Key::Char('g')) || ('1' <= first <= '9' && key == Key::Char('G')),
        e0.pending_seq() == seq![Key::Char(first)],
        feed_post(e0, key, r, e1),
    ensures
        e1.text() == e0.text(),
        e1.mode_of() == Mode::Normal,
        e1.cursor().0 == (if first == 'g' {
            0
        } else if (first as int) - ('0' as int) <= e0.text().len() {
            (first as int) - ('0' as int) - 1
        } else {
            e0.text().len() - 1
        }),
        exists|k: int|
            #![trigger blank_prefix(e0.text()[e1.cursor().0 as int], k)]
            blank_prefix(e0.text()[e1.cursor().0 as int], k) && e1.cursor().1 == (if k < e0.text()[e1.cursor().0 as int].len() {
                k
            } else {
                0
            }),
{
    reveal_with_fuel(count_from, 3);
    let n: usize = if first == 'g' { 1 } else { ((first as u32) - ('0' as u32)) as usize };
    let m = MotionKind::GotoLine;
    assert(e0.pending_seq().push(key) =~= seq![Key::Char(first), key]);
    assert(parse_spec(Mode::Normal, seq![Key::Char(first), key]) == Parse::Done(Cmd::Move(m, n), 2));
    lemma_goto_move(e0, key, n, r, e1);
    e0.buf.lemma_fits();
    let t = e0.text();
    let row = goto_row(n, t.len());
    lemma_non_blank_from(t[row], 0);
    lemma_indent_is_blank_prefix(t[row]);
    assert(blank_prefix(t[row], indent_len(t[row]) as int));
}

/// A key that completes a `G` motion with count `n` goes to that line.
proof fn lemma_goto_move(e0: &Engine, key: Key, n: usize, r: StepResult, e1: &Engine)
    requires
        e0.wf(),
        e0.cmdline_view() is None,
        e0.mode_of() == Mode::Normal,
        n >= 1,
        parse_spec(Mode::Normal, e0.pending_seq().push(key)) == Parse::Done(
            Cmd::Move(MotionKind::GotoLine, n),
            (e0.pending_seq().len() + 1) as usize,
        ),
        feed_post(e0, key, r, e1),
    ensures
        e1.text() == e0.text(),
        e1.mode_of() == Mode::Normal,
        e1.cursor() == clamp_spec(
            e0.text(),
            (
                goto_row(n, e0.text().len()) as usize,
                first_non_blank_of(e0.text()[goto_row(n, e0.text().len())]) as usize,
            ),
            false,
        ),
{
    reveal(Engine::cmd_effect);
    lemma_goto_iter(e0.text(), e0.cursor(), n as nat, n, next_find(MotionKind::GotoLine, e0.find_view()), e0.search_view());
}

/// Repeating the `G` step lands on the same line each time.
proof fn lemma_goto_iter(
    t: Seq<Seq<char>>,
    pos: Pos,
    k: nat,
    count: usize,
    lf: Option<(char, bool, bool)>,
    ls: Option<(Seq<char>, bool)>,
)
    requires
        k >= 1,
        t.len() >= 1,
    ensures
        motion_iter(t, MotionKind::GotoLine, k, pos, count, lf, ls) == Some(
            (
                goto_row(count, t.len()) as usize,
                first_non_blank_of(line_of(t, goto_row(count, t.len()))) as usize,
            ),
        ),
    decreases k,
{
    reveal_with_fuel(motion_iter, 2);
    if k > 1 {
        let p = (
            goto_row(count, t.len()) as usize,
            first_non_blank_of(line_of(t, goto_row(count, t.len()))) as usize,
        );
        lemma_goto_iter(t, p, (k - 1) as nat, count, lf, ls);
    }
}


/// `dw` deletes from the cursor up to where the next word begins, and `cw`
/// on a character that is not blank changes it up to and including the end
/// of its word, going on in Insert mode; that place is the one the `w` and
/// `e` motions find (nothing between qualifies). Stated where that place is
/// further along the cursor's own line.
#[verifier::spinoff_prover]
#[verifier::rlimit(40)]
pub proof fn law_delete_and_change_word(e0: &Engine, op: char, r: StepResult, e1: &Engine)
    requires
        e0.wf(),
        e0.cmdline_view() is None,
        e0.mode_of() == Mode::Normal,
        op == 'd' || op == 'c',
        e0.pending_seq() == seq![Key::Char(op)],
        stop_pos(e0.text(), e0.cursor()),
        feed_post(e0, Key::Char('w'), r, e1),
    ensures
        ({
            let t = e0.text();
            let p = e0.cursor();
            let a = t[p.0 as int];
            let to_end = op == 'c' && p.1 < a.len() && !spec_is_whitespace(a[p.1 as int]);
            exists|q: Pos|
                #![trigger stop_pos(t, q)]
                stop_pos(t, q) && pos_le(p, q) && (q == p <==> step_fwd_spec(t, p) is None) && if to_end {
                    &&& forall|x: Pos| stop_pos(t, x) && pos_lt(p, x) && pos_lt(x, q) ==> !word_ends(t, x, false)
                    &&& (q != p ==> word_ends(t, q, false) || step_fwd_spec(t, q) is None)
                    &&& q.0 == p.0 ==> e1.text() == t.update(p.0 as int, a.take(p.1 as int) + a.skip(q.1 + 1))
                        && e1.register_view('"') == Some((seq![a.subrange(p.1 as int, q.1 + 1)], false))
                        && e1.mode_of() == Mode::Insert && e1.cursor() == p
                } else {
                    &&& forall|x: Pos| stop_pos(t, x) && pos_lt(p, x) && pos_lt(x, q) ==> !word_begins(t, x, false)
                    &&& (q != p ==> word_begins(t, q, false) || step_fwd_spec(t, q) is None)
                    &&& q.0 == p.0 && q.1 > p.1 ==> e1.text() == t.update(p.0 as int, a.take(p.1 as int) + a.skip(q.1 as int))
                        && e1.register_view('"') == Some((seq![a.subrange(p.1 as int, q.1 as int)], false))
                        && e1.mode_of() == (if op == 'c' { Mode::Insert } else { Mode::Normal })
                }
        }),
{
    let t = e0.text();
    let p = e0.cursor();
    let a = t[p.0 as int];
    let m0 = MotionKind::WordFwd { big: false };
    assert(e0.pending_seq().push(Key::Char('w')) =~= seq![Key::Char(op), Key::Char('w')]);
    assert(parse_spec(Mode::Normal, seq![Key::Char(op), Key::Char('w')]) == Parse::Done(
        Cmd::Op { op, target: Target::Motion(m0, 1), reg: None },
        2,
    ));
    lemma_op_target(e0, op, Key::Char('w'), Target::Motion(m0, 1), r, e1);
    e0.buf.lemma_fits();
    reveal_with_fuel(motion_iter, 2);
    let m = effective_motion(t, p, op, m0);
    assert(line_of(t, p.0 as int) == a);
    if m == m0 {
        lemma_next_word_start_first(t, p, false);
        let q = next_word_start_spec(t, p, false);
        assert(stop_pos(t, q));
        if q.0 == p.0 && q.1 > p.1 {
            assert(a.subrange(p.1 as int, q.1 as int) =~= a.subrange(p.1 as int, q.1 - 1 + 1));
        }
    } else {
        lemma_word_end_first(t, p, false);
        let q = word_end_spec(t, p, false);
        assert(stop_pos(t, q));
    }
}

/// An operator key followed by its target acts on the range the target
/// covers, as the operator's contract gives it.
proof fn lemma_op_target(e0: &Engine, op: char, key: Key, target: Target, r: StepResult, e1: &Engine)
    requires
        e0.wf(),
        e0.cmdline_view() is None,
        e0.mode_of() == Mode::Normal,
        op == 'd' || op == 'c' || op == 'y',
        parse_spec(Mode::Normal, e0.pending_seq().push(key)) == Parse::Done(
            Cmd::Op { op, target, reg: None },
            (e0.pending_seq().len() + 1) as usize,
        ),
        feed_post(e0, key, r, e1),
    ensures
        match resolve_spec(
            e0.text(),
            e0.cursor(),
            Mode::Normal,
            e0.anchor(),
            op,
            target,
            e0.find_view(),
            e0.search_view(),
        ) {
            None => e1.text() == e0.text() && e1.cursor() == e0.cursor() && e1.mode_of() == Mode::Normal,
            Some((s, e, lw)) => {
                &&& e1.register_view('"') == Some((extract_spec(e0.text(), s, e, lw), lw))
                &&& (e1.text(), e1.cursor(), e1.mode_of()) == operator_spec(
                    e0.text(),
                    e0.cursor(),
                    Mode::Normal,
                    op,
                    s,
                    e,
                    lw,
                )
            },
        },
{
    reveal(Engine::cmd_effect);
}


/// In Visual mode `d` deletes the selection, from the anchor to the cursor
/// or back, both ends included, and `y` copies it; either way it goes to
/// the unnamed register and the editor returns to Normal mode. The lines
/// before and after the selection are kept; a selection over several lines
/// joins what is left of its first and last lines.
#[verifier::spinoff_prover]
#[verifier::rlimit(30)]
pub proof fn law_visual_delete_and_yank(e0: &Engine, key: Key, r: StepResult, e1: &Engine)
    requires
        e0.wf(),
        e0.cmdline_view() is None,
        e0.mode_of() == Mode::Visual,
        e0.pending_seq().len() == 0,
        pos_in(e0.text(), e0.anchor()),
        key == Key::Char('d') || key == Key::Char('y'),
        feed_post(e0, key, r, e1),
    ensures
        e1.mode_of() == Mode::Normal,
        ({
            let t = e0.text();
            let (s, e) = if pos_le(e0.anchor(), e0.cursor()) {
                (e0.anchor(), e0.cursor())
            } else {
                (e0.cursor(), e0.anchor())
            };
            let first = t[s.0 as int];
            let last = t[e.0 as int];
            let end = if e.1 + 1 <= last.len() { e.1 + 1 } else { last.len() as int };
            let taken = if s.0 == e.0 {
                seq![first.subrange(s.1 as int, end)]
            } else {
                seq![first.skip(s.1 as int)] + t.subrange(s.0 + 1, e.0 as int) + seq![last.take(end)]
            };
            &&& e1.register_view('"') == Some((taken, false))
            &&& key == Key::Char('y') ==> e1.text() == t
            &&& key == Key::Char('d') ==> e1.text() == t.take(s.0 as int) + seq![first.take(s.1 as int) + last.skip(end)]
                + t.skip(e.0 + 1)
        }),
{
    reveal(Engine::cmd_effect);
    let op = if key == Key::Char('d') { 'd' } else { 'y' };
    assert(e0.pending_seq().push(key) =~= seq![key]);
    assert(parse_spec(Mode::Visual, seq![key]) == Parse::Done(Cmd::Op { op, target: Target::Selection, reg: None }, 1));
    let t = e0.text();
    let (s, e) = if pos_le(e0.anchor(), e0.cursor()) { (e0.anchor(), e0.cursor()) } else { (e0.cursor(), e0.anchor()) };
    assert(clamp_spec(t, e0.anchor(), true) == e0.anchor());
    assert(selection_spec(t, Mode::Visual, e0.anchor(), e0.cursor()) == Some((s, e, false)));
    let first = t[s.0 as int];
    let last = t[e.0 as int];
    let end = if e.1 + 1 <= last.len() { e.1 + 1 } else { last.len() as int };
    if s.0 == e.0 {
        assert(s.1 <= e.1);
        let t2 = t.update(s.0 as int, first.take(s.1 as int) + first.skip(end));
        assert(t2 =~= t.take(s.0 as int) + seq![first.take(s.1 as int) + last.skip(end)] + t.skip(e.0 + 1));
    }
}


/// In Visual-line mode `d` deletes every line from the anchor's to the
/// cursor's, both included, and `y` copies them; either way they go to the
/// unnamed register as whole lines and the editor returns to Normal mode.
/// Deleting every line leaves one empty line.
#[verifier::spinoff_prover]
#[verifier::rlimit(30)]
pub proof fn law_visual_line_delete_and_yank(e0: &Engine, key: Key, r: StepResult, e1: &Engine)
    requires
        e0.wf(),
        e0.cmdline_view() is None,
        e0.mode_of() == Mode::VisualLine,
        e0.pending_seq().len() == 0,
        pos_in(e0.text(), e0.anchor()),
        key == Key::Char('d') || key == Key::Char('y'),
        feed_post(e0, key, r, e1),
    ensures
        e1.mode_of() == Mode::Normal,
        ({
            let t = e0.text();
            let lo = if e0.anchor().0 <= e0.cursor().0 { e0.anchor().0 as int } else { e0.cursor().0 as int };
            let hi = if e0.anchor().0 <= e0.cursor().0 { e0.cursor().0 as int } else { e0.anchor().0 as int };
            let rest = t.take(lo) + t.skip(hi + 1);
            &&& e1.register_view('"') == Some((t.subrange(lo, hi + 1), true))
            &&& key == Key::Char('y') ==> e1.text() == t
            &&& key == Key::Char('d') ==> e1.text() == (if rest.len() == 0 { seq![Seq::<char>::empty()] } else { rest })
        }),
{
    reveal(Engine::cmd_effect);
    let op = if key == Key::Char('d') { 'd' } else { 'y' };
    assert(e0.pending_seq().push(key) =~= seq![key]);
    assert(parse_spec(Mode::VisualLine, seq![key]) == Parse::Done(
        Cmd::Op { op, target: Target::Selection, reg: None },
        1,
    ));
    let t = e0.text();
    assert(clamp_spec(t, e0.anchor(), true) == e0.anchor());
}


/// `n` and `N` repeat the last search, the same way and the other way:
/// when the pattern occurs anywhere in the text the cursor lands at the
/// start of an occurrence, and when it occurs nowhere the cursor stays.
/// The text is left alone.
#[verifier::spinoff_prover]
#[verifier::rlimit(30)]
pub proof fn law_search_next(e0: &Engine, key: Key, pat: Seq<char>, forward: bool, r: StepResult, e1: &Engine)
    requires
        e0.wf(),
        idle(e0),
        key == Key::Char('n') || key == Key::Char('N'),
        e0.search_view() == Some((pat, forward)),
        pat.len() > 0,
        feed_post(e0, key, r, e1),
    ensures
        e1.text() == e0.text(),
        e1.mode_of() == Mode::Normal,
        (exists|row: int, c: int|
            #![trigger matches_at(e0.text()[row], pat, c)]
            0 <= row < e0.text().len() && matches_at(e0.text()[row], pat, c)) ==> e1.cursor().0 < e0.text().len()
            && matches_at(e0.text()[e1.cursor().0 as int], pat, e1.cursor().1 as int),
        (forall|row: int, c: int|
            0 <= row < e0.text().len() ==> !#[trigger] matches_at(e0.text()[row], pat, c)) ==> e1.cursor().0
            == e0.cursor().0 && e1.cursor().1 == min_nat(
            e0.cursor().1 as int,
            last_col_of(e0.text()[e0.cursor().0 as int].len()),
        ),
{
    let m = MotionKind::SearchNext { reverse: key == Key::Char('N') };
    assert(e0.pending_seq().push(key) =~= seq![key]);
    assert(parse_spec(Mode::Normal, seq![key]) == Parse::Done(Cmd::Move(m, 1), 1));
    lemma_single_key_move(e0, key, m, r, e1);
    e0.buf.lemma_fits();
    let t = e0.text();
    let dir = if key == Key::Char('N') { !forward } else { forward };
    lemma_search_finds(t, e0.cursor(), pat, dir);
    assert(line_of(t, e0.cursor().0 as int) == t[e0.cursor().0 as int]);
}


/// Enter on a search prompt with a pattern typed closes the prompt, keeps
/// the pattern and its direction for `n` and `N`, and searches for it: when
/// it occurs anywhere in the text the cursor lands at the start of an
/// occurrence, and when it occurs nowhere the cursor stays. The text is
/// left alone.
#[verifier::spinoff_prover]
#[verifier::rlimit(30)]
pub proof fn law_search_prompt(e0: &Engine, typed: Seq<char>, forward: bool, r: StepResult, e1: &Engine)
    requires
        e0.wf(),
        e0.cmdline_view() == Some((typed, forward)),
        typed.len() > 0,
        feed_post(e0, Key::Enter, r, e1),
    ensures
        e1.cmdline_view() is None,
        e1.search_view() == Some((typed, forward)),
        e1.text() == e0.text(),
        (exists|row: int, c: int|
            #![trigger matches_at(e0.text()[row], typed, c)]
            0 <= row < e0.text().len() && matches_at(e0.text()[row], typed, c)) ==> e1.cursor().0 < e0.text().len()
            && matches_at(e0.text()[e1.cursor().0 as int], typed, e1.cursor().1 as int),
        (forall|row: int, c: int|
            0 <= row < e0.text().len() ==> !#[trigger] matches_at(e0.text()[row], typed, c)) ==> e1.cursor()
            == e0.cursor(),
{
    e0.buf.lemma_fits();
    lemma_search_finds(e0.text(), e0.cursor(), typed, forward);
}


/// A count typed before `j` or `k` moves that many lines down or up when the
/// text has that many lines below or above the cursor, and otherwise does
/// not move at all. The text is left alone.
#[verifier::spinoff_prover]
#[verifier::rlimit(30)]
pub proof fn law_counted_up_down(e0: &Engine, d: char, key: Key, r: StepResult, e1: &Engine)
    requires
        e0.wf(),
        e0.cmdline_view() is None,
        e0.mode_of() == Mode::Normal,
        '1' <= d <= '9',
        e0.pending_seq() == seq![Key::Char(d)],
        key == Key::Char('j') || key == Key::Char('k'),
        feed_post(e0, key, r, e1),
    ensures
        e1.text() == e0.text(),
        e1.mode_of() == Mode::Normal,
        ({
            let n = (d as int) - ('0' as int);
            let row = e0.cursor().0 as int;
            e1.cursor().0 == (if key == Key::Char('j') {
                if row + n < e0.text().len() { row + n } else { row }
            } else {
                if row >= n { row - n } else { row }
            })
        }),
{
    reveal_with_fuel(count_from, 3);
    let n = ((d as u32) - ('0' as u32)) as usize;
    let m = if key == Key::Char('j') { MotionKind::Down } else { MotionKind::Up };
    assert(e0.pending_seq().push(key) =~= seq![Key::Char(d), key]);
    assert(count_from(seq![Key::Char(d), key], 0, None) == (Some(n), 1int));
    assert(parse_spec(Mode::Normal, seq![Key::Char(d), key]) == Parse::Done(Cmd::Move(m, n), 2));
    lemma_counted_move(e0, key, m, n, r, e1);
    e0.buf.lemma_fits();
    lemma_vertical_iter(e0.text(), m, n as nat, e0.cursor(), n, next_find(m, e0.find_view()), e0.search_view());
}

/// A key that completes motion `m` with count `n` moves the cursor to
/// where `n` steps go, or leaves it when one of them cannot be made.
proof fn lemma_counted_move(e0: &Engine, key: Key, m: MotionKind, n: usize, r: StepResult, e1: &Engine)
    requires
        e0.wf(),
        e0.cmdline_view() is None,
        e0.mode_of() == Mode::Normal,
        n >= 1,
        parse_spec(Mode::Normal, e0.pending_seq().push(key)) == Parse::Done(
            Cmd::Move(m, n),
            (e0.pending_seq().len() + 1) as usize,
        ),
        feed_post(e0, key, r, e1),
    ensures
        pos_in(e0.text(), e0.cursor()),
        e1.text() == e0.text(),
        e1.mode_of() == Mode::Normal,
        e1.cursor() == clamp_spec(
            e0.text(),
            match motion_iter(e0.text(), m, n as nat, e0.cursor(), n, next_find(m, e0.find_view()), e0.search_view()) {
                Some(p) => p,
                None => e0.cursor(),
            },
            false,
        ),
{
    reveal(Engine::cmd_effect);
}

/// `k` steps down (up) succeed exactly when there are `k` lines below
/// (above), and end that many lines away.
proof fn lemma_vertical_iter(
    t: Seq<Seq<char>>,
    m: MotionKind,
    k: nat,
    pos: Pos,
    count: usize,
    lf: Option<(char, bool, bool)>,
    ls: Option<(Seq<char>, bool)>,
)
    requires
        m == MotionKind::Down || m == MotionKind::Up,
        pos.0 < t.len(),
        crate::vim::motion::lines_fit(t),
    ensures
        match motion_iter(t, m, k, pos, count, lf, ls) {
            Some(p) => p.0 < t.len() && if m == MotionKind::Down {
                pos.0 + k < t.len() && p.0 == pos.0 + k
            } else {
                pos.0 >= k && p.0 == pos.0 - k
            },
            None => if m == MotionKind::Down {
                pos.0 + k >= t.len()
            } else {
                pos.0 < k
            },
        },
    decreases k,
{
    if k > 0 {
        match motion_once_spec(t, m, pos, count, lf, ls) {
            Some(p) => {
                lemma_vertical_iter(t, m, (k - 1) as nat, p, count, lf, ls);
            },
            None => {},
        }
    }
}


/// `diw`, `ciw` and `yiw` act on the word under the cursor: the longest run
/// of characters of the same class as the one under the cursor (a run of
/// blanks counts as one). It goes to the unnamed register; `d` and `c`
/// remove it, `c` going on in Insert mode, and `y` leaves the text alone.
#[verifier::spinoff_prover]
#[verifier::rlimit(30)]
pub proof fn law_inner_word(e0: &Engine, op: char, r: StepResult, e1: &Engine)
    requires
        e0.wf(),
        e0.cmdline_view() is None,
        e0.mode_of() == Mode::Normal,
        op == 'd' || op == 'c' || op == 'y',
        e0.pending_seq() == seq![Key::Char(op), Key::Char('i')],
        e0.cursor().1 < e0.text()[e0.cursor().0 as int].len(),
        feed_post(e0, Key::Char('w'), r, e1),
    ensures
        ({
            let t = e0.text();
            let row = e0.cursor().0 as int;
            let col = e0.cursor().1 as int;
            let a = t[row];
            let cls = class_of(a[col], false);
            exists|lo: int, hi: int|
                #![trigger a.subrange(lo, hi + 1)]
                0 <= lo <= col <= hi < a.len() && (forall|k: int| lo <= k <= hi ==> class_of(#[trigger] a[k], false)
                    == cls) && (lo == 0 || class_of(a[lo - 1], false) != cls) && (hi + 1 == a.len() || class_of(
                    a[hi + 1],
                    false,
                ) != cls) && e1.register_view('"') == Some((seq![a.subrange(lo, hi + 1)], false)) && if op == 'y' {
                    e1.text() == t
                } else {
                    e1.text() == t.update(row, a.take(lo) + a.skip(hi + 1)) && e1.mode_of() == (if op == 'c' {
                        Mode::Insert
                    } else {
                        Mode::Normal
                    })
                }
        }),
{
    let obj = TextObj::Word { inner: true, big: false };
    assert(e0.pending_seq().push(Key::Char('w')) =~= seq![Key::Char(op), Key::Char('i'), Key::Char('w')]);
    assert(parse_spec(Mode::Normal, seq![Key::Char(op), Key::Char('i'), Key::Char('w')]) == Parse::Done(
        Cmd::Op { op, target: Target::Obj(obj), reg: None },
        3,
    ));
    lemma_op_target(e0, op, Key::Char('w'), Target::Obj(obj), r, e1);
    e0.buf.lemma_fits();
    let t = e0.text();
    let row = e0.cursor().0 as int;
    let col = e0.cursor().1 as int;
    let a = t[row];
    let cls = class_of(a[col], false);
    assert(line_of(t, row) == a);
    lemma_run_left_stops(a, col, cls);
    lemma_run_right_stops(a, col, cls);
    let lo = run_left(a, col, cls, false);
    let hi = run_right(a, col, cls, false);
    assert(e1.register_view('"') == Some((seq![a.subrange(lo, hi + 1)], false)));
}

/// `run_left` stops at the start of the run of class `cls` ending at `i`.
proof fn lemma_run_left_stops(l: Seq<char>, i: int, cls: Class)
    requires
        0 <= i < l.len(),
        class_of(l[i], false) == cls,
    ensures
        0 <= run_left(l, i, cls, false) <= i,
        forall|k: int| run_left(l, i, cls, false) <= k <= i ==> class_of(#[trigger] l[k], false) == cls,
        run_left(l, i, cls, false) == 0 || class_of(l[run_left(l, i, cls, false) - 1], false) != cls,
    decreases i,
{
    if 0 < i && class_of(l[i - 1], false) == cls {
        lemma_run_left_stops(l, i - 1, cls);
    }
}

/// `run_right` stops at the end of the run of class `cls` starting at `i`.
proof fn lemma_run_right_stops(l: Seq<char>, i: int, cls: Class)
    requires
        0 <= i < l.len(),
        class_of(l[i], false) == cls,
    ensures
        i <= run_right(l, i, cls, false) < l.len(),
        forall|k: int| i <= k <= run_right(l, i, cls, false) ==> class_of(#[trigger] l[k], false) == cls,
        run_right(l, i, cls, false) + 1 == l.len() || class_of(l[run_right(l, i, cls, false) + 1], false) != cls,
    decreases l.len() - i,
{
    if i + 1 < l.len() && class_of(l[i + 1], false) == cls {
        lemma_run_right_stops(l, i + 1, cls);
    }
}


/// `cc` empties the cursor's line down to its leading blanks and goes on in
/// Insert mode after them; the whole line goes to the unnamed register as
/// a line, and the other lines stay. On a text of one line the emptied
/// line is followed by an empty one: deleting the only line leaves an empty
/// line, and the blanks are put back as a line of their own above it.
#[verifier::spinoff_prover]
#[verifier::rlimit(30)]
pub proof fn law_change_whole_line(e0: &Engine, r: StepResult, e1: &Engine)
    requires
        e0.wf(),
        e0.cmdline_view() is None,
        e0.mode_of() == Mode::Normal,
        e0.pending_seq() == seq![Key::Char('c')],
        feed_post(e0, Key::Char('c'), r, e1),
    ensures
        e1.mode_of() == Mode::Insert,
        e1.register_view('"') == Some((seq![e0.text()[e0.cursor().0 as int]], true)),
        exists|k: int|
            #![trigger blank_prefix(e0.text()[e0.cursor().0 as int], k)]
            blank_prefix(e0.text()[e0.cursor().0 as int], k) && e1.text() == (if e0.text().len() > 1 {
                e0.text().update(e0.cursor().0 as int, e0.text()[e0.cursor().0 as int].take(k))
            } else {
                seq![e0.text()[0].take(k), Seq::<char>::empty()]
            }) && e1.cursor().0 == e0.cursor().0 && e1.cursor().1 == k,
{
    let t = e0.text();
    let row = e0.cursor().0 as int;
    lemma_line_op(e0, Key::Char('c'), r, e1);
    e0.buf.lemma_fits();
    let (s, e, lw) = line_range(t, row as usize, row as usize);
    assert(extract_spec(t, s, e, true) =~= seq![t[row]]);
    let rest = t.take(row) + t.skip(row + 1);
    let ind = indent_spec(t[row]);
    lemma_indent_is_blank_prefix(t[row]);
    lemma_indent_len(t[row]);
    if rest.len() == 0 {
        assert(seq![Seq::<char>::empty()].insert(row, ind) =~= seq![t[0].take(indent_len(t[0]) as int), Seq::<char>::empty()]);
    } else {
        assert(rest.insert(row, ind) =~= t.update(row, t[row].take(indent_len(t[row]) as int)));
    }
}


/// `}` goes to the nearest empty line below the cursor, or to the last
/// character of the text when there is none; `{` goes to the nearest empty
/// line above, or to the start of the text. The text is left alone.
#[verifier::spinoff_prover]
#[verifier::rlimit(30)]
pub proof fn law_paragraph_motions(e0: &Engine, key: Key, r: StepResult, e1: &Engine)
    requires
        e0.wf(),
        idle(e0),
        key == Key::Char('}') || key == Key::Char('{'),
        feed_post(e0, key, r, e1),
    ensures
        e1.text() == e0.text(),
        e1.mode_of() == Mode::Normal,
        ({
            let t = e0.text();
            let row = e0.cursor().0 as int;
            let (r1, c1) = (e1.cursor().0 as int, e1.cursor().1 as int);
            &&& key == Key::Char('}') ==> (row < r1 < t.len() && t[r1].len() == 0 && c1 == 0 && forall|i: int|
                row < i < r1 ==> #[trigger] t[i].len() > 0) || (r1 == t.len() - 1 && c1 == last_col_of(t[r1].len())
                && forall|i: int| row < i < t.len() ==> #[trigger] t[i].len() > 0)
            &&& key == Key::Char('{') ==> (0 <= r1 < row && t[r1].len() == 0 && c1 == 0 && forall|i: int|
                r1 < i < row ==> #[trigger] t[i].len() > 0) || (r1 == 0 && c1 == 0 && forall|i: int|
                0 <= i < row ==> #[trigger] t[i].len() > 0)
        }),
{
    let m = if key == Key::Char('}') { MotionKind::ParaFwd } else { MotionKind::ParaBack };
    assert(e0.pending_seq().push(key) =~= seq![key]);
    assert(parse_spec(Mode::Normal, seq![key]) == Parse::Done(Cmd::Move(m, 1), 1));
    lemma_single_key_move(e0, key, m, r, e1);
    e0.buf.lemma_fits();
    let t = e0.text();
    let row = e0.cursor().0 as int;
    if key == Key::Char('}') {
        lemma_empty_row_from_first(t, row + 1);
    } else {
        lemma_empty_row_before_last(t, row);
    }
}

/// `empty_row_from` finds the first empty line at or after `row`.
proof fn lemma_empty_row_from_first(t: Seq<Seq<char>>, row: int)
    requires
        0 <= row,
    ensures
        match empty_row_from(t, row) {
            Some(r) => row <= r < t.len() && t[r].len() == 0 && forall|i: int| row <= i < r ==> #[trigger] t[i].len() > 0,
            None => forall|i: int| row <= i < t.len() ==> #[trigger] t[i].len() > 0,
        },
    decreases t.len() - row,
{
    if row < t.len() && t[row].len() != 0 {
        lemma_empty_row_from_first(t, row + 1);
    }
}

/// `empty_row_before` finds the last empty line before `row`.
proof fn lemma_empty_row_before_last(t: Seq<Seq<char>>, row: int)
    requires
        row <= t.len(),
    ensures
        match empty_row_before(t, row) {
            Some(r) => 0 <= r < row && t[r].len() == 0 && forall|i: int| r < i < row ==> #[trigger] t[i].len() > 0,
            None => forall|i: int| 0 <= i < row ==> #[trigger] t[i].len() > 0,
        },
    decreases row,
{
    if row > 0 && line_of(t, row - 1).len() != 0 {
        lemma_empty_row_before_last(t, row - 1);
    }
}


/// `;` repeats the last `f`, `F`, `t` or `T`: it moves the cursor just as
/// typing that command again with the same character would, from the same
/// place in the same text; `,` does the same the other way (`f` becomes
/// `F`, `t` becomes `T`, and back). Neither changes the text.
#[verifier::spinoff_prover]
#[verifier::rlimit(30)]
pub proof fn law_repeat_find(
    e0: &Engine,
    key: Key,
    r: StepResult,
    e1: &Engine,
    ch: char,
    forward: bool,
    till: bool,
    kind: char,
    again: &Engine,
    r2: StepResult,
    e2: &Engine,
)
    requires
        e0.wf(),
        idle(e0),
        key == Key::Char(';') || key == Key::Char(','),
        e0.find_view() == Some((ch, forward, till)),
        kind == (if (key == Key::Char(';')) == forward {
            if till { 't' } else { 'f' }
        } else {
            if till { 'T' } else { 'F' }
        }),
        feed_post(e0, key, r, e1),
        again.wf(),
        again.cmdline_view() is None,
        again.mode_of() == Mode::Normal,
        again.pending_seq() == seq![Key::Char(kind)],
        again.text() == e0.text(),
        again.cursor() == e0.cursor(),
        feed_post(again, Key::Char(ch), r2, e2),
    ensures
        e1.text() == e0.text(),
        e1.cursor() == e2.cursor(),
{
    let m = MotionKind::RepeatFind { reverse: key == Key::Char(',') };
    assert(e0.pending_seq().push(key) =~= seq![key]);
    assert(parse_spec(Mode::Normal, seq![key]) == Parse::Done(Cmd::Move(m, 1), 1));
    lemma_single_key_move(e0, key, m, r, e1);
    let fwd = if key == Key::Char(';') { forward } else { !forward };
    let m2 = MotionKind::Find { ch, forward: fwd, till };
    assert(again.pending_seq().push(Key::Char(ch)) =~= seq![Key::Char(kind), Key::Char(ch)]);
    assert(parse_spec(Mode::Normal, seq![Key::Char(kind), Key::Char(ch)]) == Parse::Done(Cmd::Move(m2, 1), 2));
    lemma_single_key_move(again, Key::Char(ch), m2, r2, e2);
}


/// A count typed before `r` replaces that many characters from the cursor
/// on with the character typed, and leaves the cursor on the last one; when
/// the line has fewer characters from the cursor on, nothing changes.
#[verifier::spinoff_prover]
#[verifier::rlimit(30)]
pub proof fn law_counted_replace(e0: &Engine, d: char, c: char, r: StepResult, e1: &Engine)
    requires
        e0.wf(),
        e0.cmdline_view() is None,
        e0.mode_of() == Mode::Normal,
        '1' <= d <= '9',
        e0.pending_seq() == seq![Key::Char(d), Key::Char('r')],
        feed_post(e0, Key::Char(c), r, e1),
    ensures
        e1.mode_of() == Mode::Normal,
        ({
            let n = (d as int) - ('0' as int);
            let t = e0.text();
            let row = e0.cursor().0 as int;
            let col = e0.cursor().1 as int;
            let a = t[row];
            if col + n <= a.len() {
                &&& e1.text() == t.update(row, a.take(col) + Seq::new(n as nat, |i: int| c) + a.skip(col + n))
                &&& e1.cursor().0 == row && e1.cursor().1 == col + n - 1
            } else {
                e1.text() == t && e1.cursor() == e0.cursor()
            }
        }),
{
    reveal(Engine::cmd_effect);
    reveal_with_fuel(count_from, 3);
    let n = ((d as u32) - ('0' as u32)) as usize;
    let keys = seq![Key::Char(d), Key::Char('r'), Key::Char(c)];
    assert(e0.pending_seq().push(Key::Char(c)) =~= keys);
    assert(count_from(keys, 0, None) == (Some(n), 1int));
    assert(parse_spec(Mode::Normal, keys) == Parse::Done(Cmd::Replace { ch: c, count: n }, 3));
    e0.buf.lemma_fits();
    let t = e0.text();
    let row = e0.cursor().0 as int;
    let col = e0.cursor().1 as int;
    let a = t[row];
    if col + n <= a.len() {
        assert(replaced(a, col, n as int, c) =~= a.take(col) + Seq::new(n as nat, |i: int| c) + a.skip(col + n));
    }
}


/// A count typed before `dd` deletes that many lines from the cursor's on,
/// or as many as there are; they go to the unnamed register as whole lines.
/// Deleting every line leaves one empty line.
#[verifier::spinoff_prover]
#[verifier::rlimit(30)]
pub proof fn law_counted_dd(e0: &Engine, d: char, r: StepResult, e1: &Engine)
    requires
        e0.wf(),
        e0.cmdline_view() is None,
        e0.mode_of() == Mode::Normal,
        '1' <= d <= '9',
        e0.pending_seq() == seq![Key::Char(d), Key::Char('d')],
        feed_post(e0, Key::Char('d'), r, e1),
    ensures
        e1.mode_of() == Mode::Normal,
        ({
            let n = (d as int) - ('0' as int);
            let t = e0.text();
            let row = e0.cursor().0 as int;
            let last = if row + n <= t.len() { row + n - 1 } else { t.len() - 1 };
            let rest = t.take(row) + t.skip(last + 1);
            &&& e1.register_view('"') == Some((t.subrange(row, last + 1), true))
            &&& e1.text() == (if rest.len() == 0 { seq![Seq::<char>::empty()] } else { rest })
        }),
{
    reveal(Engine::cmd_effect);
    reveal_with_fuel(count_from, 3);
    let n = ((d as u32) - ('0' as u32)) as usize;
    let keys = seq![Key::Char(d), Key::Char('d'), Key::Char('d')];
    assert(e0.pending_seq().push(Key::Char('d')) =~= keys);
    assert(count_from(keys, 0, None) == (Some(n), 1int));
    assert(count_from(keys, 2, None) == (None::<usize>, 2int));
    assert(parse_spec(Mode::Normal, keys) == Parse::Done(
        Cmd::Op { op: 'd', target: Target::Lines(n), reg: None },
        3,
    ));
    e0.buf.lemma_fits();
}


/// `s` repeated `n` times holds `n * s.len()` items, the `j`-th item of `s`
/// at `q * s.len() + j` for each repetition `q`.
proof fn lemma_repeat_seq<A>(s: Seq<A>, n: nat)
    ensures
        repeat_seq(s, n).len() == n * s.len(),
        forall|q: int, j: int|
            0 <= q < n && 0 <= j < s.len() ==> #[trigger] repeat_seq(s, n)[q * s.len() + j] == s[j],
    decreases n,
{
    if n == 0 {
        assert(n * s.len() == 0) by (nonlinear_arith)
            requires
                n == 0,
        ;
    } else {
        let m = (n - 1) as nat;
        lemma_repeat_seq(s, m);
        let len = s.len() as int;
        assert(n * len == m * len + len) by (nonlinear_arith)
            requires
                m == n - 1,
        ;
        assert forall|q: int, j: int| 0 <= q < n && 0 <= j < s.len() implies #[trigger] repeat_seq(s, n)[q * s.len() + j]
            == s[j] by {
            if q < m {
                assert(q * len + j < m * len) by (nonlinear_arith)
                    requires
                        0 <= q < m,
                        0 <= j < len,
                ;
            } else {
                assert(q * len == m * len);
            }
        }
    }
}

/// A count typed before `p` or `P` puts the unnamed register that many
/// times: whole lines go below (above) the cursor's line, one copy after
/// another, and one line of text goes after the cursor's character (before
/// it), one copy after another; the rest of the text moves along unchanged.
#[verifier::spinoff_prover]
#[verifier::rlimit(60)]
pub proof fn law_counted_put(e0: &Engine, d: char, key: Key, r: StepResult, e1: &Engine)
    requires
        e0.wf(),
        e0.cmdline_view() is None,
        e0.mode_of() == Mode::Normal,
        '1' <= d <= '9',
        e0.pending_seq() == seq![Key::Char(d)],
        key == Key::Char('p') || key == Key::Char('P'),
        feed_post(e0, key, r, e1),
    ensures
        ({
            let n = (d as int) - ('0' as int);
            let t = e0.text();
            let row = e0.cursor().0 as int;
            let col = e0.cursor().1 as int;
            let a = t[row];
            match e0.register_view('"') {
                Some((lines, lw)) => if lw && lines.len() > 0 {
                    let k = lines.len() as int;
                    let at = if key == Key::Char('p') { row + 1 } else { row };
                    &&& e1.text().len() == t.len() + n * k
                    &&& forall|i: int| 0 <= i < at ==> #[trigger] e1.text()[i] == t[i]
                    &&& forall|q: int, j: int| 0 <= q < n && 0 <= j < k ==> #[trigger] e1.text()[at + q * k + j] == lines[j]
                    &&& forall|i: int| at <= i < t.len() ==> #[trigger] e1.text()[i + n * k] == t[i]
                } else if !lw && lines.len() == 1 {
                    let w = lines[0];
                    let m = w.len() as int;
                    let at = if key == Key::Char('p') { if col < a.len() { col + 1 } else { a.len() as int } } else { col };
                    let b = e1.text()[row];
                    &&& e1.text().len() == t.len()
                    &&& forall|i: int| 0 <= i < t.len() && i != row ==> #[trigger] e1.text()[i] == t[i]
                    &&& b.len() == a.len() + n * m
                    &&& forall|i: int| 0 <= i < at ==> #[trigger] b[i] == a[i]
                    &&& forall|q: int, j: int| 0 <= q < n && 0 <= j < m ==> #[trigger] b[at + q * m + j] == w[j]
                    &&& forall|i: int| at <= i < a.len() ==> #[trigger] b[i + n * m] == a[i]
                } else {
                    true
                },
                None => e1.text() == t,
            }
        }),
{
    reveal(Engine::cmd_effect);
    reveal_with_fuel(count_from, 3);
    let n = ((d as u32) - ('0' as u32)) as usize;
    assert(e0.pending_seq().push(key) =~= seq![Key::Char(d), key]);
    assert(count_from(seq![Key::Char(d), key], 0, None) == (Some(n), 1int));
    assert(parse_spec(Mode::Normal, seq![Key::Char(d), key]) == Parse::Done(
        Cmd::Put { after: key == Key::Char('p'), count: n, reg: None },
        2,
    ));
    let t = e0.text();
    let row = e0.cursor().0 as int;
    let col = e0.cursor().1 as int;
    let a = t[row];
    let nn = n as int;
    if let Some((lines, lw)) = e0.register_view('"') {
        if lw && lines.len() > 0 {
            let k = lines.len() as int;
            let at = if key == Key::Char('p') { row + 1 } else { row };
            lemma_repeat_seq(lines, n as nat);
            let rep = repeat_seq(lines, n as nat);
            let t2 = t.take(at) + rep + t.skip(at);
            assert(e1.text() == t2);
            assert forall|q: int, j: int| 0 <= q < nn && 0 <= j < k implies #[trigger] e1.text()[at + q * k + j]
                == lines[j] by {
                assert(0 <= q * k + j < nn * k) by (nonlinear_arith)
                    requires
                        0 <= q < nn,
                        0 <= j < k,
                ;
                assert(rep[q * k + j] == lines[j]);
            }
        } else if !lw && lines.len() == 1 {
            let w = lines[0];
            let m = w.len() as int;
            let at = if key == Key::Char('p') { if col < a.len() { col + 1 } else { a.len() as int } } else { col };
            lemma_repeat_seq(w, n as nat);
            let chunk = repeat_seq(w, n as nat);
            let b2 = a.take(at) + chunk + a.skip(at);
            assert(e1.text() == t.update(row, b2));
            assert forall|q: int, j: int| 0 <= q < nn && 0 <= j < m implies #[trigger] e1.text()[row][at + q * m + j]
                == w[j] by {
                assert(0 <= q * m + j < nn * m) by (nonlinear_arith)
                    requires
                        0 <= q < nn,
                        0 <= j < m,
                ;
                assert(chunk[q * m + j] == w[j]);
            }
        }
    }
}


/// `*` on a word character takes the whole word under the cursor (the
/// longest run of word characters around it) as the pattern of a forward
/// search, kept for `n` and `N`, and moves the cursor to the start of an
/// occurrence of it; on any other character it does nothing. The text is
/// left alone.
#[verifier::spinoff_prover]
#[verifier::rlimit(30)]
pub proof fn law_star_searches_the_word(e0: &Engine, r: StepResult, e1: &Engine)
    requires
        e0.wf(),
        idle(e0),
        e0.cursor().1 < e0.text()[e0.cursor().0 as int].len(),
        feed_post(e0, Key::Char('*'), r, e1),
    ensures
        e1.text() == e0.text(),
        ({
            let t = e0.text();
            let row = e0.cursor().0 as int;
            let col = e0.cursor().1 as int;
            let a = t[row];
            if class_of(a[col], false) == Class::Word {
                exists|lo: int, hi: int|
                    #![trigger a.subrange(lo, hi + 1)]
                    0 <= lo <= col <= hi < a.len() && (forall|k: int| lo <= k <= hi ==> class_of(#[trigger] a[k], false)
                        == Class::Word) && (lo == 0 || class_of(a[lo - 1], false) != Class::Word) && (hi + 1 == a.len()
                        || class_of(a[hi + 1], false) != Class::Word) && e1.search_view() == Some(
                        (a.subrange(lo, hi + 1), true),
                    ) && e1.cursor().0 < t.len() && matches_at(
                        t[e1.cursor().0 as int],
                        a.subrange(lo, hi + 1),
                        e1.cursor().1 as int,
                    )
            } else {
                e1.search_view() == e0.search_view() && e1.cursor() == e0.cursor()
            }
        }),
{
    reveal(Engine::cmd_effect);
    assert(e0.pending_seq().push(Key::Char('*')) =~= seq![Key::Char('*')]);
    assert(parse_spec(Mode::Normal, seq![Key::Char('*')]) == Parse::Done(Cmd::SearchWord, 1));
    e0.buf.lemma_fits();
    let t = e0.text();
    let row = e0.cursor().0 as int;
    let col = e0.cursor().1 as int;
    let a = t[row];
    assert(line_of(t, row) == a);
    if class_of(a[col], false) == Class::Word {
        lemma_run_left_stops(a, col, Class::Word);
        lemma_run_right_stops(a, col, Class::Word);
        let lo = run_left(a, col, Class::Word, false);
        let hi = run_right(a, col, Class::Word, false);
        let w = a.subrange(lo, hi + 1);
        assert(matches_at(t[row], w, lo));
        lemma_search_finds(t, e0.cursor(), w, true);
        assert(e1.search_view() == Some((w, true)));
    }
}


/// Esc in Visual or Visual-line mode drops the selection and returns to
/// Normal mode; the text stays and so does the cursor, kept on a character.
#[verifier::spinoff_prover]
#[verifier::rlimit(30)]
pub proof fn law_escape_leaves_visual_mode(e0: &Engine, r: StepResult, e1: &Engine)
    requires
        e0.wf(),
        e0.cmdline_view() is None,
        e0.mode_of() == Mode::Visual || e0.mode_of() == Mode::VisualLine,
        e0.pending_seq().len() == 0,
        feed_post(e0, Key::Esc, r, e1),
    ensures
        e1.mode_of() == Mode::Normal,
        e1.text() == e0.text(),
        e1.cursor().0 == e0.cursor().0,
        e1.cursor().1 == min_nat(e0.cursor().1 as int, last_col_of(e0.text()[e0.cursor().0 as int].len())),
{
    reveal(Engine::cmd_effect);
    assert(e0.pending_seq().push(Key::Esc) =~= seq![Key::Esc]);
    assert(parse_spec(e0.mode_of(), seq![Key::Esc]) == Parse::Done(Cmd::Escape, 1));
    e0.buf.lemma_fits();
}

} // verus!
