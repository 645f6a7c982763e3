//! The Normal- and Visual-mode keystroke grammar: which key sequences form
//! a command, which are still incomplete, and which mean nothing.

use vstd::prelude::*;

use crate::domain::keys::Key;
use crate::domain::text::{digit_of, digit_value, is_ascii_alpha, is_ascii_alpha_spec, is_ascii_digit, is_ascii_digit_spec};
use crate::vim::engine::Mode;
use crate::vim::motion::TextObj;

verus! {


#[derive(Clone, Copy, PartialEq, Eq, Debug, Structural)]
pub enum MotionKind {
    Left,
    Right,
    Down,
    Up,
    WordFwd { big: bool },
    WordBack { big: bool },
    WordEnd { big: bool },
    LineStart,
    FirstNonBlank,
    LineEnd,
    GotoLine,
    FileEnd,
    ParaFwd,
    ParaBack,
    Find { ch: char, forward: bool, till: bool },
    RepeatFind { reverse: bool },
    SearchNext { reverse: bool },
}

impl MotionKind {
    pub open spec fn is_linewise(self) -> bool {
        match self {
            MotionKind::Down | MotionKind::Up | MotionKind::GotoLine | MotionKind::FileEnd => true,
            _ => false,
        }
    }

    pub open spec fn is_inclusive(self) -> bool {
        match self {
            MotionKind::WordEnd { .. } | MotionKind::LineEnd => true,
            MotionKind::Find { forward, till, .. } => forward || !till,
            _ => false,
        }
    }

    pub(crate) fn linewise(&self) -> (r: bool)
        ensures
            r == self.is_linewise(),
    {
        match self {
            MotionKind::Down | MotionKind::Up | MotionKind::GotoLine | MotionKind::FileEnd => true,
            _ => false,
        }
    }

    pub(crate) fn inclusive(&self) -> (r: bool)
        ensures
            r == self.is_inclusive(),
    {
        match self {
            MotionKind::WordEnd { .. } | MotionKind::LineEnd => true,
            MotionKind::Find { forward, till, .. } => *forward || !*till,
            _ => false,
        }
    }
}

#[derive(Clone, Copy, PartialEq, Eq, Debug, Structural)]
pub enum InsertKind {
    Before,
    After,
    LineStart,
    LineEnd,
    OpenBelow,
    OpenAbove,
}

#[derive(Clone, Copy, PartialEq, Eq, Debug, Structural)]
pub enum Target {
    Motion(MotionKind, usize),
    Lines(usize),
    Obj(TextObj),
    Selection,
}

/// A parsed command.
#[derive(Clone, Copy, PartialEq, Eq, Debug, Structural)]
pub enum Cmd {
    Move(MotionKind, usize),
    Op { op: char, target: Target, reg: Option<char> },
    Insert(InsertKind),
    EnterVisual { linewise: bool },
    DelChar { before: bool, count: usize, reg: Option<char> },
    ToEol { op: char, reg: Option<char> },
    SubstChar { count: usize, reg: Option<char> },
    SubstLine { reg: Option<char> },
    Replace { ch: char, count: usize },
    Put { after: bool, count: usize, reg: Option<char> },
    Undo(usize),
    Redo(usize),
    Join(usize),
    StartSearch { forward: bool },
    SearchWord,
    Dot,
    Escape,
}

/// Commands the trainer knows of but does not run.
#[derive(Clone, Copy, PartialEq, Eq, Debug, Structural)]
pub enum Unsupported {
    VisualBlock,
    Jumplist,
    Scroll,
    Ge,
    Marks,
    Macros,
    Cmdline,
    Quit,
    Indent,
    MatchPair,
    ReplaceMode,
    TagObject,
    InsertCtrl,
}

pub open spec fn unsupported_name(u: Unsupported) -> Seq<char> {
    match u {
        Unsupported::VisualBlock => seq!['v', 'i', 's', 'u', 'a', 'l', '_', 'b', 'l', 'o', 'c', 'k'],
        Unsupported::Jumplist => seq!['j', 'u', 'm', 'p', 'l', 'i', 's', 't'],
        Unsupported::Scroll => seq!['s', 'c', 'r', 'o', 'l', 'l'],
        Unsupported::Ge => seq!['g', 'e'],
        Unsupported::Marks => seq!['m', 'a', 'r', 'k', 's'],
        Unsupported::Macros => seq!['m', 'a', 'c', 'r', 'o', 's'],
        Unsupported::Cmdline => seq!['c', 'm', 'd', 'l', 'i', 'n', 'e'],
        Unsupported::Quit => seq!['q', 'u', 'i', 't'],
        Unsupported::Indent => seq!['i', 'n', 'd', 'e', 'n', 't'],
        Unsupported::MatchPair => seq!['m', 'a', 't', 'c', 'h', 'p', 'a', 'i', 'r'],
        Unsupported::ReplaceMode => seq![
            'r',
            'e',
            'p',
            'l',
            'a',
            'c',
            'e',
            '_',
            'm',
            'o',
            'd',
            'e',
        ],
        Unsupported::TagObject => seq!['t', 'a', 'g', '_', 'o', 'b', 'j', 'e', 'c', 't'],
        Unsupported::InsertCtrl => seq!['i', 'n', 's', 'e', 'r', 't', '_', 'c', 't', 'r', 'l'],
    }
}

/// The name under which an unsupported command is reported.
pub fn unsupported_label(u: Unsupported) -> (r: String)
    ensures
        r@ == unsupported_name(u),
{
    let s = match u {
        Unsupported::VisualBlock => "visual_block",
        Unsupported::Jumplist => "jumplist",
        Unsupported::Scroll => "scroll",
        Unsupported::Ge => "ge",
        Unsupported::Marks => "marks",
        Unsupported::Macros => "macros",
        Unsupported::Cmdline => "cmdline",
        Unsupported::Quit => "quit",
        Unsupported::Indent => "indent",
        Unsupported::MatchPair => "matchpair",
        Unsupported::ReplaceMode => "replace_mode",
        Unsupported::TagObject => "tag_object",
        Unsupported::InsertCtrl => "insert_ctrl",
    };
    proof {
        reveal_strlit("visual_block");
        reveal_strlit("jumplist");
        reveal_strlit("scroll");
        reveal_strlit("ge");
        reveal_strlit("marks");
        reveal_strlit("macros");
        reveal_strlit("cmdline");
        reveal_strlit("quit");
        reveal_strlit("indent");
        reveal_strlit("matchpair");
        reveal_strlit("replace_mode");
        reveal_strlit("tag_object");
        reveal_strlit("insert_ctrl");
    }
    let r = String::from_str(s);
    assert(r@ =~= unsupported_name(u));
    r
}

/// The outcome of reading a key sequence as one command.
#[derive(Clone, Copy, PartialEq, Eq, Debug, Structural)]
pub enum Parse {
    Incomplete,
    Invalid,
    Unsupported(Unsupported),
    /// The command and the number of keys it used.
    Done(Cmd, usize),
}

// ---------- the keystroke grammar ----------

pub open spec fn sat(x: int) -> usize {
    if x > usize::MAX {
        usize::MAX
    } else {
        x as usize
    }
}

/// A count typed before a command, read from index `i` on: ASCII digits,
/// except that a leading `0` is the `0` motion and not a digit. Counts too
/// large for `usize` stay at `usize::MAX`.
pub open spec fn count_from(keys: Seq<Key>, i: int, acc: Option<usize>) -> (Option<usize>, int)
    decreases keys.len() - i,
{
    if 0 <= i < keys.len() && keys[i] is Char && is_ascii_digit_spec(keys[i]->Char_0) && !(
    keys[i]->Char_0 == '0' && acc is None) {
        let d = digit_value(keys[i]->Char_0);
        let prev: int = match acc {
            Some(n) => n as int,
            None => 0,
        };
        count_from(keys, i + 1, Some(sat(prev * 10 + d)))
    } else {
        (acc, i)
    }
}

pub open spec fn or_one(n: Option<usize>) -> usize {
    match n {
        Some(v) => v,
        None => 1,
    }
}

/// Commands that act on the selection in Visual and Visual-line mode.
pub open spec fn visual_cmd(key: Key, reg: Option<char>) -> Option<Cmd> {
    match key {
        Key::Esc => Some(Cmd::Escape),
        Key::Char(c) => if c == 'd' || c == 'x' {
            Some(Cmd::Op { op: 'd', target: Target::Selection, reg })
        } else if c == 'c' || c == 's' {
            Some(Cmd::Op { op: 'c', target: Target::Selection, reg })
        } else if c == 'y' {
            Some(Cmd::Op { op: 'y', target: Target::Selection, reg })
        } else if c == 'v' {
            Some(Cmd::EnterVisual { linewise: false })
        } else if c == 'V' {
            Some(Cmd::EnterVisual { linewise: true })
        } else {
            None
        },
        _ => None,
    }
}

/// Single-key motions usable both alone and after an operator.
pub open spec fn simple_motion(c: char) -> Option<MotionKind> {
    if c == 'h' {
        Some(MotionKind::Left)
    } else if c == 'l' || c == ' ' {
        Some(MotionKind::Right)
    } else if c == 'j' {
        Some(MotionKind::Down)
    } else if c == 'k' {
        Some(MotionKind::Up)
    } else if c == 'w' {
        Some(MotionKind::WordFwd { big: false })
    } else if c == 'W' {
        Some(MotionKind::WordFwd { big: true })
    } else if c == 'b' {
        Some(MotionKind::WordBack { big: false })
    } else if c == 'B' {
        Some(MotionKind::WordBack { big: true })
    } else if c == 'e' {
        Some(MotionKind::WordEnd { big: false })
    } else if c == 'E' {
        Some(MotionKind::WordEnd { big: true })
    } else if c == '^' {
        Some(MotionKind::FirstNonBlank)
    } else if c == '$' {
        Some(MotionKind::LineEnd)
    } else if c == '{' {
        Some(MotionKind::ParaBack)
    } else if c == '}' {
        Some(MotionKind::ParaFwd)
    } else if c == 'n' {
        Some(MotionKind::SearchNext { reverse: false })
    } else if c == 'N' {
        Some(MotionKind::SearchNext { reverse: true })
    } else if c == ';' {
        Some(MotionKind::RepeatFind { reverse: false })
    } else if c == ',' {
        Some(MotionKind::RepeatFind { reverse: true })
    } else {
        None
    }
}

/// The text object named by the key after `i` / `a`.
pub open spec fn obj_of(o: char, inner: bool) -> Option<TextObj> {
    if o == 'w' {
        Some(TextObj::Word { inner, big: false })
    } else if o == 'W' {
        Some(TextObj::Word { inner, big: true })
    } else if o == '"' || o == '\'' || o == '`' {
        Some(TextObj::Quote { ch: o, inner })
    } else if o == '(' || o == ')' || o == 'b' {
        Some(TextObj::Bracket { open: '(', close: ')', inner })
    } else if o == '[' || o == ']' {
        Some(TextObj::Bracket { open: '[', close: ']', inner })
    } else if o == '{' || o == '}' || o == 'B' {
        Some(TextObj::Bracket { open: '{', close: '}', inner })
    } else if o == '<' || o == '>' {
        Some(TextObj::Bracket { open: '<', close: '>', inner })
    } else if o == 'p' {
        Some(TextObj::Para { inner })
    } else {
        None
    }
}

/// What an operator acts on: a motion or a text object starting at `i`.
pub open spec fn target_spec(keys: Seq<Key>, i: int, count: usize, op: char, reg: Option<char>) -> Parse {
    if i < 0 || i >= keys.len() {
        Parse::Incomplete
    } else {
        match keys[i] {
            Key::Char(c) => if c == 'i' || c == 'a' {
                let inner = c == 'i';
                if i + 1 >= keys.len() {
                    Parse::Incomplete
                } else {
                    match keys[i + 1] {
                        Key::Char(o) => if o == 't' {
                            Parse::Unsupported(Unsupported::TagObject)
                        } else {
                            match obj_of(o, inner) {
                                Some(obj) => Parse::Done(
                                    Cmd::Op { op, target: Target::Obj(obj), reg },
                                    (i + 2) as usize,
                                ),
                                None => Parse::Invalid,
                            }
                        },
                        _ => Parse::Invalid,
                    }
                }
            } else if c == '0' {
                Parse::Done(Cmd::Op { op, target: Target::Motion(MotionKind::LineStart, count), reg }, (i + 1) as usize)
            } else if c == 'G' {
                Parse::Done(Cmd::Op { op, target: Target::Motion(MotionKind::FileEnd, count), reg }, (i + 1) as usize)
            } else if c == 'g' {
                if i + 1 >= keys.len() {
                    Parse::Incomplete
                } else if keys[i + 1] == Key::Char('g') {
                    Parse::Done(Cmd::Op { op, target: Target::Motion(MotionKind::GotoLine, count), reg }, (i + 2) as usize)
                } else {
                    Parse::Invalid
                }
            } else if c == 'f' || c == 'F' || c == 't' || c == 'T' {
                if i + 1 >= keys.len() {
                    Parse::Incomplete
                } else {
                    match keys[i + 1] {
                        Key::Char(ch) => Parse::Done(
                            Cmd::Op {
                                op,
                                target: Target::Motion(
                                    MotionKind::Find { ch, forward: c == 'f' || c == 't', till: c == 't' || c == 'T' },
                                    count,
                                ),
                                reg,
                            },
                            (i + 2) as usize,
                        ),
                        _ => Parse::Invalid,
                    }
                }
            } else if c == '%' {
                Parse::Unsupported(Unsupported::MatchPair)
            } else {
                match simple_motion(c) {
                    Some(m) => Parse::Done(Cmd::Op { op, target: Target::Motion(m, count), reg }, (i + 1) as usize),
                    None => Parse::Invalid,
                }
            },
            _ => Parse::Invalid,
        }
    }
}

/// Commands led by a plain character at index `i`, after a count.
pub open spec fn char_cmd_spec(
    mode: Mode,
    keys: Seq<Key>,
    i: int,
    c: char,
    count1: Option<usize>,
    reg: Option<char>,
) -> Parse {
    let n = or_one(count1);
    if (c == 'd' || c == 'c' || c == 'y') && mode == Mode::Normal {
        let (count2, j) = count_from(keys, i + 1, None);
        let total = sat(or_one(count1) * or_one(count2));
        if j >= keys.len() {
            Parse::Incomplete
        } else if keys[j] == Key::Char(c) {
            Parse::Done(Cmd::Op { op: c, target: Target::Lines(total), reg }, (j + 1) as usize)
        } else {
            target_spec(keys, j, total, c, reg)
        }
    } else if c == 'G' {
        Parse::Done(
            Cmd::Move(if count1 is Some { MotionKind::GotoLine } else { MotionKind::FileEnd }, n),
            (i + 1) as usize,
        )
    } else if c == 'g' {
        if i + 1 >= keys.len() {
            Parse::Incomplete
        } else if keys[i + 1] == Key::Char('g') {
            Parse::Done(Cmd::Move(MotionKind::GotoLine, n), (i + 2) as usize)
        } else if keys[i + 1] == Key::Char('e') {
            Parse::Unsupported(Unsupported::Ge)
        } else {
            Parse::Invalid
        }
    } else if c == 'f' || c == 'F' || c == 't' || c == 'T' {
        if i + 1 >= keys.len() {
            Parse::Incomplete
        } else {
            match keys[i + 1] {
                Key::Char(ch) => Parse::Done(
                    Cmd::Move(MotionKind::Find { ch, forward: c == 'f' || c == 't', till: c == 't' || c == 'T' }, n),
                    (i + 2) as usize,
                ),
                _ => Parse::Invalid,
            }
        }
    } else if c == 'r' {
        if i + 1 >= keys.len() {
            Parse::Incomplete
        } else {
            match keys[i + 1] {
                Key::Char(ch) => Parse::Done(Cmd::Replace { ch, count: n }, (i + 2) as usize),
                _ => Parse::Invalid,
            }
        }
    } else if c == '0' {
        Parse::Done(Cmd::Move(MotionKind::LineStart, 1), (i + 1) as usize)
    } else if c == '^' {
        Parse::Done(Cmd::Move(MotionKind::FirstNonBlank, 1), (i + 1) as usize)
    } else if c == '/' || c == '?' {
        Parse::Done(Cmd::StartSearch { forward: c == '/' }, (i + 1) as usize)
    } else if c == '*' {
        Parse::Done(Cmd::SearchWord, (i + 1) as usize)
    } else if c == 'i' || c == 'a' || c == 'I' || c == 'A' || c == 'o' || c == 'O' {
        Parse::Done(
            Cmd::Insert(
                if c == 'i' {
                    InsertKind::Before
                } else if c == 'a' {
                    InsertKind::After
                } else if c == 'I' {
                    InsertKind::LineStart
                } else if c == 'A' {
                    InsertKind::LineEnd
                } else if c == 'o' {
                    InsertKind::OpenBelow
                } else {
                    InsertKind::OpenAbove
                },
            ),
            (i + 1) as usize,
        )
    } else if c == 'v' || c == 'V' {
        Parse::Done(Cmd::EnterVisual { linewise: c == 'V' }, (i + 1) as usize)
    } else if c == 'x' || c == 'X' {
        Parse::Done(Cmd::DelChar { before: c == 'X', count: n, reg }, (i + 1) as usize)
    } else if c == 'D' || c == 'C' {
        Parse::Done(Cmd::ToEol { op: if c == 'D' { 'd' } else { 'c' }, reg }, (i + 1) as usize)
    } else if c == 'Y' {
        Parse::Done(Cmd::Op { op: 'y', target: Target::Lines(n), reg }, (i + 1) as usize)
    } else if c == 's' {
        Parse::Done(Cmd::SubstChar { count: n, reg }, (i + 1) as usize)
    } else if c == 'S' {
        Parse::Done(Cmd::SubstLine { reg }, (i + 1) as usize)
    } else if c == 'p' || c == 'P' {
        Parse::Done(Cmd::Put { after: c == 'p', count: n, reg }, (i + 1) as usize)
    } else if c == 'u' {
        Parse::Done(Cmd::Undo(n), (i + 1) as usize)
    } else if c == 'J' {
        Parse::Done(Cmd::Join(n), (i + 1) as usize)
    } else if c == '.' {
        Parse::Done(Cmd::Dot, (i + 1) as usize)
    } else if c == 'm' || c == '\'' || c == '`' {
        Parse::Unsupported(Unsupported::Marks)
    } else if c == 'q' || c == '@' {
        Parse::Unsupported(Unsupported::Macros)
    } else if c == ':' {
        Parse::Unsupported(Unsupported::Cmdline)
    } else if c == 'Z' {
        Parse::Unsupported(Unsupported::Quit)
    } else if c == '>' || c == '<' || c == '=' {
        Parse::Unsupported(Unsupported::Indent)
    } else if c == '%' {
        Parse::Unsupported(Unsupported::MatchPair)
    } else if c == 'R' {
        Parse::Unsupported(Unsupported::ReplaceMode)
    } else {
        match simple_motion(c) {
            Some(m) => Parse::Done(Cmd::Move(m, n), (i + 1) as usize),
            None => Parse::Invalid,
        }
    }
}

/// The command a key sequence spells, after the register prefix.
pub open spec fn parse_body(mode: Mode, keys: Seq<Key>, i0: int, reg: Option<char>) -> Parse {
    let (count1, i) = count_from(keys, i0, None);
    if i >= keys.len() {
        Parse::Incomplete
    } else {
        let key = keys[i];
        if (mode == Mode::Visual || mode == Mode::VisualLine) && visual_cmd(key, reg) is Some {
            Parse::Done(visual_cmd(key, reg)->0, (i + 1) as usize)
        } else {
            match key {
                Key::Char(c) => char_cmd_spec(mode, keys, i, c, count1, reg),
                Key::Esc => Parse::Done(Cmd::Escape, (i + 1) as usize),
                Key::Enter => Parse::Done(Cmd::Move(MotionKind::Down, or_one(count1)), (i + 1) as usize),
                Key::Backspace => Parse::Done(Cmd::Move(MotionKind::Left, or_one(count1)), (i + 1) as usize),
                Key::Tab => Parse::Invalid,
                Key::Ctrl(c) => if c == 'r' {
                    Parse::Done(Cmd::Redo(or_one(count1)), (i + 1) as usize)
                } else if c == 'v' {
                    Parse::Unsupported(Unsupported::VisualBlock)
                } else if c == 'o' || c == 'i' {
                    Parse::Unsupported(Unsupported::Jumplist)
                } else if c == 'd' || c == 'u' || c == 'f' || c == 'b' || c == 'e' || c == 'y' {
                    Parse::Unsupported(Unsupported::Scroll)
                } else {
                    Parse::Invalid
                },
            }
        }
    }
}

/// The Normal/Visual-mode keystroke grammar: an optional `"x` register
/// prefix, an optional count, and a command.
pub open spec fn parse_spec(mode: Mode, keys: Seq<Key>) -> Parse {
    if keys.len() > 0 && keys[0] == Key::Char('"') {
        if keys.len() < 2 {
            Parse::Incomplete
        } else {
            match keys[1] {
                Key::Char(c) => if is_ascii_alpha_spec(c) {
                    parse_body(mode, keys, 2, Some(c))
                } else {
                    Parse::Invalid
                },
                _ => Parse::Invalid,
            }
        }
    } else {
        parse_body(mode, keys, 0, None)
    }
}

// ---------- reading key sequences ----------

/// Reads a count typed before a command: `3dd`, `d2w`. A leading zero is the
/// `0` motion (start of line), not a digit of a count.
fn parse_count(keys: &[Key], i0: usize) -> (r: (Option<usize>, usize))
    ensures
        (r.0, r.1 as int) == count_from(keys@, i0 as int, None),
{
    let mut n: Option<usize> = None;
    let mut i = i0;
    let len = keys.len();
    loop
        invariant
            i0 <= i,
            len == keys@.len(),
            count_from(keys@, i0 as int, None) == count_from(keys@, i as int, n),
        ensures
            count_from(keys@, i0 as int, None) == (n, i as int),
        decreases len - i,
    {
        if i >= len {
            break;
        }
        let c = match keys[i] {
            Key::Char(c) => c,
            _ => break,
        };
        if is_ascii_digit(c) && !(c == '0' && n.is_none()) {
            let d = digit_of(c);
            let prev: usize = match n {
                Some(v) => v,
                None => 0,
            };
            let next: usize = if prev <= (usize::MAX - d) / 10 {
                assert(prev * 10 + d <= usize::MAX) by (nonlinear_arith)
                    requires
                        prev <= (usize::MAX - d) / 10,
                        d <= 9,
                ;
                prev * 10 + d
            } else {
                assert(prev * 10 + d > usize::MAX) by (nonlinear_arith)
                    requires
                        prev > (usize::MAX - d) / 10,
                        d <= 9,
                ;
                usize::MAX
            };
            n = Some(next);
            i = i + 1;
        } else {
            break;
        }
    }
    (n, i)
}

fn or_one_exec(n: Option<usize>) -> (r: usize)
    ensures
        r == or_one(n),
{
    match n {
        Some(v) => v,
        None => 1,
    }
}

fn sat_mul(a: usize, b: usize) -> (r: usize)
    ensures
        r == sat(a * b),
{
    match a.checked_mul(b) {
        Some(v) => v,
        None => usize::MAX,
    }
}

fn motion_key(c: char) -> (r: Option<MotionKind>)
    ensures
        r == simple_motion(c),
{
    if c == 'h' {
        Some(MotionKind::Left)
    } else if c == 'l' || c == ' ' {
        Some(MotionKind::Right)
    } else if c == 'j' {
        Some(MotionKind::Down)
    } else if c == 'k' {
        Some(MotionKind::Up)
    } else if c == 'w' {
        Some(MotionKind::WordFwd { big: false })
    } else if c == 'W' {
        Some(MotionKind::WordFwd { big: true })
    } else if c == 'b' {
        Some(MotionKind::WordBack { big: false })
    } else if c == 'B' {
        Some(MotionKind::WordBack { big: true })
    } else if c == 'e' {
        Some(MotionKind::WordEnd { big: false })
    } else if c == 'E' {
        Some(MotionKind::WordEnd { big: true })
    } else if c == '^' {
        Some(MotionKind::FirstNonBlank)
    } else if c == '$' {
        Some(MotionKind::LineEnd)
    } else if c == '{' {
        Some(MotionKind::ParaBack)
    } else if c == '}' {
        Some(MotionKind::ParaFwd)
    } else if c == 'n' {
        Some(MotionKind::SearchNext { reverse: false })
    } else if c == 'N' {
        Some(MotionKind::SearchNext { reverse: true })
    } else if c == ';' {
        Some(MotionKind::RepeatFind { reverse: false })
    } else if c == ',' {
        Some(MotionKind::RepeatFind { reverse: true })
    } else {
        None
    }
}

fn text_obj(o: char, inner: bool) -> (r: Option<TextObj>)
    ensures
        r == obj_of(o, inner),
{
    if o == 'w' {
        Some(TextObj::Word { inner, big: false })
    } else if o == 'W' {
        Some(TextObj::Word { inner, big: true })
    } else if o == '"' || o == '\'' || o == '`' {
        Some(TextObj::Quote { ch: o, inner })
    } else if o == '(' || o == ')' || o == 'b' {
        Some(TextObj::Bracket { open: '(', close: ')', inner })
    } else if o == '[' || o == ']' {
        Some(TextObj::Bracket { open: '[', close: ']', inner })
    } else if o == '{' || o == '}' || o == 'B' {
        Some(TextObj::Bracket { open: '{', close: '}', inner })
    } else if o == '<' || o == '>' {
        Some(TextObj::Bracket { open: '<', close: '>', inner })
    } else if o == 'p' {
        Some(TextObj::Para { inner })
    } else {
        None
    }
}

fn parse_visual_command(key: Key, reg: Option<char>) -> (r: Option<Cmd>)
    ensures
        r == visual_cmd(key, reg),
{
    match key {
        Key::Esc => Some(Cmd::Escape),
        Key::Char(c) => if c == 'd' || c == 'x' {
            Some(Cmd::Op { op: 'd', target: Target::Selection, reg })
        } else if c == 'c' || c == 's' {
            Some(Cmd::Op { op: 'c', target: Target::Selection, reg })
        } else if c == 'y' {
            Some(Cmd::Op { op: 'y', target: Target::Selection, reg })
        } else if c == 'v' {
            Some(Cmd::EnterVisual { linewise: false })
        } else if c == 'V' {
            Some(Cmd::EnterVisual { linewise: true })
        } else {
            None
        },
        _ => None,
    }
}

/// What an operator acts on: a motion or a text object, read from `i` on.
fn parse_target(keys: &[Key], i: usize, count: usize, op: char, reg: Option<char>) -> (r: Parse)
    ensures
        r == target_spec(keys@, i as int, count, op, reg),
{
    if i >= keys.len() {
        return Parse::Incomplete;
    }
    let c = match keys[i] {
        Key::Char(c) => c,
        _ => return Parse::Invalid,
    };
    if c == 'i' || c == 'a' {
        let inner = c == 'i';
        if i + 1 >= keys.len() {
            return Parse::Incomplete;
        }
        return match keys[i + 1] {
            Key::Char(o) => if o == 't' {
                Parse::Unsupported(Unsupported::TagObject)
            } else {
                match text_obj(o, inner) {
                    Some(obj) => Parse::Done(Cmd::Op { op, target: Target::Obj(obj), reg }, i + 2),
                    None => Parse::Invalid,
                }
            },
            _ => Parse::Invalid,
        };
    }
    if c == '0' {
        return Parse::Done(Cmd::Op { op, target: Target::Motion(MotionKind::LineStart, count), reg }, i + 1);
    }
    if c == 'G' {
        return Parse::Done(Cmd::Op { op, target: Target::Motion(MotionKind::FileEnd, count), reg }, i + 1);
    }
    if c == 'g' {
        if i + 1 >= keys.len() {
            return Parse::Incomplete;
        }
        return if keys[i + 1] == Key::Char('g') {
            Parse::Done(Cmd::Op { op, target: Target::Motion(MotionKind::GotoLine, count), reg }, i + 2)
        } else {
            Parse::Invalid
        };
    }
    if c == 'f' || c == 'F' || c == 't' || c == 'T' {
        if i + 1 >= keys.len() {
            return Parse::Incomplete;
        }
        return match keys[i + 1] {
            Key::Char(ch) => Parse::Done(
                Cmd::Op {
                    op,
                    target: Target::Motion(
                        MotionKind::Find { ch, forward: c == 'f' || c == 't', till: c == 't' || c == 'T' },
                        count,
                    ),
                    reg,
                },
                i + 2,
            ),
            _ => Parse::Invalid,
        };
    }
    if c == '%' {
        return Parse::Unsupported(Unsupported::MatchPair);
    }
    match motion_key(c) {
        Some(m) => Parse::Done(Cmd::Op { op, target: Target::Motion(m, count), reg }, i + 1),
        None => Parse::Invalid,
    }
}

/// Commands led by a plain character at `i`.
fn parse_char_cmd(mode: Mode, keys: &[Key], i: usize, c: char, count1: Option<usize>, reg: Option<char>) -> (r: Parse)
    requires
        i < keys@.len(),
    ensures
        r == char_cmd_spec(mode, keys@, i as int, c, count1, reg),
{
    let len = keys.len();
    let n = or_one_exec(count1);
    if (c == 'd' || c == 'c' || c == 'y') && mode == Mode::Normal {
        let (count2, j) = parse_count(keys, i + 1);
        let total = sat_mul(n, or_one_exec(count2));
        if j >= keys.len() {
            return Parse::Incomplete;
        }
        if keys[j] == Key::Char(c) {
            return Parse::Done(Cmd::Op { op: c, target: Target::Lines(total), reg }, j + 1);
        }
        return parse_target(keys, j, total, c, reg);
    }
    if c == 'G' {
        let m = if count1.is_some() { MotionKind::GotoLine } else { MotionKind::FileEnd };
        return Parse::Done(Cmd::Move(m, n), i + 1);
    }
    if c == 'g' {
        if i + 1 >= keys.len() {
            return Parse::Incomplete;
        }
        return if keys[i + 1] == Key::Char('g') {
            Parse::Done(Cmd::Move(MotionKind::GotoLine, n), i + 2)
        } else if keys[i + 1] == Key::Char('e') {
            Parse::Unsupported(Unsupported::Ge)
        } else {
            Parse::Invalid
        };
    }
    if c == 'f' || c == 'F' || c == 't' || c == 'T' {
        if i + 1 >= keys.len() {
            return Parse::Incomplete;
        }
        return match keys[i + 1] {
            Key::Char(ch) => Parse::Done(
                Cmd::Move(MotionKind::Find { ch, forward: c == 'f' || c == 't', till: c == 't' || c == 'T' }, n),
                i + 2,
            ),
            _ => Parse::Invalid,
        };
    }
    if c == 'r' {
        if i + 1 >= keys.len() {
            return Parse::Incomplete;
        }
        return match keys[i + 1] {
            Key::Char(ch) => Parse::Done(Cmd::Replace { ch, count: n }, i + 2),
            _ => Parse::Invalid,
        };
    }
    let cmd = if c == '0' {
        Cmd::Move(MotionKind::LineStart, 1)
    } else if c == '^' {
        Cmd::Move(MotionKind::FirstNonBlank, 1)
    } else if c == '/' || c == '?' {
        Cmd::StartSearch { forward: c == '/' }
    } else if c == '*' {
        Cmd::SearchWord
    } else if c == 'i' {
        Cmd::Insert(InsertKind::Before)
    } else if c == 'a' {
        Cmd::Insert(InsertKind::After)
    } else if c == 'I' {
        Cmd::Insert(InsertKind::LineStart)
    } else if c == 'A' {
        Cmd::Insert(InsertKind::LineEnd)
    } else if c == 'o' {
        Cmd::Insert(InsertKind::OpenBelow)
    } else if c == 'O' {
        Cmd::Insert(InsertKind::OpenAbove)
    } else if c == 'v' || c == 'V' {
        Cmd::EnterVisual { linewise: c == 'V' }
    } else if c == 'x' || c == 'X' {
        Cmd::DelChar { before: c == 'X', count: n, reg }
    } else if c == 'D' {
        Cmd::ToEol { op: 'd', reg }
    } else if c == 'C' {
        Cmd::ToEol { op: 'c', reg }
    } else if c == 'Y' {
        Cmd::Op { op: 'y', target: Target::Lines(n), reg }
    } else if c == 's' {
        Cmd::SubstChar { count: n, reg }
    } else if c == 'S' {
        Cmd::SubstLine { reg }
    } else if c == 'p' || c == 'P' {
        Cmd::Put { after: c == 'p', count: n, reg }
    } else if c == 'u' {
        Cmd::Undo(n)
    } else if c == 'J' {
        Cmd::Join(n)
    } else if c == '.' {
        Cmd::Dot
    } else if c == 'm' || c == '\'' || c == '`' {
        return Parse::Unsupported(Unsupported::Marks);
    } else if c == 'q' || c == '@' {
        return Parse::Unsupported(Unsupported::Macros);
    } else if c == ':' {
        return Parse::Unsupported(Unsupported::Cmdline);
    } else if c == 'Z' {
        return Parse::Unsupported(Unsupported::Quit);
    } else if c == '>' || c == '<' || c == '=' {
        return Parse::Unsupported(Unsupported::Indent);
    } else if c == '%' {
        return Parse::Unsupported(Unsupported::MatchPair);
    } else if c == 'R' {
        return Parse::Unsupported(Unsupported::ReplaceMode);
    } else {
        match motion_key(c) {
            Some(m) => Cmd::Move(m, n),
            None => return Parse::Invalid,
        }
    };
    Parse::Done(cmd, i + 1)
}

/// Reads a Normal- or Visual-mode key sequence as one command.
pub fn parse(mode: Mode, keys: &[Key]) -> (r: Parse)
    ensures
        r == parse_spec(mode, keys@),
{
    let mut i: usize = 0;
    let mut reg: Option<char> = None;
    if keys.len() > 0 && keys[0] == Key::Char('"') {
        if keys.len() < 2 {
            return Parse::Incomplete;
        }
        match keys[1] {
            Key::Char(c) => {
                if is_ascii_alpha(c) {
                    reg = Some(c);
                    i = 2;
                } else {
                    return Parse::Invalid;
                }
            },
            _ => return Parse::Invalid,
        }
    }
    let (count1, ni) = parse_count(keys, i);
    i = ni;
    if i >= keys.len() {
        return Parse::Incomplete;
    }
    let key = keys[i];
    if mode == Mode::Visual || mode == Mode::VisualLine {
        if let Some(cmd) = parse_visual_command(key, reg) {
            return Parse::Done(cmd, i + 1);
        }
    }
    match key {
        Key::Char(c) => parse_char_cmd(mode, keys, i, c, count1, reg),
        Key::Esc => Parse::Done(Cmd::Escape, i + 1),
        Key::Enter => Parse::Done(Cmd::Move(MotionKind::Down, or_one_exec(count1)), i + 1),
        Key::Backspace => Parse::Done(Cmd::Move(MotionKind::Left, or_one_exec(count1)), i + 1),
        Key::Tab => Parse::Invalid,
        Key::Ctrl(c) => if c == 'r' {
            Parse::Done(Cmd::Redo(or_one_exec(count1)), i + 1)
        } else if c == 'v' {
            Parse::Unsupported(Unsupported::VisualBlock)
        } else if c == 'o' || c == 'i' {
            Parse::Unsupported(Unsupported::Jumplist)
        } else if c == 'd' || c == 'u' || c == 'f' || c == 'b' || c == 'e' || c == 'y' {
            Parse::Unsupported(Unsupported::Scroll)
        } else {
            Parse::Invalid
        },
    }
}

/// A parsed command is sound: its counts are at least one and its register,
/// if any, is an ASCII letter.
pub open spec fn cmd_ok(cmd: Cmd) -> bool {
    let reg_ok = |r: Option<char>| r matches Some(c) ==> is_ascii_alpha_spec(c);
    match cmd {
        Cmd::Move(_, n) => n >= 1,
        Cmd::Op { op, target, reg } => reg_ok(reg) && (op == 'd' || op == 'c' || op == 'y') && match target {
            Target::Motion(_, n) => n >= 1,
            Target::Lines(n) => n >= 1,
            _ => true,
        },
        Cmd::DelChar { count, reg, .. } => count >= 1 && reg_ok(reg),
        Cmd::ToEol { op, reg } => reg_ok(reg) && (op == 'd' || op == 'c'),
        Cmd::SubstChar { count, reg } => count >= 1 && reg_ok(reg),
        Cmd::SubstLine { reg } => reg_ok(reg),
        Cmd::Replace { count, .. } => count >= 1,
        Cmd::Put { count, reg, .. } => count >= 1 && reg_ok(reg),
        Cmd::Undo(n) => n >= 1,
        Cmd::Redo(n) => n >= 1,
        Cmd::Join(n) => n >= 1,
        _ => true,
    }
}

/// A count read from the keys is never zero.
pub proof fn lemma_count_positive(keys: Seq<Key>, i: int, acc: Option<usize>)
    requires
        acc matches Some(n) ==> n >= 1,
    ensures
        count_from(keys, i, acc).0 matches Some(n) ==> n >= 1,
    decreases keys.len() - i,
{
    if 0 <= i < keys.len() && keys[i] is Char && is_ascii_digit_spec(keys[i]->Char_0) && !(
    keys[i]->Char_0 == '0' && acc is None) {
        let d = digit_value(keys[i]->Char_0);
        let prev: int = match acc {
            Some(n) => n as int,
            None => 0,
        };
        assert(prev * 10 + d >= 1) by (nonlinear_arith)
            requires
                prev >= 0,
                d >= 0,
                prev >= 1 || d >= 1,
        ;
        lemma_count_positive(keys, i + 1, Some(sat(prev * 10 + d)));
    }
}

/// Every command the grammar accepts is sound.
pub proof fn lemma_parse_ok(mode: Mode, keys: Seq<Key>)
    ensures
        parse_spec(mode, keys) matches Parse::Done(cmd, _) ==> cmd_ok(cmd),
{
    let i0: int = if keys.len() > 0 && keys[0] == Key::Char('"') { 2 } else { 0 };
    lemma_count_positive(keys, i0, None);
    let (c1, i) = count_from(keys, i0, None);
    lemma_count_positive(keys, i + 1, None);
    let (c2, j) = count_from(keys, i + 1, None);
    assert(or_one(c1) * or_one(c2) >= 1) by (nonlinear_arith)
        requires
            or_one(c1) >= 1,
            or_one(c2) >= 1,
    ;
}

} // verus!
