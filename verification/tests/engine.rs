//! Table tests of the engine: (buffer, cursor, keys) -> (buffer, cursor).

use cozyvim::domain::buffer::Buffer;
use cozyvim::domain::keys::{Key, parse_keys};
use cozyvim::vim::engine::{Engine, Mode, StepResult};

fn run(lines: &[&str], cursor: (usize, usize), keys: &str) -> (Vec<String>, (usize, usize), Mode) {
    let mut buf = Buffer::from_str_slice(lines);
    buf.cursor = cursor;
    let mut eng = Engine::new(buf);
    for k in parse_keys(keys) {
        eng.feed(k);
    }
    (eng.buf.to_lines(), eng.buf.cursor, eng.mode)
}

fn check(lines: &[&str], cursor: (usize, usize), keys: &str, expect: &[&str]) {
    let (got, _, _) = run(lines, cursor, keys);
    let want: Vec<String> = expect.iter().map(|s| s.to_string()).collect();
    assert_eq!(got, want, "keys `{keys}` gave the wrong buffer");
}

fn check_cursor(lines: &[&str], cursor: (usize, usize), keys: &str, expect: (usize, usize)) {
    let (_, got, _) = run(lines, cursor, keys);
    assert_eq!(got, expect, "keys `{keys}` moved the cursor to the wrong place");
}

#[test]
fn motions_move_cursor() {
    let text = ["fn main() {", "    let foo_bar = 42;", "}"];
    check_cursor(&text, (0, 0), "l", (0, 1));
    check_cursor(&text, (0, 0), "j", (1, 0));
    check_cursor(&text, (1, 0), "k", (0, 0));
    check_cursor(&text, (0, 0), "$", (0, 10));
    check_cursor(&text, (0, 5), "0", (0, 0));
    check_cursor(&text, (1, 0), "^", (1, 4));
    check_cursor(&text, (0, 0), "w", (0, 3));
    check_cursor(&text, (0, 3), "b", (0, 0));
    check_cursor(&text, (0, 0), "e", (0, 1));
    check_cursor(&text, (0, 0), "G", (2, 0));
    check_cursor(&text, (2, 0), "gg", (0, 0));
    check_cursor(&text, (0, 0), "3l", (0, 3));
}

#[test]
fn find_motions() {
    let text = ["let foo = bar;"];
    check_cursor(&text, (0, 0), "f=", (0, 8));
    check_cursor(&text, (0, 0), "t=", (0, 7));
    check_cursor(&text, (0, 13), "F=", (0, 8));
    check_cursor(&text, (0, 0), "f=;", (0, 8));
    check_cursor(&text, (0, 0), "fo;", (0, 6));
}

#[test]
fn delete_with_motion() {
    check(&["let foo = 42;"], (0, 4), "dw", &["let = 42;"]);
    check(&["let foo = 42;"], (0, 4), "de", &["let  = 42;"]);
    check(&["let foo = 42;"], (0, 4), "d$", &["let "]);
    check(&["let foo = 42;"], (0, 4), "x", &["let oo = 42;"]);
    check(&["let foo = 42;"], (0, 4), "3x", &["let  = 42;"]);
    check(&["let foo = 42;"], (0, 4), "D", &["let "]);
}

#[test]
fn delete_lines() {
    let text = ["one", "two", "three"];
    check(&text, (1, 0), "dd", &["one", "three"]);
    check(&text, (0, 0), "2dd", &["three"]);
    check(&text, (0, 0), "dj", &["three"]);
    check(&text, (0, 0), "dG", &[""]);
}

#[test]
fn change_commands() {
    let (lines, _, mode) = run(&["let foo = 42;"], (0, 4), "cw");
    assert_eq!(lines, vec!["let  = 42;".to_string()]);
    assert_eq!(mode, Mode::Insert);
    check(&["let foo = 42;"], (0, 4), "cwbar<Esc>", &["let bar = 42;"]);
    check(&["let foo = 42;"], (0, 4), "ciwbar<Esc>", &["let bar = 42;"]);
    check(&["one", "two"], (0, 0), "ccuno<Esc>", &["uno", "two"]);
}

#[test]
fn insert_commands() {
    check(&["bar"], (0, 0), "ifoo<Esc>", &["foobar"]);
    check(&["bar"], (0, 0), "abaz<Esc>", &["bbazar"]);
    check(&["    bar"], (0, 6), "Ifoo<Esc>", &["    foobar"]);
    check(&["bar"], (0, 0), "A!<Esc>", &["bar!"]);
    check(&["    bar"], (0, 0), "obaz<Esc>", &["    bar", "    baz"]);
    check(&["bar"], (0, 0), "Obaz<Esc>", &["baz", "bar"]);
}

#[test]
fn text_objects() {
    check(&["say \"hello world\" now"], (0, 8), "di\"", &["say \"\" now"]);
    check(&["say \"hello world\" now"], (0, 8), "da\"", &["say  now"]);
    check(&["call(a, b)"], (0, 6), "di(", &["call()"]);
    check(&["let foo_bar = 1;"], (0, 5), "diw", &["let  = 1;"]);
    check(&["let foo_bar = 1;"], (0, 5), "daw", &["let = 1;"]);
    check(&["a", "b", "", "c"], (0, 0), "dip", &["", "c"]);
}

#[test]
fn yank_and_put() {
    check(&["one", "two"], (0, 0), "yyp", &["one", "one", "two"]);
    check(&["one", "two"], (0, 0), "yyP", &["one", "one", "two"]);
    check(&["abc"], (0, 0), "ylp", &["aabc"]);
    check(&["one", "two"], (0, 0), "ddp", &["two", "one"]);
}

#[test]
fn undo_redo() {
    check(&["one"], (0, 0), "ddu", &["one"]);
    check(&["one", "two"], (0, 0), "ddu<C-r>", &["two"]);
    check(&["abc"], (0, 0), "xxu", &["bc"]);
}

#[test]
fn visual_mode() {
    check(&["hello world"], (0, 0), "vlld", &["lo world"]);
    check(&["one", "two", "three"], (0, 0), "Vjd", &["three"]);
    check(&["hello"], (0, 0), "vecya<Esc>", &["ya"]);
}

#[test]
fn replace_and_join() {
    check(&["cat"], (0, 0), "rb", &["bat"]);
    check(&["aaa"], (0, 0), "3rb", &["bbb"]);
    check(&["one", "two"], (0, 0), "J", &["one two"]);
}

#[test]
fn search_motions() {
    let text = ["alpha", "beta", "gamma beta"];
    check_cursor(&text, (0, 0), "/beta<CR>", (1, 0));
    check_cursor(&text, (0, 0), "/beta<CR>n", (2, 6));
    check_cursor(&text, (1, 0), "*", (2, 6));
}

#[test]
fn dot_repeats_last_change() {
    check(&["a a a a"], (0, 0), "dw.", &["a a"]);
    check(&["one two three"], (0, 0), "cwX<Esc>w.", &["X X three"]);
}

#[test]
fn counts_combine_with_operators() {
    check(&["a b c d e"], (0, 0), "d3w", &["d e"]);
    check(&["one", "two", "three", "four"], (0, 0), "2dd", &["three", "four"]);
}

#[test]
fn unsupported_commands_are_reported() {
    let mut eng = Engine::new(Buffer::from_str_slice(&["abc"]));
    assert!(matches!(eng.feed(Key::Char(':')), StepResult::Unsupported(_)));
    assert!(matches!(eng.feed(Key::Char('q')), StepResult::Unsupported(_)));
    assert!(matches!(eng.feed(Key::Ctrl('v')), StepResult::Unsupported(_)));
}

#[test]
fn every_change_is_undone_by_u() {
    let cases: [(&[&str], (usize, usize), &str); 9] = [
        (&["let foo = 42;"], (0, 4), "dw"),
        (&["let foo = 42;"], (0, 4), "x"),
        (&["let foo = 42;"], (0, 4), "D"),
        (&["one", "two"], (0, 0), "J"),
        (&["cat"], (0, 0), "rb"),
        (&["one", "two"], (1, 0), "yyP"),
        (&["a", "b", "", "c"], (0, 0), "dip"),
        (&["say \"hi\" now"], (0, 5), "da\""),
        (&["one", "two", "three"], (0, 0), "2dd"),
    ];
    for (text, cursor, keys) in cases {
        let before: Vec<String> = text.iter().map(|s| s.to_string()).collect();
        let (changed, _, _) = run(text, cursor, keys);
        assert_ne!(changed, before, "`{keys}` should change the text");
        let (undone, _, mode) = run(text, cursor, &format!("{keys}u"));
        assert_eq!(undone, before, "`{keys}u` should give the text back");
        assert_eq!(mode, Mode::Normal);
    }
}

#[test]
fn undo_restores_the_cursor_and_redo_the_change() {
    let (_, cursor, _) = run(&["let foo = 42;"], (0, 4), "dwu");
    assert_eq!(cursor, (0, 4));
    let (redone, _, _) = run(&["let foo = 42;"], (0, 4), "dwu<C-r>");
    assert_eq!(redone, vec!["let = 42;".to_string()]);
}

#[test]
fn escape_leaves_insert_and_visual_modes() {
    let (_, cursor, mode) = run(&["bar"], (0, 0), "Afoo<Esc>");
    assert_eq!(mode, Mode::Normal);
    assert_eq!(cursor, (0, 5));
    let (_, _, mode) = run(&["bar"], (0, 0), "vl<Esc>");
    assert_eq!(mode, Mode::Normal);
}

#[test]
fn pending_keys_wait_and_unknown_ones_are_dropped() {
    let mut eng = Engine::new(Buffer::from_str_slice(&["abc"]));
    assert_eq!(eng.feed(Key::Char('d')), StepResult::Pending);
    assert_eq!(eng.pending_keys(), &[Key::Char('d')]);
    assert_eq!(eng.feed(Key::Char('Q')), StepResult::Ignored);
    assert!(eng.pending_keys().is_empty());
    assert_eq!(eng.buf.to_lines(), vec!["abc".to_string()]);
    assert_eq!(eng.feed(Key::Char(':')), StepResult::Unsupported("cmdline".to_string()));
    assert!(eng.pending_keys().is_empty());
}

#[test]
fn insert_mode_keys() {
    check(&["ab"], (0, 1), "i<Tab><Esc>", &["a    b"]);
    check(&["ab"], (0, 1), "i<CR><Esc>", &["a", "b"]);
    check(&["ab", "cd"], (1, 0), "i<BS><Esc>", &["abcd"]);
    let mut eng = Engine::new(Buffer::from_str_slice(&["ab"]));
    eng.feed(Key::Char('i'));
    assert_eq!(eng.feed(Key::Ctrl('w')), StepResult::Unsupported("insert_ctrl".to_string()));
}

#[test]
fn registers_keep_named_text() {
    check(&["one", "two"], (0, 0), "\"ayyj\"ap", &["one", "two", "one"]);
    check(&["one two"], (0, 0), "\"bdwx\"bP", &["one wo"]);
}

#[test]
fn visual_range_is_ordered() {
    let mut buf = Buffer::from_str_slice(&["hello world"]);
    buf.cursor = (0, 6);
    let mut eng = Engine::new(buf);
    assert_eq!(eng.visual_range(), None);
    for k in parse_keys("vbb") {
        eng.feed(k);
    }
    assert_eq!(eng.visual_range(), Some(((0, 0), (0, 6))));
}

#[test]
fn search_prompt_edits_and_cancels() {
    let mut eng = Engine::new(Buffer::from_str_slice(&["alpha", "beta"]));
    for k in parse_keys("/bx<BS>") {
        eng.feed(k);
    }
    assert_eq!(eng.cmdline, Some(("b".to_string(), true)));
    eng.feed(Key::Esc);
    assert_eq!(eng.cmdline, None);
    assert_eq!(eng.buf.cursor, (0, 0));
    let (_, cursor, _) = run(&["alpha", "beta", "alpha"], (2, 0), "?alpha<CR>");
    assert_eq!(cursor, (0, 0));
}

fn touched_after(lines: &[&str], cursor: (usize, usize), keys: &str) -> Option<(usize, usize)> {
    let mut buf = Buffer::from_str_slice(lines);
    buf.cursor = cursor;
    let mut eng = Engine::new(buf);
    for k in parse_keys(keys) {
        eng.feed(k);
    }
    eng.touched_rows()
}

#[test]
fn touched_rows_follow_the_last_change() {
    let text = ["one", "two", "three"];
    assert_eq!(touched_after(&text, (0, 0), "x"), Some((0, 0)));
    assert_eq!(touched_after(&text, (0, 0), "2dd"), Some((0, 1)));
    assert_eq!(touched_after(&text, (1, 0), "o"), Some((2, 2)));
    assert_eq!(touched_after(&text, (1, 0), "O"), Some((1, 1)));
    assert_eq!(touched_after(&text, (0, 0), "J"), Some((0, 0)));
    assert_eq!(touched_after(&text, (0, 0), "yjjp"), Some((2, 3)));
    assert_eq!(touched_after(&text, (0, 0), "ia<CR>"), Some((0, 1)));
    // a motion clears the highlight
    assert_eq!(touched_after(&text, (0, 0), "xj"), None);
    // nothing to replace: nothing touched
    assert_eq!(touched_after(&text, (0, 0), "5rz"), None);
}

#[test]
fn dot_repeats_a_change_typed_in_insert_mode() {
    check(&["a b c"], (0, 0), "ciwX<Esc>w.w.", &["X X X"]);
    check(&["one", "two"], (0, 0), "A!<Esc>j.", &["one!", "two!"]);
    // `.` with no change yet does nothing
    check(&["abc"], (0, 0), ".", &["abc"]);
}

#[test]
fn named_registers_take_deleted_characters() {
    check(&["abc"], (0, 0), "\"ax\"ap", &["bac"]);
    check(&["abc", "xyz"], (0, 0), "\"bddj\"bp", &["xyz", "abc"]);
}

#[test]
fn join_onto_an_empty_line_keeps_the_cursor_on_a_character() {
    let (lines, cursor, _) = run(&["a", ""], (0, 0), "J");
    assert_eq!(lines, vec!["a".to_string()]);
    assert_eq!(cursor, (0, 0));
    check_cursor(&["one", "two"], (0, 0), "J", (0, 3));
    check_cursor(&["", "two"], (0, 0), "J", (0, 0));
}

#[test]
fn putting_an_empty_text_keeps_the_cursor() {
    // `D` on an empty line stores an empty text; putting it changes nothing
    let (lines, cursor, _) = run(&["", "abc"], (0, 0), "Djlp");
    assert_eq!(lines, vec!["".to_string(), "abc".to_string()]);
    assert_eq!(cursor, (1, 2));
}
