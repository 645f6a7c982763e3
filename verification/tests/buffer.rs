use cozyvim::domain::buffer::Buffer;

#[test]
fn an_empty_buffer_has_one_empty_line() {
    let b = Buffer::new(&[]);
    assert_eq!(b.line_count(), 1);
    assert_eq!(b.to_lines(), vec![String::new()]);
}

#[test]
fn lines_are_characters_not_bytes() {
    let b = Buffer::from_str_slice(&["привет", "ok"]);
    assert_eq!(b.line_len(0), 6);
    assert_eq!(b.char_at(0, 1), Some('р'));
    assert_eq!(b.char_at(0, 6), None);
    assert_eq!(b.line(5), &[] as &[char]);
    assert_eq!(b.line_len(9), 0);
}

#[test]
fn editing_lines() {
    let mut b = Buffer::from_str_slice(&["one", "two"]);
    b.insert_line(1, "mid".chars().collect());
    b.insert_line(99, "end".chars().collect());
    assert_eq!(b.to_lines(), vec!["one", "mid", "two", "end"]);
    assert_eq!(b.remove_line(0), "one".chars().collect::<Vec<char>>());
    b.set_line(0, "MID".chars().collect());
    b.line_mut(1).push('!');
    assert_eq!(b.to_lines(), vec!["MID", "two!", "end"]);
    b.set_lines(Vec::new());
    assert_eq!(b.to_lines(), vec![String::new()]);
    let mut single = Buffer::from_str_slice(&["only"]);
    single.remove_line(0);
    assert_eq!(single.to_lines(), vec![String::new()]);
}

#[test]
fn cursor_is_clamped_per_mode() {
    let mut b = Buffer::from_str_slice(&["abc", ""]);
    b.cursor = (0, 9);
    b.clamp_cursor(false);
    assert_eq!(b.cursor, (0, 2));
    b.cursor = (0, 9);
    b.clamp_cursor(true);
    assert_eq!(b.cursor, (0, 3));
    b.cursor = (7, 4);
    b.clamp_cursor(false);
    assert_eq!(b.cursor, (1, 0));
    assert_eq!(b.max_col(0, false), 2);
    assert_eq!(b.max_col(0, true), 3);
    assert_eq!(b.max_col(1, false), 0);
}

#[test]
fn first_non_blank_and_current_char() {
    let mut b = Buffer::from_str_slice(&["   x", "    ", ""]);
    assert_eq!(b.first_non_blank(0), 3);
    assert_eq!(b.first_non_blank(1), 0);
    assert_eq!(b.first_non_blank(2), 0);
    b.cursor = (0, 3);
    assert_eq!(b.cur_char(), Some('x'));
    assert_eq!(b.lines_raw().len(), 3);
    let c = b.clone();
    assert_eq!(c.to_lines(), b.to_lines());
}
