use cozyvim::domain::keys::{Key, keys_notation, parse_keys};

#[test]
fn parses_plain_and_tokens() {
    assert_eq!(parse_keys("dw"), vec![Key::Char('d'), Key::Char('w')]);
    assert_eq!(
        parse_keys("ciw<Esc>"),
        vec![Key::Char('c'), Key::Char('i'), Key::Char('w'), Key::Esc]
    );
    assert_eq!(parse_keys("<C-r>"), vec![Key::Ctrl('r')]);
}

#[test]
fn notation_roundtrips() {
    for s in ["dw", "d2w", "ciwfoo<Esc>", "<C-r>u", "x<Space>"] {
        assert_eq!(keys_notation(&parse_keys(s)), s);
    }
}

#[test]
fn unknown_token_stays_literal() {
    assert_eq!(parse_keys("<zz>").len(), 4);
}

#[test]
fn keys_read_back_from_their_notation() {
    let keys = vec![Key::Char('d'), Key::Ctrl('r'), Key::Esc, Key::Enter, Key::Backspace, Key::Tab, Key::Char(' ')];
    assert_eq!(parse_keys(&keys_notation(&keys)), keys);
}

#[test]
fn notation_and_labels_of_single_keys() {
    assert_eq!(Key::Char(' ').notation(), "<Space>");
    assert_eq!(Key::Ctrl('r').notation(), "<C-r>");
    assert_eq!(Key::Enter.notation(), "<CR>");
    assert_eq!(Key::Ctrl('r').label(), "^r");
    assert_eq!(Key::Esc.label(), "Esc");
}

#[test]
fn tokens_are_case_insensitive() {
    assert_eq!(parse_keys("<esc><cr><bs><tab>"), vec![Key::Esc, Key::Enter, Key::Backspace, Key::Tab]);
}
