use cozyvim::domain::buffer::Buffer;
use cozyvim::vim::motion::{
    TextObj, find_in_line, next_word_start, para_back, para_fwd, prev_word_start, search,
    textobj_range, word_end, word_under_cursor,
};

#[test]
fn word_motions_stop_at_classes() {
    let b = Buffer::from_str_slice(&["foo.bar baz", "  next"]);
    assert_eq!(next_word_start(&b, (0, 0), false), (0, 3));
    assert_eq!(next_word_start(&b, (0, 0), true), (0, 8));
    assert_eq!(next_word_start(&b, (0, 8), false), (1, 2));
    assert_eq!(prev_word_start(&b, (1, 2), false), (0, 8));
    assert_eq!(prev_word_start(&b, (0, 8), true), (0, 0));
    assert_eq!(word_end(&b, (0, 0), false), (0, 2));
    assert_eq!(word_end(&b, (0, 0), true), (0, 6));
}

#[test]
fn finds_within_the_line() {
    let b = Buffer::from_str_slice(&["a,b,c"]);
    assert_eq!(find_in_line(&b, (0, 0), ',', true, false), Some((0, 1)));
    assert_eq!(find_in_line(&b, (0, 0), ',', true, true), Some((0, 2)));
    assert_eq!(find_in_line(&b, (0, 2), ',', true, true), None);
    assert_eq!(find_in_line(&b, (0, 4), ',', false, false), Some((0, 3)));
    assert_eq!(find_in_line(&b, (0, 4), ',', false, true), Some((0, 4)));
    assert_eq!(find_in_line(&b, (0, 0), 'z', true, false), None);
}

#[test]
fn paragraphs_and_search() {
    let b = Buffer::from_str_slice(&["a", "b", "", "c", "d"]);
    assert_eq!(para_fwd(&b, (0, 0)), (2, 0));
    assert_eq!(para_fwd(&b, (3, 0)), (4, 0));
    assert_eq!(para_back(&b, (4, 0)), (2, 0));
    assert_eq!(para_back(&b, (1, 0)), (0, 0));
    let t = Buffer::from_str_slice(&["alpha", "beta", "gamma beta"]);
    assert_eq!(search(&t, (0, 0), "beta", true), Some((1, 0)));
    assert_eq!(search(&t, (1, 0), "beta", true), Some((2, 6)));
    assert_eq!(search(&t, (2, 6), "beta", true), Some((1, 0)));
    assert_eq!(search(&t, (1, 0), "beta", false), Some((2, 6)));
    assert_eq!(search(&t, (0, 0), "zeta", true), None);
    assert_eq!(search(&t, (0, 0), "", true), None);
}

#[test]
fn words_and_text_objects() {
    let b = Buffer::from_str_slice(&["let foo_bar = (1, 2);"]);
    assert_eq!(word_under_cursor(&b, (0, 5)), Some("foo_bar".to_string()));
    assert_eq!(word_under_cursor(&b, (0, 3)), None);
    assert_eq!(
        textobj_range(&b, (0, 5), TextObj::Word { inner: true, big: false }),
        Some(((0, 4), (0, 10), false))
    );
    assert_eq!(
        textobj_range(&b, (0, 16), TextObj::Bracket { open: '(', close: ')', inner: true }),
        Some(((0, 15), (0, 18), false))
    );
    assert_eq!(textobj_range(&b, (0, 0), TextObj::Quote { ch: '"', inner: false }), None);
}

#[test]
fn positions_past_the_last_line_are_handled() {
    let b = Buffer::from_str_slice(&["ab", "cb", "", "xyz"]);
    // the search wraps the starting row round to the top
    assert_eq!(search(&b, (5, 0), "b", true), Some((1, 1)));
    assert_eq!(search(&b, (1, 0), "b", true), Some((1, 1)));
    assert_eq!(para_fwd(&b, (9, 0)), (3, 2));
    assert_eq!(para_fwd(&b, (0, 0)), (2, 0));
}
