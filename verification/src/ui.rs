//! The pure parts of the interface: which screen is shown, star labels,
//! and how the on-screen keyboard labels and colours its keys.

use vstd::prelude::*;

use crate::domain::keys::Key;
use crate::domain::text::push_char;

verus! {

#[derive(Debug, Clone, PartialEq)]
pub enum Screen {
    Onboarding { step: usize },
    /// The map of chapters and lessons.
    LessonMap,
    Lesson { lesson_id: String },
    Stats,
    Settings,
}

/// `n` copies of one character.
pub open spec fn fill(c: char, n: nat) -> Seq<char> {
    Seq::new(n, |i: int| c)
}

/// Three stars: the earned ones filled, the rest hollow.
pub open spec fn stars_text(earned: u8) -> Seq<char> {
    fill('★', earned as nat) + fill('☆', if earned < 3 { (3 - earned) as nat } else { 0 })
}

fn push_fill(s: &mut String, c: char, n: usize)
    ensures
        final(s)@ == old(s)@ + fill(c, n as nat),
{
    let mut i: usize = 0;
    while i < n
        invariant
            i <= n,
            s@ == old(s)@ + fill(c, i as nat),
        decreases n - i,
    {
        push_char(s, c);
        i = i + 1;
        assert(s@ =~= old(s)@ + fill(c, i as nat));
    }
}

/// Earned stars out of three, such as `★★☆`; more than three earned show
/// as that many filled stars.
pub fn stars_label(earned: u8) -> (r: String)
    ensures
        r@ == stars_text(earned),
{
    let mut s = String::new();
    push_fill(&mut s, '★', earned as usize);
    push_fill(&mut s, '☆', if earned < 3 { (3 - earned) as usize } else { 0 });
    assert(s@ =~= stars_text(earned));
    s
}

/// Touch-typing finger zones: 0-3 the left hand from the little finger,
/// 4-7 the right.
pub open spec fn zone_of(ch: char) -> usize {
    if ch == '`' || ch == '1' || ch == 'q' || ch == 'a' || ch == 'z' {
        0
    } else if ch == '2' || ch == 'w' || ch == 's' || ch == 'x' {
        1
    } else if ch == '3' || ch == 'e' || ch == 'd' || ch == 'c' {
        2
    } else if ch == '4' || ch == '5' || ch == 'r' || ch == 't' || ch == 'f' || ch == 'g' || ch == 'v'
        || ch == 'b' {
        3
    } else if ch == '6' || ch == '7' || ch == 'y' || ch == 'u' || ch == 'h' || ch == 'j' || ch == 'n'
        || ch == 'm' {
        4
    } else if ch == '8' || ch == 'i' || ch == 'k' || ch == ',' {
        5
    } else if ch == '9' || ch == 'o' || ch == 'l' || ch == '.' {
        6
    } else {
        7
    }
}

pub fn finger_zone(ch: char) -> (r: usize)
    ensures
        r == zone_of(ch),
        r <= 7,
{
    match ch {
        '`' | '1' | 'q' | 'a' | 'z' => 0,
        '2' | 'w' | 's' | 'x' => 1,
        '3' | 'e' | 'd' | 'c' => 2,
        '4' | '5' | 'r' | 't' | 'f' | 'g' | 'v' | 'b' => 3,
        '6' | '7' | 'y' | 'u' | 'h' | 'j' | 'n' | 'm' => 4,
        '8' | 'i' | 'k' | ',' => 5,
        '9' | 'o' | 'l' | '.' => 6,
        _ => 7,
    }
}

/// The keycap label of a key that is not a plain character key.
pub open spec fn special_text(key: Option<Key>) -> Option<Seq<char>> {
    match key {
        Some(Key::Esc) => Some(seq!['e', 's', 'c']),
        Some(Key::Enter) => Some(seq!['⏎']),
        Some(Key::Backspace) => Some(seq!['⌫']),
        Some(Key::Tab) => Some(seq!['⇥']),
        Some(Key::Char(' ')) => Some(seq!['␣']),
        _ => None,
    }
}

pub fn special_label(key: Option<Key>) -> (r: Option<&'static str>)
    ensures
        match special_text(key) {
            Some(t) => r matches Some(s) && s@ == t,
            None => r is None,
        },
{
    proof {
        reveal_strlit("esc");
        reveal_strlit("⏎");
        reveal_strlit("⌫");
        reveal_strlit("⇥");
        reveal_strlit("␣");
    }
    match key {
        Some(Key::Esc) => Some("esc"),
        Some(Key::Enter) => Some("⏎"),
        Some(Key::Backspace) => Some("⌫"),
        Some(Key::Tab) => Some("⇥"),
        Some(Key::Char(' ')) => Some("␣"),
        _ => None,
    }
}

} // verus!
