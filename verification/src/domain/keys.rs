//! Keystrokes in vim notation: parsing strings such as `"d2w<Esc>"` and
//! printing them back, so that a lesson's solutions and the user's input can
//! be compared as text.

use vstd::prelude::*;

use crate::domain::text::{
    ascii_lower, chars_eq, chars_of, push_char, push_chars, string_from_chars, to_ascii_lower,
};

verus! {

#[derive(Clone, Copy, Debug, PartialEq, Eq, Hash, Structural)]
pub enum Key {
    Char(char),
    Ctrl(char),
    Esc,
    Enter,
    Backspace,
    Tab,
}

/// The notation of one key: what a lesson author writes in `solutions`.
pub open spec fn notation_of(k: Key) -> Seq<char> {
    match k {
        Key::Char(c) => if c == ' ' {
            seq!['<', 'S', 'p', 'a', 'c', 'e', '>']
        } else {
            seq![c]
        },
        Key::Ctrl(c) => seq!['<', 'C', '-', c, '>'],
        Key::Esc => seq!['<', 'E', 's', 'c', '>'],
        Key::Enter => seq!['<', 'C', 'R', '>'],
        Key::Backspace => seq!['<', 'B', 'S', '>'],
        Key::Tab => seq!['<', 'T', 'a', 'b', '>'],
    }
}

/// The short caption of a key on the on-screen keyboard and key ribbon.
pub open spec fn label_of(k: Key) -> Seq<char> {
    match k {
        Key::Char(c) => if c == ' ' {
            seq!['\u{2423}']
        } else {
            seq![c]
        },
        Key::Ctrl(c) => seq!['^', c],
        Key::Esc => seq!['E', 's', 'c'],
        Key::Enter => seq!['\u{23ce}'],
        Key::Backspace => seq!['\u{232b}'],
        Key::Tab => seq!['\u{21e5}'],
    }
}

/// The notation of a whole key sequence: the notations one after another.
pub open spec fn notation_all(ks: Seq<Key>) -> Seq<char>
    decreases ks.len(),
{
    if ks.len() == 0 {
        seq![]
    } else {
        notation_all(ks.drop_last()) + notation_of(ks.last())
    }
}

/// First index `>= from` at which `s` holds `c`.
pub open spec fn find_char(s: Seq<char>, c: char, from: int) -> Option<int>
    decreases s.len() - from,
{
    if from < 0 || from >= s.len() {
        None
    } else if s[from] == c {
        Some(from)
    } else {
        find_char(s, c, from + 1)
    }
}

pub proof fn lemma_find_char_bounds(s: Seq<char>, c: char, from: int)
    ensures
        find_char(s, c, from) matches Some(e) ==> {
            &&& 0 <= from <= e < s.len()
            &&& s[e] == c
            &&& forall|j: int| from <= j < e ==> s[j] != c
        },
    decreases s.len() - from,
{
    if 0 <= from < s.len() && s[from] != c {
        lemma_find_char_bounds(s, c, from + 1);
    }
}

pub open spec fn lower_all(t: Seq<char>) -> Seq<char> {
    t.map_values(|c: char| ascii_lower(c))
}

/// The key named by the text between `<` and `>`, compared without regard
/// to ASCII case; `None` when the token names no key.
pub open spec fn token_key(t: Seq<char>) -> Option<Key> {
    let l = lower_all(t);
    if l == seq!['e', 's', 'c'] {
        Some(Key::Esc)
    } else if l == seq!['c', 'r'] || l == seq!['e', 'n', 't', 'e', 'r'] || l == seq![
        'r',
        'e',
        't',
        'u',
        'r',
        'n',
    ] {
        Some(Key::Enter)
    } else if l == seq!['b', 's'] {
        Some(Key::Backspace)
    } else if l == seq!['t', 'a', 'b'] {
        Some(Key::Tab)
    } else if l == seq!['s', 'p', 'a', 'c', 'e'] {
        Some(Key::Char(' '))
    } else if l == seq!['l', 't'] {
        Some(Key::Char('<'))
    } else if l == seq!['g', 't'] {
        Some(Key::Char('>'))
    } else if l.len() == 3 && l[0] == 'c' && l[1] == '-' {
        Some(Key::Ctrl(l[2]))
    } else {
        None
    }
}

/// Keys read from `s` starting at index `i`: a `<token>` that names a key
/// becomes that key, any other character (an unknown token's `<` included)
/// becomes a literal `Key::Char`.
/// The key named by a `<token>` that starts at index `i` of `s`, with the
/// index of its closing `>`.
pub open spec fn token_at(s: Seq<char>, i: int) -> Option<(Key, int)> {
    if 0 <= i < s.len() && s[i] == '<' {
        match find_char(s, '>', i) {
            Some(e) => match token_key(s.subrange(i + 1, e)) {
                Some(k) => Some((k, e)),
                None => None,
            },
            None => None,
        }
    } else {
        None
    }
}

/// A character taken as itself.
pub open spec fn literal_key(c: char) -> Key {
    Key::Char(c)
}

pub open spec fn parse_from(s: Seq<char>, i: int) -> Seq<Key>
    decreases s.len() - i,
{
    if i < 0 || i >= s.len() {
        seq![]
    } else {
        match token_at(s, i) {
            Some((k, e)) => if i < e < s.len() {
                seq![k] + parse_from(s, e + 1)
            } else {
                seq![literal_key(s[i])] + parse_from(s, i + 1)
            },
            None => seq![literal_key(s[i])] + parse_from(s, i + 1),
        }
    }
}

pub open spec fn parse_keys_spec(s: Seq<char>) -> Seq<Key> {
    parse_from(s, 0)
}

/// Keys whose notation reads back as the same key: not a literal `<`, and a
/// Ctrl chord only on a character that is neither `>` nor an ASCII capital.
pub open spec fn round_trips(k: Key) -> bool {
    match k {
        Key::Char(c) => c != '<',
        Key::Ctrl(c) => c != '>' && ascii_lower(c) == c,
        _ => true,
    }
}

impl Key {
    /// The key's notation: what the lesson author writes in `solutions`.
    pub fn notation(&self) -> (r: String)
        ensures
            r@ == notation_of(*self),
    {
        match self {
            Key::Char(c) => {
                if *c == ' ' {
                    string_from_chars(&['<', 'S', 'p', 'a', 'c', 'e', '>'])
                } else {
                    let mut s = String::new();
                    push_char(&mut s, *c);
                    assert(s@ =~= seq![*c]);
                    s
                }
            },
            Key::Ctrl(c) => {
                let mut s = string_from_chars(&['<', 'C', '-']);
                push_char(&mut s, *c);
                push_char(&mut s, '>');
                assert(s@ =~= seq!['<', 'C', '-', *c, '>']);
                s
            },
            Key::Esc => string_from_chars(&['<', 'E', 's', 'c', '>']),
            Key::Enter => string_from_chars(&['<', 'C', 'R', '>']),
            Key::Backspace => string_from_chars(&['<', 'B', 'S', '>']),
            Key::Tab => string_from_chars(&['<', 'T', 'a', 'b', '>']),
        }
    }

    /// Short caption for the on-screen keyboard and the key ribbon.
    pub fn label(&self) -> (r: String)
        ensures
            r@ == label_of(*self),
    {
        match self {
            Key::Char(c) => {
                if *c == ' ' {
                    string_from_chars(&['\u{2423}'])
                } else {
                    string_from_chars(&[*c])
                }
            },
            Key::Ctrl(c) => string_from_chars(&['^', *c]),
            Key::Esc => string_from_chars(&['E', 's', 'c']),
            Key::Enter => string_from_chars(&['\u{23ce}']),
            Key::Backspace => string_from_chars(&['\u{232b}']),
            Key::Tab => string_from_chars(&['\u{21e5}']),
        }
    }
}

fn find_gt(chars: &Vec<char>, from: usize) -> (r: Option<usize>)
    requires
        from <= chars@.len(),
    ensures
        match r {
            Some(e) => find_char(chars@, '>', from as int) == Some(e as int),
            None => find_char(chars@, '>', from as int) is None,
        },
{
    let mut j = from;
    while j < chars.len()
        invariant
            from <= j <= chars@.len(),
            find_char(chars@, '>', from as int) == find_char(chars@, '>', j as int),
        decreases chars.len() - j,
    {
        if chars[j] == '>' {
            return Some(j);
        }
        j = j + 1;
    }
    None
}

/// The key that a `<token>` names, if any.
fn parse_token(token: &Vec<char>) -> (r: Option<Key>)
    ensures
        r == token_key(token@),
{
    let mut lower: Vec<char> = Vec::new();
    let mut i: usize = 0;
    while i < token.len()
        invariant
            i <= token@.len(),
            lower@ == lower_all(token@.take(i as int)),
        decreases token.len() - i,
    {
        lower.push(to_ascii_lower(token[i]));
        i = i + 1;
        assert(lower_all(token@.take(i as int)) =~= lower_all(token@.take((i - 1) as int)).push(
            ascii_lower(token@[i - 1]),
        ));
    }
    assert(token@.take(i as int) =~= token@);
    let l = lower.as_slice();
    if chars_eq(l, &['e', 's', 'c']) {
        Some(Key::Esc)
    } else if chars_eq(l, &['c', 'r']) || chars_eq(l, &['e', 'n', 't', 'e', 'r']) || chars_eq(
        l,
        &['r', 'e', 't', 'u', 'r', 'n'],
    ) {
        Some(Key::Enter)
    } else if chars_eq(l, &['b', 's']) {
        Some(Key::Backspace)
    } else if chars_eq(l, &['t', 'a', 'b']) {
        Some(Key::Tab)
    } else if chars_eq(l, &['s', 'p', 'a', 'c', 'e']) {
        Some(Key::Char(' '))
    } else if chars_eq(l, &['l', 't']) {
        Some(Key::Char('<'))
    } else if chars_eq(l, &['g', 't']) {
        Some(Key::Char('>'))
    } else if lower.len() == 3 && lower[0] == 'c' && lower[1] == '-' {
        Some(Key::Ctrl(lower[2]))
    } else {
        None
    }
}

/// Parses vim notation into a key sequence. An unknown `<...>` token is
/// taken as literal characters.
pub fn parse_keys(s: &str) -> (r: Vec<Key>)
    ensures
        r@ == parse_keys_spec(s@),
{
    let chars = chars_of(s);
    let mut out: Vec<Key> = Vec::new();
    let mut i: usize = 0;
    while i < chars.len()
        invariant
            i <= chars@.len(),
            chars@ == s@,
            out@ + parse_from(chars@, i as int) == parse_from(chars@, 0),
        decreases chars.len() - i,
    {
        proof {
            lemma_find_char_bounds(chars@, '>', i as int);
        }
        match read_token(&chars, i) {
            Some((key, end)) => {
                proof {
                    lemma_push_add(out@, key, parse_from(chars@, end + 1));
                }
                out.push(key);
                i = end + 1;
            },
            None => {
                let c = chars[i];
                proof {
                    lemma_push_add(out@, literal_key(c), parse_from(chars@, i + 1));
                }
                out.push(Key::Char(c));
                i = i + 1;
            },
        }
    }
    assert(out@ + parse_from(chars@, i as int) =~= out@);
    out
}

proof fn lemma_push_add<A>(a: Seq<A>, x: A, b: Seq<A>)
    ensures
        a.push(x) + b == a + (seq![x] + b),
{
    assert(a.push(x) + b =~= a + (seq![x] + b));
}

proof fn lemma_parse_literal(s: Seq<char>, i: int)
    requires
        0 <= i < s.len(),
        token_at(s, i) is None,
    ensures
        parse_from(s, i) == seq![literal_key(s[i])] + parse_from(s, i + 1),
{
    reveal_with_fuel(parse_from, 2);
}

proof fn lemma_parse_token_at(s: Seq<char>, i: int, k: Key, e: int)
    requires
        0 <= i < e < s.len(),
        token_at(s, i) == Some((k, e)),
    ensures
        parse_from(s, i) == seq![k] + parse_from(s, e + 1),
{
    reveal_with_fuel(parse_from, 2);
}

/// The key that a `<token>` starting at `i` names, with the index of its
/// closing `>`; `None` when no such token starts at `i`.
fn read_token(chars: &Vec<char>, i: usize) -> (r: Option<(Key, usize)>)
    requires
        i < chars@.len(),
    ensures
        r matches Some((k, e)) ==> {
            &&& chars@[i as int] == '<'
            &&& find_char(chars@, '>', i as int) == Some(e as int)
            &&& token_key(chars@.subrange(i + 1, e as int)) == Some(k)
            &&& parse_from(chars@, i as int) == seq![k] + parse_from(chars@, e + 1)
            &&& i < e < chars@.len()
        },
        r is None ==> parse_from(chars@, i as int) == seq![literal_key(chars@[i as int])]
            + parse_from(chars@, i + 1),
{
    proof {
        lemma_find_char_bounds(chars@, '>', i as int);
    }
    if chars[i] != '<' {
        proof {
            lemma_parse_literal(chars@, i as int);
        }
        return None;
    }
    let end = match find_gt(chars, i) {
        Some(e) => e,
        None => {
            proof {
                lemma_parse_literal(chars@, i as int);
            }
            return None;
        },
    };
    let mut token: Vec<char> = Vec::new();
    let mut j = i + 1;
    while j < end
        invariant
            i < j <= end,
            (end as int) < chars@.len(),
            token@ == chars@.subrange(i + 1, j as int),
        decreases end - j,
    {
        token.push(chars[j]);
        j = j + 1;
        assert(token@ =~= chars@.subrange(i + 1, j as int));
    }
    match parse_token(&token) {
        Some(key) => {
            proof {
                lemma_parse_token_at(chars@, i as int, key, end as int);
            }
            Some((key, end))
        },
        None => {
            proof {
                lemma_parse_literal(chars@, i as int);
            }
            None
        },
    }
}

/// The notation of a key sequence, the keys' notations concatenated.
pub fn keys_notation(keys: &[Key]) -> (r: String)
    ensures
        r@ == notation_all(keys@),
{
    let mut s = String::new();
    let mut i: usize = 0;
    while i < keys.len()
        invariant
            i <= keys@.len(),
            s@ == notation_all(keys@.take(i as int)),
        decreases keys.len() - i,
    {
        let n = keys[i].notation();
        s.append(n.as_str());
        i = i + 1;
        assert(keys@.take(i as int).drop_last() =~= keys@.take((i - 1) as int));
    }
    assert(keys@.take(i as int) =~= keys@);
    s
}

// ---------- the round-trip law ----------

proof fn lemma_find_char_shift(p: Seq<char>, s: Seq<char>, c: char, i: int)
    requires
        0 <= i,
    ensures
        find_char(p + s, c, p.len() + i) == match find_char(s, c, i) {
            Some(e) => Some(p.len() + e),
            None => None::<int>,
        },
    decreases s.len() - i,
{
    if i < s.len() {
        assert((p + s)[p.len() + i] == s[i]);
        lemma_find_char_shift(p, s, c, i + 1);
    }
}

proof fn lemma_token_at_shift(p: Seq<char>, s: Seq<char>, i: int)
    requires
        0 <= i,
    ensures
        token_at(p + s, p.len() + i) == match token_at(s, i) {
            Some((k, e)) => Some((k, p.len() + e)),
            None => None::<(Key, int)>,
        },
{
    let t = p + s;
    if i < s.len() {
        assert(t[p.len() + i] == s[i]);
        lemma_find_char_shift(p, s, '>', i);
        lemma_find_char_bounds(s, '>', i);
        if s[i] == '<' && find_char(s, '>', i) is Some {
            let e = find_char(s, '>', i)->0;
            assert(t.subrange(p.len() + i + 1, p.len() + e) =~= s.subrange(i + 1, e));
        }
    }
}

proof fn lemma_parse_shift(p: Seq<char>, s: Seq<char>, i: int)
    requires
        0 <= i,
    ensures
        parse_from(p + s, p.len() + i) == parse_from(s, i),
    decreases s.len() - i,
{
    if i < s.len() {
        lemma_token_at_shift(p, s, i);
        assert((p + s)[p.len() + i] == s[i]);
        match token_at(s, i) {
            Some((k, e)) => {
                if i < e < s.len() {
                    lemma_parse_shift(p, s, e + 1);
                } else {
                    lemma_parse_shift(p, s, i + 1);
                }
            },
            None => {
                lemma_parse_shift(p, s, i + 1);
            },
        }
    }
}

proof fn lemma_notation_cons(k: Key, ks: Seq<Key>)
    ensures
        notation_all(seq![k] + ks) == notation_of(k) + notation_all(ks),
    decreases ks.len(),
{
    if ks.len() == 0 {
        assert(seq![k] + ks =~= seq![k]);
        assert(seq![k].drop_last() =~= Seq::<Key>::empty());
        assert(notation_of(k) + notation_all(ks) =~= notation_of(k));
        reveal_with_fuel(notation_all, 2);
        assert(notation_all(seq![k]) =~= notation_of(k));
    } else {
        let all = seq![k] + ks;
        assert(all.drop_last() =~= seq![k] + ks.drop_last());
        assert(all.last() == ks.last());
        lemma_notation_cons(k, ks.drop_last());
        assert(notation_of(k) + notation_all(ks.drop_last()) + notation_of(ks.last())
            =~= notation_of(k) + (notation_all(ks.drop_last()) + notation_of(ks.last())));
    }
}

proof fn lemma_parse_token(body: Seq<char>, k: Key, rest: Seq<char>)
    requires
        forall|j: int| 0 <= j < body.len() ==> body[j] != '>',
        token_key(body) == Some(k),
    ensures
        parse_from(seq!['<'] + body + seq!['>'] + rest, 0) == seq![k] + parse_from(rest, 0),
{
    let n = seq!['<'] + body + seq!['>'];
    let s = n + rest;
    let e: int = body.len() as int + 1;
    assert forall|j: int| 0 <= j < e implies s[j] != '>' by {
        if j > 0 {
            assert(s[j] == body[j - 1]);
        }
    }
    assert(s[e] == '>');
    lemma_find_char_first(s, '>', 0, e);
    assert(s.subrange(1, e) =~= body);
    lemma_parse_shift(n, rest, 0);
}

proof fn lemma_find_char_first(s: Seq<char>, c: char, from: int, e: int)
    requires
        0 <= from <= e < s.len(),
        s[e] == c,
        forall|j: int| from <= j < e ==> s[j] != c,
    ensures
        find_char(s, c, from) == Some(e),
    decreases e - from,
{
    if from < e {
        lemma_find_char_first(s, c, from + 1, e);
    }
}

proof fn lemma_parse_one(k: Key, rest: Seq<char>)
    requires
        round_trips(k),
    ensures
        parse_from(notation_of(k) + rest, 0) == seq![k] + parse_from(rest, 0),
{
    match k {
        Key::Char(c) => {
            if c != ' ' {
                let s = notation_of(k) + rest;
                lemma_parse_shift(notation_of(k), rest, 0);
                lemma_find_char_bounds(s, '>', 0);
                assert(s[0] == c);
                assert(parse_from(s, 0) == seq![Key::Char(c)] + parse_from(s, 1));
            } else {
                let body = seq!['S', 'p', 'a', 'c', 'e'];
                assert(lower_all(body) =~= seq!['s', 'p', 'a', 'c', 'e']);
                assert(seq!['<'] + body + seq!['>'] =~= notation_of(k));
                lemma_parse_token(body, k, rest);
            }
        },
        Key::Ctrl(c) => {
            let body = seq!['C', '-', c];
            let l = lower_all(body);
            assert(l =~= seq!['c', '-', c]);
            assert(l.len() == 3);
            assert(l != seq!['e', 's', 'c']);
            assert(l != seq!['t', 'a', 'b']);
            assert(seq!['<'] + body + seq!['>'] =~= notation_of(k));
            lemma_parse_token(body, k, rest);
        },
        Key::Esc => {
            let body = seq!['E', 's', 'c'];
            assert(lower_all(body) =~= seq!['e', 's', 'c']);
            assert(seq!['<'] + body + seq!['>'] =~= notation_of(k));
            lemma_parse_token(body, k, rest);
        },
        Key::Enter => {
            let body = seq!['C', 'R'];
            assert(lower_all(body) =~= seq!['c', 'r']);
            assert(seq!['<'] + body + seq!['>'] =~= notation_of(k));
            lemma_parse_token(body, k, rest);
        },
        Key::Backspace => {
            let body = seq!['B', 'S'];
            let l = lower_all(body);
            assert(l =~= seq!['b', 's']);
            assert(l != seq!['c', 'r']);
            assert(seq!['<'] + body + seq!['>'] =~= notation_of(k));
            lemma_parse_token(body, k, rest);
        },
        Key::Tab => {
            let body = seq!['T', 'a', 'b'];
            let l = lower_all(body);
            assert(l =~= seq!['t', 'a', 'b']);
            assert(l != seq!['e', 's', 'c']);
            assert(seq!['<'] + body + seq!['>'] =~= notation_of(k));
            lemma_parse_token(body, k, rest);
        },
    }
}

/// Printing keys in vim notation and parsing the text back gives the same
/// keys, for every sequence of keys whose notation is unambiguous.
pub proof fn lemma_notation_parse_roundtrip(ks: Seq<Key>)
    requires
        forall|i: int| 0 <= i < ks.len() ==> round_trips(#[trigger] ks[i]),
    ensures
        parse_keys_spec(notation_all(ks)) == ks,
    decreases ks.len(),
{
    if ks.len() == 0 {
    } else {
        let k = ks[0];
        let rest = ks.drop_first();
        assert(ks =~= seq![k] + rest);
        lemma_notation_cons(k, rest);
        assert(round_trips(ks[0]));
        lemma_parse_one(k, notation_all(rest));
        assert forall|i: int| 0 <= i < rest.len() implies round_trips(#[trigger] rest[i]) by {
            assert(rest[i] == ks[i + 1]);
        }
        lemma_notation_parse_roundtrip(rest);
    }
}

} // verus!
