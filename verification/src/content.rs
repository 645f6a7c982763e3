//! Lessons and their exercises. An exercise's mechanics are written once,
//! its texts once per language, so a translation cannot drift from the
//! logic. Reading the lesson files is the app's job; this module holds the
//! data and answers questions about it.

use vstd::prelude::*;

use crate::domain::keys::{Key, parse_keys, parse_keys_spec};
use crate::domain::text::{
    chars_eq, chars_of, lemma_text_lt_asymmetric, lemma_text_lt_irreflexive, lemma_text_lt_total,
    lemma_text_lt_transitive, text_less, text_lt,
};

verus! {

/// The texts of a lesson, exercise or chapter in one language.
#[derive(Debug)]
pub struct LocalizedText {
    pub title: String,
    pub subtitle: String,
    pub intro: String,
    pub task: String,
    pub hint: String,
}

impl Clone for LocalizedText {
    fn clone(&self) -> (r: Self)
        ensures
            r == *self,
    {
        LocalizedText {
            title: self.title.clone(),
            subtitle: self.subtitle.clone(),
            intro: self.intro.clone(),
            task: self.task.clone(),
            hint: self.hint.clone(),
        }
    }
}

impl LocalizedText {
    pub open spec fn is_empty_text(&self) -> bool {
        &&& self.title@.len() == 0
        &&& self.subtitle@.len() == 0
        &&& self.intro@.len() == 0
        &&& self.task@.len() == 0
        &&& self.hint@.len() == 0
    }

    /// A text with every part empty.
    pub fn empty() -> (r: Self)
        ensures
            r.is_empty_text(),
    {
        LocalizedText {
            title: String::new(),
            subtitle: String::new(),
            intro: String::new(),
            task: String::new(),
            hint: String::new(),
        }
    }
}

/// Texts keyed by language code.
pub type Texts = Vec<(String, LocalizedText)>;

/// The first entry for `lang`.
pub open spec fn lookup(texts: Seq<(String, LocalizedText)>, lang: Seq<char>) -> Option<LocalizedText>
    decreases texts.len(),
{
    if texts.len() == 0 {
        None
    } else if texts[0].0@ == lang {
        Some(texts[0].1)
    } else {
        lookup(texts.drop_first(), lang)
    }
}

/// No language occurs twice, as in the table the texts are read from.
pub open spec fn langs_unique(texts: Seq<(String, LocalizedText)>) -> bool {
    forall|i: int, j: int| 0 <= i < j < texts.len() ==> texts[i].0@ != texts[j].0@
}

/// Where no language occurs twice, the text found for a language is the
/// one entry stored under it, and a language with no entry finds none.
pub proof fn lemma_lookup_unique(texts: Seq<(String, LocalizedText)>, lang: Seq<char>)
    requires
        langs_unique(texts),
    ensures
        forall|i: int| 0 <= i < texts.len() && #[trigger] texts[i].0@ == lang ==> lookup(texts, lang) == Some(texts[i].1),
        (forall|i: int| 0 <= i < texts.len() ==> #[trigger] texts[i].0@ != lang) ==> lookup(texts, lang) is None,
    decreases texts.len(),
{
    if texts.len() > 0 {
        let rest = texts.drop_first();
        assert forall|i: int, j: int| 0 <= i < j < rest.len() implies rest[i].0@ != rest[j].0@ by {
            assert(rest[i] == texts[i + 1] && rest[j] == texts[j + 1]);
        }
        lemma_lookup_unique(rest, lang);
        assert forall|i: int| 0 <= i < texts.len() && #[trigger] texts[i].0@ == lang implies lookup(texts, lang) == Some(texts[i].1) by {
            if i > 0 {
                assert(rest[i - 1] == texts[i]);
                assert(texts[0].0@ != texts[i].0@);
            }
        }
        if forall|i: int| 0 <= i < texts.len() ==> #[trigger] texts[i].0@ != lang {
            assert forall|i: int| 0 <= i < rest.len() implies #[trigger] rest[i].0@ != lang by {
                assert(rest[i] == texts[i + 1]);
            }
            assert(texts[0].0@ != lang);
        }
    }
}

/// The text in `lang`, else in English, else in Russian, else empty.
pub open spec fn pick_spec(texts: Seq<(String, LocalizedText)>, lang: Seq<char>) -> Option<LocalizedText> {
    match lookup(texts, lang) {
        Some(t) => Some(t),
        None => match lookup(texts, seq!['e', 'n']) {
            Some(t) => Some(t),
            None => lookup(texts, seq!['r', 'u']),
        },
    }
}

/// Whether two strings hold the same characters.
pub fn same_text(a: &str, b: &str) -> (r: bool)
    ensures
        r == (a@ == b@),
{
    let x = chars_of(a);
    let y = chars_of(b);
    chars_eq(x.as_slice(), y.as_slice())
}

fn find_text(texts: &Texts, lang: &str) -> (r: Option<LocalizedText>)
    ensures
        r == lookup(texts@, lang@),
{
    let mut i: usize = 0;
    assert(texts@.skip(0) =~= texts@);
    while i < texts.len()
        invariant
            i <= texts@.len(),
            lookup(texts@, lang@) == lookup(texts@.skip(i as int), lang@),
        decreases texts.len() - i,
    {
        assert(texts@.skip(i as int).drop_first() =~= texts@.skip(i + 1));
        if same_text(texts[i].0.as_str(), lang) {
            return Some(texts[i].1.clone());
        }
        i = i + 1;
    }
    None
}

/// The text to show in `lang`, falling back to English, then Russian, then
/// an empty text.
fn pick(texts: &Texts, lang: &str) -> (r: LocalizedText)
    ensures
        match pick_spec(texts@, lang@) {
            Some(t) => r == t,
            None => r.is_empty_text(),
        },
{
    proof {
        reveal_strlit("en");
        reveal_strlit("ru");
        assert("en"@ =~= seq!['e', 'n']);
        assert("ru"@ =~= seq!['r', 'u']);
    }
    if let Some(t) = find_text(texts, lang) {
        return t;
    }
    if let Some(t) = find_text(texts, "en") {
        return t;
    }
    if let Some(t) = find_text(texts, "ru") {
        return t;
    }
    LocalizedText::empty()
}

#[derive(Debug)]
pub struct Exercise {
    pub buffer: Vec<String>,
    pub cursor: [usize; 2],
    pub goal: Vec<String>,
    /// For lessons about moving, the goal is a cursor position, not a text.
    pub goal_cursor: Option<[usize; 2]>,
    pub solutions: Vec<String>,
    pub text: Texts,
}

/// How many keys a solution takes.
pub open spec fn key_len(s: String) -> nat {
    parse_keys_spec(s@).len()
}

/// The index of the first of the shortest solutions among the first `k`.
pub open spec fn first_shortest(sols: Seq<String>, k: int) -> int
    decreases k,
{
    if k <= 1 {
        0
    } else {
        let b = first_shortest(sols, k - 1);
        if key_len(sols[k - 1]) < key_len(sols[b]) {
            k - 1
        } else {
            b
        }
    }
}

pub proof fn lemma_first_shortest(sols: Seq<String>, k: int)
    requires
        1 <= k <= sols.len(),
    ensures
        0 <= first_shortest(sols, k) < k,
        forall|j: int| 0 <= j < k ==> key_len(sols[first_shortest(sols, k)]) <= #[trigger] key_len(sols[j]),
        forall|j: int| 0 <= j < first_shortest(sols, k) ==> key_len(sols[first_shortest(sols, k)]) < #[trigger] key_len(sols[j]),
    decreases k,
{
    if k > 1 {
        lemma_first_shortest(sols, k - 1);
    }
}

impl Exercise {
    /// Each listed solution read as keys.
    pub fn solution_keys(&self) -> (r: Vec<Vec<Key>>)
        ensures
            r@.len() == self.solutions@.len(),
            forall|i: int| 0 <= i < r@.len() ==> (#[trigger] r@[i])@ == parse_keys_spec(self.solutions@[i]@),
    {
        let mut out: Vec<Vec<Key>> = Vec::new();
        let mut i: usize = 0;
        while i < self.solutions.len()
            invariant
                i <= self.solutions@.len(),
                out@.len() == i,
                forall|j: int| 0 <= j < i ==> (#[trigger] out@[j])@ == parse_keys_spec(self.solutions@[j]@),
            decreases self.solutions.len() - i,
        {
            out.push(parse_keys(self.solutions[i].as_str()));
            i = i + 1;
        }
        out
    }

    /// The solution the lesson teaches: the first one listed. Strict mode
    /// shows it when it reports what it expected.
    pub fn taught(&self) -> (r: &str)
        ensures
            r@ == (if self.solutions@.len() > 0 { self.solutions@[0]@ } else { Seq::<char>::empty() }),
    {
        proof {
            reveal_strlit("");
        }
        if self.solutions.len() > 0 {
            self.solutions[0].as_str()
        } else {
            ""
        }
    }

    /// The index of the shortest solution, the first of several.
    fn shortest(&self) -> (r: usize)
        requires
            self.solutions@.len() > 0,
        ensures
            r == first_shortest(self.solutions@, self.solutions@.len() as int),
            r < self.solutions@.len(),
    {
        let mut best: usize = 0;
        let mut best_len = parse_keys(self.solutions[0].as_str()).len();
        let mut i: usize = 1;
        while i < self.solutions.len()
            invariant
                1 <= i <= self.solutions@.len(),
                best == first_shortest(self.solutions@, i as int),
                best < i,
                best_len == key_len(self.solutions@[best as int]),
            decreases self.solutions.len() - i,
        {
            let len = parse_keys(self.solutions[i].as_str()).len();
            if len < best_len {
                best = i;
                best_len = len;
            }
            i = i + 1;
        }
        best
    }

    /// The shortest solution: it is the optimum that stars are measured
    /// against. With several of the same length, the first.
    pub fn canonical(&self) -> (r: &str)
        ensures
            r@ == (if self.solutions@.len() > 0 {
                self.solutions@[first_shortest(self.solutions@, self.solutions@.len() as int)]@
            } else {
                Seq::<char>::empty()
            }),
    {
        proof {
            reveal_strlit("");
        }
        if self.solutions.len() == 0 {
            return "";
        }
        let i = self.shortest();
        self.solutions[i].as_str()
    }

    /// The fewest keys any solution takes; one when there is no solution.
    pub fn optimal_keystrokes(&self) -> (r: usize)
        ensures
            r == (if self.solutions@.len() > 0 {
                key_len(self.solutions@[first_shortest(self.solutions@, self.solutions@.len() as int)])
            } else {
                1
            }),
            self.solutions@.len() > 0 ==> forall|j: int|
                0 <= j < self.solutions@.len() ==> r <= #[trigger] key_len(self.solutions@[j]),
    {
        if self.solutions.len() == 0 {
            return 1;
        }
        proof {
            lemma_first_shortest(self.solutions@, self.solutions@.len() as int);
        }
        let i = self.shortest();
        parse_keys(self.solutions[i].as_str()).len()
    }

    pub fn text(&self, lang: &str) -> (r: LocalizedText)
        ensures
            match pick_spec(self.text@, lang@) {
                Some(t) => r == t,
                None => r.is_empty_text(),
            },
    {
        pick(&self.text, lang)
    }
}

#[derive(Debug)]
pub struct Lesson {
    pub id: String,
    pub chapter: String,
    pub order: usize,
    pub text: Texts,
    pub exercises: Vec<Exercise>,
}

impl Lesson {
    pub fn text(&self, lang: &str) -> (r: LocalizedText)
        ensures
            match pick_spec(self.text@, lang@) {
                Some(t) => r == t,
                None => r.is_empty_text(),
            },
    {
        pick(&self.text, lang)
    }
}

#[derive(Debug)]
pub struct Chapter {
    pub id: String,
    pub order: usize,
    pub text: Texts,
    pub coming_soon: bool,
}

impl Chapter {
    pub fn text(&self, lang: &str) -> (r: LocalizedText)
        ensures
            match pick_spec(self.text@, lang@) {
                Some(t) => r == t,
                None => r.is_empty_text(),
            },
    {
        pick(&self.text, lang)
    }
}

#[derive(Debug)]
pub struct Curriculum {
    pub chapters: Vec<Chapter>,
    pub lessons: Vec<Lesson>,
}

/// The lessons of chapter `ch`, in curriculum order.
pub open spec fn lessons_in(ls: Seq<Lesson>, ch: Seq<char>) -> Seq<Lesson>
    decreases ls.len(),
{
    if ls.len() == 0 {
        Seq::empty()
    } else {
        let rest = lessons_in(ls.drop_last(), ch);
        if ls.last().chapter@ == ch {
            rest.push(ls.last())
        } else {
            rest
        }
    }
}

/// The index of the first lesson with id `id`.
pub open spec fn lesson_index(ls: Seq<Lesson>, id: Seq<char>) -> Option<int>
    decreases ls.len(),
{
    if ls.len() == 0 {
        None
    } else {
        match lesson_index(ls.drop_last(), id) {
            Some(i) => Some(i),
            None => if ls.last().id@ == id {
                Some(ls.len() - 1)
            } else {
                None
            },
        }
    }
}

/// The index of the first chapter with id `id`.
pub open spec fn chapter_index(cs: Seq<Chapter>, id: Seq<char>) -> Option<int>
    decreases cs.len(),
{
    if cs.len() == 0 {
        None
    } else {
        match chapter_index(cs.drop_last(), id) {
            Some(i) => Some(i),
            None => if cs.last().id@ == id {
                Some(cs.len() - 1)
            } else {
                None
            },
        }
    }
}

pub proof fn lemma_lesson_index(ls: Seq<Lesson>, id: Seq<char>)
    ensures
        lesson_index(ls, id) matches Some(i) ==> 0 <= i < ls.len() && ls[i].id@ == id && forall|j: int|
            0 <= j < i ==> (#[trigger] ls[j]).id@ != id,
        lesson_index(ls, id) is None ==> forall|j: int| 0 <= j < ls.len() ==> (#[trigger] ls[j]).id@ != id,
    decreases ls.len(),
{
    if ls.len() > 0 {
        lemma_lesson_index(ls.drop_last(), id);
        assert(forall|j: int| 0 <= j < ls.len() - 1 ==> ls.drop_last()[j] == ls[j]);
    }
}

pub proof fn lemma_chapter_index(cs: Seq<Chapter>, id: Seq<char>)
    ensures
        chapter_index(cs, id) matches Some(i) ==> 0 <= i < cs.len() && cs[i].id@ == id && forall|j: int|
            0 <= j < i ==> (#[trigger] cs[j]).id@ != id,
        chapter_index(cs, id) is None ==> forall|j: int| 0 <= j < cs.len() ==> (#[trigger] cs[j]).id@ != id,
    decreases cs.len(),
{
    if cs.len() > 0 {
        lemma_chapter_index(cs.drop_last(), id);
        assert(forall|j: int| 0 <= j < cs.len() - 1 ==> cs.drop_last()[j] == cs[j]);
    }
}

impl Curriculum {
    /// The lessons of a chapter, in curriculum order.
    pub fn lessons_of(&self, chapter: &str) -> (r: Vec<&Lesson>)
        ensures
            r@.len() == lessons_in(self.lessons@, chapter@).len(),
            forall|i: int| 0 <= i < r@.len() ==> *r@[i] == lessons_in(self.lessons@, chapter@)[i],
    {
        let mut out: Vec<&Lesson> = Vec::new();
        let mut i: usize = 0;
        while i < self.lessons.len()
            invariant
                i <= self.lessons@.len(),
                out@.len() == lessons_in(self.lessons@.take(i as int), chapter@).len(),
                forall|j: int| 0 <= j < out@.len() ==> *out@[j] == lessons_in(self.lessons@.take(i as int), chapter@)[j],
            decreases self.lessons.len() - i,
        {
            assert(self.lessons@.take(i + 1).drop_last() =~= self.lessons@.take(i as int));
            if same_text(self.lessons[i].chapter.as_str(), chapter) {
                out.push(&self.lessons[i]);
            }
            i = i + 1;
        }
        assert(self.lessons@.take(self.lessons@.len() as int) =~= self.lessons@);
        out
    }

    /// The lesson with id `id`, the first if several share it.
    pub fn lesson(&self, id: &str) -> (r: Option<&Lesson>)
        ensures
            match lesson_index(self.lessons@, id@) {
                Some(i) => r matches Some(l) && *l == self.lessons@[i],
                None => r is None,
            },
    {
        let mut i: usize = 0;
        while i < self.lessons.len()
            invariant
                i <= self.lessons@.len(),
                lesson_index(self.lessons@.take(i as int), id@) is None,
            decreases self.lessons.len() - i,
        {
            assert(self.lessons@.take(i + 1).drop_last() =~= self.lessons@.take(i as int));
            if same_text(self.lessons[i].id.as_str(), id) {
                proof {
                    lemma_lesson_index(self.lessons@, id@);
                    lemma_lesson_index(self.lessons@.take(i as int), id@);
                    assert(forall|j: int| 0 <= j < i ==> self.lessons@.take(i as int)[j] == self.lessons@[j]);
                    if let Some(k) = lesson_index(self.lessons@, id@) {
                        assert(k >= i);
                        assert(k <= i);
                    }
                }
                return Some(&self.lessons[i]);
            }
            i = i + 1;
        }
        proof {
            assert(self.lessons@.take(self.lessons@.len() as int) =~= self.lessons@);
        }
        None
    }

    /// The chapter with id `id`, the first if several share it.
    pub fn chapter(&self, id: &str) -> (r: Option<&Chapter>)
        ensures
            match chapter_index(self.chapters@, id@) {
                Some(i) => r matches Some(c) && *c == self.chapters@[i],
                None => r is None,
            },
    {
        let mut i: usize = 0;
        while i < self.chapters.len()
            invariant
                i <= self.chapters@.len(),
                chapter_index(self.chapters@.take(i as int), id@) is None,
            decreases self.chapters.len() - i,
        {
            assert(self.chapters@.take(i + 1).drop_last() =~= self.chapters@.take(i as int));
            if same_text(self.chapters[i].id.as_str(), id) {
                proof {
                    lemma_chapter_index(self.chapters@, id@);
                    lemma_chapter_index(self.chapters@.take(i as int), id@);
                    assert(forall|j: int| 0 <= j < i ==> self.chapters@.take(i as int)[j] == self.chapters@[j]);
                    if let Some(k) = chapter_index(self.chapters@, id@) {
                        assert(k >= i);
                        assert(k <= i);
                    }
                }
                return Some(&self.chapters[i]);
            }
            i = i + 1;
        }
        proof {
            assert(self.chapters@.take(self.chapters@.len() as int) =~= self.chapters@);
        }
        None
    }
}

// ---------- curriculum order ----------

/// The chapters with order `o`, in their order in `s`.
pub open spec fn chapters_at(s: Seq<Chapter>, o: usize) -> Seq<Chapter>
    decreases s.len(),
{
    if s.len() == 0 {
        Seq::empty()
    } else {
        let r = chapters_at(s.drop_last(), o);
        if s.last().order == o {
            r.push(s.last())
        } else {
            r
        }
    }
}

/// Lesson `a` comes before lesson `b`: by order, then by id.
pub open spec fn lesson_before(a: Lesson, b: Lesson) -> bool {
    a.order < b.order || (a.order == b.order && text_lt(a.id@, b.id@))
}

/// The lessons with order `o` and id `id`, in their order in `s`.
pub open spec fn lessons_at(s: Seq<Lesson>, o: usize, id: Seq<char>) -> Seq<Lesson>
    decreases s.len(),
{
    if s.len() == 0 {
        Seq::empty()
    } else {
        let r = lessons_at(s.drop_last(), o, id);
        if s.last().order == o && s.last().id@ == id {
            r.push(s.last())
        } else {
            r
        }
    }
}

/// `out` holds `input`'s chapters by ascending order; chapters of equal
/// order keep their relative order.
pub open spec fn chapters_sorted_from(out: Seq<Chapter>, input: Seq<Chapter>) -> bool {
    &&& forall|i: int, j: int| 0 <= i < j < out.len() ==> out[i].order <= out[j].order
    &&& forall|o: usize| #[trigger] chapters_at(out, o) == chapters_at(input, o)
}

/// `out` holds `input`'s lessons by order, then id; lessons with the same
/// order and id keep their relative order.
pub open spec fn lessons_sorted_from(out: Seq<Lesson>, input: Seq<Lesson>) -> bool {
    &&& forall|i: int, j: int| 0 <= i < j < out.len() ==> !lesson_before(out[j], out[i])
    &&& forall|o: usize, id: Seq<char>| #[trigger] lessons_at(out, o, id) == lessons_at(input, o, id)
}

pub proof fn lemma_chapters_at_add(a: Seq<Chapter>, b: Seq<Chapter>, o: usize)
    ensures
        chapters_at(a + b, o) == chapters_at(a, o) + chapters_at(b, o),
    decreases b.len(),
{
    if b.len() == 0 {
        assert(a + b =~= a);
        assert(chapters_at(a, o) + chapters_at(b, o) =~= chapters_at(a, o));
    } else {
        lemma_chapters_at_add(a, b.drop_last(), o);
        assert((a + b).drop_last() =~= a + b.drop_last());
        if b.last().order == o {
            assert(chapters_at(a, o) + chapters_at(b.drop_last(), o).push(b.last()) =~= (chapters_at(a, o)
                + chapters_at(b.drop_last(), o)).push(b.last()));
        }
    }
}

pub proof fn lemma_lessons_at_add(a: Seq<Lesson>, b: Seq<Lesson>, o: usize, id: Seq<char>)
    ensures
        lessons_at(a + b, o, id) == lessons_at(a, o, id) + lessons_at(b, o, id),
    decreases b.len(),
{
    if b.len() == 0 {
        assert(a + b =~= a);
        assert(lessons_at(a, o, id) + lessons_at(b, o, id) =~= lessons_at(a, o, id));
    } else {
        lemma_lessons_at_add(a, b.drop_last(), o, id);
        assert((a + b).drop_last() =~= a + b.drop_last());
        if b.last().order == o && b.last().id@ == id {
            assert(lessons_at(a, o, id) + lessons_at(b.drop_last(), o, id).push(b.last()) =~= (
            lessons_at(a, o, id) + lessons_at(b.drop_last(), o, id)).push(b.last()));
        }
    }
}

/// No chapter of order `o` in `s`.
pub proof fn lemma_chapters_at_none(s: Seq<Chapter>, o: usize)
    requires
        forall|j: int| 0 <= j < s.len() ==> (#[trigger] s[j]).order != o,
    ensures
        chapters_at(s, o) == Seq::<Chapter>::empty(),
    decreases s.len(),
{
    if s.len() > 0 {
        lemma_chapters_at_none(s.drop_last(), o);
    }
}

pub proof fn lemma_lessons_at_none(s: Seq<Lesson>, o: usize, id: Seq<char>)
    requires
        forall|j: int| 0 <= j < s.len() ==> !((#[trigger] s[j]).order == o && s[j].id@ == id),
    ensures
        lessons_at(s, o, id) == Seq::<Lesson>::empty(),
    decreases s.len(),
{
    if s.len() > 0 {
        lemma_lessons_at_none(s.drop_last(), o, id);
    }
}

/// Puts a chapter after every chapter of lower or equal order.
fn insert_chapter(out: &mut Vec<Chapter>, x: Chapter)
    requires
        forall|i: int, j: int| 0 <= i < j < old(out)@.len() ==> old(out)@[i].order <= old(out)@[j].order,
    ensures
        exists|p: int|
            0 <= p <= old(out)@.len() && final(out)@ == old(out)@.insert(p, x) && (forall|j: int|
                0 <= j < p ==> #[trigger] old(out)@[j].order <= x.order) && (forall|j: int|
                p <= j < old(out)@.len() ==> #[trigger] old(out)@[j].order > x.order),
{
    let ghost u = out@;
    let mut p: usize = 0;
    while p < out.len() && out[p].order <= x.order
        invariant
            p <= out@.len(),
            u == out@,
            forall|j: int| 0 <= j < p ==> #[trigger] u[j].order <= x.order,
        decreases out.len() - p,
    {
        p = p + 1;
    }
    assert forall|j: int| p <= j < u.len() implies #[trigger] u[j].order > x.order by {
        assert(u[p as int].order > x.order);
    }
    out.insert(p, x);
}

/// Puts a lesson after every lesson that does not come after it.
fn insert_lesson(out: &mut Vec<Lesson>, x: Lesson)
    requires
        forall|i: int, j: int| 0 <= i < j < old(out)@.len() ==> !lesson_before(old(out)@[j], old(out)@[i]),
    ensures
        exists|p: int|
            0 <= p <= old(out)@.len() && final(out)@ == old(out)@.insert(p, x) && (forall|j: int|
                0 <= j < p ==> !lesson_before(x, #[trigger] old(out)@[j])) && (forall|j: int|
                p <= j < old(out)@.len() ==> lesson_before(x, #[trigger] old(out)@[j])),
{
    let ghost u = out@;
    let xid = chars_of(x.id.as_str());
    let mut p: usize = 0;
    while p < out.len() && (out[p].order < x.order || (out[p].order == x.order && !text_less(
        xid.as_slice(),
        chars_of(out[p].id.as_str()).as_slice(),
    )))
        invariant
            p <= out@.len(),
            u == out@,
            xid@ == x.id@,
            forall|j: int| 0 <= j < p ==> !lesson_before(x, #[trigger] u[j]),
        decreases out.len() - p,
    {
        p = p + 1;
    }
    assert forall|j: int| p <= j < u.len() implies lesson_before(x, #[trigger] u[j]) by {
        let q = p as int;
        assert(lesson_before(x, u[q]));
        if j > q {
            assert(!lesson_before(u[j], u[q]));
            lemma_text_lt_total(u[q].id@, u[j].id@);
            lemma_text_lt_transitive(x.id@, u[q].id@, u[j].id@);
            if u[q].id@ == u[j].id@ {
            }
        }
    }
    out.insert(p, x);
}

impl Curriculum {
    /// A curriculum from chapters and lessons read in any order: chapters by
    /// their order, lessons by order and then id, ties kept as read.
    pub fn from_parts(chapters: Vec<Chapter>, lessons: Vec<Lesson>) -> (r: Curriculum)
        ensures
            chapters_sorted_from(r.chapters@, chapters@),
            lessons_sorted_from(r.lessons@, lessons@),
    {
        let ghost cin = chapters@;
        let total = chapters.len();
        let mut input = chapters;
        let mut sorted: Vec<Chapter> = Vec::new();
        let mut i: usize = 0;
        while input.len() > 0
            invariant
                cin.len() == total,
                i + input@.len() == cin.len(),
                input@ == cin.skip(i as int),
                forall|a: int, b: int| 0 <= a < b < sorted@.len() ==> sorted@[a].order <= sorted@[b].order,
                forall|o: usize| #[trigger] chapters_at(sorted@, o) == chapters_at(cin.take(i as int), o),
            decreases input@.len(),
        {
            let x = input.remove(0);
            let ghost before = sorted@;
            insert_chapter(&mut sorted, x);
            proof {
                let p = choose|p: int|
                    0 <= p <= before.len() && sorted@ == before.insert(p, x) && (forall|j: int|
                        0 <= j < p ==> #[trigger] before[j].order <= x.order) && (forall|j: int|
                        p <= j < before.len() ==> #[trigger] before[j].order > x.order);
                assert(cin.take(i + 1) =~= cin.take(i as int).push(x));
                assert(before.insert(p, x) =~= before.take(p) + seq![x] + before.skip(p));
                assert(before =~= before.take(p) + before.skip(p));
                assert(cin.take(i as int).push(x).drop_last() =~= cin.take(i as int));
                assert(seq![x].drop_last() =~= Seq::<Chapter>::empty());
                assert forall|o: usize| #[trigger] chapters_at(sorted@, o) == chapters_at(cin.take(i + 1), o) by {
                    let lo = before.take(p);
                    let hi = before.skip(p);
                    assert(chapters_at(Seq::<Chapter>::empty(), o) == Seq::<Chapter>::empty());
                    assert(chapters_at(seq![x].drop_last(), o) == Seq::<Chapter>::empty());
                    lemma_chapters_at_add(lo + seq![x], hi, o);
                    lemma_chapters_at_add(lo, seq![x], o);
                    lemma_chapters_at_add(lo, hi, o);
                    assert(chapters_at(before, o) == chapters_at(cin.take(i as int), o));
                    if o == x.order {
                        lemma_chapters_at_none(hi, o);
                        assert(chapters_at(seq![x], o) =~= seq![x]);
                        assert(chapters_at(lo, o) + seq![x] + Seq::<Chapter>::empty() =~= (chapters_at(lo, o)
                            + Seq::<Chapter>::empty()).push(x));
                    } else {
                        assert(chapters_at(seq![x], o) =~= Seq::<Chapter>::empty());
                        assert(chapters_at(lo, o) + Seq::<Chapter>::empty() + chapters_at(hi, o) =~= chapters_at(lo, o)
                            + chapters_at(hi, o));
                    }
                }
                let w = sorted@;
                assert forall|a: int, b: int| 0 <= a < b < w.len() implies w[a].order <= w[b].order by {
                    if b < p {
                    } else if b == p {
                    } else if a < p {
                        assert(w[b] == before[b - 1]);
                    } else if a == p {
                        assert(w[b] == before[b - 1]);
                    } else {
                        assert(w[a] == before[a - 1] && w[b] == before[b - 1]);
                    }
                }
            }
            i = i + 1;
        }
        assert(cin.take(i as int) =~= cin);
        let ghost lin = lessons@;
        let total = lessons.len();
        let mut input = lessons;
        let mut ordered: Vec<Lesson> = Vec::new();
        let mut i: usize = 0;
        while input.len() > 0
            invariant
                lin.len() == total,
                i + input@.len() == lin.len(),
                input@ == lin.skip(i as int),
                forall|a: int, b: int| 0 <= a < b < ordered@.len() ==> !lesson_before(ordered@[b], ordered@[a]),
                forall|o: usize, id: Seq<char>| #[trigger] lessons_at(ordered@, o, id) == lessons_at(lin.take(i as int), o, id),
            decreases input@.len(),
        {
            let x = input.remove(0);
            let ghost before = ordered@;
            insert_lesson(&mut ordered, x);
            proof {
                let p = choose|p: int|
                    0 <= p <= before.len() && ordered@ == before.insert(p, x) && (forall|j: int|
                        0 <= j < p ==> !lesson_before(x, #[trigger] before[j])) && (forall|j: int|
                        p <= j < before.len() ==> lesson_before(x, #[trigger] before[j]));
                assert(lin.take(i + 1) =~= lin.take(i as int).push(x));
                assert(before.insert(p, x) =~= before.take(p) + seq![x] + before.skip(p));
                assert(before =~= before.take(p) + before.skip(p));
                assert(lin.take(i as int).push(x).drop_last() =~= lin.take(i as int));
                assert(seq![x].drop_last() =~= Seq::<Lesson>::empty());
                assert forall|o: usize, id: Seq<char>| #[trigger] lessons_at(ordered@, o, id) == lessons_at(lin.take(i + 1), o, id) by {
                    let lo = before.take(p);
                    let hi = before.skip(p);
                    assert(lessons_at(Seq::<Lesson>::empty(), o, id) == Seq::<Lesson>::empty());
                    assert(lessons_at(seq![x].drop_last(), o, id) == Seq::<Lesson>::empty());
                    lemma_lessons_at_add(lo + seq![x], hi, o, id);
                    lemma_lessons_at_add(lo, seq![x], o, id);
                    lemma_lessons_at_add(lo, hi, o, id);
                    assert(lessons_at(before, o, id) == lessons_at(lin.take(i as int), o, id));
                    if !(o == x.order && id == x.id@) {
                        assert(lessons_at(seq![x], o, id) =~= Seq::<Lesson>::empty());
                        assert(lessons_at(lo, o, id) + Seq::<Lesson>::empty() + lessons_at(hi, o, id) =~= lessons_at(lo, o, id)
                            + lessons_at(hi, o, id));
                    }
                    if o == x.order && id == x.id@ {
                        assert forall|j: int| 0 <= j < before.skip(p).len() implies !((#[trigger] before.skip(p)[j]).order == o
                            && before.skip(p)[j].id@ == id) by {
                            assert(lesson_before(x, before[p + j]));
                            lemma_text_lt_irreflexive(x.id@);
                        }
                        lemma_lessons_at_none(before.skip(p), o, id);
                        assert(lessons_at(seq![x], o, id) =~= seq![x]);
                        assert(lessons_at(lo, o, id) + seq![x] + Seq::<Lesson>::empty() =~= (lessons_at(lo, o, id)
                            + Seq::<Lesson>::empty()).push(x));
                    }
                }
                let w = ordered@;
                assert forall|a: int, b: int| 0 <= a < b < w.len() implies !lesson_before(w[b], w[a]) by {
                    if b < p {
                    } else if b == p {
                    } else if a < p {
                        assert(w[b] == before[b - 1]);
                        assert(!lesson_before(x, before[a]));
                        assert(lesson_before(x, before[b - 1]));
                        lemma_text_lt_total(x.id@, before[a].id@);
                        lemma_text_lt_transitive(before[b - 1].id@, x.id@, before[a].id@);
                        lemma_text_lt_transitive(before[b - 1].id@, before[a].id@, x.id@);
                        lemma_text_lt_asymmetric(x.id@, before[b - 1].id@);
                        lemma_text_lt_transitive(before[a].id@, x.id@, before[b - 1].id@);
                        if lesson_before(w[b], w[a]) {
                            lemma_text_lt_asymmetric(before[b - 1].id@, before[a].id@);
                        }
                    } else if a == p {
                        assert(w[b] == before[b - 1]);
                        lemma_text_lt_asymmetric(x.id@, before[b - 1].id@);
                    } else {
                        assert(w[a] == before[a - 1] && w[b] == before[b - 1]);
                    }
                }
            }
            i = i + 1;
        }
        assert(lin.take(i as int) =~= lin);
        Curriculum { chapters: sorted, lessons: ordered }
    }
}

} // verus!
