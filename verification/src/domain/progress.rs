//! Progress is computed from the journal: there is no separate state that
//! could drift from the events.

use vstd::prelude::*;

use chrono::{Datelike, NaiveDate};

use crate::content::{
    Curriculum, chapter_index, lemma_chapter_index, lemma_lesson_index, lesson_index, lessons_in,
};
use crate::domain::journal::{Attempt, Journal};
use crate::domain::text::{
    chars_of, lemma_text_lt_asymmetric, lemma_text_lt_irreflexive, lemma_text_lt_total,
    lemma_text_lt_transitive, string_from_chars, text_less, text_lt,
};

verus! {

/// An exercise: its lesson's id and its index in the lesson.
pub type ExKey = (Seq<char>, usize);

/// The best stars of the successful attempts at an exercise; `None` when
/// none succeeded.
pub open spec fn best_of(atts: Seq<Attempt>, k: ExKey) -> Option<u8>
    decreases atts.len(),
{
    if atts.len() == 0 {
        None
    } else {
        let prev = best_of(atts.drop_last(), k);
        let a = atts.last();
        if a.success && (a.lesson_id@, a.exercise_index) == k {
            let old: u8 = match prev {
                Some(s) => s,
                None => 0,
            };
            Some(if a.stars > old { a.stars } else { old })
        } else {
            prev
        }
    }
}

/// How many attempts at an exercise were made.
pub open spec fn tries_of(atts: Seq<Attempt>, k: ExKey) -> nat
    decreases atts.len(),
{
    if atts.len() == 0 {
        0
    } else {
        tries_of(atts.drop_last(), k) + if (atts.last().lesson_id@, atts.last().exercise_index) == k {
            1nat
        } else {
            0nat
        }
    }
}

/// How many failed attempts had `cmd` as their reference solution.
pub open spec fn failures_of(atts: Seq<Attempt>, cmd: Seq<char>) -> nat
    decreases atts.len(),
{
    if atts.len() == 0 {
        0
    } else {
        failures_of(atts.drop_last(), cmd) + if !atts.last().success && atts.last().canonical@ == cmd {
            1nat
        } else {
            0nat
        }
    }
}

/// The day of an attempt: the first ten characters of its timestamp.
pub open spec fn day_of(a: Attempt) -> Seq<char> {
    a.ts@.take(if a.ts@.len() < 10 { a.ts@.len() as int } else { 10 })
}

/// The value stored under key `k`: the first entry with that key.
pub open spec fn lookup<K, V>(t: Seq<(K, V)>, k: K) -> Option<V>
    decreases t.len(),
{
    if t.len() == 0 {
        None
    } else {
        match lookup(t.drop_last(), k) {
            Some(v) => Some(v),
            None => if t.last().0 == k {
                Some(t.last().1)
            } else {
                None
            },
        }
    }
}

/// No key occurs twice.
pub open spec fn keys_unique<K, V>(t: Seq<(K, V)>) -> bool {
    forall|i: int, j: int| 0 <= i < j < t.len() ==> t[i].0 != t[j].0
}

/// Strictly increasing in the order of `String`.
pub open spec fn strictly_sorted(s: Seq<Seq<char>>) -> bool {
    forall|i: int, j: int| 0 <= i < j < s.len() ==> text_lt(s[i], s[j])
}

pub proof fn lemma_lookup<K, V>(t: Seq<(K, V)>, k: K)
    requires
        keys_unique(t),
    ensures
        lookup(t, k) matches Some(v) ==> exists|i: int| 0 <= i < t.len() && t[i] == (k, v),
        lookup(t, k) is None ==> forall|i: int| 0 <= i < t.len() ==> t[i].0 != k,
        forall|i: int| 0 <= i < t.len() && t[i].0 == k ==> lookup(t, k) == Some(t[i].1),
    decreases t.len(),
{
    if t.len() > 0 {
        let u = t.drop_last();
        assert(keys_unique(u));
        lemma_lookup(u, k);
        assert(forall|i: int| 0 <= i < u.len() ==> u[i] == t[i]);
        if let Some(v) = lookup(u, k) {
            let i = choose|i: int| 0 <= i < u.len() && u[i] == (k, v);
            assert(t[i] == (k, v));
        }
    }
}

pub proof fn lemma_lookup_update<K, V>(t: Seq<(K, V)>, i: int, v: V, k: K)
    requires
        keys_unique(t),
        0 <= i < t.len(),
    ensures
        keys_unique(t.update(i, (t[i].0, v))),
        lookup(t.update(i, (t[i].0, v)), k) == (if k == t[i].0 { Some(v) } else { lookup(t, k) }),
{
    let u = t.update(i, (t[i].0, v));
    assert(keys_unique(u));
    lemma_lookup(t, k);
    lemma_lookup(u, k);
    if k != t[i].0 {
        if let Some(w) = lookup(t, k) {
            let j = choose|j: int| 0 <= j < t.len() && t[j] == (k, w);
            assert(u[j] == (k, w));
        }
        if let Some(w) = lookup(u, k) {
            let j = choose|j: int| 0 <= j < u.len() && u[j] == (k, w);
            assert(t[j] == (k, w));
        }
    } else {
        assert(u[i] == (k, v));
    }
}

pub proof fn lemma_lookup_push<K, V>(t: Seq<(K, V)>, e: (K, V), k: K)
    requires
        keys_unique(t),
        lookup(t, e.0) is None,
    ensures
        keys_unique(t.push(e)),
        lookup(t.push(e), k) == (if k == e.0 { Some(e.1) } else { lookup(t, k) }),
{
    lemma_lookup(t, e.0);
    assert(t.push(e).drop_last() =~= t);
}

pub struct Progress {
    /// Best stars per exercise: ((lesson id, exercise index), stars).
    best: Vec<(String, usize, u8)>,
    attempts_per_exercise: Vec<(String, usize, usize)>,
    failures_per_command: Vec<(String, usize)>,
    days_active: Vec<String>,
    source: Ghost<Seq<Attempt>>,
}

pub open spec fn best_view(v: Seq<(String, usize, u8)>) -> Seq<(ExKey, u8)> {
    v.map_values(|e: (String, usize, u8)| ((e.0@, e.1), e.2))
}

pub open spec fn tries_view(v: Seq<(String, usize, usize)>) -> Seq<(ExKey, usize)> {
    v.map_values(|e: (String, usize, usize)| ((e.0@, e.1), e.2))
}

pub open spec fn failures_view(v: Seq<(String, usize)>) -> Seq<(Seq<char>, usize)> {
    v.map_values(|e: (String, usize)| (e.0@, e.1))
}

pub open spec fn texts_view(v: Seq<String>) -> Seq<Seq<char>> {
    v.map_values(|s: String| s@)
}

impl Progress {
    /// The journal the progress was computed from.
    pub closed spec fn journal(&self) -> Seq<Attempt> {
        self.source@
    }

    /// Best stars per exercise that has a successful attempt.
    pub closed spec fn best_table(&self) -> Seq<(ExKey, u8)> {
        best_view(self.best@)
    }

    /// Failed attempts per reference solution, for solutions that failed.
    pub closed spec fn failure_table(&self) -> Seq<(Seq<char>, usize)> {
        failures_view(self.failures_per_command@)
    }

    /// The days with an attempt.
    pub closed spec fn days(&self) -> Seq<Seq<char>> {
        texts_view(self.days_active@)
    }

    /// The tables agree with the journal: one entry per exercise with the
    /// best stars of its successes, one per failed solution with its number
    /// of failures, and the days with an attempt, each once, in order.
    pub closed spec fn inv(&self) -> bool {
        &&& keys_unique(self.best_table())
        &&& forall|k: ExKey| #[trigger] lookup(self.best_table(), k) == best_of(self.journal(), k)
        &&& keys_unique(tries_view(self.attempts_per_exercise@))
        &&& forall|k: ExKey|
            match #[trigger] lookup(tries_view(self.attempts_per_exercise@), k) {
                Some(n) => n as nat == tries_of(self.journal(), k) && n > 0,
                None => tries_of(self.journal(), k) == 0,
            }
        &&& keys_unique(self.failure_table())
        &&& forall|c: Seq<char>|
            match #[trigger] lookup(self.failure_table(), c) {
                Some(n) => n as nat == failures_of(self.journal(), c) && n > 0,
                None => failures_of(self.journal(), c) == 0,
            }
        &&& strictly_sorted(self.days())
        &&& forall|d: Seq<char>|
            #[trigger] self.days().contains(d) <==> exists|i: int|
                0 <= i < self.journal().len() && day_of(#[trigger] self.journal()[i]) == d
    }
}

pub proof fn lemma_counts_bounded(s: Seq<Attempt>, k: ExKey, c: Seq<char>)
    ensures
        tries_of(s, k) <= s.len(),
        failures_of(s, c) <= s.len(),
    decreases s.len(),
{
    if s.len() > 0 {
        lemma_counts_bounded(s.drop_last(), k, c);
    }
}

proof fn lemma_take_step(s: Seq<Attempt>, i: int)
    requires
        0 <= i < s.len(),
    ensures
        s.take(i + 1).drop_last() == s.take(i),
        s.take(i + 1).last() == s[i],
        s.take(i + 1).len() == i + 1,
{
    assert(s.take(i + 1).drop_last() =~= s.take(i));
}

fn find_best(t: &Vec<(String, usize, u8)>, id: &String, ex: usize) -> (r: Option<usize>)
    ensures
        r matches Some(i) ==> i < t@.len() && best_view(t@)[i as int].0 == (id@, ex),
        r is None ==> forall|j: int| 0 <= j < t@.len() ==> best_view(t@)[j].0 != (id@, ex),
{
    let mut i: usize = 0;
    while i < t.len()
        invariant
            i <= t@.len(),
            forall|j: int| 0 <= j < i ==> best_view(t@)[j].0 != (id@, ex),
        decreases t.len() - i,
    {
        if t[i].1 == ex && t[i].0 == *id {
            return Some(i);
        }
        i = i + 1;
    }
    None
}

fn find_tries(t: &Vec<(String, usize, usize)>, id: &String, ex: usize) -> (r: Option<usize>)
    ensures
        r matches Some(i) ==> i < t@.len() && tries_view(t@)[i as int].0 == (id@, ex),
        r is None ==> forall|j: int| 0 <= j < t@.len() ==> tries_view(t@)[j].0 != (id@, ex),
{
    let mut i: usize = 0;
    while i < t.len()
        invariant
            i <= t@.len(),
            forall|j: int| 0 <= j < i ==> tries_view(t@)[j].0 != (id@, ex),
        decreases t.len() - i,
    {
        if t[i].1 == ex && t[i].0 == *id {
            return Some(i);
        }
        i = i + 1;
    }
    None
}

fn find_failure(t: &Vec<(String, usize)>, cmd: &String) -> (r: Option<usize>)
    ensures
        r matches Some(i) ==> i < t@.len() && failures_view(t@)[i as int].0 == cmd@,
        r is None ==> forall|j: int| 0 <= j < t@.len() ==> failures_view(t@)[j].0 != cmd@,
{
    let mut i: usize = 0;
    while i < t.len()
        invariant
            i <= t@.len(),
            forall|j: int| 0 <= j < i ==> failures_view(t@)[j].0 != cmd@,
        decreases t.len() - i,
    {
        if t[i].0 == *cmd {
            return Some(i);
        }
        i = i + 1;
    }
    None
}

fn contains_text(v: &Vec<String>, x: &String) -> (r: bool)
    ensures
        r == texts_view(v@).contains(x@),
{
    let mut i: usize = 0;
    while i < v.len()
        invariant
            i <= v@.len(),
            forall|j: int| 0 <= j < i ==> v@[j]@ != x@,
        decreases v.len() - i,
    {
        if v[i] == *x {
            assert(texts_view(v@)[i as int] == x@);
            return true;
        }
        i = i + 1;
    }
    false
}

/// Puts `x` into a strictly increasing list of texts, keeping it so.
fn insert_sorted(out: &mut Vec<String>, x: String)
    requires
        strictly_sorted(texts_view(old(out)@)),
        !texts_view(old(out)@).contains(x@),
    ensures
        strictly_sorted(texts_view(final(out)@)),
        forall|d: Seq<char>| #[trigger] texts_view(final(out)@).contains(d) <==> (texts_view(old(out)@).contains(d) || d == x@),
{
    let ghost v = texts_view(out@);
    let xc = chars_of(x.as_str());
    let mut p: usize = 0;
    while p < out.len() && text_less(chars_of(out[p].as_str()).as_slice(), xc.as_slice())
        invariant
            p <= out@.len(),
            v == texts_view(out@),
            xc@ == x@,
            forall|j: int| 0 <= j < p ==> text_lt(#[trigger] v[j], x@),
        decreases out.len() - p,
    {
        p = p + 1;
    }
    proof {
        if p < v.len() {
            lemma_text_lt_total(v[p as int], x@);
            assert(v[p as int] != x@);
            assert(text_lt(x@, v[p as int]));
            assert forall|j: int| p <= j < v.len() implies text_lt(x@, #[trigger] v[j]) by {
                if j > p {
                    lemma_text_lt_transitive(x@, v[p as int], v[j]);
                }
            }
        }
    }
    out.insert(p, x);
    let ghost w = texts_view(out@);
    assert(w =~= v.insert(p as int, x@));
    assert forall|i: int, j: int| 0 <= i < j < w.len() implies text_lt(w[i], w[j]) by {
        if j < p {
        } else if j == p {
        } else if i < p {
            lemma_text_lt_transitive(w[i], x@, w[j]);
        } else if i == p {
        } else {
        }
    }
    assert forall|d: Seq<char>| #[trigger] w.contains(d) <==> (v.contains(d) || d == x@) by {
        if w.contains(d) {
            let k = choose|k: int| 0 <= k < w.len() && w[k] == d;
            if k < p {
                assert(v[k] == d);
            } else if k > p {
                assert(v[k - 1] == d);
            }
        }
        if v.contains(d) {
            let k = choose|k: int| 0 <= k < v.len() && v[k] == d;
            if k < p {
                assert(w[k] == d);
            } else {
                assert(w[k + 1] == d);
            }
        }
        if d == x@ {
            assert(w[p as int] == d);
        }
    }
}

/// The texts, each once, in the order of `String`.
fn sort_texts(v: &Vec<String>) -> (r: Vec<String>)
    requires
        forall|i: int, j: int| 0 <= i < j < v@.len() ==> v@[i]@ != v@[j]@,
    ensures
        strictly_sorted(texts_view(r@)),
        forall|d: Seq<char>| #[trigger] texts_view(r@).contains(d) <==> texts_view(v@).contains(d),
{
    let mut out: Vec<String> = Vec::new();
    let mut i: usize = 0;
    while i < v.len()
        invariant
            i <= v@.len(),
            forall|a: int, b: int| 0 <= a < b < v@.len() ==> v@[a]@ != v@[b]@,
            strictly_sorted(texts_view(out@)),
            forall|d: Seq<char>| #[trigger] texts_view(out@).contains(d) <==> exists|j: int| 0 <= j < i && v@[j]@ == d,
        decreases v.len() - i,
    {
        assert(!texts_view(out@).contains(v@[i as int]@));
        insert_sorted(&mut out, v[i].clone());
        i = i + 1;
    }
    assert forall|d: Seq<char>| #[trigger] texts_view(out@).contains(d) <==> texts_view(v@).contains(d) by {
        if texts_view(v@).contains(d) {
            let k = choose|k: int| 0 <= k < v@.len() && texts_view(v@)[k] == d;
            assert(v@[k]@ == d);
        }
        if texts_view(out@).contains(d) {
            let k = choose|k: int| 0 <= k < v@.len() && v@[k]@ == d;
            assert(texts_view(v@)[k] == d);
        }
    }
    out
}

/// The first ten characters of a timestamp: its day.
fn day_text(ts: &String) -> (r: String)
    ensures
        r@ == ts@.take(if ts@.len() < 10 { ts@.len() as int } else { 10 }),
{
    let cs = chars_of(ts.as_str());
    let n: usize = if cs.len() < 10 { cs.len() } else { 10 };
    let head = crate::domain::text::sub_chars(cs.as_slice(), 0, n);
    string_from_chars(head.as_slice())
}

impl Progress {
    /// Computes progress from the journal's attempts, in order.
    pub fn from_journal(journal: &Journal) -> (r: Progress)
        ensures
            r.inv(),
            r.journal() == journal.attempts@,
    {
        let ghost atts = journal.attempts@;
        let mut best: Vec<(String, usize, u8)> = Vec::new();
        let mut tries: Vec<(String, usize, usize)> = Vec::new();
        let mut failures: Vec<(String, usize)> = Vec::new();
        let mut days: Vec<String> = Vec::new();
        let mut i: usize = 0;
        assert(atts.take(0) =~= Seq::<Attempt>::empty());
        while i < journal.attempts.len()
            invariant
                i <= atts.len(),
                atts == journal.attempts@,
                keys_unique(best_view(best@)),
                forall|k: ExKey| #[trigger] lookup(best_view(best@), k) == best_of(atts.take(i as int), k),
                keys_unique(tries_view(tries@)),
                forall|k: ExKey|
                    match #[trigger] lookup(tries_view(tries@), k) {
                        Some(n) => n as nat == tries_of(atts.take(i as int), k) && n > 0,
                        None => tries_of(atts.take(i as int), k) == 0,
                    },
                keys_unique(failures_view(failures@)),
                forall|c: Seq<char>|
                    match #[trigger] lookup(failures_view(failures@), c) {
                        Some(n) => n as nat == failures_of(atts.take(i as int), c) && n > 0,
                        None => failures_of(atts.take(i as int), c) == 0,
                    },
                forall|a: int, b: int| 0 <= a < b < days@.len() ==> days@[a]@ != days@[b]@,
                forall|d: Seq<char>|
                    #[trigger] texts_view(days@).contains(d) <==> exists|j: int|
                        0 <= j < i && day_of(#[trigger] atts[j]) == d,
            decreases atts.len() - i,
        {
            let a = &journal.attempts[i];
            let ghost pre = atts.take(i as int);
            let ghost post = atts.take(i + 1);
            proof {
                lemma_take_step(atts, i as int);
            }
            let ghost key: ExKey = (a.lesson_id@, a.exercise_index);
            // attempts per exercise
            let ghost tv = tries_view(tries@);
            match find_tries(&tries, &a.lesson_id, a.exercise_index) {
                Some(j) => {
                    proof {
                        lemma_lookup(tv, key);
                        lemma_counts_bounded(pre, key, a.canonical@);
                    }
                    let n = tries[j].2;
                    tries.set(j, (a.lesson_id.clone(), a.exercise_index, n + 1));
                    proof {
                        assert(tries_view(tries@) =~= tv.update(j as int, (tv[j as int].0, (n + 1) as usize)));
                        assert forall|k: ExKey| match #[trigger] lookup(tries_view(tries@), k) {
                            Some(n) => n as nat == tries_of(post, k) && n > 0,
                            None => tries_of(post, k) == 0,
                        } by {
                            lemma_lookup_update(tv, j as int, (n + 1) as usize, k);
                        }
                    }
                },
                None => {
                    proof {
                        lemma_lookup(tv, key);
                    }
                    tries.push((a.lesson_id.clone(), a.exercise_index, 1));
                    proof {
                        assert(tries_view(tries@) =~= tv.push((key, 1usize)));
                        assert forall|k: ExKey| match #[trigger] lookup(tries_view(tries@), k) {
                            Some(n) => n as nat == tries_of(post, k) && n > 0,
                            None => tries_of(post, k) == 0,
                        } by {
                            lemma_lookup_push(tv, (key, 1usize), k);
                        }
                    }
                },
            }
            let ghost bv = best_view(best@);
            let ghost fv = failures_view(failures@);
            if a.success {
                match find_best(&best, &a.lesson_id, a.exercise_index) {
                    Some(j) => {
                        proof {
                            lemma_lookup(bv, key);
                        }
                        let old = best[j].2;
                        let new = if a.stars > old { a.stars } else { old };
                        best.set(j, (a.lesson_id.clone(), a.exercise_index, new));
                        proof {
                            assert(best_view(best@) =~= bv.update(j as int, (bv[j as int].0, new)));
                            assert forall|k: ExKey| #[trigger] lookup(best_view(best@), k) == best_of(post, k) by {
                                lemma_lookup_update(bv, j as int, new, k);
                            }
                        }
                    },
                    None => {
                        proof {
                            lemma_lookup(bv, key);
                        }
                        best.push((a.lesson_id.clone(), a.exercise_index, a.stars));
                        proof {
                            assert(best_view(best@) =~= bv.push((key, a.stars)));
                            assert forall|k: ExKey| #[trigger] lookup(best_view(best@), k) == best_of(post, k) by {
                                lemma_lookup_push(bv, (key, a.stars), k);
                            }
                        }
                    },
                }
            } else {
                match find_failure(&failures, &a.canonical) {
                    Some(j) => {
                        proof {
                            lemma_lookup(fv, a.canonical@);
                            lemma_counts_bounded(pre, key, a.canonical@);
                        }
                        let n = failures[j].1;
                        failures.set(j, (a.canonical.clone(), n + 1));
                        proof {
                            assert(failures_view(failures@) =~= fv.update(j as int, (fv[j as int].0, (n + 1) as usize)));
                            assert forall|c: Seq<char>| match #[trigger] lookup(failures_view(failures@), c) {
                                Some(n) => n as nat == failures_of(post, c) && n > 0,
                                None => failures_of(post, c) == 0,
                            } by {
                                lemma_lookup_update(fv, j as int, (n + 1) as usize, c);
                            }
                        }
                    },
                    None => {
                        proof {
                            lemma_lookup(fv, a.canonical@);
                        }
                        failures.push((a.canonical.clone(), 1));
                        proof {
                            assert(failures_view(failures@) =~= fv.push((a.canonical@, 1usize)));
                            assert forall|c: Seq<char>| match #[trigger] lookup(failures_view(failures@), c) {
                                Some(n) => n as nat == failures_of(post, c) && n > 0,
                                None => failures_of(post, c) == 0,
                            } by {
                                lemma_lookup_push(fv, (a.canonical@, 1usize), c);
                            }
                        }
                    },
                }
            }
            let day = day_text(&a.ts);
            let ghost dv = texts_view(days@);
            assert(day@ == day_of(atts[i as int]));
            if !contains_text(&days, &day) {
                let ghost old_days = days@;
                days.push(day);
                proof {
                    assert(texts_view(days@) =~= dv.push(day_of(atts[i as int])));
                    assert forall|x: int, y: int| 0 <= x < y < days@.len() implies days@[x]@ != days@[y]@ by {
                        if y == days@.len() - 1 {
                            assert(dv[x] == days@[x]@);
                        }
                    }
                    assert(texts_view(days@)[days@.len() - 1] == day_of(atts[i as int]));
                }
            } else {
                assert(texts_view(days@) == dv);
            }
            assert(texts_view(days@).contains(day_of(atts[i as int])));
            proof {
                assert forall|d: Seq<char>| #[trigger] texts_view(days@).contains(d) <==> exists|j: int|
                    0 <= j < i + 1 && day_of(#[trigger] atts[j]) == d by {
                    if d == day_of(atts[i as int]) {
                        assert(texts_view(days@).contains(d));
                    }
                    if dv.contains(d) {
                        let k = choose|k: int| 0 <= k < dv.len() && dv[k] == d;
                        assert(texts_view(days@)[k] == d);
                    }
                    if texts_view(days@).contains(d) && d != day_of(atts[i as int]) {
                        let k = choose|k: int| 0 <= k < texts_view(days@).len() && texts_view(days@)[k] == d;
                        assert(dv[k] == d);
                    }
                }
            }
            i = i + 1;
        }
        assert(atts.take(atts.len() as int) =~= atts);
        let sorted = sort_texts(&days);
        let r = Progress {
            best,
            attempts_per_exercise: tries,
            failures_per_command: failures,
            days_active: sorted,
            source: Ghost(atts),
        };
        r
    }

    /// The best stars of an exercise; zero when it has no success.
    pub fn stars(&self, lesson_id: &str, exercise: usize) -> (r: u8)
        requires
            self.inv(),
        ensures
            r == match best_of(self.journal(), (lesson_id@, exercise)) {
                Some(s) => s,
                None => 0,
            },
    {
        let id = String::from_str(lesson_id);
        let ghost bv = self.best_table();
        proof {
            lemma_lookup(bv, (lesson_id@, exercise));
            assert(lookup(bv, (lesson_id@, exercise)) == best_of(self.journal(), (lesson_id@, exercise)));
        }
        match find_best(&self.best, &id, exercise) {
            Some(j) => self.best[j].2,
            None => 0,
        }
    }

    /// The days with an attempt, each once, in order.
    pub fn days_active(&self) -> (r: &[String])
        ensures
            texts_view(r@) == self.days(),
    {
        self.days_active.as_slice()
    }
}

/// The best stars of an exercise, zero when none succeeded.
pub open spec fn best_stars(atts: Seq<Attempt>, k: ExKey) -> u8 {
    match best_of(atts, k) {
        Some(s) => s,
        None => 0,
    }
}

/// Stars earned over the first `n` exercises of a lesson.
pub open spec fn stars_sum(atts: Seq<Attempt>, id: Seq<char>, n: nat) -> nat
    decreases n,
{
    if n == 0 {
        0
    } else {
        stars_sum(atts, id, (n - 1) as nat) + best_stars(atts, (id, (n - 1) as usize)) as nat
    }
}

pub open spec fn cap(x: nat, limit: nat) -> nat {
    if x <= limit {
        x
    } else {
        limit
    }
}

/// Every exercise of the lesson (looked up by id) has a success.
pub open spec fn lesson_done_spec(atts: Seq<Attempt>, cur: Curriculum, id: Seq<char>) -> bool {
    match lesson_index(cur.lessons@, id) {
        None => false,
        Some(li) => {
            let n = cur.lessons@[li].exercises@.len();
            n > 0 && forall|i: int| 0 <= i < n ==> #[trigger] best_stars(atts, (id, i as usize)) > 0
        },
    }
}

/// The chapter has lessons and every one of them is done.
pub open spec fn chapter_done_spec(atts: Seq<Attempt>, cur: Curriculum, ch: Seq<char>) -> bool {
    let ls = lessons_in(cur.lessons@, ch);
    ls.len() > 0 && forall|j: int| 0 <= j < ls.len() ==> #[trigger] lesson_done_spec(atts, cur, ls[j].id@)
}

/// Chapters open one after another: the first is always open, any other
/// once the chapter before it is done. Lessons within a chapter open all
/// at once.
pub open spec fn chapter_unlocked_spec(atts: Seq<Attempt>, cur: Curriculum, ch: Seq<char>) -> bool {
    match chapter_index(cur.chapters@, ch) {
        None => false,
        Some(i) => i == 0 || chapter_done_spec(atts, cur, cur.chapters@[i - 1].id@),
    }
}

/// Sum of the stars in a table.
pub open spec fn table_stars(t: Seq<(ExKey, u8)>) -> nat
    decreases t.len(),
{
    if t.len() == 0 {
        0
    } else {
        table_stars(t.drop_last()) + t.last().1 as nat
    }
}

/// Entries of a table with at least one star.
pub open spec fn table_done(t: Seq<(ExKey, u8)>) -> nat
    decreases t.len(),
{
    if t.len() == 0 {
        0
    } else {
        table_done(t.drop_last()) + if t.last().1 > 0 { 1nat } else { 0nat }
    }
}

pub proof fn lemma_table_done_bounded(t: Seq<(ExKey, u8)>)
    ensures
        table_done(t) <= t.len(),
    decreases t.len(),
{
    if t.len() > 0 {
        lemma_table_done_bounded(t.drop_last());
    }
}

proof fn lemma_table_remove(t: Seq<(ExKey, u8)>, j: int)
    requires
        0 <= j < t.len(),
    ensures
        table_stars(t) == table_stars(t.remove(j)) + t[j].1 as nat,
        table_done(t) == table_done(t.remove(j)) + if t[j].1 > 0 { 1nat } else { 0nat },
    decreases t.len(),
{
    if j == t.len() - 1 {
        assert(t.remove(j) =~= t.drop_last());
    } else {
        let u = t.drop_last();
        lemma_table_remove(u, j);
        assert(u.remove(j) =~= t.remove(j).drop_last());
        assert(t.remove(j).last() == t.last());
        assert(u[j] == t[j]);
    }
}

/// Two tables with no key twice that store the same value under every key
/// have the same totals, whatever the order of their entries.
proof fn lemma_table_totals_same(t1: Seq<(ExKey, u8)>, t2: Seq<(ExKey, u8)>)
    requires
        keys_unique(t1),
        keys_unique(t2),
        forall|k: ExKey| #[trigger] lookup(t1, k) == lookup(t2, k),
    ensures
        table_stars(t1) == table_stars(t2),
        table_done(t1) == table_done(t2),
    decreases t1.len(),
{
    if t1.len() == 0 {
        if t2.len() > 0 {
            lemma_lookup(t1, t2[0].0);
            lemma_lookup(t2, t2[0].0);
        }
    } else {
        let (k, v) = t1.last();
        let u1 = t1.drop_last();
        lemma_lookup(t1, k);
        lemma_lookup(t2, k);
        assert(t1[t1.len() - 1].0 == k);
        let j = choose|j: int| 0 <= j < t2.len() && t2[j] == (k, v);
        let u2 = t2.remove(j);
        lemma_table_remove(t2, j);
        assert(keys_unique(u1));
        assert forall|a: int, b: int| 0 <= a < b < u2.len() implies u2[a].0 != u2[b].0 by {
            let a2 = if a < j { a } else { a + 1 };
            let b2 = if b < j { b } else { b + 1 };
            assert(u2[a] == t2[a2] && u2[b] == t2[b2]);
        }
        assert forall|k2: ExKey| #[trigger] lookup(u1, k2) == lookup(u2, k2) by {
            lemma_lookup(u1, k2);
            lemma_lookup(u2, k2);
            lemma_lookup(t1, k2);
            lemma_lookup(t2, k2);
            if k2 == k {
                assert forall|i: int| 0 <= i < u1.len() implies u1[i].0 != k2 by {
                    assert(u1[i] == t1[i]);
                }
                assert forall|i: int| 0 <= i < u2.len() implies u2[i].0 != k2 by {
                    let i2 = if i < j { i } else { i + 1 };
                    assert(u2[i] == t2[i2]);
                }
            } else {
                if let Some(w) = lookup(u1, k2) {
                    let i = choose|i: int| 0 <= i < u1.len() && u1[i] == (k2, w);
                    assert(t1[i] == (k2, w));
                    let i2 = choose|i2: int| 0 <= i2 < t2.len() && t2[i2] == (k2, w);
                    assert(i2 != j);
                    let i3 = if i2 < j { i2 } else { i2 - 1 };
                    assert(u2[i3] == (k2, w));
                } else {
                    assert forall|i: int| 0 <= i < u2.len() implies u2[i].0 != k2 by {
                        let i2 = if i < j { i } else { i + 1 };
                        assert(u2[i] == t2[i2]);
                        if t2[i2].0 == k2 {
                            let i4 = choose|i4: int| 0 <= i4 < t1.len() && t1[i4] == (k2, t2[i2].1);
                            assert(i4 < u1.len());
                            assert(u1[i4] == t1[i4]);
                        }
                    }
                }
            }
        }
        lemma_table_totals_same(u1, u2);
    }
}

impl Default for Progress {
    /// The progress of an empty journal.
    fn default() -> (r: Self)
        ensures
            r.inv(),
            r.journal() == Seq::<Attempt>::empty(),
    {
        let r = Progress {
            best: Vec::new(),
            attempts_per_exercise: Vec::new(),
            failures_per_command: Vec::new(),
            days_active: Vec::new(),
            source: Ghost(Seq::empty()),
        };
        assert(r.best_table() =~= Seq::<(ExKey, u8)>::empty());
        assert(tries_view(r.attempts_per_exercise@) =~= Seq::<(ExKey, usize)>::empty());
        assert(r.failure_table() =~= Seq::<(Seq<char>, usize)>::empty());
        assert(r.days() =~= Seq::<Seq<char>>::empty());
        r
    }
}

impl Progress {
    /// Stars earned in a lesson and stars it can give, both at most 255;
    /// `(0, 0)` for an unknown lesson.
    pub fn lesson_stars(&self, curriculum: &Curriculum, lesson_id: &str) -> (r: (u8, u8))
        requires
            self.inv(),
        ensures
            r == match lesson_index(curriculum.lessons@, lesson_id@) {
                None => (0u8, 0u8),
                Some(li) => {
                    let n = curriculum.lessons@[li].exercises@.len();
                    (
                        cap(stars_sum(self.journal(), lesson_id@, n), 255) as u8,
                        cap(3 * n, 255) as u8,
                    )
                },
            },
    {
        let lesson = match curriculum.lesson(lesson_id) {
            Some(l) => l,
            None => return (0, 0),
        };
        let n = lesson.exercises.len();
        let mut earned: u32 = 0;
        let mut i: usize = 0;
        while i < n
            invariant
                i <= n,
                self.inv(),
                earned as nat == cap(stars_sum(self.journal(), lesson_id@, i as nat), 255),
            decreases n - i,
        {
            let s = self.stars(lesson_id, i) as u32;
            earned = if earned + s < 255 { earned + s } else { 255 };
            i = i + 1;
        }
        let max: u32 = if n < 85 { (n * 3) as u32 } else { 255 };
        (earned as u8, max as u8)
    }

    /// Every exercise of the lesson has a success.
    pub fn lesson_done(&self, curriculum: &Curriculum, lesson_id: &str) -> (r: bool)
        requires
            self.inv(),
        ensures
            r == lesson_done_spec(self.journal(), *curriculum, lesson_id@),
    {
        let lesson = match curriculum.lesson(lesson_id) {
            Some(l) => l,
            None => return false,
        };
        let n = lesson.exercises.len();
        proof {
            lemma_lesson_index(curriculum.lessons@, lesson_id@);
        }
        if n == 0 {
            return false;
        }
        let mut i: usize = 0;
        while i < n
            invariant
                i <= n,
                self.inv(),
                n > 0,
                lesson_index(curriculum.lessons@, lesson_id@) matches Some(li) && 0 <= li
                    < curriculum.lessons@.len() && curriculum.lessons@[li].exercises@.len() == n,
                forall|j: int| 0 <= j < i ==> #[trigger] best_stars(self.journal(), (lesson_id@, j as usize)) > 0,
            decreases n - i,
        {
            if self.stars(lesson_id, i) == 0 {
                assert(best_stars(self.journal(), (lesson_id@, (i as int) as usize)) == 0);
                return false;
            }
            i = i + 1;
        }
        true
    }

    /// The chapter has lessons and all of them are done.
    pub fn chapter_done(&self, curriculum: &Curriculum, chapter: &str) -> (r: bool)
        requires
            self.inv(),
        ensures
            r == chapter_done_spec(self.journal(), *curriculum, chapter@),
    {
        let lessons = curriculum.lessons_of(chapter);
        if lessons.len() == 0 {
            return false;
        }
        let mut j: usize = 0;
        while j < lessons.len()
            invariant
                j <= lessons@.len(),
                self.inv(),
                lessons@.len() == lessons_in(curriculum.lessons@, chapter@).len(),
                forall|k: int| 0 <= k < lessons@.len() ==> *lessons@[k] == lessons_in(curriculum.lessons@, chapter@)[k],
                forall|k: int| 0 <= k < j ==> #[trigger] lesson_done_spec(
                    self.journal(),
                    *curriculum,
                    lessons_in(curriculum.lessons@, chapter@)[k].id@,
                ),
            decreases lessons.len() - j,
        {
            if !self.lesson_done(curriculum, lessons[j].id.as_str()) {
                return false;
            }
            j = j + 1;
        }
        true
    }

    /// Chapters open one after another; the lessons of an open chapter are
    /// all open.
    pub fn chapter_unlocked(&self, curriculum: &Curriculum, chapter: &str) -> (r: bool)
        requires
            self.inv(),
        ensures
            r == chapter_unlocked_spec(self.journal(), *curriculum, chapter@),
    {
        let mut i: usize = 0;
        while i < curriculum.chapters.len()
            invariant
                i <= curriculum.chapters@.len(),
                self.inv(),
                chapter_index(curriculum.chapters@.take(i as int), chapter@) is None,
            decreases curriculum.chapters.len() - i,
        {
            assert(curriculum.chapters@.take(i + 1).drop_last() =~= curriculum.chapters@.take(i as int));
            if crate::content::same_text(curriculum.chapters[i].id.as_str(), chapter) {
                proof {
                    lemma_chapter_index(curriculum.chapters@, chapter@);
                    lemma_chapter_index(curriculum.chapters@.take(i as int), chapter@);
                    assert(forall|j: int| 0 <= j < i ==> curriculum.chapters@.take(i as int)[j] == curriculum.chapters@[j]);
                    if let Some(k) = chapter_index(curriculum.chapters@, chapter@) {
                        assert(k >= i);
                        assert(k <= i);
                    }
                }
                if i == 0 {
                    return true;
                }
                return self.chapter_done(curriculum, curriculum.chapters[i - 1].id.as_str());
            }
            i = i + 1;
        }
        proof {
            assert(curriculum.chapters@.take(curriculum.chapters@.len() as int) =~= curriculum.chapters@);
        }
        false
    }

    /// All stars earned, one best result per exercise (at most `u32::MAX`).
    pub fn total_stars(&self) -> (r: u32)
        requires
            self.inv(),
        ensures
            r as nat == cap(table_stars(self.best_table()), u32::MAX as nat),
    {
        let mut total: u32 = 0;
        let mut i: usize = 0;
        while i < self.best.len()
            invariant
                i <= self.best@.len(),
                total as nat == cap(table_stars(self.best_table().take(i as int)), u32::MAX as nat),
            decreases self.best.len() - i,
        {
            assert(self.best_table().take(i + 1).drop_last() =~= self.best_table().take(i as int));
            let s = self.best[i].2 as u32;
            total = if total <= u32::MAX - s { total + s } else { u32::MAX };
            i = i + 1;
        }
        assert(self.best_table().take(self.best@.len() as int) =~= self.best_table());
        total
    }

    /// Exercises with at least one star.
    pub fn exercises_done(&self) -> (r: usize)
        requires
            self.inv(),
        ensures
            r as nat == table_done(self.best_table()),
    {
        let mut count: usize = 0;
        let mut i: usize = 0;
        while i < self.best.len()
            invariant
                i <= self.best@.len(),
                count as nat == table_done(self.best_table().take(i as int)),
            decreases self.best.len() - i,
        {
            assert(self.best_table().take(i + 1).drop_last() =~= self.best_table().take(i as int));
            proof {
                lemma_table_done_bounded(self.best_table().take(i as int));
            }
            if self.best[i].2 > 0 {
                count = count + 1;
            }
            i = i + 1;
        }
        assert(self.best_table().take(self.best@.len() as int) =~= self.best_table());
        count
    }
}

/// A new attempt never lowers the stars of any exercise.
pub proof fn law_stars_never_drop(atts: Seq<Attempt>, a: Attempt, k: ExKey)
    ensures
        best_stars(atts.push(a), k) >= best_stars(atts, k),
{
    assert(atts.push(a).drop_last() =~= atts);
}

/// A new attempt never undoes a finished lesson.
pub proof fn law_lesson_stays_done(atts: Seq<Attempt>, a: Attempt, cur: Curriculum, id: Seq<char>)
    requires
        lesson_done_spec(atts, cur, id),
    ensures
        lesson_done_spec(atts.push(a), cur, id),
{
    assert(atts.push(a).drop_last() =~= atts);
    let li = lesson_index(cur.lessons@, id).unwrap();
    let n = cur.lessons@[li].exercises@.len();
    assert forall|i: int| 0 <= i < n implies #[trigger] best_stars(atts.push(a), (id, i as usize)) > 0 by {
        law_stars_never_drop(atts, a, (id, i as usize));
    }
}

/// A new attempt never closes an open chapter.
pub proof fn law_chapter_stays_unlocked(atts: Seq<Attempt>, a: Attempt, cur: Curriculum, ch: Seq<char>)
    requires
        chapter_unlocked_spec(atts, cur, ch),
    ensures
        chapter_unlocked_spec(atts.push(a), cur, ch),
{
    lemma_chapter_index(cur.chapters@, ch);
    if let Some(i) = chapter_index(cur.chapters@, ch) {
        if i > 0 {
            let prev = cur.chapters@[i - 1].id@;
            let ls = lessons_in(cur.lessons@, prev);
            assert forall|j: int| 0 <= j < ls.len() implies #[trigger] lesson_done_spec(atts.push(a), cur, ls[j].id@) by {
                law_lesson_stays_done(atts, a, cur, ls[j].id@);
            }
        }
    }
}

impl Progress {
    /// What the tables hold, in terms of the journal: the best stars of each
    /// exercise with a success, the failures of each failed solution, and
    /// the days with an attempt, each once, in order. No key occurs twice.
    pub proof fn lemma_tables(&self)
        requires
            self.inv(),
        ensures
            keys_unique(self.best_table()),
            forall|k: ExKey| #[trigger] lookup(self.best_table(), k) == best_of(self.journal(), k),
            keys_unique(self.failure_table()),
            forall|c: Seq<char>|
                match #[trigger] lookup(self.failure_table(), c) {
                    Some(n) => n as nat == failures_of(self.journal(), c) && n > 0,
                    None => failures_of(self.journal(), c) == 0,
                },
            strictly_sorted(self.days()),
            forall|d: Seq<char>|
                #[trigger] self.days().contains(d) <==> exists|i: int|
                    0 <= i < self.journal().len() && day_of(#[trigger] self.journal()[i]) == d,
    {
    }
}

/// What comes after two journals that agree on an exercise and a solution
/// keeps them in agreement.
proof fn lemma_same_after(x: Seq<Attempt>, y: Seq<Attempt>, q: Seq<Attempt>, k: ExKey, c: Seq<char>)
    requires
        best_of(x, k) == best_of(y, k),
        tries_of(x, k) == tries_of(y, k),
        failures_of(x, c) == failures_of(y, c),
    ensures
        best_of(x + q, k) == best_of(y + q, k),
        tries_of(x + q, k) == tries_of(y + q, k),
        failures_of(x + q, c) == failures_of(y + q, c),
    decreases q.len(),
{
    if q.len() > 0 {
        lemma_same_after(x, y, q.drop_last(), k, c);
        assert((x + q).drop_last() =~= x + q.drop_last());
        assert((y + q).drop_last() =~= y + q.drop_last());
        assert((x + q).last() == q.last());
        assert((y + q).last() == q.last());
    }
}

/// Some attempt of `s` happened on day `d`.
pub open spec fn day_among(s: Seq<Attempt>, d: Seq<char>) -> bool {
    exists|i: int| 0 <= i < s.len() && day_of(#[trigger] s[i]) == d
}

/// The order of the journal does not matter: two attempts that trade
/// places leave every exercise's best stars and number of attempts, every
/// solution's failures and the set of active days as they were. Every
/// reordering is a series of such trades.
pub proof fn law_journal_order(
    p: Seq<Attempt>,
    a: Attempt,
    b: Attempt,
    q: Seq<Attempt>,
    s1: Seq<Attempt>,
    s2: Seq<Attempt>,
    k: ExKey,
    c: Seq<char>,
)
    requires
        s1 == p + seq![a, b] + q,
        s2 == p + seq![b, a] + q,
    ensures
        best_of(s1, k) == best_of(s2, k),
        tries_of(s1, k) == tries_of(s2, k),
        failures_of(s1, c) == failures_of(s2, c),
        forall|d: Seq<char>| #[trigger] day_among(s1, d) == day_among(s2, d),
{
    let x = p + seq![a, b];
    let y = p + seq![b, a];
    assert(x.drop_last() =~= p.push(a));
    assert(y.drop_last() =~= p.push(b));
    assert(p.push(a).drop_last() =~= p);
    assert(p.push(b).drop_last() =~= p);
    assert(x.last() == b && y.last() == a && p.push(a).last() == a && p.push(b).last() == b);
    reveal_with_fuel(best_of, 3);
    reveal_with_fuel(tries_of, 3);
    reveal_with_fuel(failures_of, 3);
    lemma_same_after(x, y, q, k, c);
    let n: int = p.len() as int;
    assert forall|d: Seq<char>| #[trigger] day_among(s1, d) implies day_among(s2, d) by {
        let i = choose|i: int| 0 <= i < s1.len() && day_of(#[trigger] s1[i]) == d;
        let j: int = if i == n { n + 1 } else if i == n + 1 { n } else { i };
        assert(s2[j] == s1[i]);
    }
    assert forall|d: Seq<char>| #[trigger] day_among(s2, d) implies day_among(s1, d) by {
        let i = choose|i: int| 0 <= i < s2.len() && day_of(#[trigger] s2[i]) == d;
        let j: int = if i == n { n + 1 } else if i == n + 1 { n } else { i };
        assert(s1[j] == s2[i]);
    }
}

/// Two lists of days, each in strict order, that hold the same days are
/// the same list.
proof fn lemma_sorted_same(a: Seq<Seq<char>>, b: Seq<Seq<char>>)
    requires
        strictly_sorted(a),
        strictly_sorted(b),
        forall|d: Seq<char>| a.contains(d) <==> b.contains(d),
    ensures
        a == b,
    decreases a.len(),
{
    if a.len() == 0 {
        if b.len() > 0 {
            assert(b.contains(b[0]));
        }
        assert(b =~= a);
    } else {
        assert(a.contains(a[0]));
        let j = choose|j: int| 0 <= j < b.len() && b[j] == a[0];
        assert(b.contains(b[0]));
        let i = choose|i: int| 0 <= i < a.len() && a[i] == b[0];
        if j > 0 {
            assert(text_lt(b[0], b[j]));
            if i > 0 {
                assert(text_lt(a[0], a[i]));
                lemma_text_lt_asymmetric(a[0], b[0]);
            } else {
                lemma_text_lt_irreflexive(a[0]);
            }
        }
        let ta = a.drop_first();
        let tb = b.drop_first();
        assert forall|d: Seq<char>| ta.contains(d) <==> tb.contains(d) by {
            if ta.contains(d) {
                let x = choose|x: int| 0 <= x < ta.len() && ta[x] == d;
                assert(a[x + 1] == d);
                assert(text_lt(a[0], a[x + 1]));
                lemma_text_lt_irreflexive(d);
                assert(a.contains(d));
                let y = choose|y: int| 0 <= y < b.len() && b[y] == d;
                assert(y != 0);
                assert(tb[y - 1] == d);
            }
            if tb.contains(d) {
                let x = choose|x: int| 0 <= x < tb.len() && tb[x] == d;
                assert(b[x + 1] == d);
                assert(text_lt(b[0], b[x + 1]));
                lemma_text_lt_irreflexive(d);
                assert(b.contains(d));
                let y = choose|y: int| 0 <= y < a.len() && a[y] == d;
                assert(y != 0);
                assert(ta[y - 1] == d);
            }
        }
        lemma_sorted_same(ta, tb);
        assert(a =~= seq![a[0]] + ta);
        assert(b =~= seq![b[0]] + tb);
    }
}

/// Progress does not depend on the order of the journal: computed from
/// journals that differ in two attempts trading places, it gives every
/// exercise the same best stars, every solution the same failures, the
/// same star total and count of finished exercises, and the same list of
/// active days.
pub proof fn law_progress_ignores_order(
    p1: &Progress,
    p2: &Progress,
    p: Seq<Attempt>,
    a: Attempt,
    b: Attempt,
    q: Seq<Attempt>,
)
    requires
        p1.inv(),
        p2.inv(),
        p1.journal() == p + seq![a, b] + q,
        p2.journal() == p + seq![b, a] + q,
    ensures
        forall|k: ExKey| #[trigger] lookup(p1.best_table(), k) == lookup(p2.best_table(), k),
        forall|c: Seq<char>| #[trigger] lookup(p1.failure_table(), c) == lookup(p2.failure_table(), c),
        table_stars(p1.best_table()) == table_stars(p2.best_table()),
        table_done(p1.best_table()) == table_done(p2.best_table()),
        p1.days() == p2.days(),
{
    p1.lemma_tables();
    p2.lemma_tables();
    let s1 = p1.journal();
    let s2 = p2.journal();
    assert forall|k: ExKey| #[trigger] lookup(p1.best_table(), k) == lookup(p2.best_table(), k) by {
        law_journal_order(p, a, b, q, s1, s2, k, Seq::empty());
    }
    assert forall|c: Seq<char>| #[trigger] lookup(p1.failure_table(), c) == lookup(p2.failure_table(), c) by {
        law_journal_order(p, a, b, q, s1, s2, (Seq::empty(), 0), c);
        match lookup(p1.failure_table(), c) {
            Some(n) => {
                assert(lookup(p2.failure_table(), c) is Some);
            },
            None => {},
        }
    }
    law_journal_order(p, a, b, q, s1, s2, (Seq::empty(), 0), Seq::empty());
    assert forall|d: Seq<char>| p1.days().contains(d) <==> p2.days().contains(d) by {
        assert(day_among(s1, d) == day_among(s2, d));
    }
    lemma_sorted_same(p1.days(), p2.days());
    lemma_table_totals_same(p1.best_table(), p2.best_table());
}

/// Counts never increase along the list.
pub open spec fn counts_descending(v: Seq<(Seq<char>, usize)>) -> bool {
    forall|i: int, j: int| 0 <= i < j < v.len() ==> v[i].1 >= v[j].1
}

/// Puts an entry after every entry with at least its count, so the list
/// stays in descending order and equal counts keep their order.
fn insert_desc(v: &mut Vec<(String, usize)>, x: (String, usize))
    requires
        counts_descending(failures_view(old(v)@)),
    ensures
        counts_descending(failures_view(final(v)@)),
        failures_view(final(v)@).len() == failures_view(old(v)@).len() + 1,
        exists|p: int| 0 <= p <= old(v)@.len() && failures_view(final(v)@) == failures_view(old(v)@).insert(p, (x.0@, x.1)),
{
    let ghost fv = failures_view(v@);
    let mut p: usize = 0;
    while p < v.len() && v[p].1 >= x.1
        invariant
            p <= v@.len(),
            fv == failures_view(v@),
            forall|j: int| 0 <= j < p ==> #[trigger] fv[j].1 >= x.1,
        decreases v.len() - p,
    {
        p = p + 1;
    }
    proof {
        assert forall|j: int| p <= j < fv.len() implies #[trigger] fv[j].1 < x.1 by {
            assert(fv[p as int].1 < x.1);
        }
    }
    v.insert(p, x);
    let ghost w = failures_view(v@);
    assert(w =~= fv.insert(p as int, (x.0@, x.1)));
    assert forall|a: int, b: int| 0 <= a < b < w.len() implies w[a].1 >= w[b].1 by {
        if b < p {
        } else if b == p {
        } else if a < p {
            assert(w[b] == fv[b - 1]);
        } else if a == p {
            assert(w[b] == fv[b - 1]);
        } else {
            assert(w[a] == fv[a - 1] && w[b] == fv[b - 1]);
        }
    }
}

impl Progress {
    /// The solutions failed most often, most failed first, at most `limit`
    /// of them. Among equal counts the order is not specified.
    pub fn problem_commands(&self, limit: usize) -> (r: Vec<(String, usize)>)
        requires
            self.inv(),
        ensures
            r@.len() == (if limit < self.failure_table().len() { limit as nat } else { self.failure_table().len() }),
            counts_descending(failures_view(r@)),
            forall|i: int| 0 <= i < r@.len() ==> lookup(self.failure_table(), #[trigger] r@[i].0@) == Some(r@[i].1),
            forall|i: int, j: int| 0 <= i < j < r@.len() ==> r@[i].0@ != r@[j].0@,
            forall|c: Seq<char>, n: usize|
                lookup(self.failure_table(), c) == Some(n) && (forall|i: int| 0 <= i < r@.len() ==> r@[i].0@ != c)
                    ==> r@.len() == limit && (limit > 0 ==> n <= r@[limit - 1].1),
    {
        let ghost t = self.failure_table();
        let mut v: Vec<(String, usize)> = Vec::new();
        let mut i: usize = 0;
        while i < self.failures_per_command.len()
            invariant
                i <= t.len(),
                t == self.failure_table(),
                keys_unique(t),
                counts_descending(failures_view(v@)),
                keys_unique(failures_view(v@)),
                failures_view(v@).len() == i,
                forall|e: (Seq<char>, usize)| #[trigger] failures_view(v@).contains(e) <==> t.take(i as int).contains(e),
            decreases t.len() - i,
        {
            let ghost before = failures_view(v@);
            let e = (self.failures_per_command[i].0.clone(), self.failures_per_command[i].1);
            insert_desc(&mut v, e);
            proof {
                let p = choose|p: int| 0 <= p <= before.len() && failures_view(v@) == before.insert(p, (e.0@, e.1));
                assert(t[i as int] == (e.0@, e.1));
                assert forall|k: int| 0 <= k < before.len() implies before[k].0 != e.0@ by {
                    assert(before.contains(before[k]));
                    let m = choose|m: int| 0 <= m < i && #[trigger] t.take(i as int)[m] == before[k];
                    assert(t[m] == before[k]);
                }
                let w = failures_view(v@);
                assert forall|a: int, b: int| 0 <= a < b < w.len() implies w[a].0 != w[b].0 by {
                    if a < p && b > p {
                        assert(w[a] == before[a] && w[b] == before[b - 1]);
                    } else if a < p && b == p {
                    } else if a == p {
                        assert(w[b] == before[b - 1]);
                    } else if b < p {
                    } else {
                        assert(w[a] == before[a - 1] && w[b] == before[b - 1]);
                    }
                }
                assert forall|x: (Seq<char>, usize)| #[trigger] failures_view(v@).contains(x) <==> t.take(i + 1).contains(x) by {
                    let w = failures_view(v@);
                    if w.contains(x) {
                        let k = choose|k: int| 0 <= k < w.len() && w[k] == x;
                        if k < p {
                            assert(before[k] == x);
                        } else if k > p {
                            assert(before[k - 1] == x);
                        } else {
                            assert(t.take(i + 1)[i as int] == x);
                        }
                        if before.contains(x) {
                            let m = choose|m: int| 0 <= m < i && #[trigger] t.take(i as int)[m] == x;
                            assert(t.take(i + 1)[m] == x);
                        }
                    }
                    if t.take(i + 1).contains(x) {
                        let m = choose|m: int| 0 <= m < i + 1 && #[trigger] t.take(i + 1)[m] == x;
                        if m < i {
                            assert(t.take(i as int)[m] == x);
                            assert(before.contains(x));
                            let k = choose|k: int| 0 <= k < before.len() && before[k] == x;
                            if k < p {
                                assert(w[k] == x);
                            } else {
                                assert(w[k + 1] == x);
                            }
                        } else {
                            assert(w[p] == x);
                        }
                    }
                }
            }
            i = i + 1;
        }
        assert(t.take(t.len() as int) =~= t);
        let ghost full = failures_view(v@);
        let ghost n = if limit < full.len() { limit as int } else { full.len() as int };
        v.truncate(limit);
        proof {
            assert(failures_view(v@) =~= full.take(n));
            assert forall|i: int, j: int| 0 <= i < j < v@.len() implies v@[i].0@ != v@[j].0@ by {
                assert(full[i].0 != full[j].0);
            }
            assert forall|i: int| 0 <= i < v@.len() implies lookup(t, #[trigger] v@[i].0@) == Some(v@[i].1) by {
                assert(full[i] == (v@[i].0@, v@[i].1));
                assert(full.contains(full[i]));
                let k = choose|k: int| 0 <= k < t.len() && t[k] == full[i];
                lemma_lookup(t, full[i].0);
            }
            assert forall|c: Seq<char>, m: usize|
                lookup(t, c) == Some(m) && (forall|i: int| 0 <= i < v@.len() ==> v@[i].0@ != c) implies v@.len() == limit
                && (limit > 0 ==> m <= v@[limit - 1].1) by {
                lemma_lookup(t, c);
                let k = choose|k: int| 0 <= k < t.len() && t[k] == (c, m);
                assert(t.contains((c, m)));
                assert(full.contains((c, m)));
                let q = choose|q: int| 0 <= q < full.len() && full[q] == (c, m);
                if q < n {
                    assert(v@[q].0@ == c);
                }
                assert(q >= n);
                assert(n == limit);
                if limit > 0 {
                    assert(full[limit - 1] == (v@[limit - 1].0@, v@[limit - 1].1));
                }
            }
        }
        v
    }
}

/// The day that a `YYYY-MM-DD` text names, as chrono counts it: days from
/// 1 January of year 1 (day 1); `None` when chrono does not read the text
/// as a date.
pub uninterp spec fn calendar_day(s: Seq<char>) -> Option<i32>;

/// Reads a day with chrono's `NaiveDate::parse_from_str` and the format
/// `%Y-%m-%d`, then numbers it with `Datelike::num_days_from_ce`. The
/// contract only names the result: which texts chrono's parser accepts is
/// not restated here.
#[verifier::external_body]
fn day_number(s: &str) -> (r: Option<i32>)
    ensures
        r == calendar_day(s@),
{
    match NaiveDate::parse_from_str(s, "%Y-%m-%d") {
        Ok(d) => Some(d.num_days_from_ce()),
        Err(_) => None,
    }
}

/// Day number `n` is one of the days in `days`.
pub open spec fn day_in(days: Seq<Seq<char>>, n: int) -> bool {
    exists|i: int| 0 <= i < days.len() && (#[trigger] calendar_day(days[i]) matches Some(v) && v as int == n)
}

/// `m` is the latest day in `days`.
pub open spec fn latest_day(days: Seq<Seq<char>>, m: int) -> bool {
    day_in(days, m) && forall|n: int| #[trigger] day_in(days, n) ==> n <= m
}

/// Strictly decreasing.
pub open spec fn strictly_down(v: Seq<i32>) -> bool {
    forall|i: int, j: int| 0 <= i < j < v.len() ==> v[i] > v[j]
}

fn contains_i32(v: &Vec<i32>, x: i32) -> (r: bool)
    ensures
        r == v@.contains(x),
{
    let mut i: usize = 0;
    while i < v.len()
        invariant
            i <= v@.len(),
            forall|j: int| 0 <= j < i ==> v@[j] != x,
        decreases v.len() - i,
    {
        if v[i] == x {
            return true;
        }
        i = i + 1;
    }
    false
}

fn insert_down(v: &mut Vec<i32>, x: i32)
    requires
        strictly_down(old(v)@),
        !old(v)@.contains(x),
    ensures
        strictly_down(final(v)@),
        forall|n: i32| #[trigger] final(v)@.contains(n) <==> (old(v)@.contains(n) || n == x),
{
    let ghost u = v@;
    let mut p: usize = 0;
    while p < v.len() && v[p] > x
        invariant
            p <= v@.len(),
            u == v@,
            forall|j: int| 0 <= j < p ==> #[trigger] u[j] > x,
        decreases v.len() - p,
    {
        p = p + 1;
    }
    proof {
        if p < u.len() {
            assert(u[p as int] != x);
        }
    }
    v.insert(p, x);
    let ghost w = v@;
    assert(w =~= u.insert(p as int, x));
    assert forall|a: int, b: int| 0 <= a < b < w.len() implies w[a] > w[b] by {
        if b < p {
        } else if b == p {
        } else if a < p {
            assert(w[b] == u[b - 1]);
        } else if a == p {
            assert(w[b] == u[b - 1]);
        } else {
            assert(w[a] == u[a - 1] && w[b] == u[b - 1]);
        }
    }
    assert forall|n: i32| #[trigger] w.contains(n) <==> (u.contains(n) || n == x) by {
        if w.contains(n) {
            let k = choose|k: int| 0 <= k < w.len() && w[k] == n;
            if k < p {
                assert(u[k] == n);
            } else if k > p {
                assert(u[k - 1] == n);
            }
        }
        if u.contains(n) {
            let k = choose|k: int| 0 <= k < u.len() && u[k] == n;
            if k < p {
                assert(w[k] == n);
            } else {
                assert(w[k + 1] == n);
            }
        }
        if n == x {
            assert(w[p as int] == n);
        }
    }
}

/// `n` is one of the day numbers.
pub open spec fn num_in(nums: Seq<i32>, n: int) -> bool {
    exists|i: int| 0 <= i < nums.len() && #[trigger] nums[i] as int == n
}

/// `m` is the latest of the day numbers.
pub open spec fn latest_num(nums: Seq<i32>, m: int) -> bool {
    num_in(nums, m) && forall|n: int| #[trigger] num_in(nums, n) ==> n <= m
}

/// The run of consecutive day numbers that ends at the latest one, in
/// whatever order and with whatever repetitions they come: 0 when there
/// is none.
pub fn streak_of_days(nums: &[i32]) -> (r: usize)
    ensures
        r == 0 <==> nums@.len() == 0,
        r > 0 ==> exists|m: int|
            latest_num(nums@, m) && (forall|j: int| 0 <= j < r ==> #[trigger] num_in(nums@, m - j))
                && !num_in(nums@, m - r),
{
    let mut all: Vec<i32> = Vec::new();
    let mut i: usize = 0;
    while i < nums.len()
        invariant
            i <= nums@.len(),
            strictly_down(all@),
            forall|n: i32| #[trigger] all@.contains(n) <==> exists|j: int| 0 <= j < i && nums@[j] == n,
        decreases nums.len() - i,
    {
        let n = nums[i];
        if !contains_i32(&all, n) {
            insert_down(&mut all, n);
        }
        assert forall|x: i32| #[trigger] all@.contains(x) <==> exists|j: int| 0 <= j < i + 1 && nums@[j] == x by {
            if x == n {
                assert(nums@[i as int] == x);
            }
        }
        i = i + 1;
    }
    let ghost v = all@;
    assert forall|n: int| #[trigger] num_in(nums@, n) <==> exists|k: int| 0 <= k < v.len() && v[k] as int == n by {
        if num_in(nums@, n) {
            let j = choose|j: int| 0 <= j < nums@.len() && #[trigger] nums@[j] as int == n;
            assert(v.contains(nums@[j]));
        }
        if exists|k: int| 0 <= k < v.len() && v[k] as int == n {
            let k = choose|k: int| 0 <= k < v.len() && v[k] as int == n;
            assert(v.contains(v[k]));
            let j = choose|j: int| 0 <= j < nums@.len() && nums@[j] == v[k];
            assert(nums@[j] as int == n);
        }
    }
    if all.len() == 0 {
        if nums.len() > 0 {
            assert(num_in(nums@, nums@[0] as int));
        }
        return 0;
    }
    let mut k: usize = 1;
    while k < all.len() && (all[k - 1] as i64) - 1 == all[k] as i64
        invariant
            1 <= k <= v.len(),
            v == all@,
            strictly_down(v),
            forall|j: int| 0 <= j < k ==> (#[trigger] v[j]) as int == v[0] as int - j,
        decreases v.len() - k,
    {
        k = k + 1;
    }
    proof {
        let m = v[0] as int;
        assert(num_in(nums@, m));
        assert forall|n: int| #[trigger] num_in(nums@, n) implies n <= m by {
            let q = choose|q: int| 0 <= q < v.len() && v[q] as int == n;
            if q > 0 {
                assert(v[0] > v[q]);
            }
        }
        assert forall|j: int| 0 <= j < k implies #[trigger] num_in(nums@, m - j) by {
            assert(v[j] as int == m - j);
        }
        if num_in(nums@, m - k) {
            let q = choose|q: int| 0 <= q < v.len() && v[q] as int == m - k;
            if q < k {
                assert(v[q] as int == m - q);
            } else {
                assert(v[k as int] as int != m - k);
                assert(v[k as int] < v[k - 1]);
                if q > k {
                    assert(v[q] < v[k as int]);
                }
            }
        }
        assert(latest_num(nums@, m));
        assert(nums@.len() > 0) by {
            let q = choose|q: int| 0 <= q < nums@.len() && #[trigger] nums@[q] as int == m;
        }
    }
    k
}

impl Progress {
    /// The run of consecutive days ending at the latest active day.
    pub fn streak(&self) -> (r: usize)
        requires
            self.inv(),
        ensures
            r == 0 <==> forall|i: int| 0 <= i < self.days().len() ==> (#[trigger] calendar_day(self.days()[i])) is None,
            r > 0 ==> exists|m: int|
                latest_day(self.days(), m) && (forall|j: int| 0 <= j < r ==> #[trigger] day_in(self.days(), m - j))
                    && !day_in(self.days(), m - r),
    {
        let ghost days = self.days();
        let mut nums: Vec<i32> = Vec::new();
        let mut i: usize = 0;
        while i < self.days_active.len()
            invariant
                i <= days.len(),
                days == self.days(),
                forall|n: i32| #[trigger] nums@.contains(n) <==> exists|j: int|
                    0 <= j < i && calendar_day(days[j]) == Some(n),
            decreases days.len() - i,
        {
            let parsed = day_number(self.days_active[i].as_str());
            assert(parsed == calendar_day(days[i as int]));
            let ghost before = nums@;
            if let Some(n) = parsed {
                nums.push(n);
                assert forall|x: i32| #[trigger] nums@.contains(x) <==> before.contains(x) || x == n by {
                    if nums@.contains(x) {
                        let q = choose|q: int| 0 <= q < nums@.len() && nums@[q] == x;
                        if q < before.len() {
                            assert(before[q] == x);
                        }
                    }
                    if before.contains(x) {
                        let q = choose|q: int| 0 <= q < before.len() && before[q] == x;
                        assert(nums@[q] == x);
                    }
                    if x == n {
                        assert(nums@[before.len() as int] == x);
                    }
                }
            }
            i = i + 1;
        }
        let r = streak_of_days(nums.as_slice());
        proof {
            assert forall|n: int| #[trigger] day_in(days, n) <==> num_in(nums@, n) by {
                if day_in(days, n) {
                    let j = choose|j: int| 0 <= j < days.len() && (#[trigger] calendar_day(days[j]) matches Some(v) && v as int == n);
                    let v = calendar_day(days[j]).unwrap();
                    assert(nums@.contains(v));
                    let q = choose|q: int| 0 <= q < nums@.len() && nums@[q] == v;
                    assert(nums@[q] as int == n);
                }
                if num_in(nums@, n) {
                    let q = choose|q: int| 0 <= q < nums@.len() && #[trigger] nums@[q] as int == n;
                    assert(nums@.contains(nums@[q]));
                    let j = choose|j: int| 0 <= j < i && calendar_day(days[j]) == Some(nums@[q]);
                    assert(calendar_day(days[j]) matches Some(v) && v as int == n);
                }
            }
            if r == 0 {
                assert forall|j: int| 0 <= j < days.len() implies (#[trigger] calendar_day(days[j])) is None by {
                    if let Some(v) = calendar_day(days[j]) {
                        assert(nums@.contains(v));
                    }
                }
            } else {
                let m = choose|m: int|
                    latest_num(nums@, m) && (forall|j: int| 0 <= j < r ==> #[trigger] num_in(nums@, m - j))
                        && !num_in(nums@, m - r);
                assert(latest_day(days, m));
                assert(forall|j: int| 0 <= j < r ==> #[trigger] day_in(days, m - j));
                let q = choose|q: int| 0 <= q < nums@.len() && #[trigger] nums@[q] as int == m;
                assert(nums@.contains(nums@[q]));
                let jj = choose|jj: int| 0 <= jj < i && calendar_day(days[jj]) == Some(nums@[q]);
                assert(exists|i: int| 0 <= i < days.len() && (#[trigger] calendar_day(days[i])) is Some);
            }
        }
        r
    }
}


/// An exercise's stars are the most any successful attempt at it earned:
/// no success at it earned more, one earned exactly that many, and with no
/// success at all it has none.
pub proof fn law_stars_are_the_best_success(atts: Seq<Attempt>, k: ExKey)
    ensures
        forall|i: int|
            0 <= i < atts.len() && atts[i].success && (atts[i].lesson_id@, atts[i].exercise_index) == k
                ==> #[trigger] atts[i].stars <= best_stars(atts, k),
        (forall|i: int|
            0 <= i < atts.len() ==> !(#[trigger] atts[i].success && (atts[i].lesson_id@, atts[i].exercise_index) == k))
            ==> best_stars(atts, k) == 0,
        (exists|i: int|
            0 <= i < atts.len() && #[trigger] atts[i].success && (atts[i].lesson_id@, atts[i].exercise_index) == k)
            ==> exists|j: int|
            0 <= j < atts.len() && #[trigger] atts[j].success && (atts[j].lesson_id@, atts[j].exercise_index) == k
                && atts[j].stars == best_stars(atts, k),
    decreases atts.len(),
{
    if atts.len() > 0 {
        let prev = atts.drop_last();
        law_stars_are_the_best_success(prev, k);
        let n = atts.len() - 1;
        assert forall|i: int| 0 <= i < n implies #[trigger] atts[i] == prev[i] by {}
        let a = atts.last();
        if a.success && (a.lesson_id@, a.exercise_index) == k {
            if best_stars(atts, k) != a.stars {
                assert(exists|i: int|
                    0 <= i < prev.len() && #[trigger] prev[i].success && (prev[i].lesson_id@, prev[i].exercise_index)
                        == k) by {
                    if forall|i: int|
                        0 <= i < prev.len() ==> !(#[trigger] prev[i].success && (prev[i].lesson_id@, prev[i].exercise_index)
                            == k) {
                        assert(best_stars(prev, k) == 0);
                    }
                }
                let j = choose|j: int|
                    0 <= j < prev.len() && #[trigger] prev[j].success && (prev[j].lesson_id@, prev[j].exercise_index) == k
                        && prev[j].stars == best_stars(prev, k);
                assert(atts[j] == prev[j]);
            } else {
                assert(atts[n] == a);
            }
        } else {
            assert(best_of(atts, k) == best_of(prev, k));
            if exists|i: int|
                0 <= i < atts.len() && #[trigger] atts[i].success && (atts[i].lesson_id@, atts[i].exercise_index) == k {
                let i0 = choose|i: int|
                    0 <= i < atts.len() && #[trigger] atts[i].success && (atts[i].lesson_id@, atts[i].exercise_index) == k;
                assert(i0 < n);
                assert(prev[i0] == atts[i0]);
                let j = choose|j: int|
                    0 <= j < prev.len() && #[trigger] prev[j].success && (prev[j].lesson_id@, prev[j].exercise_index) == k
                        && prev[j].stars == best_stars(prev, k);
                assert(atts[j] == prev[j]);
            }
            if forall|i: int|
                0 <= i < atts.len() ==> !(#[trigger] atts[i].success && (atts[i].lesson_id@, atts[i].exercise_index) == k) {
                assert forall|i: int|
                    0 <= i < prev.len() implies !(#[trigger] prev[i].success && (prev[i].lesson_id@, prev[i].exercise_index)
                        == k) by {
                    assert(atts[i] == prev[i]);
                }
            }
        }
    }
}

} // verus!
