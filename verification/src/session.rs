//! One exercise in progress and the decisions around it: what a key press
//! does to the attempt, which key the hint expects next, when the keyboard
//! shows, and which chapters a learner may open. Clocks, files and drawing
//! belong to the app.

use vstd::prelude::*;

use crate::content::{Curriculum, Exercise, lesson_index, same_text};
use crate::domain::buffer::Buffer;
use crate::domain::grading::{AttemptState, evaluate, graded, lines_of, solution_at, strict_prefix};
use crate::domain::journal::Attempt;
use crate::domain::keys::{Key, keys_notation, notation_all};
use crate::domain::progress::{Progress, chapter_unlocked_spec};
use crate::domain::settings::{CheckMode, Experience, KeyboardVisibility};
use crate::vim::engine::{Engine, Mode, StepResult, feed_post};
use crate::vim::motion::pos_in;

verus! {

/// What a key press did to the attempt.
#[derive(Debug, Clone, PartialEq)]
pub enum Press {
    /// The attempt is already decided; the key was not used.
    Closed,
    /// The engine does not support the command: show a notice, and do not
    /// count the key.
    Unsupported(String),
    /// The key counted. `touched`: the command changed rows, which the
    /// screen highlights. `finished`: this key decided the attempt, which
    /// is now to be logged.
    Counted { touched: bool, finished: bool },
}

pub struct Session {
    pub lesson_id: String,
    pub index: usize,
    pub engine: Engine,
    pub pressed: Vec<Key>,
    pub state: AttemptState,
    pub hint_shown: bool,
    pub last_key: Option<Key>,
    pub logged: bool,
}

/// Exercise `index` of lesson `lesson_id`, if there is one.
pub open spec fn exercise_at(cur: Curriculum, lesson_id: Seq<char>, index: usize) -> Option<Exercise> {
    match lesson_index(cur.lessons@, lesson_id) {
        Some(li) => if index < cur.lessons@[li].exercises@.len() {
            Some(cur.lessons@[li].exercises@[index as int])
        } else {
            None
        },
        None => None,
    }
}

/// The text an exercise starts with.
pub open spec fn start_text(ex: Exercise) -> Seq<Seq<char>> {
    if ex.buffer@.len() == 0 {
        seq![Seq::<char>::empty()]
    } else {
        lines_of(ex.buffer@)
    }
}

/// The cursor an exercise starts at lies inside its text.
pub open spec fn start_ok(ex: Exercise) -> bool {
    pos_in(start_text(ex), (ex.cursor[0], ex.cursor[1]))
}

/// A session just opened on exercise `ex`.
pub open spec fn fresh(s: Session, lesson_id: Seq<char>, index: usize, ex: Exercise) -> bool {
    &&& s.lesson_id@ == lesson_id
    &&& s.index == index
    &&& s.engine.text() == start_text(ex)
    &&& s.engine.cursor() == (ex.cursor[0], ex.cursor[1])
    &&& s.engine.mode_of() == Mode::Normal
    &&& (start_ok(ex) <==> s.engine.wf())
    &&& s.pressed@.len() == 0
    &&& s.state == AttemptState::InProgress
    &&& !s.hint_shown
    &&& s.last_key is None
    &&& !s.logged
}

/// Solution `i` goes on from the keys pressed so far.
pub open spec fn continues(ex: Exercise, pressed: Seq<Key>, i: int) -> bool {
    0 <= i < ex.solutions@.len() && strict_prefix(pressed, solution_at(ex, i))
}

/// The key solution `i` expects after the keys pressed so far.
pub open spec fn next_key_of(ex: Exercise, pressed: Seq<Key>, i: int) -> Key {
    solution_at(ex, i)[pressed.len() as int]
}

impl Session {
    /// A fresh attempt at exercise `index` of a lesson; `None` when the
    /// lesson or the exercise does not exist.
    pub fn new(curriculum: &Curriculum, lesson_id: &str, index: usize) -> (r: Option<Session>)
        ensures
            match exercise_at(*curriculum, lesson_id@, index) {
                None => r is None,
                Some(ex) => r matches Some(s) && fresh(s, lesson_id@, index, ex),
            },
    {
        let lesson = match curriculum.lesson(lesson_id) {
            Some(l) => l,
            None => return None,
        };
        proof {
            crate::content::lemma_lesson_index(curriculum.lessons@, lesson_id@);
        }
        if index >= lesson.exercises.len() {
            return None;
        }
        let ex = &lesson.exercises[index];
        let mut buf = Buffer::new(ex.buffer.as_slice());
        buf.set_cursor((ex.cursor[0], ex.cursor[1]));
        let engine = Engine::new(buf);
        assert(lines_of(ex.buffer@) =~= ex.buffer@.map_values(|s: String| s@));
        Some(Session {
            lesson_id: String::from_str(lesson_id),
            index,
            engine,
            pressed: Vec::new(),
            state: AttemptState::InProgress,
            hint_shown: false,
            last_key: None,
            logged: false,
        })
    }

    /// Starts the exercise over; whether the hint is shown stays.
    pub fn reset(&mut self, curriculum: &Curriculum)
        ensures
            match exercise_at(*curriculum, old(self).lesson_id@, old(self).index) {
                None => *final(self) == *old(self),
                Some(ex) => {
                    let f = *final(self);
                    &&& f.hint_shown == old(self).hint_shown
                    &&& fresh(Session { hint_shown: false, ..f }, old(self).lesson_id@, old(self).index, ex)
                },
            },
    {
        if let Some(fresh) = Session::new(curriculum, self.lesson_id.as_str(), self.index) {
            let hint = self.hint_shown;
            *self = fresh;
            self.hint_shown = hint;
        }
    }

    /// One key press: fed to the engine, counted, and the attempt graded.
    /// Unsupported commands are reported and not counted; once decided, an
    /// attempt takes no more keys.
    pub fn press(&mut self, key: Key, exercise: &Exercise, mode: CheckMode) -> (r: Press)
        requires
            old(self).engine.wf(),
        ensures
            final(self).engine.wf(),
            final(self).lesson_id == old(self).lesson_id,
            final(self).index == old(self).index,
            final(self).hint_shown == old(self).hint_shown,
            !(old(self).state is InProgress) ==> r == Press::Closed && *final(self) == *old(self),
            old(self).state is InProgress ==> {
                &&& exists|res: StepResult| #[trigger]
                    feed_post(&old(self).engine, key, res, &final(self).engine) && (res is Unsupported
                        <==> r is Unsupported) && (r matches Press::Unsupported(w) ==> res
                        == StepResult::Unsupported(w))
                &&& final(self).last_key == Some(key)
                &&& r is Unsupported ==> {
                    &&& final(self).pressed@ == old(self).pressed@
                    &&& final(self).state == old(self).state
                    &&& final(self).logged == old(self).logged
                }
                &&& !(r is Unsupported) ==> {
                    &&& r matches Press::Counted { touched, finished } && touched == (
                    final(self).engine.touched() is Some) && finished == (!(final(self).state is InProgress)
                        && !old(self).logged)
                    &&& final(self).pressed@ == old(self).pressed@.push(key)
                    &&& graded(
                        mode,
                        final(self).pressed@,
                        *exercise,
                        final(self).engine.text(),
                        final(self).engine.cursor(),
                        final(self).engine.mode_of() == Mode::Normal,
                        final(self).state,
                    )
                    &&& final(self).logged == (old(self).logged || !(final(self).state is InProgress))
                }
            },
    {
        if !matches!(self.state, AttemptState::InProgress) {
            return Press::Closed;
        }
        let result = self.engine.feed(key);
        self.last_key = Some(key);
        let touched = self.engine.touched_rows().is_some();
        assert(touched == (self.engine.touched() is Some));
        if let StepResult::Unsupported(what) = result {
            return Press::Unsupported(what);
        }
        self.pressed.push(key);
        let lines = self.engine.buffer().to_lines();
        assert(lines_of(lines@) =~= self.engine.text());
        let in_normal = self.engine.current_mode() == Mode::Normal;
        assert(in_normal == (self.engine.mode_of() == Mode::Normal));
        let state = evaluate(
            mode,
            self.pressed.as_slice(),
            exercise,
            lines.as_slice(),
            self.engine.buffer().cursor_pos(),
            in_normal,
        );
        let mut finished = false;
        if !matches!(state, AttemptState::InProgress) {
            self.state = state;
            if !self.logged {
                self.logged = true;
                finished = true;
            }
        }
        Press::Counted { touched, finished }
    }

    /// The journal record of the decided attempt, given when it happened
    /// and how long it took.
    pub fn attempt(&self, exercise: &Exercise, mode: CheckMode, ts: String, elapsed_ms: u64) -> (r: Attempt)
        ensures
            r.ts == ts,
            r.lesson_id@ == self.lesson_id@,
            r.exercise_index == self.index,
            r.mode == mode,
            r.keystrokes@ == notation_all(self.pressed@),
            r.keystroke_count == self.pressed@.len(),
            r.optimal == crate::domain::grading::optimal_spec(*exercise),
            r.success == (self.state is Success),
            r.stars == (match self.state {
                AttemptState::Success { stars } => stars,
                _ => 0,
            }),
            r.elapsed_ms == elapsed_ms,
            r.canonical@ == (if exercise.solutions@.len() > 0 {
                exercise.solutions@[0]@
            } else {
                Seq::<char>::empty()
            }),
    {
        let (success, stars) = match &self.state {
            AttemptState::Success { stars } => (true, *stars),
            _ => (false, 0),
        };
        Attempt {
            ts,
            lesson_id: self.lesson_id.clone(),
            exercise_index: self.index,
            mode,
            keystrokes: keys_notation(self.pressed.as_slice()),
            keystroke_count: self.pressed.len(),
            optimal: exercise.optimal_keystrokes(),
            success,
            stars,
            elapsed_ms,
            canonical: String::from_str(exercise.taught()),
        }
    }

    /// Shows or hides the hint.
    pub fn toggle_hint(&mut self)
        ensures
            final(self).hint_shown == !old(self).hint_shown,
    {
        self.hint_shown = !self.hint_shown;
    }
}

/// The next key, when the hint is shown (always in strict mode) and every
/// solution that goes on from the keys pressed so far agrees on it.
pub fn expected_key(session: &Session, exercise: &Exercise, mode: CheckMode) -> (r: Option<Key>)
    ensures
        !session.hint_shown && mode != CheckMode::Strict ==> r is None,
        session.hint_shown || mode == CheckMode::Strict ==> {
            &&& r matches Some(k) ==> (exists|i: int| continues(*exercise, session.pressed@, i)) && forall|i: int|
                continues(*exercise, session.pressed@, i) ==> next_key_of(*exercise, session.pressed@, i) == k
            &&& r is None ==> (forall|i: int| !continues(*exercise, session.pressed@, i)) || exists|i: int, j: int|
                continues(*exercise, session.pressed@, i) && continues(*exercise, session.pressed@, j)
                    && next_key_of(*exercise, session.pressed@, i) != next_key_of(*exercise, session.pressed@, j)
        },
{
    if !session.hint_shown && mode != CheckMode::Strict {
        return None;
    }
    let solutions = exercise.solution_keys();
    let pressed = session.pressed.as_slice();
    let n = pressed.len();
    let mut first: Option<Key> = None;
    let mut first_at: usize = 0;
    let mut i: usize = 0;
    while i < solutions.len()
        invariant
            i <= solutions@.len(),
            n == session.pressed@.len(),
            pressed@ == session.pressed@,
            solutions@.len() == exercise.solutions@.len(),
            forall|j: int| 0 <= j < solutions@.len() ==> (#[trigger] solutions@[j])@ == solution_at(*exercise, j),
            match first {
                None => forall|j: int| 0 <= j < i ==> !continues(*exercise, session.pressed@, j),
                Some(k) => first_at < i && continues(*exercise, session.pressed@, first_at as int)
                    && next_key_of(*exercise, session.pressed@, first_at as int) == k && forall|j: int|
                    0 <= j < i && continues(*exercise, session.pressed@, j) ==> next_key_of(
                        *exercise,
                        session.pressed@,
                        j,
                    ) == k,
            },
        decreases solutions@.len() - i,
    {
        let s = solutions[i].as_slice();
        if crate::domain::grading::is_strict_prefix(pressed, s) {
            let k = s[n];
            match first {
                None => {
                    first = Some(k);
                    first_at = i;
                },
                Some(f) => {
                    if f != k {
                        assert(continues(*exercise, session.pressed@, first_at as int));
                        assert(continues(*exercise, session.pressed@, i as int));
                        assert(next_key_of(*exercise, session.pressed@, i as int) == k);
                        return None;
                    }
                },
            }
        }
        i = i + 1;
    }
    first
}

/// Whether the on-screen keyboard shows: always, never, or in the automatic
/// setting while it is open and has not hidden itself.
pub fn keyboard_visible(setting: KeyboardVisibility, open: bool, auto_hidden: bool) -> (r: bool)
    ensures
        r == match setting {
            KeyboardVisibility::Always => true,
            KeyboardVisibility::Never => false,
            KeyboardVisibility::Auto => open && !auto_hidden,
        },
{
    match setting {
        KeyboardVisibility::Always => true,
        KeyboardVisibility::Never => false,
        KeyboardVisibility::Auto => open && !auto_hidden,
    }
}

/// Exercises done after which the automatic keyboard hides itself.
pub const KEYBOARD_HIDES_AFTER: usize = 20;

/// The automatic keyboard hides itself once the skill has grown.
pub fn keyboard_hides(setting: KeyboardVisibility, exercises_done: usize) -> (r: bool)
    ensures
        r == (setting == KeyboardVisibility::Auto && exercises_done >= KEYBOARD_HIDES_AFTER),
{
    setting == KeyboardVisibility::Auto && exercises_done >= KEYBOARD_HIDES_AFTER
}

/// Chapters open one after another, except for a learner who said at the
/// start that they are confident: to them every chapter is open.
pub fn chapter_open(progress: &Progress, curriculum: &Curriculum, experience: Experience, chapter: &str) -> (r: bool)
    requires
        progress.inv(),
    ensures
        r == (experience == Experience::Confident || chapter_unlocked_spec(
            progress.journal(),
            *curriculum,
            chapter@,
        )),
{
    if experience == Experience::Confident {
        return true;
    }
    progress.chapter_unlocked(curriculum, chapter)
}

/// The check mode that goes with a level of experience: the confident come
/// for strict checking.
pub fn check_mode_for(experience: Experience) -> (r: CheckMode)
    ensures
        r == (if experience == Experience::Confident { CheckMode::Strict } else { CheckMode::Mix }),
{
    match experience {
        Experience::Confident => CheckMode::Strict,
        _ => CheckMode::Mix,
    }
}

} // verus!
