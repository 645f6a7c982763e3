//! Grading an attempt. The three check modes differ only in what counts as
//! success; stars are always about efficiency.

use vstd::prelude::*;

use crate::content::{Exercise, first_shortest, key_len};
use crate::domain::keys::{Key, keys_notation, notation_all, parse_keys_spec};
use crate::domain::settings::CheckMode;

verus! {

#[derive(Debug, Clone, PartialEq)]
pub enum AttemptState {
    InProgress,
    Success { stars: u8 },
    /// Strict mode: the keys left every listed solution.
    Failed { expected: String },
}

/// Stars for efficiency: the optimum earns three, up to one and a half
/// times the optimum two, anything longer one.
pub open spec fn stars_spec(keystrokes: nat, optimal: nat) -> u8 {
    if keystrokes <= optimal {
        3
    } else if 2 * keystrokes <= 3 * optimal {
        2
    } else {
        1
    }
}

pub fn stars_for(keystrokes: usize, optimal: usize) -> (r: u8)
    ensures
        r == stars_spec(keystrokes as nat, optimal as nat),
        1 <= r <= 3,
        keystrokes <= optimal ==> r == 3,
        optimal < keystrokes && 2 * keystrokes <= 3 * optimal ==> r == 2,
        3 * optimal < 2 * keystrokes ==> r == 1,
{
    if keystrokes <= optimal {
        3
    } else if (keystrokes as u128) * 2 <= (optimal as u128) * 3 {
        2
    } else {
        1
    }
}

/// Fewer keystrokes never earn fewer stars.
pub proof fn law_stars_monotone(k1: nat, k2: nat, optimal: nat)
    requires
        k1 <= k2,
    ensures
        stars_spec(k1, optimal) >= stars_spec(k2, optimal),
{
}

/// The lines of a buffer read as text.
pub open spec fn lines_of(v: Seq<String>) -> Seq<Seq<char>> {
    v.map_values(|s: String| s@)
}

/// `pressed` is a proper beginning of `solution`.
pub open spec fn strict_prefix(pressed: Seq<Key>, solution: Seq<Key>) -> bool {
    solution.len() > pressed.len() && solution.take(pressed.len() as int) == pressed
}

/// The keys of solution `i` of an exercise.
pub open spec fn solution_at(ex: Exercise, i: int) -> Seq<Key> {
    parse_keys_spec(ex.solutions@[i]@)
}

/// The solution strict mode reports as expected: the one the lesson
/// teaches, listed first.
pub open spec fn taught_spec(ex: Exercise) -> Seq<char> {
    if ex.solutions@.len() > 0 {
        ex.solutions@[0]@
    } else {
        Seq::<char>::empty()
    }
}

/// The fewest keystrokes of an exercise; one when it lists no solution.
pub open spec fn optimal_spec(ex: Exercise) -> nat {
    if ex.solutions@.len() > 0 {
        key_len(ex.solutions@[first_shortest(ex.solutions@, ex.solutions@.len() as int)])
    } else {
        1
    }
}

fn keys_eq(a: &[Key], b: &[Key]) -> (r: bool)
    ensures
        r == (a@ == b@),
{
    if a.len() != b.len() {
        return false;
    }
    let mut i: usize = 0;
    while i < a.len()
        invariant
            a@.len() == b@.len(),
            i <= a@.len(),
            forall|j: int| 0 <= j < i ==> a@[j] == b@[j],
        decreases a.len() - i,
    {
        if a[i] != b[i] {
            return false;
        }
        i = i + 1;
    }
    assert(a@ =~= b@);
    true
}

/// `pressed` is a proper beginning of `solution`.
pub(crate) fn is_strict_prefix(pressed: &[Key], solution: &[Key]) -> (r: bool)
    ensures
        r == strict_prefix(pressed@, solution@),
{
    if solution.len() <= pressed.len() {
        return false;
    }
    let mut i: usize = 0;
    while i < pressed.len()
        invariant
            pressed@.len() < solution@.len(),
            i <= pressed@.len(),
            forall|j: int| 0 <= j < i ==> pressed@[j] == solution@[j],
        decreases pressed.len() - i,
    {
        if pressed[i] != solution[i] {
            return false;
        }
        i = i + 1;
    }
    assert(solution@.take(pressed@.len() as int) =~= pressed@);
    true
}

fn same_lines(a: &[String], b: &[String]) -> (r: bool)
    ensures
        r == (lines_of(a@) == lines_of(b@)),
{
    if a.len() != b.len() {
        return false;
    }
    let mut i: usize = 0;
    while i < a.len()
        invariant
            a@.len() == b@.len(),
            i <= a@.len(),
            forall|j: int| 0 <= j < i ==> a@[j]@ == b@[j]@,
        decreases a.len() - i,
    {
        if a[i] != b[i] {
            assert(lines_of(a@)[i as int] != lines_of(b@)[i as int]);
            return false;
        }
        i = i + 1;
    }
    assert(lines_of(a@) =~= lines_of(b@));
    true
}

/// The grade of an attempt so far: `pressed` are the keys typed, `lines`,
/// `cursor` and `in_normal_mode` the editor's state after them.
pub open spec fn graded(
    mode: CheckMode,
    pressed: Seq<Key>,
    ex: Exercise,
    lines: Seq<Seq<char>>,
    cursor: (usize, usize),
    in_normal_mode: bool,
    r: AttemptState,
) -> bool {
    if mode == CheckMode::Strict {
        if exists|i: int| 0 <= i < ex.solutions@.len() && solution_at(ex, i) == pressed {
            r == AttemptState::Success { stars: 3 }
        } else if exists|i: int| 0 <= i < ex.solutions@.len() && strict_prefix(pressed, solution_at(ex, i)) {
            r == AttemptState::InProgress
        } else {
            r matches AttemptState::Failed { expected } && expected@ == taught_spec(ex)
        }
    } else {
        let reached = lines == lines_of(ex.goal@) && match ex.goal_cursor {
            Some(g) => cursor == (g[0], g[1]),
            None => true,
        } && in_normal_mode;
        if !reached {
            r == AttemptState::InProgress
        } else if mode == CheckMode::Free {
            r == AttemptState::Success { stars: 3 }
        } else {
            r == AttemptState::Success { stars: stars_spec(pressed.len(), optimal_spec(ex)) }
        }
    }
}

/// Grades an attempt so far: `pressed` are the keys typed, `buffer`,
/// `cursor` and `in_normal_mode` the editor's state after them.
pub fn evaluate(
    mode: CheckMode,
    pressed: &[Key],
    exercise: &Exercise,
    buffer: &[String],
    cursor: (usize, usize),
    in_normal_mode: bool,
) -> (r: AttemptState)
    ensures
        graded(mode, pressed@, *exercise, lines_of(buffer@), cursor, in_normal_mode, r),
{
    let solutions = exercise.solution_keys();
    match mode {
        CheckMode::Strict => {
            let mut i: usize = 0;
            while i < solutions.len()
                invariant
                    mode == CheckMode::Strict,
                    i <= solutions@.len(),
                    solutions@.len() == exercise.solutions@.len(),
                    forall|j: int| 0 <= j < solutions@.len() ==> (#[trigger] solutions@[j])@ == solution_at(*exercise, j),
                    forall|j: int| 0 <= j < i ==> solution_at(*exercise, j) != pressed@,
                decreases solutions.len() - i,
            {
                if keys_eq(solutions[i].as_slice(), pressed) {
                    return AttemptState::Success { stars: 3 };
                }
                i = i + 1;
            }
            let mut i: usize = 0;
            while i < solutions.len()
                invariant
                    mode == CheckMode::Strict,
                    i <= solutions@.len(),
                    solutions@.len() == exercise.solutions@.len(),
                    forall|j: int| 0 <= j < solutions@.len() ==> (#[trigger] solutions@[j])@ == solution_at(*exercise, j),
                    forall|j: int| 0 <= j < solutions@.len() ==> solution_at(*exercise, j) != pressed@,
                    forall|j: int| 0 <= j < i ==> !strict_prefix(pressed@, solution_at(*exercise, j)),
                decreases solutions.len() - i,
            {
                if is_strict_prefix(pressed, solutions[i].as_slice()) {
                    return AttemptState::InProgress;
                }
                i = i + 1;
            }
            let expected = exercise.taught();
            AttemptState::Failed { expected: String::from_str(expected) }
        },
        CheckMode::Mix | CheckMode::Free => {
            let cursor_ok = match exercise.goal_cursor {
                Some(g) => cursor.0 == g[0] && cursor.1 == g[1],
                None => true,
            };
            let reached = same_lines(buffer, exercise.goal.as_slice()) && cursor_ok && in_normal_mode;
            if !reached {
                return AttemptState::InProgress;
            }
            let stars = match mode {
                CheckMode::Free => 3,
                _ => stars_for(pressed.len(), exercise.optimal_keystrokes()),
            };
            AttemptState::Success { stars }
        },
    }
}

/// The keys typed, in vim notation.
pub fn pressed_notation(pressed: &[Key]) -> (r: String)
    ensures
        r@ == notation_all(pressed@),
{
    keys_notation(pressed)
}

} // verus!
