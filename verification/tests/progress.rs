use cozyvim::content::{Chapter, Curriculum, Exercise, Lesson};
use cozyvim::domain::journal::{Attempt, Journal};
use cozyvim::domain::progress::{Progress, streak_of_days};
use cozyvim::domain::settings::CheckMode;

fn attempt(ts: &str, lesson: &str, index: usize, success: bool, stars: u8, canonical: &str) -> Attempt {
    Attempt {
        ts: ts.to_string(),
        lesson_id: lesson.to_string(),
        exercise_index: index,
        mode: CheckMode::Mix,
        keystrokes: canonical.to_string(),
        keystroke_count: 2,
        optimal: 2,
        success,
        stars,
        elapsed_ms: 1000,
        canonical: canonical.to_string(),
    }
}

fn exercise() -> Exercise {
    Exercise {
        buffer: vec!["abc".into()],
        cursor: [0, 0],
        goal: vec!["bc".into()],
        goal_cursor: None,
        solutions: vec!["x".into()],
        text: Vec::new(),
    }
}

fn curriculum() -> Curriculum {
    Curriculum {
        chapters: vec![
            Chapter { id: "motion".into(), order: 0, text: Vec::new(), coming_soon: false },
            Chapter { id: "insert".into(), order: 1, text: Vec::new(), coming_soon: false },
            Chapter { id: "grammar".into(), order: 2, text: Vec::new(), coming_soon: false },
        ],
        lessons: vec![
            Lesson { id: "motion/hjkl".into(), chapter: "motion".into(), order: 0, text: Vec::new(), exercises: vec![exercise(), exercise()] },
            Lesson { id: "motion/w".into(), chapter: "motion".into(), order: 1, text: Vec::new(), exercises: vec![exercise()] },
            Lesson { id: "insert/i".into(), chapter: "insert".into(), order: 2, text: Vec::new(), exercises: vec![exercise()] },
        ],
    }
}

#[test]
fn best_stars_are_kept_per_exercise() {
    let journal = Journal {
        attempts: vec![
            attempt("2024-05-01T10:00:00+00:00", "motion/hjkl", 0, true, 1, "l"),
            attempt("2024-05-01T10:05:00+00:00", "motion/hjkl", 0, true, 3, "l"),
            attempt("2024-05-02T09:00:00+00:00", "motion/hjkl", 0, true, 2, "l"),
            attempt("2024-05-02T09:01:00+00:00", "motion/hjkl", 1, false, 0, "j"),
        ],
    };
    let p = Progress::from_journal(&journal);
    assert_eq!(p.stars("motion/hjkl", 0), 3);
    assert_eq!(p.stars("motion/hjkl", 1), 0);
    assert_eq!(p.stars("motion/w", 0), 0);
    assert_eq!(p.total_stars(), 3);
    assert_eq!(p.exercises_done(), 1);
    assert_eq!(p.lesson_stars(&curriculum(), "motion/hjkl"), (3, 6));
    assert_eq!(p.lesson_stars(&curriculum(), "nope"), (0, 0));
    assert!(!p.lesson_done(&curriculum(), "motion/hjkl"));
}

#[test]
fn chapters_unlock_one_after_another() {
    let cur = curriculum();
    let mut journal = Journal::default();
    let p = Progress::from_journal(&journal);
    assert!(p.chapter_unlocked(&cur, "motion"));
    assert!(!p.chapter_unlocked(&cur, "insert"));
    assert!(!p.chapter_unlocked(&cur, "nope"));
    journal.attempts.push(attempt("2024-05-01T10:00:00Z", "motion/hjkl", 0, true, 3, "l"));
    journal.attempts.push(attempt("2024-05-01T10:01:00Z", "motion/hjkl", 1, true, 2, "j"));
    let p = Progress::from_journal(&journal);
    assert!(p.lesson_done(&cur, "motion/hjkl"));
    assert!(!p.chapter_done(&cur, "motion"));
    assert!(!p.chapter_unlocked(&cur, "insert"));
    journal.attempts.push(attempt("2024-05-01T10:02:00Z", "motion/w", 0, true, 1, "w"));
    let p = Progress::from_journal(&journal);
    assert!(p.chapter_done(&cur, "motion"));
    assert!(p.chapter_unlocked(&cur, "insert"));
    assert!(!p.chapter_unlocked(&cur, "grammar"));
    assert!(!p.chapter_done(&cur, "grammar"));
    // a failure afterwards changes nothing
    journal.attempts.push(attempt("2024-05-01T10:03:00Z", "motion/w", 0, false, 0, "w"));
    let p = Progress::from_journal(&journal);
    assert!(p.chapter_unlocked(&cur, "insert"));
}

#[test]
fn problem_commands_are_ranked_by_failures() {
    let journal = Journal {
        attempts: vec![
            attempt("2024-05-01T10:00:00Z", "a", 0, false, 0, "dw"),
            attempt("2024-05-01T10:00:01Z", "a", 0, false, 0, "ciw"),
            attempt("2024-05-01T10:00:02Z", "a", 0, false, 0, "ciw"),
            attempt("2024-05-01T10:00:03Z", "a", 0, true, 3, "dw"),
            attempt("2024-05-01T10:00:04Z", "a", 0, false, 0, "ciw"),
            attempt("2024-05-01T10:00:05Z", "a", 0, false, 0, "x"),
            attempt("2024-05-01T10:00:06Z", "a", 0, false, 0, "x"),
        ],
    };
    let p = Progress::from_journal(&journal);
    assert_eq!(p.problem_commands(1), vec![("ciw".to_string(), 3)]);
    let top = p.problem_commands(10);
    assert_eq!(top.len(), 3);
    assert_eq!(top[0], ("ciw".to_string(), 3));
    assert_eq!(top[1], ("x".to_string(), 2));
    assert_eq!(top[2], ("dw".to_string(), 1));
    assert!(p.problem_commands(0).is_empty());
}

#[test]
fn days_are_listed_once_in_order() {
    let journal = Journal {
        attempts: vec![
            attempt("2024-05-03T10:00:00Z", "a", 0, true, 3, "x"),
            attempt("2024-05-01T10:00:00Z", "a", 0, true, 3, "x"),
            attempt("2024-05-03T11:00:00Z", "a", 0, true, 3, "x"),
            attempt("2024-05-02T10:00:00Z", "a", 0, true, 3, "x"),
        ],
    };
    let p = Progress::from_journal(&journal);
    assert_eq!(p.days_active(), &["2024-05-01".to_string(), "2024-05-02".to_string(), "2024-05-03".to_string()]);
}

#[test]
fn streak_counts_consecutive_days_up_to_the_latest() {
    let days = |ds: &[&str]| {
        let journal = Journal { attempts: ds.iter().map(|d| attempt(d, "a", 0, true, 3, "x")).collect() };
        Progress::from_journal(&journal).streak()
    };
    assert_eq!(days(&[]), 0);
    assert_eq!(days(&["2024-05-01T10:00:00Z"]), 1);
    assert_eq!(days(&["2024-05-01T10:00:00Z", "2024-05-02T10:00:00Z", "2024-05-03T10:00:00Z"]), 3);
    assert_eq!(days(&["2024-05-01T10:00:00Z", "2024-05-03T10:00:00Z"]), 1);
    assert_eq!(days(&["2024-02-28T10:00:00Z", "2024-02-29T10:00:00Z", "2024-03-01T10:00:00Z"]), 3);
    assert_eq!(days(&["2023-12-31T10:00:00Z", "2024-01-01T10:00:00Z"]), 2);
    assert_eq!(days(&["not a date", "2024-01-01T10:00:00Z"]), 1);
    assert_eq!(days(&["not a date"]), 0);
}

#[test]
fn empty_progress_has_nothing() {
    let p = Progress::default();
    assert_eq!(p.total_stars(), 0);
    assert_eq!(p.exercises_done(), 0);
    assert_eq!(p.streak(), 0);
    assert!(p.days_active().is_empty());
    assert!(p.problem_commands(5).is_empty());
}

#[test]
fn streak_of_day_numbers() {
    assert_eq!(streak_of_days(&[]), 0);
    assert_eq!(streak_of_days(&[3, 2, 1]), 3);
    assert_eq!(streak_of_days(&[1, 3, 2, 2]), 3);
    assert_eq!(streak_of_days(&[3, 1, 2, 2, 5]), 1);
    assert_eq!(streak_of_days(&[10, 8, 9, 5]), 3);
}
