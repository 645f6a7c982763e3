use cozyvim::content::{Chapter, Curriculum, Exercise, Lesson};
use cozyvim::domain::grading::AttemptState;
use cozyvim::domain::journal::Journal;
use cozyvim::domain::keys::{Key, parse_keys};
use cozyvim::domain::progress::Progress;
use cozyvim::domain::settings::{CheckMode, Experience, KeyboardVisibility};
use cozyvim::session::{Press, Session, chapter_open, check_mode_for, expected_key, keyboard_hides, keyboard_visible};

fn d_motion() -> Exercise {
    Exercise {
        buffer: vec!["let foo = 1;".into()],
        cursor: [0, 4],
        goal: vec!["let = 1;".into()],
        goal_cursor: None,
        solutions: vec!["dw".into(), "daw".into()],
        text: Vec::new(),
    }
}

fn curriculum() -> Curriculum {
    Curriculum {
        chapters: vec![
            Chapter { id: "motion".into(), order: 0, text: Vec::new(), coming_soon: false },
            Chapter { id: "grammar".into(), order: 1, text: Vec::new(), coming_soon: false },
        ],
        lessons: vec![Lesson {
            id: "grammar/d-motion".into(),
            chapter: "grammar".into(),
            order: 0,
            text: Vec::new(),
            exercises: vec![d_motion()],
        }],
    }
}

fn play(session: &mut Session, keys: &str, mode: CheckMode) -> Vec<Press> {
    let ex = d_motion();
    parse_keys(keys).into_iter().map(|k| session.press(k, &ex, mode)).collect()
}

#[test]
fn optimal_solution_earns_three_stars_and_is_logged() {
    let mut s = Session::new(&curriculum(), "grammar/d-motion", 0).expect("the session opens");
    let presses = play(&mut s, "dw", CheckMode::Mix);
    assert_eq!(presses[1], Press::Counted { touched: true, finished: true });
    assert_eq!(s.state, AttemptState::Success { stars: 3 });
    assert!(s.logged);
    assert_eq!(play(&mut s, "x", CheckMode::Mix), vec![Press::Closed]);
    let a = s.attempt(&d_motion(), CheckMode::Mix, "2024-05-01T10:00:00Z".into(), 1500);
    assert!(a.success);
    assert_eq!(a.stars, 3);
    assert_eq!(a.keystrokes, "dw");
    assert_eq!(a.keystroke_count, 2);
    assert_eq!(a.optimal, 2);
    assert_eq!(a.canonical, "dw");
    let mut journal = Journal::default();
    journal.attempts.push(a);
    assert_eq!(Progress::from_journal(&journal).stars("grammar/d-motion", 0), 3);
}

#[test]
fn clumsy_path_still_passes_but_earns_fewer_stars() {
    let mut s = Session::new(&curriculum(), "grammar/d-motion", 0).unwrap();
    play(&mut s, "xxxx", CheckMode::Mix);
    assert_eq!(s.state, AttemptState::Success { stars: 1 });
}

#[test]
fn strict_mode_reports_the_taught_solution() {
    let mut s = Session::new(&curriculum(), "grammar/d-motion", 0).unwrap();
    play(&mut s, "dj", CheckMode::Strict);
    assert_eq!(s.state, AttemptState::Failed { expected: "dw".to_string() });
    let a = s.attempt(&d_motion(), CheckMode::Strict, "2024-05-01T10:00:00Z".into(), 10);
    assert!(!a.success);
    let mut journal = Journal::default();
    journal.attempts.push(a);
    assert_eq!(Progress::from_journal(&journal).problem_commands(1)[0].0, "dw");
}

#[test]
fn unsupported_command_raises_a_notice_and_is_not_counted() {
    let mut s = Session::new(&curriculum(), "grammar/d-motion", 0).unwrap();
    let presses = play(&mut s, ":", CheckMode::Mix);
    assert_eq!(presses, vec![Press::Unsupported("cmdline".to_string())]);
    assert!(s.pressed.is_empty());
    assert_eq!(s.last_key, Some(Key::Char(':')));
}

#[test]
fn sessions_open_only_on_existing_exercises_and_reset() {
    assert!(Session::new(&curriculum(), "grammar/d-motion", 1).is_none());
    assert!(Session::new(&curriculum(), "nope", 0).is_none());
    let mut s = Session::new(&curriculum(), "grammar/d-motion", 0).unwrap();
    assert!(s.engine.is_well_formed());
    s.toggle_hint();
    play(&mut s, "x", CheckMode::Mix);
    s.reset(&curriculum());
    assert!(s.pressed.is_empty());
    assert!(s.hint_shown);
    assert_eq!(s.engine.buf.to_lines(), vec!["let foo = 1;".to_string()]);
    assert_eq!(s.engine.buf.cursor, (0, 4));
}

#[test]
fn the_hint_names_the_next_key_when_solutions_agree() {
    let mut s = Session::new(&curriculum(), "grammar/d-motion", 0).unwrap();
    assert_eq!(expected_key(&s, &d_motion(), CheckMode::Mix), None);
    assert_eq!(expected_key(&s, &d_motion(), CheckMode::Strict), Some(Key::Char('d')));
    s.toggle_hint();
    assert_eq!(expected_key(&s, &d_motion(), CheckMode::Mix), Some(Key::Char('d')));
    play(&mut s, "d", CheckMode::Mix);
    // "dw" and "daw" part ways here
    assert_eq!(expected_key(&s, &d_motion(), CheckMode::Mix), None);
    play(&mut s, "a", CheckMode::Mix);
    assert_eq!(expected_key(&s, &d_motion(), CheckMode::Mix), Some(Key::Char('w')));
}

#[test]
fn keyboard_and_chapter_rules() {
    assert!(keyboard_visible(KeyboardVisibility::Always, false, true));
    assert!(!keyboard_visible(KeyboardVisibility::Never, true, false));
    assert!(keyboard_visible(KeyboardVisibility::Auto, true, false));
    assert!(!keyboard_visible(KeyboardVisibility::Auto, true, true));
    assert!(keyboard_hides(KeyboardVisibility::Auto, 20));
    assert!(!keyboard_hides(KeyboardVisibility::Auto, 19));
    assert!(!keyboard_hides(KeyboardVisibility::Always, 99));
    let p = Progress::default();
    assert!(chapter_open(&p, &curriculum(), Experience::Newcomer, "motion"));
    assert!(!chapter_open(&p, &curriculum(), Experience::Newcomer, "grammar"));
    assert!(chapter_open(&p, &curriculum(), Experience::Confident, "grammar"));
    assert_eq!(check_mode_for(Experience::Confident), CheckMode::Strict);
    assert_eq!(check_mode_for(Experience::Dabbler), CheckMode::Mix);
}

fn small_course() -> Curriculum {
    let ex = |buffer: &str, cursor: [usize; 2], goal: &str, solution: &str| Exercise {
        buffer: vec![buffer.into()],
        cursor,
        goal: vec![goal.into()],
        goal_cursor: None,
        solutions: vec![solution.into()],
        text: Vec::new(),
    };
    let chapter = |id: &str, order: usize| Chapter { id: id.into(), order, text: Vec::new(), coming_soon: false };
    Curriculum::from_parts(
        vec![chapter("motion", 0), chapter("insert", 1), chapter("grammar", 2)],
        vec![
            Lesson {
                id: "motion/x".into(),
                chapter: "motion".into(),
                order: 0,
                text: Vec::new(),
                exercises: vec![ex("abc", [0, 0], "bc", "x"), ex("abc", [0, 2], "ab", "x")],
            },
            Lesson {
                id: "motion/dw".into(),
                chapter: "motion".into(),
                order: 1,
                text: Vec::new(),
                exercises: vec![ex("one two", [0, 0], "two", "dw")],
            },
            Lesson {
                id: "insert/i".into(),
                chapter: "insert".into(),
                order: 0,
                text: Vec::new(),
                exercises: vec![ex("b", [0, 0], "ab", "ia<Esc>")],
            },
        ],
    )
}

#[test]
fn chapters_unlock_in_order() {
    let cur = small_course();
    let mut journal = Journal::default();
    let open = |journal: &Journal, chapter: &str| {
        chapter_open(&Progress::from_journal(journal), &cur, Experience::Newcomer, chapter)
    };
    assert!(open(&journal, "motion"));
    assert!(!open(&journal, "insert"));

    // every exercise of the first chapter, by its taught solution
    let lessons: Vec<String> = cur.lessons_of("motion").iter().map(|l| l.id.clone()).collect();
    for id in lessons {
        let count = cur.lesson(&id).unwrap().exercises.len();
        for index in 0..count {
            let ex = &cur.lesson(&id).unwrap().exercises[index];
            let mut s = Session::new(&cur, &id, index).unwrap();
            let mut finished = false;
            for k in parse_keys(ex.canonical()) {
                if let Press::Counted { finished: true, .. } = s.press(k, ex, CheckMode::Mix) {
                    finished = true;
                }
            }
            assert!(matches!(s.state, AttemptState::Success { .. }), "{id} #{index}");
            assert!(finished);
            journal.attempts.push(s.attempt(ex, CheckMode::Mix, "2024-05-01T10:00:00Z".into(), 100));
        }
    }
    assert!(open(&journal, "insert"));
    assert!(!open(&journal, "grammar"));
}
