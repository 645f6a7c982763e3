use cozyvim::content::{Chapter, Curriculum, Exercise, Lesson, LocalizedText};
use cozyvim::domain::keys::Key;

fn text(title: &str) -> LocalizedText {
    let mut t = LocalizedText::empty();
    t.title = title.to_string();
    t
}

fn exercise(solutions: &[&str]) -> Exercise {
    Exercise {
        buffer: vec!["abc".into()],
        cursor: [0, 0],
        goal: vec!["bc".into()],
        goal_cursor: None,
        solutions: solutions.iter().map(|s| s.to_string()).collect(),
        text: vec![("ru".to_string(), text("задание")), ("en".to_string(), text("task"))],
    }
}

fn lesson(id: &str, chapter: &str) -> Lesson {
    Lesson { id: id.into(), chapter: chapter.into(), order: 0, text: Vec::new(), exercises: vec![exercise(&["x"])] }
}

#[test]
fn shortest_solution_is_canonical_and_first_is_taught() {
    let ex = exercise(&["dl", "x", "y"]);
    assert_eq!(ex.taught(), "dl");
    assert_eq!(ex.canonical(), "x");
    assert_eq!(ex.optimal_keystrokes(), 1);
    assert_eq!(ex.solution_keys(), vec![vec![Key::Char('d'), Key::Char('l')], vec![Key::Char('x')], vec![Key::Char('y')]]);
    let none = exercise(&[]);
    assert_eq!(none.taught(), "");
    assert_eq!(none.canonical(), "");
    assert_eq!(none.optimal_keystrokes(), 1);
}

#[test]
fn canonical_counts_keys_not_characters() {
    let ex = exercise(&["<Esc>x", "dd"]);
    assert_eq!(ex.canonical(), "<Esc>x");
    assert_eq!(ex.optimal_keystrokes(), 2);
}

#[test]
fn texts_fall_back_to_english_then_russian() {
    let ex = exercise(&["x"]);
    assert_eq!(ex.text("en").title, "task");
    assert_eq!(ex.text("ru").title, "задание");
    assert_eq!(ex.text("de").title, "task");
    let mut only_ru = exercise(&["x"]);
    only_ru.text = vec![("ru".to_string(), text("задание"))];
    assert_eq!(only_ru.text("de").title, "задание");
    let chapter = Chapter { id: "c".into(), order: 0, text: Vec::new(), coming_soon: false };
    assert_eq!(chapter.text("en").title, "");
}

#[test]
fn curriculum_finds_lessons_and_chapters() {
    let cur = Curriculum {
        chapters: vec![
            Chapter { id: "motion".into(), order: 0, text: Vec::new(), coming_soon: false },
            Chapter { id: "insert".into(), order: 1, text: Vec::new(), coming_soon: false },
        ],
        lessons: vec![lesson("motion/a", "motion"), lesson("insert/a", "insert"), lesson("motion/b", "motion")],
    };
    let ids: Vec<String> = cur.lessons_of("motion").iter().map(|l| l.id.clone()).collect();
    assert_eq!(ids, vec!["motion/a".to_string(), "motion/b".to_string()]);
    assert!(cur.lessons_of("nothing").is_empty());
    assert_eq!(cur.lesson("insert/a").map(|l| l.chapter.clone()), Some("insert".to_string()));
    assert!(cur.lesson("insert/z").is_none());
    assert_eq!(cur.chapter("insert").map(|c| c.order), Some(1));
    assert!(cur.chapter("zzz").is_none());
    let l = cur.lesson("motion/b").unwrap();
    assert_eq!(l.text("ru").title, "");
}

#[test]
fn curriculum_orders_chapters_and_lessons_stably() {
    let ch = |id: &str, order: usize| Chapter { id: id.into(), order, text: Vec::new(), coming_soon: false };
    let le = |id: &str, order: usize| Lesson { id: id.into(), chapter: "c".into(), order, text: Vec::new(), exercises: Vec::new() };
    let cur = Curriculum::from_parts(
        vec![ch("b", 2), ch("a", 1), ch("c", 1), ch("z", 0)],
        vec![le("m/b", 1), le("m/a", 1), le("x", 0), le("m/a", 0), le("a", 2)],
    );
    let chapters: Vec<String> = cur.chapters.iter().map(|c| c.id.clone()).collect();
    assert_eq!(chapters, vec!["z", "a", "c", "b"]);
    let lessons: Vec<(usize, String)> = cur.lessons.iter().map(|l| (l.order, l.id.clone())).collect();
    assert_eq!(
        lessons,
        vec![(0, "m/a".to_string()), (0, "x".to_string()), (1, "m/a".to_string()), (1, "m/b".to_string()), (2, "a".to_string())]
    );
}
