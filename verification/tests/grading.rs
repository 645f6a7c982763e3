use cozyvim::content::Exercise;
use cozyvim::domain::grading::{AttemptState, evaluate, pressed_notation, stars_for};
use cozyvim::domain::keys::parse_keys;
use cozyvim::domain::settings::CheckMode;

fn exercise() -> Exercise {
    Exercise {
        buffer: vec!["let foo = 1;".into()],
        cursor: [0, 4],
        goal: vec!["let  = 1;".into()],
        goal_cursor: None,
        solutions: vec!["dw".into(), "daw".into()],
        text: Vec::new(),
    }
}

#[test]
fn strict_accepts_any_listed_solution() {
    let ex = exercise();
    for s in ["dw", "daw"] {
        assert_eq!(
            evaluate(CheckMode::Strict, &parse_keys(s), &ex, &[], (0, 0), true),
            AttemptState::Success { stars: 3 }
        );
    }
}

#[test]
fn strict_fails_on_divergence() {
    let ex = exercise();
    assert!(matches!(
        evaluate(CheckMode::Strict, &parse_keys("dj"), &ex, &[], (0, 0), true),
        AttemptState::Failed { .. }
    ));
    assert_eq!(
        evaluate(CheckMode::Strict, &parse_keys("d"), &ex, &[], (0, 0), true),
        AttemptState::InProgress
    );
}

#[test]
fn mix_counts_stars_by_efficiency() {
    let ex = exercise();
    let goal: Vec<String> = ex.goal.clone();
    assert_eq!(
        evaluate(CheckMode::Mix, &parse_keys("dw"), &ex, &goal, (0, 0), true),
        AttemptState::Success { stars: 3 }
    );
    assert_eq!(
        evaluate(CheckMode::Mix, &parse_keys("xxx"), &ex, &goal, (0, 0), true),
        AttemptState::Success { stars: 2 }
    );
    assert_eq!(
        evaluate(CheckMode::Mix, &parse_keys("xxxxxxx"), &ex, &goal, (0, 0), true),
        AttemptState::Success { stars: 1 }
    );
}

#[test]
fn insert_mode_does_not_count_as_finished() {
    let ex = exercise();
    let goal: Vec<String> = ex.goal.clone();
    assert_eq!(
        evaluate(CheckMode::Mix, &parse_keys("dw"), &ex, &goal, (0, 0), false),
        AttemptState::InProgress
    );
}

#[test]
fn stars_follow_the_one_and_a_half_rule() {
    assert_eq!(stars_for(2, 2), 3);
    assert_eq!(stars_for(1, 2), 3);
    assert_eq!(stars_for(3, 2), 2);
    assert_eq!(stars_for(4, 2), 1);
    assert_eq!(stars_for(6, 4), 2);
    assert_eq!(stars_for(7, 4), 1);
    assert_eq!(stars_for(1, 0), 1);
}

#[test]
fn more_keystrokes_never_earn_more_stars() {
    for optimal in 0..12usize {
        for k in 0..40usize {
            assert!(stars_for(k, optimal) >= stars_for(k + 1, optimal));
            let s = stars_for(k, optimal);
            assert!((1..=3).contains(&s));
        }
    }
}

#[test]
fn strict_failure_names_the_taught_solution() {
    let mut ex = exercise();
    ex.solutions = vec!["daw".into(), "dw".into()];
    assert_eq!(
        evaluate(CheckMode::Strict, &parse_keys("x"), &ex, &[], (0, 0), true),
        AttemptState::Failed { expected: "daw".to_string() }
    );
}

#[test]
fn free_mode_always_gives_three_stars_and_goal_cursor_counts() {
    let mut ex = exercise();
    let goal: Vec<String> = ex.goal.clone();
    assert_eq!(
        evaluate(CheckMode::Free, &parse_keys("xxxxxxx"), &ex, &goal, (0, 0), true),
        AttemptState::Success { stars: 3 }
    );
    ex.goal_cursor = Some([0, 4]);
    assert_eq!(
        evaluate(CheckMode::Mix, &parse_keys("dw"), &ex, &goal, (0, 3), true),
        AttemptState::InProgress
    );
    assert_eq!(
        evaluate(CheckMode::Mix, &parse_keys("dw"), &ex, &goal, (0, 4), true),
        AttemptState::Success { stars: 3 }
    );
}

#[test]
fn pressed_keys_print_in_notation() {
    assert_eq!(pressed_notation(&parse_keys("ciwfoo<Esc>")), "ciwfoo<Esc>");
}
