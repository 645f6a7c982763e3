use cozyvim::domain::keys::Key;
use cozyvim::domain::settings::{CheckMode, Experience, KeyboardVisibility, Lang, Settings, Theme};
use cozyvim::ui::{Screen, finger_zone, special_label, stars_label};

#[test]
fn star_labels() {
    assert_eq!(stars_label(0), "☆☆☆");
    assert_eq!(stars_label(2), "★★☆");
    assert_eq!(stars_label(3), "★★★");
    assert_eq!(stars_label(5), "★★★★★");
}

#[test]
fn finger_zones_split_the_hands() {
    assert_eq!(finger_zone('a'), 0);
    assert_eq!(finger_zone('s'), 1);
    assert_eq!(finger_zone('d'), 2);
    assert_eq!(finger_zone('f'), 3);
    assert_eq!(finger_zone('j'), 4);
    assert_eq!(finger_zone('k'), 5);
    assert_eq!(finger_zone('l'), 6);
    assert_eq!(finger_zone(';'), 7);
    assert_eq!(finger_zone('Я'), 7);
}

#[test]
fn special_keys_have_keycap_labels() {
    assert_eq!(special_label(Some(Key::Esc)), Some("esc"));
    assert_eq!(special_label(Some(Key::Enter)), Some("⏎"));
    assert_eq!(special_label(Some(Key::Char(' '))), Some("␣"));
    assert_eq!(special_label(Some(Key::Char('x'))), None);
    assert_eq!(special_label(None), None);
}

#[test]
fn settings_defaults_and_languages() {
    let s = Settings::default();
    assert_eq!(s.lang, Lang::Ru);
    assert_eq!(s.check_mode, CheckMode::Mix);
    assert_eq!(s.theme, Theme::Dark);
    assert_eq!(s.keyboard, KeyboardVisibility::Auto);
    assert_eq!(s.experience, Experience::Newcomer);
    assert!(!s.onboarded);
    assert_eq!(Lang::Ru.code(), "ru");
    assert_eq!(Lang::En.code(), "en");
    assert_eq!(Lang::Ru.label(), "Русский");
    assert_eq!(Lang::En.label(), "English");
    assert_ne!(Screen::LessonMap, Screen::Stats);
}
