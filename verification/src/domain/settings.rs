//! The app's settings. They live next to the progress journal and are
//! written as soon as they change; there is no "save" button.

use vstd::prelude::*;

verus! {

#[derive(Debug, Clone, Copy, PartialEq, Eq, Structural)]
pub enum Lang {
    Ru,
    En,
}

pub open spec fn lang_code(l: Lang) -> Seq<char> {
    match l {
        Lang::Ru => seq!['r', 'u'],
        Lang::En => seq!['e', 'n'],
    }
}

pub open spec fn lang_label(l: Lang) -> Seq<char> {
    match l {
        Lang::Ru => seq!['Р', 'у', 'с', 'с', 'к', 'и', 'й'],
        Lang::En => seq!['E', 'n', 'g', 'l', 'i', 's', 'h'],
    }
}

impl Lang {
    /// The language's code, as content files key their texts.
    pub fn code(&self) -> (r: &'static str)
        ensures
            r@ == lang_code(*self),
    {
        proof {
            reveal_strlit("ru");
            reveal_strlit("en");
        }
        match self {
            Lang::Ru => "ru",
            Lang::En => "en",
        }
    }

    /// The language's name, written in that language.
    pub fn label(&self) -> (r: &'static str)
        ensures
            r@ == lang_label(*self),
    {
        proof {
            reveal_strlit("Русский");
            reveal_strlit("English");
        }
        match self {
            Lang::Ru => "Русский",
            Lang::En => "English",
        }
    }
}

/// How the trainer decides that an exercise is solved.
#[derive(Debug, Clone, Copy, PartialEq, Eq, Structural)]
pub enum CheckMode {
    /// Solved when the result is reached; stars rate the keystroke count.
    /// The default.
    Mix,
    /// Solved only by typing one of the listed solutions exactly.
    Strict,
    /// Solved when the result is reached; the optimum is shown for reference.
    Free,
}

#[derive(Debug, Clone, Copy, PartialEq, Eq, Structural)]
pub enum Theme {
    Dark,
    Light,
}

#[derive(Debug, Clone, Copy, PartialEq, Eq, Structural)]
pub enum KeyboardVisibility {
    /// Shown while the skill grows, then hidden on its own.
    Auto,
    Always,
    Never,
}

#[derive(Debug, Clone, Copy, PartialEq, Eq, Structural)]
pub enum Experience {
    Newcomer,
    Dabbler,
    Confident,
}

#[derive(Debug, Clone, Copy, PartialEq, Eq, Structural)]
pub struct Settings {
    pub lang: Lang,
    pub check_mode: CheckMode,
    pub theme: Theme,
    pub keyboard: KeyboardVisibility,
    pub experience: Experience,
    pub onboarded: bool,
}

impl Default for Settings {
    /// Russian, mixed checking, dark theme, automatic keyboard, newcomer,
    /// not yet onboarded.
    fn default() -> (r: Self)
        ensures
            r == (Settings {
                lang: Lang::Ru,
                check_mode: CheckMode::Mix,
                theme: Theme::Dark,
                keyboard: KeyboardVisibility::Auto,
                experience: Experience::Newcomer,
                onboarded: false,
            }),
    {
        Settings {
            lang: Lang::Ru,
            check_mode: CheckMode::Mix,
            theme: Theme::Dark,
            keyboard: KeyboardVisibility::Auto,
            experience: Experience::Newcomer,
            onboarded: false,
        }
    }
}

} // verus!
