//! cozyvim: a cosy trainer for vim keystrokes, with a verified modal
//! editing engine, keystroke notation, grading and progress tracking.

pub mod content;
pub mod domain;
pub mod session;
pub mod ui;
pub mod vim;
