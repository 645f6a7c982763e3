pub mod buffer;
pub mod grading;
pub mod journal;
pub mod keys;
pub mod progress;
pub mod settings;
pub mod text;
