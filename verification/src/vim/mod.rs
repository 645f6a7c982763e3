pub mod engine;
pub mod grammar;
pub mod motion;
