//! The event journal: one record per attempt. It only ever grows: charts
//! and statistics are computed from the raw events, so new metrics need no
//! migration. Reading and writing the file is the app's job.

use vstd::prelude::*;

use crate::domain::settings::CheckMode;

verus! {

#[derive(Debug)]
pub struct Attempt {
    /// When the attempt was made, in RFC 3339.
    pub ts: String,
    pub lesson_id: String,
    pub exercise_index: usize,
    pub mode: CheckMode,
    /// The keys typed, in vim notation: they cannot be recovered later.
    pub keystrokes: String,
    pub keystroke_count: usize,
    pub optimal: usize,
    pub success: bool,
    pub stars: u8,
    pub elapsed_ms: u64,
    /// The reference solution, so that "problem commands" know which
    /// command was meant even if the lesson changes later.
    pub canonical: String,
}

impl Clone for Attempt {
    fn clone(&self) -> (r: Self)
        ensures
            r == *self,
    {
        Attempt {
            ts: self.ts.clone(),
            lesson_id: self.lesson_id.clone(),
            exercise_index: self.exercise_index,
            mode: self.mode,
            keystrokes: self.keystrokes.clone(),
            keystroke_count: self.keystroke_count,
            optimal: self.optimal,
            success: self.success,
            stars: self.stars,
            elapsed_ms: self.elapsed_ms,
            canonical: self.canonical.clone(),
        }
    }
}

#[derive(Debug)]
pub struct Journal {
    pub attempts: Vec<Attempt>,
}

impl Default for Journal {
    /// An empty journal.
    fn default() -> (r: Self)
        ensures
            r.attempts@.len() == 0,
    {
        Journal { attempts: Vec::new() }
    }
}

} // verus!
