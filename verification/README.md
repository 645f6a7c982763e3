# cozyvim

A cosy vim trainer. Lessons give a buffer, a goal and the keystrokes that
solve it; the learner types, a small modal vim engine runs the keys, and the
attempt is graded by how close it came to the shortest solution.

The library under `src/` is verified with Verus:

- `domain/` — the buffer, keys and their notation, grading, the attempt
  journal, progress (stars, unlocked chapters, streaks) and settings.
- `vim/` — the engine: the command grammar (`grammar.rs`), motions and text
  objects (`motion.rs`), and the interpreter (`engine.rs`), whose `feed`
  states what every keystroke does to the engine's model, including undo,
  redo and `.`.
- `content.rs` — lessons, chapters and the curriculum order.
- `session.rs` — one exercise in progress: key presses, grading, hints,
  the on-screen keyboard and chapter locks.
- `ui.rs` — the screen enum, star labels and keyboard labels.

Laws that span several calls are public proof functions next to the code
they speak of: undo, redo and `.` (`law_undo_restores`,
`law_undo_restores_typed_change`, `law_dot_repeats_last_change`), the
cursor staying on a character, selections, refused keys (all in
`vim/engine.rs`), what word motions find (`vim/motion.rs`), and progress
that only grows and does not depend on the journal's order
(`domain/progress.rs`).

`app/` is the egui application around the library: files, clock, fonts,
translations and drawing. `tests/` runs the library on concrete inputs.
