# frog

The editing core of Frog, a small modal text editor, written in Verus.

- `src/` is the verified library: cursors and selections (`cursor`), UTF-8
  text helpers (`text`), the buffer of lines (`buffer`), the editing actions
  and their checks (`actions`), regular-expression matching (`pattern`), the
  console commands (`console`), the key-sequence state machine (`keymap`) and
  the properties proved of them together (`laws`).
- `app/` is the program around it: the web view, files, dialogs and assets.
- `tests/` runs the library on concrete buffers.
