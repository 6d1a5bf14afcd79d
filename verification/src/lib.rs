//! Text-editing core of a modal editor: a buffer of lines with cursors,
//! the editing actions that keys trigger, the console commands and the
//! key-sequence state machine.
pub mod cursor;
pub mod text;
pub mod buffer;
pub mod actions;
pub mod pattern;
pub mod console;
pub mod keymap;
pub mod laws;
