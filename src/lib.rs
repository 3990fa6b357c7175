//! Resolution of firmware keymaps into display labels, using a merged table
//! of keycode definitions.

pub mod text;
pub mod keycodes;
pub mod keymap;
