//! Semantic layer of a matrix keypad: key-state resolution against layout
//! tables, and an edge-triggered line editor over a fixed-capacity buffer.

pub mod keymap;
pub mod keypad;
pub mod traits;
