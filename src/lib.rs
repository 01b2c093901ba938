//! A typing-practice engine: a tracker that follows a reader typing a
//! chapter keystroke by keystroke, a style index over the chapter text, a
//! word-wrapped layout of that text, and a renderer that turns each keystroke
//! into the few terminal operations that bring the screen up to date.

pub mod position;
pub mod backend;
pub mod style;
pub mod chapter;
pub mod layout;
pub mod render;
pub mod display;
