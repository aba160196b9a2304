//! Exact rational pitch selection by descent through the Stern-Brocot tree,
//! and the symbol-driven state machine that turns keystrokes into chords.

pub mod fraction;
pub mod interpreter;
