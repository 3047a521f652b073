//! Multi-pattern substring search over Unicode text, backed by a charwise
//! double-array Aho-Corasick automaton.
//!
//! Patterns are searched for character by character; every match is reported
//! as a half-open range of character (codepoint) positions together with the
//! value that was attached to the pattern.

pub mod model;
pub mod offsets;
pub mod kinds;
pub mod daac;
pub mod automaton;
pub mod laws;
pub mod text;
