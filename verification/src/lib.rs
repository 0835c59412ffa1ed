//! Two small line-oriented puzzle solvers with machine-checked contracts.
//!
//! * [`cards`] reads scratch-card lines of the form
//!   `Card <id>: <owned numbers> | <winning numbers>` and adds up the points
//!   of every card.
//! * [`digits`] forms a two-digit number from the first and the last decimal
//!   digit of every line and adds those numbers up.
//!
//! Both solvers are pure functions of their input text. Each comes as `run`,
//! which asks for a text that has a total, and as `checked_run`, which takes
//! any text and says why there is no total where there is none. What a line
//! of a text is, is defined once, in [`text`].

pub mod cards;
pub mod digits;
pub mod sums;
pub mod text;
