//! Decoding and driving layer for a day-by-day pairing scheduler whose
//! search is carried out by an answer-set solver.
pub mod atom;
pub mod driver;
pub mod names;
pub mod numeral;
pub mod program;
pub mod schedule;
