//! Countdown letters game solver.
//!
//! A word list is held as a prefix tree (`dictionary`), built from the
//! lines of a list (`builder`) or from the bytes of a file (`wordfile`).
//! The search (`solver`) walks the tree while it permutes the letters of a
//! bag, so that a start of a word that the tree does not hold is given up
//! at once. What it finds is put in order for display (`results`).

pub mod builder;
pub mod dictionary;
pub mod letters;
pub mod results;
pub mod solver;
pub mod wordfile;
