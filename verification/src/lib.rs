//! Solving monoalphabetic substitution puzzles by word-shape lookup and
//! candidate-set narrowing.
//!
//! A puzzle is solved against a [`dictionary::Dictionary`] that lists the
//! words of a word list by their [signature](parsing::signature_of), the
//! pattern in which a word repeats its letters. The solver keeps a
//! [`key::PotentialKey`], the letters that each ciphertext letter may
//! still stand for, and narrows it word by word until nothing changes.

pub mod alphabet;
pub mod dictionary;
pub mod error;
pub mod key;
pub mod narrowing;
pub mod parsing;
pub mod ranking;
pub mod sequences;
pub mod solver;
pub mod text;
pub mod wordlist;
