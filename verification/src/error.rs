//! The ways in which an operation of this library can fail.

use vstd::prelude::*;

verus! {

/// Why an operation could not produce a result.
#[derive(Debug, Clone, Copy, PartialEq, Eq, Structural)]
pub enum CipherError {
    /// The input is not what the operation takes: a word without a
    /// signature (one that is empty, holds a character that is no ASCII
    /// letter, or has more than 27 letters), or a word list with a line
    /// that does not hold a word and two numbers.
    UnsupportedInput,
    /// A fixed key was not written as exactly 26 ASCII letters.
    InvalidKey,
    /// A ciphertext letter has no candidate left.
    NoSolution,
    /// A candidate word and a cipherword have different lengths.
    LengthMismatch,
}

/// What an error says in words.
pub open spec fn message_of(e: CipherError) -> Seq<char> {
    match e {
        CipherError::UnsupportedInput => "The input is not of the form that this operation takes."@,
        CipherError::InvalidKey => "A key is written as exactly 26 letters."@,
        CipherError::NoSolution => "Key contains no solutions for this character."@,
        CipherError::LengthMismatch => "The two words differ in length."@,
    }
}

impl CipherError {
    /// A sentence that says what went wrong.
    pub fn message(&self) -> (r: &'static str)
        ensures
            r@ == message_of(*self),
    {
        match self {
            CipherError::UnsupportedInput => {
                "The input is not of the form that this operation takes."
            },
            CipherError::InvalidKey => "A key is written as exactly 26 letters.",
            CipherError::NoSolution => "Key contains no solutions for this character.",
            CipherError::LengthMismatch => "The two words differ in length.",
        }
    }
}

} // verus!
