//! The engine's error type: a lexer rejection with the offending character
//! and its position, or a structural error carrying a message.

use vstd::prelude::*;
use vstd::string::*;

verus! {

pub type Result<T> = core::result::Result<T, Error>;

#[derive(Debug, Clone, PartialEq)]
pub enum Error {
    InvalidChar(char, usize),
    CustomError(String),
}

impl Error {
    /// A human-readable rendering of the error.
    pub fn describe(&self) -> String {
        match self {
            Error::CustomError(m) => m.clone(),
            Error::InvalidChar(_, _) => String::from_str("Invalid Char"),
        }
    }
}

} // verus!
