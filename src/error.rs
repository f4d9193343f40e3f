use vstd::prelude::*;

use crate::stream::GraphemeLocation;

verus! {

/// An error raised while lexing.
#[derive(Debug, Clone, PartialEq, Eq)]
pub enum LexError {
    /// A tokenizer needed more graphemes, but the input ended.
    UnexpectedEndOfStream,
    /// The input held a byte sequence that is not UTF-8; `index` is the number
    /// of graphemes read before it.
    InvalidBytes { bytes: Vec<u8>, index: usize },
    /// No tokenizer accepted the grapheme at `index`.
    NoTokenizer { grapheme: String, location: GraphemeLocation },
    /// Any other failure, described in words.
    Other(String),
}

impl LexError {
    /// Wraps a description of a failure.
    pub fn other(message: String) -> (r: LexError)
        ensures
            r == LexError::Other(message),
    {
        LexError::Other(message)
    }
}

} // verus!
