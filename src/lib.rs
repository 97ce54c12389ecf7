//! Decoding of MIME header values that hold encoded words as described in
//! RFC 2047.
//!
//! A header value is split into clear text and encoded words by [`lexer`],
//! each encoded word is given its transfer encoding and character set by
//! [`parser`], and [`evaluator`] turns every unit into text. [`Decoder`] runs
//! the three stages and owns the one setting, the handling of encoded words
//! that are longer than the RFC allows.
use vstd::prelude::*;

pub mod bindings;
pub mod decoder;
pub mod evaluator;
pub mod lexer;
pub mod parser;

pub use decoder::{Decoder, Error, RecoverStrategy};
pub use evaluator::Error as EvaluatorError;
pub use lexer::{Error as LexerError, TooLongEncodedWords};
pub use parser::Error as ParserError;

verus! {

/// Decodes the given RFC 2047 MIME message header value with the default
/// decoder; equals `Decoder::new().decode(encoded_str)`.
pub fn decode(encoded_str: &[u8]) -> (r: Result<String, Error>)
    ensures
        decoder::outcome(r) == decoder::decoded(encoded_str@, RecoverStrategy::Abort),
{
    Decoder::new().decode(encoded_str)
}

} // verus!
