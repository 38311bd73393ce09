//! The single failure taxonomy for vocabulary lookups.

use vstd::prelude::*;
use vstd::string::StringExecFns;

verus! {

/// A vocabulary lookup failure: a symbol missing from the vocabulary during
/// encoding, or an id missing from the inverse mapping during decoding.
/// The payload is a human-readable message naming the missing item.
#[derive(Debug)]
pub enum TokenizerError {
    VocabError(String),
}

/// The full message of an error, with its category prefix.
pub open spec fn error_message_view(e: TokenizerError) -> Seq<char> {
    match e {
        TokenizerError::VocabError(m) => "Vocabulary error: "@ + m@,
    }
}

impl TokenizerError {
    /// The carried message, prefixed with the error's category.
    pub fn message(&self) -> (r: String)
        ensures
            r@ == error_message_view(*self),
    {
        match self {
            TokenizerError::VocabError(m) => String::from_str("Vocabulary error: ").concat(
                m.as_str(),
            ),
        }
    }
}

} // verus!
