//! The ways in which a document can fail to parse.

use vstd::prelude::*;
use vstd::string::*;

verus! {

/// Why a document was rejected.
#[derive(Debug, Clone, Copy, PartialEq, Eq, Structural)]
pub enum ParseError {
    /// A workflow-keyword directive line has no `:` separator.
    MalformedInput,
    /// A heading line has nothing after its marker run and whitespace.
    MissingTitle,
}

impl ParseError {
    /// The sentence that says what is wrong.
    pub open spec fn sentence(self) -> Seq<char> {
        match self {
            ParseError::MalformedInput => "a keyword directive has no `:` before its keywords"@,
            ParseError::MissingTitle => "a heading has no title"@,
        }
    }

    /// Says in a sentence what is wrong with the document.
    pub fn message(&self) -> (text: String)
        ensures
            text@ == self.sentence(),
    {
        match self {
            ParseError::MalformedInput => String::from_str(
                "a keyword directive has no `:` before its keywords",
            ),
            ParseError::MissingTitle => String::from_str("a heading has no title"),
        }
    }
}

} // verus!
