use vstd::prelude::*;

verus! {

/// Why a translation was given up.
#[derive(Debug, Clone, Copy, PartialEq, Eq, Structural)]
pub enum TranslateError {
    /// The source ends inside a literal, or on a character that needs a
    /// successor to be read.
    MalformedInput,
    /// In strict mode: a name was read that no declaration or parameter bound.
    UnboundIdentifier,
}

impl TranslateError {
    /// What went wrong, in words.
    pub open spec fn message(self) -> Seq<char> {
        match self {
            TranslateError::MalformedInput => "malformed input: the source ends inside a token"@,
            TranslateError::UnboundIdentifier => "unbound identifier: a name is read before it is bound"@,
        }
    }

    /// What went wrong, in words.
    pub fn describe(&self) -> (text: String)
        ensures
            text@ == self.message(),
    {
        match self {
            TranslateError::MalformedInput => "malformed input: the source ends inside a token".to_owned(),
            TranslateError::UnboundIdentifier => "unbound identifier: a name is read before it is bound".to_owned(),
        }
    }
}

} // verus!
