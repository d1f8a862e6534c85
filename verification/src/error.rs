//! The error taxonomy of the codec.

use vstd::prelude::*;

verus! {

/// A failure of a codec call: a bad token sequence (with the position
/// of the offending token), a value or shape mismatch, an emission or
/// semantic-decode failure, or nesting past the configured depth.
#[derive(Debug, Clone)]
pub enum NeonError {
    Syntax { message: String, line: usize, column: usize },
    Type { message: String },
    Encode { message: String },
    Decode { message: String },
    MaxDepth { depth: usize },
}

/// The mathematical image of a [`NeonError`].
pub enum ErrorModel {
    Syntax(Seq<char>, nat, nat),
    Type(Seq<char>),
    Encode(Seq<char>),
    Decode(Seq<char>),
    MaxDepth(nat),
}

impl View for NeonError {
    type V = ErrorModel;

    open spec fn view(&self) -> ErrorModel {
        match self {
            NeonError::Syntax { message, line, column } => ErrorModel::Syntax(
                message@,
                *line as nat,
                *column as nat,
            ),
            NeonError::Type { message } => ErrorModel::Type(message@),
            NeonError::Encode { message } => ErrorModel::Encode(message@),
            NeonError::Decode { message } => ErrorModel::Decode(message@),
            NeonError::MaxDepth { depth } => ErrorModel::MaxDepth(*depth as nat),
        }
    }
}

impl NeonError {
    /// A syntax error at the given source position.
    pub fn syntax(message: &str, line: usize, column: usize) -> (r: Self)
        ensures
            r@ == ErrorModel::Syntax(message@, line as nat, column as nat),
    {
        NeonError::Syntax { message: message.to_owned(), line, column }
    }

    /// A value or shape mismatch.
    pub fn type_error(message: &str) -> (r: Self)
        ensures
            r@ == ErrorModel::Type(message@),
    {
        NeonError::Type { message: message.to_owned() }
    }

    /// An emission failure.
    pub fn encode(message: &str) -> (r: Self)
        ensures
            r@ == ErrorModel::Encode(message@),
    {
        NeonError::Encode { message: message.to_owned() }
    }

    /// A semantic decode failure.
    pub fn decode(message: &str) -> (r: Self)
        ensures
            r@ == ErrorModel::Decode(message@),
    {
        NeonError::Decode { message: message.to_owned() }
    }
}

} // verus!
