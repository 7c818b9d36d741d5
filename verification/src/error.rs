//! The errors of parsing and compiling.
use vstd::prelude::*;
use vstd::string::StringExecFns;
use crate::text::{decimal, push_decimal, push_str};

verus! {

/// What went wrong, and where.
#[derive(Debug, Clone, PartialEq)]
pub enum Error {
    /// A parse error, with its line and message.
    ParseError(usize, String),
    /// A compile error, with its line, the file, and the message.
    CompileError(usize, String, String),
    /// A construct that the code generator does not handle.
    NotImplemented(String),
}

/// The mathematical value of an `Error`.
pub enum SpecError {
    ParseError(nat, Seq<char>),
    CompileError(nat, Seq<char>, Seq<char>),
    NotImplemented(Seq<char>),
}

impl View for Error {
    type V = SpecError;

    open spec fn view(&self) -> SpecError {
        match self {
            Error::ParseError(line, msg) => SpecError::ParseError(*line as nat, msg@),
            Error::CompileError(line, file, msg) => SpecError::CompileError(*line as nat, file@, msg@),
            Error::NotImplemented(feature) => SpecError::NotImplemented(feature@),
        }
    }
}

/// The text an error is reported with.
pub open spec fn error_text(e: SpecError) -> Seq<char> {
    match e {
        SpecError::ParseError(line, msg) => "Parse error at line "@ + decimal(line) + ": "@ + msg,
        SpecError::CompileError(line, file, msg) =>
            "Compile error at line "@ + decimal(line) + " of "@ + file + ": "@ + msg,
        SpecError::NotImplemented(feature) => feature + " Not Implemented"@,
    }
}

impl Error {
    /// The text the error is reported with (see `error_text`).
    pub fn to_string(&self) -> (text: String)
        ensures
            text@ == error_text(self@),
    {
        match self {
            Error::ParseError(line, msg) => {
                let mut s = String::from_str("Parse error at line ");
                push_decimal(&mut s, *line as u64);
                push_str(&mut s, ": ");
                push_str(&mut s, msg.as_str());
                s
            },
            Error::CompileError(line, file, msg) => {
                let mut s = String::from_str("Compile error at line ");
                push_decimal(&mut s, *line as u64);
                push_str(&mut s, " of ");
                push_str(&mut s, file.as_str());
                push_str(&mut s, ": ");
                push_str(&mut s, msg.as_str());
                s
            },
            Error::NotImplemented(feature) => {
                let mut s = String::from_str(feature.as_str());
                push_str(&mut s, " Not Implemented");
                s
            },
        }
    }
}

}
