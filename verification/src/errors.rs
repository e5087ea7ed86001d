//! The error type shared by validation, supervision, and probing.
use vstd::prelude::*;
use vstd::string::StringExecFns;

verus! {

/// Why an operation was refused or failed. Each variant carries a
/// human-readable detail string.
#[derive(Debug)]
pub enum AppError {
    IoError(String),
    ProcessError(String),
    CommandError(String),
    ParseError(String),
    NotFound(String),
    Utf8Error(String),
}

impl AppError {
    /// The rendered form of the error: a variant label, then the detail.
    pub open spec fn message_spec(self) -> Seq<char> {
        match self {
            AppError::IoError(m) => "IO error: "@ + m@,
            AppError::ProcessError(m) => "Process error: "@ + m@,
            AppError::CommandError(m) => "Command error: "@ + m@,
            AppError::ParseError(m) => "Parse error: "@ + m@,
            AppError::NotFound(m) => "Not found: "@ + m@,
            AppError::Utf8Error(m) => "UTF-8 error: "@ + m@,
        }
    }

    /// Renders the error as a single line of text.
    pub fn message(&self) -> (r: String)
        ensures
            r@ == self.message_spec(),
    {
        match self {
            AppError::IoError(m) => {
                let mut s = String::from_str("IO error: ");
                s.append(m.as_str());
                s
            },
            AppError::ProcessError(m) => {
                let mut s = String::from_str("Process error: ");
                s.append(m.as_str());
                s
            },
            AppError::CommandError(m) => {
                let mut s = String::from_str("Command error: ");
                s.append(m.as_str());
                s
            },
            AppError::ParseError(m) => {
                let mut s = String::from_str("Parse error: ");
                s.append(m.as_str());
                s
            },
            AppError::NotFound(m) => {
                let mut s = String::from_str("Not found: ");
                s.append(m.as_str());
                s
            },
            AppError::Utf8Error(m) => {
                let mut s = String::from_str("UTF-8 error: ");
                s.append(m.as_str());
                s
            },
        }
    }
}

} // verus!
