//! The unified error type for reading COSY text.
use vstd::prelude::*;
use crate::syntax::lexer::LexError;
use crate::syntax::parser::ParseError;
use crate::text::{nat_text, push_usize};

verus! {

/// Unified error type for COSY parsing and loading.
#[derive(Debug, Clone, PartialEq)]
pub enum CosynError {
    /// A lexical error (tokenization failed).
    Lex(LexError),
    /// A parsing error (tokens could not be turned into a value).
    Parse(ParseError),
    /// An I/O error (for example a failed read).
    Io(String),
    /// An error during include resolution.
    Include(String),
}

/// "`prefix` at line L, column C: `message`".
pub open spec fn located_text(prefix: Seq<char>, line: nat, column: nat, message: Seq<char>) -> Seq<char> {
    prefix + " at line "@ + nat_text(line) + ", column "@ + nat_text(column) + ": "@ + message
}

/// The text shown for an error.
pub open spec fn error_text(e: CosynError) -> Seq<char> {
    match e {
        CosynError::Lex(l) => located_text("Lex error"@, l.line as nat, l.column as nat, l.message@),
        CosynError::Parse(p) => located_text(
            "Parse error"@,
            p.line as nat,
            p.column as nat,
            p.message@,
        ),
        CosynError::Io(m) => "IO error: "@ + m@,
        CosynError::Include(m) => "Include error: "@ + m@,
    }
}

/// The text of a located error.
pub fn located(prefix: &str, line: usize, column: usize, message: &String) -> (s: String)
    ensures
        s@ == located_text(prefix@, line as nat, column as nat, message@),
{
    let mut s = String::from_str(prefix);
    s.append(" at line ");
    push_usize(&mut s, line);
    s.append(", column ");
    push_usize(&mut s, column);
    s.append(": ");
    s.append(message.as_str());
    s
}

impl CosynError {
    /// The line where the error occurred (0 when it has none).
    pub fn line(&self) -> (l: usize)
        ensures
            l == match self {
                CosynError::Lex(e) => e.line,
                CosynError::Parse(e) => e.line,
                _ => 0,
            },
    {
        match self {
            CosynError::Lex(e) => e.line,
            CosynError::Parse(e) => e.line,
            _ => 0,
        }
    }

    /// The column where the error occurred (0 when it has none).
    pub fn column(&self) -> (c: usize)
        ensures
            c == match self {
                CosynError::Lex(e) => e.column,
                CosynError::Parse(e) => e.column,
                _ => 0,
            },
    {
        match self {
            CosynError::Lex(e) => e.column,
            CosynError::Parse(e) => e.column,
            _ => 0,
        }
    }

    /// The error message.
    pub fn message(&self) -> (m: String)
        ensures
            m@ == match self {
                CosynError::Lex(e) => e.message@,
                CosynError::Parse(e) => e.message@,
                CosynError::Io(s) => s@,
                CosynError::Include(s) => s@,
            },
    {
        match self {
            CosynError::Lex(e) => e.message.clone(),
            CosynError::Parse(e) => e.message.clone(),
            CosynError::Io(e) => e.clone(),
            CosynError::Include(msg) => msg.clone(),
        }
    }

    /// The text shown for this error.
    pub fn to_string(&self) -> (s: String)
        ensures
            s@ == error_text(*self),
    {
        match self {
            CosynError::Lex(e) => located("Lex error", e.line, e.column, &e.message),
            CosynError::Parse(e) => located("Parse error", e.line, e.column, &e.message),
            CosynError::Io(e) => {
                let mut s = String::from_str("IO error: ");
                s.append(e.as_str());
                s
            },
            CosynError::Include(msg) => {
                let mut s = String::from_str("Include error: ");
                s.append(msg.as_str());
                s
            },
        }
    }
}

} // verus!
