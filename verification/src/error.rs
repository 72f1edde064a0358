//! The error types of the library: parse errors, evaluation errors, and the
//! combined error an engine surfaces.

use vstd::prelude::*;

verus! {

/// An error raised while parsing, with line and column positions where the
/// scanner tracks them.
#[derive(Debug)]
pub enum ParseError {
    /// A character illegal in its run context, with its line and column.
    InvalidCharacter(char, i32, i32),
    /// A run of operator characters that names no operator.
    InvalidSymbol(String, i32, i32),
    /// A closing bracket with no matching open bracket, with its line.
    MissingBracket(i32),
    /// Any other malformed run, with the line where it was noticed.
    Other(i32),
    /// A malformed program with no position to report.
    UnknownError,
}

/// Mathematical model of a parse error.
pub enum ParseErrV {
    InvalidCharacter(char, int, int),
    InvalidSymbol(Seq<char>, int, int),
    MissingBracket(int),
    Other(int),
    UnknownError,
}

impl View for ParseError {
    type V = ParseErrV;

    open spec fn view(&self) -> ParseErrV {
        match self {
            ParseError::InvalidCharacter(c, l, co) => ParseErrV::InvalidCharacter(
                *c,
                *l as int,
                *co as int,
            ),
            ParseError::InvalidSymbol(s, l, co) => ParseErrV::InvalidSymbol(
                s@,
                *l as int,
                *co as int,
            ),
            ParseError::MissingBracket(l) => ParseErrV::MissingBracket(*l as int),
            ParseError::Other(l) => ParseErrV::Other(*l as int),
            ParseError::UnknownError => ParseErrV::UnknownError,
        }
    }
}

/// An error raised while evaluating: a keyword or operator applied with an
/// arity or structure that has no defined handler.
#[derive(Debug, Clone, Copy, PartialEq, Eq, Structural)]
pub enum EvalError {
    UnknownOperator,
}

/// An error surfaced by the engine: either phase's error, tagged.
#[derive(Debug)]
pub enum LexError {
    ParseError(ParseError),
    EvalError(EvalError),
}

/// Mathematical model of an engine error.
pub enum LexErrV {
    ParseError(ParseErrV),
    EvalError(EvalError),
}

impl View for LexError {
    type V = LexErrV;

    open spec fn view(&self) -> LexErrV {
        match self {
            LexError::ParseError(e) => LexErrV::ParseError(e@),
            LexError::EvalError(e) => LexErrV::EvalError(*e),
        }
    }
}

} // verus!

verus! {

/// The message text of a parse error: positions for an invalid character,
/// a generic line otherwise.
pub open spec fn parse_error_text(e: ParseErrV) -> Seq<char> {
    match e {
        ParseErrV::InvalidCharacter(c, l, co) => "invalid character \""@ + seq![c] + "\" at line "@
            + crate::strutil::dec_digits(l) + ":"@ + crate::strutil::dec_digits(co),
        _ => "unknown parse error"@,
    }
}

impl ParseError {
    /// A human-readable message; computes `parse_error_text`.
    pub fn describe(&self) -> (r: String)
        requires
            self@ matches ParseErrV::InvalidCharacter(c, l, co) ==> 0 <= l && 0 <= co,
        ensures
            r@ == parse_error_text(self@),
    {
        match self {
            ParseError::InvalidCharacter(c, l, co) => {
                let mut s = String::new();
                s.append("invalid character \"");
                crate::strutil::push_char(&mut s, *c);
                s.append("\" at line ");
                crate::strutil::push_dec_digits(&mut s, *l as u128);
                s.append(":");
                crate::strutil::push_dec_digits(&mut s, *co as u128);
                proof {
                    assert(s@ =~= parse_error_text(self@));
                }
                s
            },
            _ => {
                let mut s = String::new();
                s.append("unknown parse error");
                proof {
                    assert(s@ =~= parse_error_text(self@));
                }
                s
            },
        }
    }
}

impl EvalError {
    /// A human-readable message.
    pub fn describe(&self) -> (r: String)
        ensures
            r@ == "unknown error"@,
    {
        let mut s = String::new();
        s.append("unknown error");
        proof {
            assert(s@ =~= "unknown error"@);
        }
        s
    }
}

impl LexError {
    /// A human-readable message: the wrapped error's.
    pub fn describe(&self) -> (r: String)
        requires
            self@ matches LexErrV::ParseError(pe) ==> (pe matches ParseErrV::InvalidCharacter(
                c,
                l,
                co,
            ) ==> 0 <= l && 0 <= co),
        ensures
            self@ matches LexErrV::ParseError(pe) ==> r@ == parse_error_text(pe),
            self@ is EvalError ==> r@ == "unknown error"@,
    {
        match self {
            LexError::ParseError(e) => e.describe(),
            LexError::EvalError(e) => e.describe(),
        }
    }
}

} // verus!
