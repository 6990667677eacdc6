//! The errors that can arise while decoding a RESP stream.

use vstd::prelude::*;

verus! {

/// The kinds of protocol violation that a decoder reports.
#[derive(Clone, Copy, PartialEq, Eq, Debug, Structural)]
pub enum ErrorCode {
    /// Invalid RESP simple string (`+`): its text is not UTF-8.
    InvalidString,
    /// Invalid RESP error (`-`): its text is not UTF-8.
    InvalidError,
    /// Invalid RESP integer (`:`): empty, not decimal, or out of `i64` range.
    InvalidInteger,
    /// Invalid RESP bulk string (`$`): bad length, bad terminator or bad text.
    InvalidBulk,
    /// Invalid RESP array (`*`): bad element count.
    InvalidArray,
    /// An element starts with a byte that is none of `+ - : $ *`.
    InvalidPrefix(u8),
}

/// The message of each error kind.
pub open spec fn code_message(code: ErrorCode) -> Seq<char> {
    match code {
        ErrorCode::InvalidString => "Parse '+' failed"@,
        ErrorCode::InvalidError => "Parse '-' failed"@,
        ErrorCode::InvalidInteger => "Parse ':' failed"@,
        ErrorCode::InvalidBulk => "Parse '$' failed"@,
        ErrorCode::InvalidArray => "Parse '*' failed"@,
        ErrorCode::InvalidPrefix(_) => "Invalid prefix"@,
    }
}

impl ErrorCode {
    /// A short message that names the kind of violation.
    pub fn as_str(&self) -> (r: &'static str)
        ensures
            r@ == code_message(*self),
    {
        match self {
            ErrorCode::InvalidString => "Parse '+' failed",
            ErrorCode::InvalidError => "Parse '-' failed",
            ErrorCode::InvalidInteger => "Parse ':' failed",
            ErrorCode::InvalidBulk => "Parse '$' failed",
            ErrorCode::InvalidArray => "Parse '*' failed",
            ErrorCode::InvalidPrefix(_) => "Invalid prefix",
        }
    }

    /// The message of `as_str`, as an owned string.
    pub fn to_string(&self) -> (r: String)
        ensures
            r@ == code_message(*self),
    {
        self.as_str().to_owned()
    }
}

/// Everything that can go wrong while turning bytes into values.
#[derive(Debug)]
pub enum Error {
    /// The bytes break the wire grammar.
    Protocol(ErrorCode),
    /// The byte source ended before a whole value had arrived.
    Eof,
    /// The byte source itself failed; this is what it reported.
    Io(String),
    /// Bytes that had to be UTF-8 text were not; they are handed back.
    FromUtf8(Vec<u8>),
}

impl Error {
    /// A short description of the error.
    pub fn description(&self) -> (r: &str)
        ensures
            *self matches Error::Protocol(code) ==> r@ == code_message(code),
            *self matches Error::Io(msg) ==> r@ == msg@,
            self is Eof ==> r@ == "unexpected end of input"@,
            self is FromUtf8 ==> r@ == "invalid utf-8 sequence"@,
    {
        match self {
            Error::Protocol(code) => code.as_str(),
            Error::Eof => "unexpected end of input",
            Error::Io(msg) => msg.as_str(),
            Error::FromUtf8(_) => "invalid utf-8 sequence",
        }
    }
}

} // verus!
