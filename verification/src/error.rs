//! Error taxonomy of the framework.
//!
//! `CallError` is a failure reported by a remote handler itself; `Error`
//! covers every other way a call can fail, framework- and transport-side.

use vstd::prelude::*;

verus! {

/// A remote handler's own reported failure, distinct from framework failures.
#[derive(Debug, Clone, PartialEq, Eq)]
pub struct CallError {
    pub message: String,
}

/// Mathematical model of a `CallError`.
pub struct CallErrorV {
    pub message: Seq<char>,
}

impl View for CallError {
    type V = CallErrorV;

    open spec fn view(&self) -> CallErrorV {
        CallErrorV { message: self.message@ }
    }
}

impl CallError {
    /// Builds a handler failure from its message.
    pub fn from(message: String) -> (r: CallError)
        ensures
            r@.message == message@,
    {
        CallError { message }
    }
}

/// Everything that can go wrong with a call, besides the handler's own failure.
#[derive(Debug, Clone, PartialEq, Eq)]
pub enum Error {
    /// The request names an object that is not in the registry.
    UnknownObject(String),
    /// The object has no method of the requested name.
    UnknownMethod(String),
    /// A tuple was read at an index at or past its length.
    ArgumentOutOfRange(usize),
    /// A malformed envelope, or a framework-level failure reported by the far side.
    Protocol(String),
    /// A value or envelope that could not be encoded or decoded.
    Encoding(String),
    /// The remote handler reported a failure of its own.
    Call(CallError),
    /// The client's wait for a reply expired.
    Timeout,
}

/// Mathematical model of an `Error`.
pub enum ErrorV {
    UnknownObject(Seq<char>),
    UnknownMethod(Seq<char>),
    ArgumentOutOfRange(usize),
    Protocol(Seq<char>),
    Encoding(Seq<char>),
    Call(CallErrorV),
    Timeout,
}

impl View for Error {
    type V = ErrorV;

    open spec fn view(&self) -> ErrorV {
        match self {
            Error::UnknownObject(s) => ErrorV::UnknownObject(s@),
            Error::UnknownMethod(s) => ErrorV::UnknownMethod(s@),
            Error::ArgumentOutOfRange(i) => ErrorV::ArgumentOutOfRange(*i),
            Error::Protocol(s) => ErrorV::Protocol(s@),
            Error::Encoding(s) => ErrorV::Encoding(s@),
            Error::Call(c) => ErrorV::Call(c@),
            Error::Timeout => ErrorV::Timeout,
        }
    }
}

/// The character standing for one decimal digit.
pub open spec fn spec_dec_digit(d: int) -> char {
    if d == 0 { '0' }
    else if d == 1 { '1' }
    else if d == 2 { '2' }
    else if d == 3 { '3' }
    else if d == 4 { '4' }
    else if d == 5 { '5' }
    else if d == 6 { '6' }
    else if d == 7 { '7' }
    else if d == 8 { '8' }
    else { '9' }
}

/// The decimal rendering of a natural number, most significant digit first.
pub open spec fn spec_dec(n: nat) -> Seq<char>
    decreases n,
{
    if n < 10 {
        seq![spec_dec_digit(n as int)]
    } else {
        spec_dec((n / 10) as nat) + seq![spec_dec_digit((n % 10) as int)]
    }
}

fn digit_str(d: usize) -> (r: &'static str)
    requires
        d < 10,
    ensures
        r@ == seq![spec_dec_digit(d as int)],
{
    proof {
        reveal_strlit("0");
        reveal_strlit("1");
        reveal_strlit("2");
        reveal_strlit("3");
        reveal_strlit("4");
        reveal_strlit("5");
        reveal_strlit("6");
        reveal_strlit("7");
        reveal_strlit("8");
        reveal_strlit("9");
    }
    if d == 0 { "0" }
    else if d == 1 { "1" }
    else if d == 2 { "2" }
    else if d == 3 { "3" }
    else if d == 4 { "4" }
    else if d == 5 { "5" }
    else if d == 6 { "6" }
    else if d == 7 { "7" }
    else if d == 8 { "8" }
    else { "9" }
}

/// Renders a number in decimal, as its message text needs it.
pub fn dec_string(n: usize) -> (s: String)
    ensures
        s@ == spec_dec(n as nat),
    decreases n,
{
    if n < 10 {
        String::from_str(digit_str(n))
    } else {
        let mut s = dec_string(n / 10);
        s.append(digit_str(n % 10));
        s
    }
}

/// The message text of an error, exactly as the framework reports it.
pub open spec fn spec_error_message(e: ErrorV) -> Seq<char> {
    match e {
        ErrorV::UnknownObject(s) => "unknown object '"@ + s + "'"@,
        ErrorV::UnknownMethod(s) => "unknown method '"@ + s + "'"@,
        ErrorV::ArgumentOutOfRange(i) => "no argument found at index "@ + spec_dec(i as nat),
        ErrorV::Protocol(s) => "protocol error: "@ + s,
        ErrorV::Encoding(s) => "encoding error: "@ + s,
        ErrorV::Call(c) => "remote call failed with error '"@ + c.message + "'"@,
        ErrorV::Timeout => "timeout waiting for reply"@,
    }
}

impl Error {
    /// Renders the error as the framework's message text.
    pub fn message(&self) -> (s: String)
        ensures
            s@ == spec_error_message(self@),
    {
        match self {
            Error::UnknownObject(name) => {
                let mut s = String::from_str("unknown object '");
                s.append(name.as_str());
                s.append("'");
                s
            },
            Error::UnknownMethod(name) => {
                let mut s = String::from_str("unknown method '");
                s.append(name.as_str());
                s.append("'");
                s
            },
            Error::ArgumentOutOfRange(i) => {
                let mut s = String::from_str("no argument found at index ");
                let d = dec_string(*i);
                s.append(d.as_str());
                s
            },
            Error::Protocol(m) => {
                let mut s = String::from_str("protocol error: ");
                s.append(m.as_str());
                s
            },
            Error::Encoding(m) => {
                let mut s = String::from_str("encoding error: ");
                s.append(m.as_str());
                s
            },
            Error::Call(c) => {
                let mut s = String::from_str("remote call failed with error '");
                s.append(c.message.as_str());
                s.append("'");
                s
            },
            Error::Timeout => String::from_str("timeout waiting for reply"),
        }
    }
}

} // verus!
