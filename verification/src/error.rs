use vstd::prelude::*;

verus! {

/// What can go wrong while a pattern is compiled or a stream is scanned.
#[derive(Debug)]
pub enum Error {
    /// The pattern breaks the grammar; the number is the offset, in
    /// characters, at which that was found.
    BadSyntax(usize),
    /// Fewer bytes are left in the stream than were asked for.
    EndOfFile,
    /// Reading or writing has failed.
    Io,
    /// A limit of the machine was reached.
    Unknown,
}

pub type RbrepResult<T> = Result<T, Error>;

/// What `Error::message` says of an error.
pub open spec fn message_text(e: Error) -> Seq<char> {
    match e {
        Error::BadSyntax(_) => "Syntax error"@,
        _ => "Unknown error"@,
    }
}

impl Error {
    /// The error in words.
    pub fn message(&self) -> (text: &'static str)
        ensures
            text@ == message_text(*self),
    {
        match self {
            Error::BadSyntax(_) => "Syntax error",
            _ => "Unknown error",
        }
    }
}

} // verus!
