//! What can go wrong.
use vstd::prelude::*;

verus! {

#[derive(Debug)]
pub enum PebbleError {
    /// The operating system refused an operation; the text is its explanation.
    Io(String),
    WalCorruption(String),
    WalIncomplete,
    SSTableCorruption(String),
    CacheCorruption(String),
    /// A configured fault stopped the operation.
    InjectedFault(String),
    /// A configured fault asks for the process to be aborted here.
    InjectedAbort,
}

pub type Result<T> = std::result::Result<T, PebbleError>;

impl PebbleError {
    pub open spec fn text(&self) -> Seq<char> {
        match self {
            PebbleError::Io(text) => "I/O error: "@ + text@,
            PebbleError::WalCorruption(text) => "WAL corruption: "@ + text@,
            PebbleError::WalIncomplete => "incomplete WAL record"@,
            PebbleError::SSTableCorruption(text) => "SSTable corruption: "@ + text@,
            PebbleError::CacheCorruption(text) => "cache corruption: "@ + text@,
            PebbleError::InjectedFault(text) => "injected fault: "@ + text@,
            PebbleError::InjectedAbort => "injected abort"@,
        }
    }

    /// The error in words.
    pub fn message(&self) -> (message: String)
        ensures
            message@ == self.text(),
    {
        match self {
            PebbleError::Io(text) => "I/O error: ".to_owned().concat(text.as_str()),
            PebbleError::WalCorruption(text) => "WAL corruption: ".to_owned().concat(text.as_str()),
            PebbleError::WalIncomplete => "incomplete WAL record".to_owned(),
            PebbleError::SSTableCorruption(text) => "SSTable corruption: ".to_owned().concat(text.as_str()),
            PebbleError::CacheCorruption(text) => "cache corruption: ".to_owned().concat(text.as_str()),
            PebbleError::InjectedFault(text) => "injected fault: ".to_owned().concat(text.as_str()),
            PebbleError::InjectedAbort => "injected abort".to_owned(),
        }
    }
}

}
