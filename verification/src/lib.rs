//! A codec for the RGSSAD family of game-asset archives.
//!
//! The archive formats are a sequence of named, size-prefixed entries that are
//! obfuscated with a rotating XOR stream cipher. Everything here is written
//! without I/O: the state machines consume bytes that a driver places in their
//! buffer and answer with the next action the driver has to perform.

use vstd::prelude::*;

pub mod buffer;
pub mod cipher;
pub mod laws;
pub mod layout;
pub mod path;
/// The archive reader.
pub mod reader;
/// The archive reader of the third format.
pub mod reader3;
/// sans-io state machines for reading and writing.
pub mod sans_io;
/// Readers and writers for drivers that await their transport.
pub mod tokio;
/// The archive writer.
pub mod writer;
/// The archive writer of the third format.
pub mod writer3;

pub use self::reader::Reader;
pub use self::tokio::TokioReader;
pub use self::tokio::TokioWriter;
pub use self::writer::Writer;

verus! {

/// The library error type
#[derive(Debug)]
pub enum Error {
    /// The input ended in the middle of the archive.
    UnexpectedEof,
    /// Invalid internal state, user error
    InvalidState,
    /// The file data was too long
    FileDataTooLong,
    /// There was an error with the sans-io state machine.
    SansIo(self::sans_io::Error),
}

/// What an [`Error`] says.
pub enum Failure {
    UnexpectedEof,
    InvalidState,
    FileDataTooLong,
    SansIo { fault: self::sans_io::Fault },
}

impl View for Error {
    type V = Failure;

    open spec fn view(&self) -> Failure {
        match *self {
            Error::UnexpectedEof => Failure::UnexpectedEof,
            Error::InvalidState => Failure::InvalidState,
            Error::FileDataTooLong => Failure::FileDataTooLong,
            Error::SansIo(error) => Failure::SansIo { fault: error@ },
        }
    }
}

impl From<self::sans_io::Error> for Error {
    fn from(error: self::sans_io::Error) -> (r: Self) {
        Error::SansIo(error)
    }
}

impl vstd::std_specs::convert::FromSpecImpl<self::sans_io::Error> for Error {
    open spec fn obeys_from_spec() -> bool {
        true
    }

    open spec fn from_spec(error: self::sans_io::Error) -> Self {
        Error::SansIo(error)
    }
}

} // verus!
