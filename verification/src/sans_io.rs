//! Sans-I/O state machines for reading and writing archives.
//!
//! A state machine never touches a transport. A driver moves bytes between the
//! transport and the machine's buffer and calls a stepping function, which
//! either finishes or names the one thing the driver has to do before it steps
//! again.

use vstd::prelude::*;

pub mod reader;
pub mod reader3;
pub mod writer;
pub mod writer3;

pub use self::reader::Reader;
pub use self::reader3::Reader3;
pub use self::writer::Writer;
pub use self::writer3::Writer3;

verus! {

/// `std::string::FromUtf8Error`, made known so that an error can carry it.
/// Nothing of its inside is visible.
#[verifier::external_type_specification]
#[verifier::external_body]
pub struct ExFromUtf8Error(std::string::FromUtf8Error);

/// An error that may occur while using sans-io state machines.
#[derive(Debug)]
#[allow(inconsistent_fields)]
pub enum Error {
    /// Invalid magic number
    InvalidMagic { magic: [u8; 7] },
    /// Invalid version
    InvalidVersion { version: u8 },
    /// A file name read from an archive was too long
    FileNameTooLongU32 { len: u32 },
    /// A file name to be written was too long
    FileNameTooLongUsize { len: usize },
    /// A file name was not valid UTF-8
    InvalidFileName {
        /// The error
        error: std::string::FromUtf8Error,
    },
    /// The amount of file data does not match the declared file size
    FileDataSizeMismatch { actual: u32, expected: u32 },
    /// An operation was called out of sequence
    InvalidState,
}

/// What an [`Error`] says, without the payload of the UTF-8 decoder.
#[allow(inconsistent_fields)]
pub enum Fault {
    InvalidMagic { magic: Seq<u8> },
    InvalidVersion { version: u8 },
    FileNameTooLongU32 { len: u32 },
    FileNameTooLongUsize { len: usize },
    InvalidFileName,
    FileDataSizeMismatch { actual: u32, expected: u32 },
    InvalidState,
}

impl View for Error {
    type V = Fault;

    open spec fn view(&self) -> Fault {
        match *self {
            Error::InvalidMagic { magic } => Fault::InvalidMagic { magic: magic@ },
            Error::InvalidVersion { version } => Fault::InvalidVersion { version },
            Error::FileNameTooLongU32 { len } => Fault::FileNameTooLongU32 { len },
            Error::FileNameTooLongUsize { len } => Fault::FileNameTooLongUsize { len },
            Error::InvalidFileName { .. } => Fault::InvalidFileName,
            Error::FileDataSizeMismatch { actual, expected } => Fault::FileDataSizeMismatch {
                actual,
                expected,
            },
            Error::InvalidState => Fault::InvalidState,
        }
    }
}

/// An action that should be performed for the reader state machine, or a result.
#[derive(Debug, Copy, Clone)]
pub enum ReaderAction<T> {
    /// Read at least the given number of bytes before stepping again.
    Read(usize),
    /// Seek to the given position before stepping again.
    Seek(u64),
    /// The stepping function is done.
    Done(T),
}

impl<T> ReaderAction<T> {
    /// Returns true if this is a `Done` variant.
    pub fn is_done(&self) -> (done: bool)
        ensures
            done == (self is Done),
    {
        match self {
            ReaderAction::Done(_) => true,
            _ => false,
        }
    }
}

/// An action that should be performed for the writer state machine, or a result.
#[derive(Debug, Copy, Clone)]
pub enum WriterAction<T> {
    /// The writer buffer should be emptied.
    Write,
    /// The stepping function is done.
    Done(T),
}

impl<T> WriterAction<T> {
    /// Returns true if this is a `Done` variant.
    pub fn is_done(&self) -> (done: bool)
        ensures
            done == (self is Done),
    {
        match self {
            WriterAction::Done(_) => true,
            _ => false,
        }
    }
}

/// A file header
#[derive(Debug)]
pub struct FileHeader {
    /// The file name
    pub name: String,
    /// The file data size.
    pub size: u32,
}

/// A [`FileHeader`] as a mathematical value.
pub struct FileHeaderView {
    pub name: Seq<char>,
    pub size: u32,
}

impl View for FileHeader {
    type V = FileHeaderView;

    open spec fn view(&self) -> FileHeaderView {
        FileHeaderView { name: self.name@, size: self.size }
    }
}

/// A file header of the third format
#[derive(Debug)]
pub struct FileHeader3 {
    /// The file name
    pub name: String,
    /// The file data size.
    pub size: u32,
    /// The key of the file data.
    pub key: u32,
    /// Where the file data starts in the archive.
    pub offset: u32,
}

/// A [`FileHeader3`] as a mathematical value.
pub struct FileHeader3View {
    pub name: Seq<char>,
    pub size: u32,
    pub key: u32,
    pub offset: u32,
}

impl View for FileHeader3 {
    type V = FileHeader3View;

    open spec fn view(&self) -> FileHeader3View {
        FileHeader3View { name: self.name@, size: self.size, key: self.key, offset: self.offset }
    }
}

/// An action that should be performed for the reader state machine of the
/// third format, or a result.
pub type ReaderAction3<T> = ReaderAction<T>;

/// An action that should be performed for the writer state machine of the
/// third format, or a result.
pub type WriterAction3<T> = WriterAction<T>;

/// What a stepping function of a reader answers, as a mathematical value.
pub type ReaderAnswer<V> = Result<ReaderAction<V>, Fault>;

/// The result of a stepping function of a reader as a mathematical value: the
/// same action, with the view of what it carries, or what the error says.
pub open spec fn reader_answer<T: View>(r: Result<ReaderAction<T>, Error>) -> ReaderAnswer<T::V> {
    match r {
        Ok(ReaderAction::Read(n)) => Ok(ReaderAction::Read(n)),
        Ok(ReaderAction::Seek(position)) => Ok(ReaderAction::Seek(position)),
        Ok(ReaderAction::Done(value)) => Ok(ReaderAction::Done(value@)),
        Err(error) => Err(error@),
    }
}

/// The result of the step that reads a record of the file table as a
/// mathematical value: the same action, with the view of the file header it
/// carries, if any, or what the error says.
pub open spec fn record_answer(r: Result<ReaderAction<Option<FileHeader3>>, Error>) -> ReaderAnswer<
    Option<FileHeader3View>,
> {
    match r {
        Ok(ReaderAction::Read(n)) => Ok(ReaderAction::Read(n)),
        Ok(ReaderAction::Seek(position)) => Ok(ReaderAction::Seek(position)),
        Ok(ReaderAction::Done(Some(header))) => Ok(ReaderAction::Done(Some(header@))),
        Ok(ReaderAction::Done(None)) => Ok(ReaderAction::Done(None)),
        Err(error) => Err(error@),
    }
}

/// What a stepping function of a writer answers, as a mathematical value.
pub type WriterAnswer<V> = Result<WriterAction<V>, Fault>;

/// The result of a stepping function of a writer as a mathematical value: the
/// same action, with the view of what it carries, or what the error says.
pub open spec fn writer_answer<T: View>(r: Result<WriterAction<T>, Error>) -> WriterAnswer<T::V> {
    match r {
        Ok(WriterAction::Write) => Ok(WriterAction::Write),
        Ok(WriterAction::Done(value)) => Ok(WriterAction::Done(value@)),
        Err(error) => Err(error@),
    }
}

/// `String::from_utf8`: the string that a vector of bytes encodes. It succeeds
/// exactly on well-formed UTF-8, and the string then holds the decoded
/// characters.
#[verifier::external_body]
pub(crate) fn string_from_utf8(bytes: Vec<u8>) -> (r: Result<String, std::string::FromUtf8Error>)
    ensures
        r is Ok <==> vstd::utf8::valid_utf8(bytes@),
        r is Ok ==> r->Ok_0@ == vstd::utf8::decode_utf8(bytes@),
{
    String::from_utf8(bytes)
}

} // verus!
