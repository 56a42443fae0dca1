use vstd::prelude::*;

use crate::sans_io::reader::ReaderView;
use crate::sans_io::FileHeader;
use crate::Error;

verus! {

/// A reader for a "rgssad" archive file: a transport, which a driver reads
/// and seeks, together with the state machine that says what to read and
/// where to seek.
#[derive(Debug)]
pub struct Reader<R> {
    reader: R,
    state_machine: crate::sans_io::Reader,
}

impl<R> Reader<R> {
    /// The transport, as a mathematical value.
    pub closed spec fn spec_reader(&self) -> R {
        self.reader
    }

    /// The state machine, as a mathematical value.
    pub closed spec fn spec_state_machine(&self) -> crate::sans_io::Reader {
        self.state_machine
    }

    /// Create a new [`Reader`] with the default encryption key.
    pub fn new(reader: R) -> (made: Reader<R>)
        ensures
            made.spec_reader() == reader,
            made.spec_state_machine()@ == ReaderView::initial(),
            made.spec_state_machine()@.wf(),
            made.spec_state_machine().roomy(),
    {
        Reader { reader, state_machine: crate::sans_io::Reader::new() }
    }

    /// Get the inner reader.
    pub fn into_inner(self) -> (reader: R)
        ensures
            reader == self.spec_reader(),
    {
        self.reader
    }

    /// Get a reference to the reader.
    pub fn get_ref(&mut self) -> (reader: &R)
        ensures
            *reader == old(self).spec_reader(),
            *final(self) == *old(self),
    {
        &self.reader
    }

    /// Get a mutable reference to the inner reader.
    pub fn get_mut(&mut self) -> (reader: &mut R)
        ensures
            *reader == old(self).spec_reader(),
            final(self).spec_reader() == *final(reader),
            final(self).spec_state_machine() == old(self).spec_state_machine(),
    {
        &mut self.reader
    }

    /// Get the transport and the state machine, for a driver that moves
    /// bytes from the one to the other.
    pub fn parts(&mut self) -> (parts: (&mut R, &mut crate::sans_io::Reader))
        ensures
            *parts.0 == old(self).spec_reader(),
            *parts.1 == old(self).spec_state_machine(),
            final(self).spec_reader() == *final(parts.0),
            final(self).spec_state_machine() == *final(parts.1),
    {
        (&mut self.reader, &mut self.state_machine)
    }
}

/// A file in an archive: what the reader tells of the file whose data it is
/// about to hand out.
#[derive(Debug)]
pub struct File {
    /// The file path.
    name: String,
    /// The file size.
    size: u32,
}

impl File {
    /// The file that a file header announces.
    pub fn new(header: FileHeader) -> (file: Self)
        ensures
            file.spec_name() == header.name@,
            file.spec_size() == header.size,
    {
        File { name: header.name, size: header.size }
    }

    /// The file path, as a mathematical value.
    pub closed spec fn spec_name(&self) -> Seq<char> {
        self.name@
    }

    /// The file size, as a mathematical value.
    pub closed spec fn spec_size(&self) -> u32 {
        self.size
    }

    /// The file path
    pub fn name(&self) -> (name: &str)
        ensures
            name@ == self.spec_name(),
    {
        self.name.as_str()
    }

    /// The file size
    pub fn size(&self) -> (size: u32)
        ensures
            size == self.spec_size(),
    {
        self.size
    }
}

/// What a read means to the driver that looks for the next file.
#[derive(Debug, Copy, Clone, PartialEq, Eq)]
pub enum ReadOutcome {
    /// Bytes arrived: the reader is to be stepped again.
    More,
    /// The input has ended where an entry may start: there are no more
    /// files.
    EndOfArchive,
}

/// Tell the reader how a read went that it asked for while it looked for the
/// next file header: `num` bytes were written to the front of its space, and
/// none if the input has ended.
///
/// The bytes are committed. The end of the input ends the archive if it comes
/// where an entry may start, with no byte of a header at hand; anywhere else
/// the archive is cut short.
pub fn finish_read(state_machine: &mut crate::sans_io::Reader, num: usize) -> (r: Result<ReadOutcome, Error>)
    ensures
        old(state_machine)@.wf() ==> final(state_machine)@.wf(),
        old(state_machine).roomy() ==> final(state_machine).roomy(),
        final(state_machine)@ == old(state_machine)@.filled(
            old(state_machine).spec_space().take(
                if num <= old(state_machine).spec_space().len() {
                    num as int
                } else {
                    old(state_machine).spec_space().len() as int
                },
            ),
        ),
        final(state_machine).spec_space().len() + num >= old(state_machine).spec_space().len(),
        num > 0 ==> r == Ok::<ReadOutcome, Error>(ReadOutcome::More),
        num == 0 && old(state_machine)@.data.len() == 0 ==> r == Ok::<ReadOutcome, Error>(
            ReadOutcome::EndOfArchive,
        ),
        num == 0 && old(state_machine)@.data.len() > 0 ==> r matches Err(Error::UnexpectedEof),
{
    state_machine.fill(num);
    if num == 0 {
        if state_machine.available_data() == 0 {
            Ok(ReadOutcome::EndOfArchive)
        } else {
            Err(Error::UnexpectedEof)
        }
    } else {
        Ok(ReadOutcome::More)
    }
}

} // verus!
