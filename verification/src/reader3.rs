use vstd::prelude::*;

use crate::sans_io::reader3::Reader3View;
use crate::sans_io::FileHeader3;

verus! {

/// A reader for a "rgss3a" archive file: a transport, which a driver reads
/// and seeks, together with the state machine that says what to read and
/// where to seek.
#[derive(Debug)]
pub struct Reader3<R> {
    reader: R,
    state_machine: crate::sans_io::Reader3,
}

impl<R> Reader3<R> {
    /// The transport, as a mathematical value.
    pub closed spec fn spec_reader(&self) -> R {
        self.reader
    }

    /// The state machine, as a mathematical value.
    pub closed spec fn spec_state_machine(&self) -> crate::sans_io::Reader3 {
        self.state_machine
    }

    /// Create a new [`Reader3`].
    pub fn new(reader: R) -> (made: Self)
        ensures
            made.spec_reader() == reader,
            made.spec_state_machine()@ == Reader3View::initial(),
            made.spec_state_machine()@.wf(),
            made.spec_state_machine().roomy(),
    {
        Reader3 { reader, state_machine: crate::sans_io::Reader3::new() }
    }

    /// Get the inner reader.
    pub fn into_inner(self) -> (reader: R)
        ensures
            reader == self.spec_reader(),
    {
        self.reader
    }

    /// Get a reference to the reader.
    pub fn get_ref(&mut self) -> (reader: &R)
        ensures
            *reader == old(self).spec_reader(),
            *final(self) == *old(self),
    {
        &self.reader
    }

    /// Get a mutable reference to the inner reader.
    pub fn get_mut(&mut self) -> (reader: &mut R)
        ensures
            *reader == old(self).spec_reader(),
            final(self).spec_reader() == *final(reader),
            final(self).spec_state_machine() == old(self).spec_state_machine(),
    {
        &mut self.reader
    }

    /// Get the key.
    ///
    /// # Returns
    /// This will return `None` if the header has not been read.
    pub fn key(&self) -> (key: Option<u32>)
        ensures
            key == self.spec_state_machine()@.key,
    {
        self.state_machine.key()
    }

    /// Get the transport and the state machine, for a driver that moves
    /// bytes from the one to the other.
    pub fn parts(&mut self) -> (parts: (&mut R, &mut crate::sans_io::Reader3))
        ensures
            *parts.0 == old(self).spec_reader(),
            *parts.1 == old(self).spec_state_machine(),
            final(self).spec_reader() == *final(parts.0),
            final(self).spec_state_machine() == *final(parts.1),
    {
        (&mut self.reader, &mut self.state_machine)
    }
}

/// A file for a version 3 archive: what the reader tells of a file of the
/// file table.
#[derive(Debug)]
pub struct File3 {
    header: FileHeader3,
}

impl File3 {
    /// The file that a file header announces.
    pub fn new(header: FileHeader3) -> (file: Self)
        ensures
            file.spec_header() == header,
    {
        File3 { header }
    }

    /// The file header, as a mathematical value.
    pub closed spec fn spec_header(&self) -> FileHeader3 {
        self.header
    }

    /// The file header, which the reader takes to read the file data.
    pub fn header(&self) -> (header: &FileHeader3)
        ensures
            *header == self.spec_header(),
    {
        &self.header
    }

    /// The file path
    pub fn name(&self) -> (name: &str)
        ensures
            name@ == self.spec_header().name@,
    {
        self.header.name.as_str()
    }

    /// The file size
    pub fn size(&self) -> (size: u32)
        ensures
            size == self.spec_header().size,
    {
        self.header.size
    }

    /// The file key
    pub fn key(&self) -> (key: u32)
        ensures
            key == self.spec_header().key,
    {
        self.header.key
    }
}

} // verus!
