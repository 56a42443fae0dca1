use vstd::prelude::*;
use vstd::slice::slice_subrange;
use vstd::utf8::encode_utf8;

use super::{
    reader_answer, record_answer, Error, Fault, FileHeader3, FileHeader3View, ReaderAction,
    ReaderAction3, ReaderAnswer,
};
use crate::buffer::{
    buffer_available_space, buffer_capacity, buffer_consume, buffer_data, buffer_data_slice,
    buffer_fill, buffer_reset, buffer_space, buffer_space_slice, buffer_with_capacity,
};
use crate::cipher::{
    copy_bytes, crypt_data, crypt_file_data, data_key_after, lemma_data_position_split,
};
use crate::laws::{
    lemma_header3_round_trip, lemma_record_len, lemma_record_round_trip,
    lemma_scan_header3_stable, lemma_sentinel_round_trip, storable_key,
};
use crate::layout::{
    header3_bytes, parse_header3, parse_record, record_bytes, scan_header3, scan_record,
    sentinel_bytes, Parsed, Scan, HEADER_LEN3, MAX_FILE_NAME_LEN, U32_LEN,
};
use crate::sans_io::writer3::{
    file_header, file_record, lemma_sizes_before_grows, lemma_staged_table,
    lemma_table_front_data, sizes_before, table_bytes, FileEntry, Writer3View,
};
use crate::sans_io::WriterAction;

verus! {

/// The size of the staging buffer of a reader.
pub const DEFAULT_BUFFER_CAPACITY: usize = 10240;

/// The largest position from which a reader can still step without leaving
/// the range of a `u64`: a record of the file table and the data of one file
/// fit behind it.
pub const POSITION_LIMIT: u64 = 0xffff_fffd_ffff_ffff;

/// The parse state
#[derive(Debug, Copy, Clone)]
pub enum State {
    /// The archive header has not been read.
    Header,
    /// No file data has been read since the archive header.
    FileHeader,
    /// The data of the file at `offset` is being read, and `key` is the key
    /// that its cipher has reached.
    FileData { offset: u32, key: u32 },
}

/// A reader of the third format as a mathematical value.
pub struct Reader3View {
    /// The bytes that the driver has committed and the reader has not
    /// consumed.
    pub data: Seq<u8>,
    /// The parse state.
    pub state: State,
    /// Where in the archive the first byte of `data` stands.
    pub position: nat,
    /// The archive key, once the header has been read.
    pub key: Option<u32>,
    /// Where in the archive the next record of the file table stands, until
    /// the end of the table has been read.
    pub next_file_header_position: Option<nat>,
}

impl Reader3View {
    /// A reader that has seen nothing.
    pub open spec fn initial() -> Reader3View {
        Reader3View {
            data: Seq::empty(),
            state: State::Header,
            position: 0,
            key: None,
            next_file_header_position: Some(HEADER_LEN3 as nat),
        }
    }

    /// Past the archive header the reader holds the archive key.
    pub open spec fn wf(self) -> bool {
        !(self.state is Header) ==> self.key is Some
    }

    /// Whether the data of the reader is what stands in `archive` at the
    /// position of the reader.
    pub open spec fn mirrors(self, archive: Seq<u8>) -> bool {
        self.data.len() == 0 || (self.position + self.data.len() <= archive.len() && self.data
            == archive.subrange(self.position as int, (self.position + self.data.len()) as int))
    }

    /// Whether the reader can step without a position leaving the range of a
    /// `u64`.
    pub open spec fn within_limits(self) -> bool {
        self.position <= POSITION_LIMIT
    }

    /// The reader after the driver committed `bytes`.
    pub open spec fn filled(self, bytes: Seq<u8>) -> Reader3View {
        Reader3View { data: self.data + bytes, ..self }
    }

    /// The reader after the driver finished a seek to `position`.
    pub open spec fn sought(self, position: u64) -> Reader3View {
        Reader3View { data: Seq::empty(), position: position as nat, ..self }
    }

    /// The step that reads the archive header: the reader afterwards and its
    /// answer. Past the header nothing happens. Before it, the header has to
    /// stand at the start of the data; it is then consumed and the reader
    /// holds the key derived from its seed.
    pub open spec fn read_header(self) -> (Reader3View, ReaderAnswer<()>) {
        if !(self.state is Header) {
            (self, Ok(ReaderAction::Done(())))
        } else {
            match scan_header3(self.data) {
                Scan::Short { missing } => (self, Ok(ReaderAction::Read(missing as usize))),
                Scan::Bad { fault } => (self, Err(fault)),
                Scan::Found { value, len } => (
                    Reader3View {
                        data: self.data.skip(len as int),
                        state: State::FileHeader,
                        position: len,
                        key: Some(value),
                        next_file_header_position: self.next_file_header_position,
                    },
                    Ok(ReaderAction::Done(())),
                ),
            }
        }
    }

    /// The step that reads the next record of the file table, for a reader
    /// that is past the archive header. Once the end of the table has been
    /// read there is no further record. A reader that does not stand at the
    /// next record asks for a seek. Otherwise the record has to stand at the
    /// start of the data; it is then consumed, and the reader remembers that
    /// the table goes on behind it or, at the end of the table, that it
    /// ended.
    pub open spec fn read_record(self) -> (Reader3View, ReaderAnswer<Option<FileHeader3View>>) {
        match self.next_file_header_position {
            None => (self, Ok(ReaderAction::Done(None))),
            Some(next) => if self.position != next {
                (self, Ok(ReaderAction::Seek(next as u64)))
            } else {
                match scan_record(self.key.unwrap(), self.data) {
                    Scan::Short { missing } => (self, Ok(ReaderAction::Read(missing as usize))),
                    Scan::Bad { fault } => (self, Err(fault)),
                    Scan::Found { value, len } => (
                        Reader3View {
                            data: self.data.skip(len as int),
                            position: self.position + len,
                            next_file_header_position: if value is Some {
                                Some(self.position + len)
                            } else {
                                None
                            },
                            ..self
                        },
                        Ok(ReaderAction::Done(value)),
                    ),
                }
            },
        }
    }

    /// The step that reads the next record of the file table: the archive
    /// header first, if it has not been read, then the record.
    pub open spec fn read_file_header(self) -> (
        Reader3View,
        ReaderAnswer<Option<FileHeader3View>>,
    ) {
        let (past, answer) = self.read_header();
        match answer {
            Ok(ReaderAction::Done(_)) => past.read_record(),
            Ok(ReaderAction::Read(n)) => (past, Ok(ReaderAction::Read(n))),
            Ok(ReaderAction::Seek(position)) => (past, Ok(ReaderAction::Seek(position))),
            Err(fault) => (past, Err(fault)),
        }
    }

    /// Whether the reader is reading the data of the file at `offset`.
    pub open spec fn reading(self, offset: u32) -> bool {
        self.state matches State::FileData { offset: current, .. } && current == offset
    }

    /// How far the reader stands behind `offset`, and zero if it stands
    /// before it.
    pub open spec fn relative_position(self, offset: u32) -> nat {
        if self.position >= offset {
            (self.position - offset) as nat
        } else {
            0
        }
    }

    /// How many bytes of a file of `size` bytes at `offset` lie behind the
    /// position of the reader.
    pub open spec fn remaining(self, offset: u32, size: u32) -> nat {
        if size >= self.relative_position(offset) {
            (size - self.relative_position(offset)) as nat
        } else {
            0
        }
    }

    /// The smallest of three counts.
    pub open spec fn least(a: nat, b: nat, c: nat) -> nat {
        let ab = if a <= b {
            a
        } else {
            b
        };
        if ab <= c {
            ab
        } else {
            c
        }
    }

    /// The step that reads data of the file `header`, for a reader that is
    /// past the archive header, with `space` free bytes in its buffer and
    /// `output` as the bytes of the buffer to fill: the reader afterwards,
    /// its answer and the bytes of the filled buffer.
    ///
    /// A reader that is not reading this file turns to it. For that it has to
    /// stand at the start of the file, and asks for a seek if it does not;
    /// the cipher then starts with the key of the file. A reader that is
    /// reading this file goes on with the key its cipher has reached.
    ///
    /// At or behind the end of the file nothing is handed out. With no data
    /// at hand the reader asks for the rest of the file, or for as much of
    /// it as its buffer can take. Otherwise it deciphers as many bytes as the
    /// data, the buffer to fill and the rest of the file allow into the front
    /// of the output. The counter of the cipher is taken from the distance
    /// between the position and the start of the file.
    pub open spec fn read_data(self, header: FileHeader3View, space: nat, output: Seq<u8>) -> (
        Reader3View,
        ReaderAnswer<usize>,
        Seq<u8>,
    ) {
        if !self.reading(header.offset) && self.position != header.offset {
            (self, Ok(ReaderAction::Seek(header.offset as u64)), output)
        } else {
            let key = match self.state {
                State::FileData { offset, key } => if offset == header.offset {
                    key
                } else {
                    header.key
                },
                _ => header.key,
            };
            let turned = Reader3View {
                state: State::FileData { offset: header.offset, key },
                ..self
            };
            let remaining = self.remaining(header.offset, header.size);
            let counter = (self.relative_position(header.offset) % 4) as int;
            if remaining == 0 {
                (turned, Ok(ReaderAction::Done(0)), output)
            } else if self.data.len() == 0 {
                (
                    turned,
                    Ok(
                        ReaderAction::Read(
                            if remaining <= space {
                                remaining as usize
                            } else {
                                space as usize
                            },
                        ),
                    ),
                    output,
                )
            } else {
                let len = Self::least(self.data.len(), output.len(), remaining);
                (
                    Reader3View {
                        data: self.data.skip(len as int),
                        state: State::FileData {
                            offset: header.offset,
                            key: data_key_after(key, counter, len as int),
                        },
                        position: self.position + len,
                        ..self
                    },
                    Ok(ReaderAction::Done(len as usize)),
                    crypt_data(key, counter, self.data.take(len as int)) + output.skip(len as int),
                )
            }
        }
    }

    /// Whether the cipher of the reader is where reading the file `header`
    /// from its start up to the position of the reader leaves it.
    pub open spec fn in_step(self, header: FileHeader3View) -> bool {
        self.position >= header.offset && self.state == (State::FileData {
            offset: header.offset,
            key: data_key_after(header.key, 0, self.position - header.offset),
        })
    }

    /// Whether the reader can read on in the file `header`: it is in step
    /// with the file, or reads another file, or none, and stands at the
    /// start of this one.
    pub open spec fn ready_for(self, header: FileHeader3View) -> bool {
        self.in_step(header) || (!self.reading(header.offset) && self.position == header.offset)
    }

    /// The step that reads file data: the archive header first, if it has
    /// not been read, then the data.
    pub open spec fn read_file_data(
        self,
        header: FileHeader3View,
        space: nat,
        output: Seq<u8>,
    ) -> (Reader3View, ReaderAnswer<usize>, Seq<u8>) {
        let (past, answer) = self.read_header();
        match answer {
            Ok(ReaderAction::Done(_)) => past.read_data(header, space, output),
            Ok(ReaderAction::Read(n)) => (past, Ok(ReaderAction::Read(n)), output),
            Ok(ReaderAction::Seek(position)) => (past, Ok(ReaderAction::Seek(position)), output),
            Err(fault) => (past, Err(fault), output),
        }
    }
}

/// A sans-io reader state machine.
#[derive(Debug)]
pub struct Reader3 {
    buffer: oval::Buffer,
    state: State,
    position: u64,
    key: Option<u32>,
    next_file_header_position: Option<u64>,
}

impl View for Reader3 {
    type V = Reader3View;

    closed spec fn view(&self) -> Reader3View {
        Reader3View {
            data: buffer_data(self.buffer),
            state: self.state,
            position: self.position as nat,
            key: self.key,
            next_file_header_position: match self.next_file_header_position {
                Some(position) => Some(position as nat),
                None => None,
            },
        }
    }
}

impl Reader3 {
    /// The free bytes of the buffer, which the driver writes new data to.
    pub closed spec fn spec_space(&self) -> Seq<u8> {
        buffer_space(self.buffer)
    }

    /// The capacity of the buffer, as a mathematical value.
    pub closed spec fn spec_capacity(&self) -> nat {
        buffer_capacity(self.buffer)
    }

    /// The buffer has the capacity it was made with, and its data and its
    /// free space together take no more than the capacity and no less than
    /// half of it.
    pub open spec fn roomy(&self) -> bool {
        &&& self.spec_capacity() == DEFAULT_BUFFER_CAPACITY
        &&& self@.data.len() + self.spec_space().len() <= DEFAULT_BUFFER_CAPACITY
        &&& self@.data.len() + self.spec_space().len() >= DEFAULT_BUFFER_CAPACITY / 2
    }

    /// Create a new reader state machine.
    pub fn new() -> (reader: Self)
        ensures
            reader@ == Reader3View::initial(),
            reader@.wf(),
            reader.roomy(),
            reader.spec_space().len() == DEFAULT_BUFFER_CAPACITY,
    {
        Reader3 {
            buffer: buffer_with_capacity(DEFAULT_BUFFER_CAPACITY),
            state: State::Header,
            position: 0,
            key: None,
            next_file_header_position: Some(12),
        }
    }

    /// Get a reference to the read buffer part where new data should be written.
    ///
    /// You should indicate how many bytes were written with `fill`.
    pub fn space(&mut self) -> (space: &mut [u8])
        ensures
            space@ == old(self).spec_space(),
            final(space)@.len() == space@.len(),
            final(self).spec_space() == final(space)@,
            final(self)@ == old(self)@,
            old(self).roomy() ==> final(self).roomy(),
    {
        buffer_space_slice(&mut self.buffer)
    }

    /// Set the number of bytes written to the space buffer.
    ///
    /// The bytes at the front of the space are appended to the data, as many
    /// as `num` says and the space holds.
    pub fn fill(&mut self, num: usize)
        ensures
            old(self)@.wf() ==> final(self)@.wf(),
            old(self).roomy() ==> final(self).roomy(),
            final(self)@ == old(self)@.filled(
                old(self).spec_space().take(
                    if num <= old(self).spec_space().len() {
                        num as int
                    } else {
                        old(self).spec_space().len() as int
                    },
                ),
            ),
            final(self).spec_space().len() + num >= old(self).spec_space().len(),
    {
        buffer_fill(&mut self.buffer, num);
    }

    /// Tell the state machine that a seek was completed,
    /// and that the file position has been updated.
    ///
    /// This will clear any buffered bytes.
    pub fn finish_seek(&mut self, position: u64)
        ensures
            old(self)@.wf() ==> final(self)@.wf(),
            old(self).roomy() ==> final(self).roomy(),
            final(self)@ == old(self)@.sought(position),
            final(self).spec_space().len() >= old(self)@.data.len() + old(self).spec_space().len(),
    {
        self.position = position;
        buffer_reset(&mut self.buffer);
    }

    /// Whether the reader can step without a position leaving the range of a
    /// `u64`.
    pub fn within_limits(&self) -> (within: bool)
        ensures
            within == self@.within_limits(),
    {
        self.position <= POSITION_LIMIT
    }

    /// Get the key.
    ///
    /// # Returns
    /// This will return `None` if the header has not been read.
    pub fn key(&self) -> (key: Option<u32>)
        ensures
            key == self@.key,
    {
        self.key
    }

    /// Step the state machine, performing the action of reading and validating the header.
    ///
    /// If the header has already been read, `Ok(ReaderAction3::Done(()))` is returned and no work is performed.
    /// Calling this method is optional.
    /// The state machine will automatically read the header if it has not been read.
    /// This will never request a seek.
    pub fn step_read_header(&mut self) -> (r: Result<ReaderAction3<()>, Error>)
        requires
            old(self)@.wf(),
            old(self).roomy(),
        ensures
            final(self)@.wf(),
            final(self).roomy(),
            r matches Ok(ReaderAction::Read(n)) ==> 1 <= n <= final(self).spec_space().len(),
            final(self).spec_space().len() <= usize::MAX,
            final(self)@ == old(self)@.read_header().0,
            reader_answer(r) == old(self)@.read_header().1,
            final(self).spec_space().len() >= old(self).spec_space().len(),
            final(self)@ == old(self)@ ==> final(self).spec_space() == old(self).spec_space(),
    {
        match self.state {
            State::Header => {},
            State::FileHeader | State::FileData { .. } => {
                return Ok(ReaderAction::Done(()));
            },
        }
        match parse_header3(buffer_data_slice(&self.buffer)) {
            Parsed::Short(missing) => Ok(ReaderAction::Read(missing)),
            Parsed::Bad(error) => Err(error),
            Parsed::Found(key, len) => {
                buffer_consume(&mut self.buffer, len);
                self.position = 12;
                self.key = Some(key);
                self.state = State::FileHeader;
                Ok(ReaderAction::Done(()))
            },
        }
    }

    /// Step the state machine, performing the action of reading the next file header.
    ///
    /// This will read the header if it has not been read already.
    /// This may request a seek.
    pub fn step_read_file_header(&mut self) -> (r: Result<
        ReaderAction3<Option<FileHeader3>>,
        Error,
    >)
        requires
            old(self)@.wf(),
            old(self).roomy(),
            old(self)@.within_limits(),
        ensures
            final(self)@.wf(),
            final(self).roomy(),
            r matches Ok(ReaderAction::Read(n)) ==> 1 <= n <= final(self).spec_space().len(),
            final(self).spec_space().len() <= usize::MAX,
            final(self)@ == old(self)@.read_file_header().0,
            record_answer(r) == old(self)@.read_file_header().1,
            final(self).spec_space().len() >= old(self).spec_space().len(),
            final(self)@ == old(self)@ ==> final(self).spec_space() == old(self).spec_space(),
    {
        match self.step_read_header() {
            Err(error) => {
                return Err(error);
            },
            Ok(ReaderAction::Read(n)) => {
                return Ok(ReaderAction::Read(n));
            },
            Ok(ReaderAction::Seek(position)) => {
                return Ok(ReaderAction::Seek(position));
            },
            Ok(ReaderAction::Done(_)) => {},
        }
        let key = match self.key {
            Some(key) => key,
            None => {
                return Err(Error::InvalidState);
            },
        };
        match self.next_file_header_position {
            Some(next_file_header_position) => {
                if self.position != next_file_header_position {
                    return Ok(ReaderAction::Seek(next_file_header_position));
                }
            },
            None => {
                return Ok(ReaderAction::Done(None));
            },
        }
        match parse_record(key, buffer_data_slice(&self.buffer)) {
            Parsed::Short(missing) => Ok(ReaderAction::Read(missing)),
            Parsed::Bad(error) => Err(error),
            Parsed::Found(found, len) => {
                buffer_consume(&mut self.buffer, len);
                self.position = self.position + len as u64;
                match found {
                    Some(header) => {
                        self.next_file_header_position = Some(self.position);
                        Ok(ReaderAction::Done(Some(header)))
                    },
                    None => {
                        self.next_file_header_position = None;
                        Ok(ReaderAction::Done(None))
                    },
                }
            },
        }
    }

    /// Read file data.
    ///
    /// This will read the header if it has not already been read.
    /// This may request a seek.
    pub fn step_read_file_data(&mut self, file_header: &FileHeader3, output_buffer: &mut [u8]) -> (r:
        Result<ReaderAction3<usize>, Error>)
        requires
            old(self)@.wf(),
            old(self).roomy(),
            old(self)@.within_limits(),
        ensures
            final(self)@.wf(),
            final(self).roomy(),
            r matches Ok(ReaderAction::Read(n)) ==> 1 <= n <= final(self).spec_space().len(),
            final(self).spec_space().len() <= usize::MAX,
            final(self)@ == old(self)@.read_file_data(
                file_header@,
                final(self).spec_space().len(),
                old(output_buffer)@,
            ).0,
            reader_answer(r) == old(self)@.read_file_data(
                file_header@,
                final(self).spec_space().len(),
                old(output_buffer)@,
            ).1,
            final(output_buffer)@ == old(self)@.read_file_data(
                file_header@,
                final(self).spec_space().len(),
                old(output_buffer)@,
            ).2,
            final(self).spec_space().len() >= old(self).spec_space().len(),
    {
        let offset_u64 = file_header.offset as u64;
        match self.step_read_header() {
            Err(error) => {
                return Err(error);
            },
            Ok(ReaderAction::Read(n)) => {
                return Ok(ReaderAction::Read(n));
            },
            Ok(ReaderAction::Seek(position)) => {
                return Ok(ReaderAction::Seek(position));
            },
            Ok(ReaderAction::Done(_)) => {},
        }
        let ghost past = self@;
        let ghost past_space = self.spec_space();
        let mut key = match self.state {
            State::FileData { offset, key } if offset == file_header.offset => key,
            _ => {
                if self.position != offset_u64 {
                    return Ok(ReaderAction::Seek(offset_u64));
                }
                self.state = State::FileData { offset: file_header.offset, key: file_header.key };
                file_header.key
            },
        };
        let relative_position = if self.position >= offset_u64 {
            self.position - offset_u64
        } else {
            0
        };
        let remaining = if file_header.size as u64 >= relative_position {
            file_header.size as u64 - relative_position
        } else {
            0
        };
        let remaining_usize = remaining as usize;
        if remaining == 0 {
            return Ok(ReaderAction::Done(0));
        }
        let data = buffer_data_slice(&self.buffer);
        if data.len() == 0 {
            let space = buffer_available_space(&self.buffer);
            let len = if remaining_usize <= space {
                remaining_usize
            } else {
                space
            };
            return Ok(ReaderAction::Read(len));
        }
        let len = if data.len() <= output_buffer.len() {
            data.len()
        } else {
            output_buffer.len()
        };
        let len = if len <= remaining_usize {
            len
        } else {
            remaining_usize
        };
        let mut counter = (relative_position % 4) as u8;
        let (head, _) = output_buffer.split_at_mut(len);
        copy_bytes(head, slice_subrange(data, 0, len));
        crypt_file_data(&mut key, &mut counter, head);
        self.state = State::FileData { offset: file_header.offset, key };
        buffer_consume(&mut self.buffer, len);
        self.position = self.position + len as u64;
        Ok(ReaderAction::Done(len))
    }
}

impl Default for Reader3 {
    fn default() -> (reader: Self)
        ensures
            reader@ == Reader3View::initial(),
            reader@.wf(),
            reader.roomy(),
            reader.spec_space().len() == DEFAULT_BUFFER_CAPACITY,
    {
        Self::new()
    }
}

/// Reading the archive header again changes nothing: once the step that
/// reads the header is done, the same step on the reader it left is done at
/// once and leaves the reader, the bytes of its data among the rest, as it
/// is.
pub proof fn lemma_read_header_idempotent(reader: Reader3View)
    ensures
        reader.read_header().1 == Ok::<ReaderAction<()>, Fault>(ReaderAction::Done(()))
            ==> reader.read_header().0.read_header() == (
            reader.read_header().0,
            Ok::<ReaderAction<()>, Fault>(ReaderAction::Done(())),
        ),
{
}

/// Reading in pieces is reading at once. A reader that is stepped while the
/// bytes of a record of the file table have arrived in part, asks for more
/// and gets the rest, answers the next step as a reader that was given all
/// the bytes before its first step, and is then the same reader.
pub proof fn lemma_partial_reads(reader: Reader3View, first: Seq<u8>, second: Seq<u8>)
    ensures
        reader.filled(first).read_file_header().1 matches Ok(ReaderAction::Read(_))
            ==> reader.filled(first).read_file_header().0.filled(second).read_file_header()
            == reader.filled(first + second).read_file_header(),
{
    let data = reader.data + first;
    assert((reader.data + first) + second =~= reader.data + (first + second));
    if reader.state is Header {
        lemma_scan_header3_stable(data, second);
        if scan_header3(data) is Found {
            assert(data.skip(HEADER_LEN3 as int) + second =~= (data + second).skip(
                HEADER_LEN3 as int,
            ));
        }
    }
}

/// A file is read in pieces as it is read at once, whatever was read before
/// and in whatever order the files are read. A reader past the archive header
/// that is ready to read on in a file, and whose data is what stands in the
/// archive at its position within the file, never asks for a seek; the bytes
/// it hands out are those that stand at its place in the file when the whole
/// file, as it stands in the archive, is deciphered with the key of the
/// file; and the reader is then in step with the file again.
pub proof fn lemma_file_read_in_pieces(
    reader: Reader3View,
    header: FileHeader3View,
    archive: Seq<u8>,
    space: nat,
    output: Seq<u8>,
)
    requires
        !(reader.state is Header),
        reader.ready_for(header),
        reader.mirrors(archive),
        reader.position <= header.offset + header.size,
        header.offset + header.size <= archive.len(),
    ensures
        !(reader.read_data(header, space, output).1 matches Ok(ReaderAction::Seek(_))),
        reader.read_data(header, space, output).0.in_step(header),
        reader.read_data(header, space, output).0.mirrors(archive),
        reader.read_data(header, space, output).0.position <= header.offset + header.size,
        reader.read_data(header, space, output).1 matches Ok(ReaderAction::Done(count)) ==> {
            let start = reader.position - header.offset;
            &&& start + count <= header.size
            &&& reader.read_data(header, space, output).2.take(count as int) == crypt_data(
                header.key,
                0,
                archive.subrange(header.offset as int, header.offset + header.size),
            ).subrange(start, start + count)
        },
{
    let start = reader.position - header.offset;
    let file = archive.subrange(header.offset as int, header.offset + header.size);
    let key = data_key_after(header.key, 0, start);
    let counter = start % 4;
    let remaining = reader.remaining(header.offset, header.size);
    assert(reader.relative_position(header.offset) == start);
    assert(data_key_after(header.key, 0, 0) == header.key);
    if remaining > 0 && reader.data.len() > 0 {
        let len = Reader3View::least(reader.data.len(), output.len(), remaining);
        let piece = reader.data.take(len as int);
        lemma_data_position_split(header.key, 0, start, len as int);
        assert(piece =~= file.subrange(start, start + len));
        let whole = crypt_data(header.key, 0, file);
        let handed = crypt_data(key, counter, piece);
        assert forall|i: int| 0 <= i < len implies handed[i] == whole.subrange(
            start,
            start + len,
        )[i] by {
            lemma_data_position_split(header.key, 0, start, i);
        }
        assert(handed =~= whole.subrange(start, start + len));
        assert((handed + output.skip(len as int)).take(len as int) =~= handed);
        let after = reader.read_data(header, space, output).0;
        if after.data.len() > 0 {
            assert(after.data =~= archive.subrange(
                after.position as int,
                (after.position + after.data.len()) as int,
            ));
        }
    } else {
        assert(output.take(0) =~= crypt_data(header.key, 0, file).subrange(start, start));
    }
}

/// What a run of steps over `count` records of the file table hands out: the
/// reader it ends with and the file headers, unless a step is not done or
/// finds the end of the table.
pub open spec fn read_records(reader: Reader3View, count: nat) -> Option<
    (Reader3View, Seq<FileHeader3View>),
>
    decreases count,
{
    if count == 0 {
        Some((reader, Seq::empty()))
    } else {
        let (behind, answer) = reader.read_file_header();
        match answer {
            Ok(ReaderAction::Done(Some(header))) => match read_records(
                behind,
                (count - 1) as nat,
            ) {
                Some((last, rest)) => Some((last, seq![header] + rest)),
                None => None,
            },
            _ => None,
        }
    }
}

/// Whether the reader is past the archive header, holds the archive key `key`
/// and stands at the record of the file table that it expects.
pub open spec fn at_record(reader: Reader3View, key: u32) -> bool {
    &&& !(reader.state is Header)
    &&& reader.key == Some(key)
    &&& reader.next_file_header_position == Some(reader.position)
}

/// The step for a record of the file table finds the record that was
/// written: a reader that stands at a record, and whose data begins with the
/// record of a file written with its archive key, is done with the header of
/// that file, holds what followed the record and expects the next record
/// behind it.
pub proof fn lemma_step_reads_record(
    reader: Reader3View,
    key: u32,
    file: FileHeader3View,
    rest: Seq<u8>,
)
    requires
        at_record(reader, key),
        file.offset != 0,
        encode_utf8(file.name).len() <= MAX_FILE_NAME_LEN,
        reader.data == record_bytes(key, file.offset, file.size, file.key, encode_utf8(file.name))
            + rest,
    ensures
        reader.read_file_header().1 == Ok::<ReaderAction<Option<FileHeader3View>>, Fault>(
            ReaderAction::Done(Some(file)),
        ),
        at_record(reader.read_file_header().0, key),
        reader.read_file_header().0.data == rest,
{
    let record = record_bytes(key, file.offset, file.size, file.key, encode_utf8(file.name));
    lemma_record_round_trip(key, file, rest);
    lemma_record_len(key, file.offset, file.size, file.key, encode_utf8(file.name));
    assert((record + rest).skip(record.len() as int) =~= rest);
}

/// The step for a record of the file table finds the end of the table: a
/// reader that stands at a record, and whose data begins with the record that
/// ends the table, is done with no header, holds what followed the record
/// and expects no further record.
pub proof fn lemma_step_reads_sentinel(reader: Reader3View, key: u32, rest: Seq<u8>)
    requires
        at_record(reader, key),
        reader.data == sentinel_bytes(key) + rest,
    ensures
        reader.read_file_header().1 == Ok::<ReaderAction<Option<FileHeader3View>>, Fault>(
            ReaderAction::Done(None),
        ),
        reader.read_file_header().0.data == rest,
        reader.read_file_header().0.next_file_header_position is None,
{
    lemma_sentinel_round_trip(key, rest);
    assert((sentinel_bytes(key) + rest).skip(4 * U32_LEN as int) =~= rest);
}

/// A run of steps over records begins with the step for the first record and
/// goes on from the reader that step leaves.
pub proof fn lemma_read_records_unfold(reader: Reader3View, count: nat, header: FileHeader3View)
    requires
        reader.read_file_header().1 == Ok::<ReaderAction<Option<FileHeader3View>>, Fault>(
            ReaderAction::Done(Some(header)),
        ),
    ensures
        read_records(reader, count + 1) == match read_records(
            reader.read_file_header().0,
            count,
        ) {
            Some((last, rest)) => Some((last, seq![header] + rest)),
            None => None,
        },
{
    assert(((count + 1) - 1) as nat == count);
}

/// The step for a record finds the next file of a table: a reader that
/// stands at a record, and whose data is the records of the files from
/// `from` on, then the record that ends the table and then anything, is done
/// with the header of file `from` and then stands at the records of the files
/// behind it.
pub proof fn lemma_step_reads_table_record(
    reader: Reader3View,
    key: u32,
    files: Seq<FileEntry>,
    data_position: nat,
    from: nat,
    rest: Seq<u8>,
)
    requires
        at_record(reader, key),
        from < files.len(),
        0 < data_position,
        data_position + sizes_before(files, files.len()) <= u32::MAX,
        encode_utf8(files[from as int].name).len() <= MAX_FILE_NAME_LEN,
        reader.data == table_bytes(key, files, data_position, from, files.len()) + sentinel_bytes(
            key,
        ) + rest,
    ensures
        reader.read_file_header().1 == Ok::<ReaderAction<Option<FileHeader3View>>, Fault>(
            ReaderAction::Done(Some(file_header(files, data_position, from as int))),
        ),
        at_record(reader.read_file_header().0, key),
        reader.read_file_header().0.data == table_bytes(
            key,
            files,
            data_position,
            from + 1,
            files.len(),
        ) + sentinel_bytes(key) + rest,
{
    let header = file_header(files, data_position, from as int);
    let behind_bytes = table_bytes(key, files, data_position, from + 1, files.len())
        + sentinel_bytes(key) + rest;
    lemma_table_front_data(key, files, data_position, from, rest);
    lemma_sizes_before_grows(files, from, files.len());
    assert(header.offset != 0);
    lemma_step_reads_record(reader, key, header, behind_bytes);
}

/// A run of steps reads a file table back as it was written. A reader that
/// stands at a record of the file table, and whose data is the records of
/// the files from `from` on, written with its archive key, then the record
/// that ends the table and then anything, hands out the headers of those
/// files in a run of steps over as many records: each with the name, the
/// size and the key of its file and with the offset at which the data of the
/// file stands. The step after the run finds the end of the table, and the
/// reader then holds what followed the table. No name is longer than the
/// maximum, and every file starts at an offset that a `u32` holds and that is
/// not zero.
pub proof fn lemma_run_reads_table(
    reader: Reader3View,
    key: u32,
    files: Seq<FileEntry>,
    data_position: nat,
    from: nat,
    rest: Seq<u8>,
)
    requires
        at_record(reader, key),
        from <= files.len(),
        0 < data_position,
        data_position + sizes_before(files, files.len()) <= u32::MAX,
        forall|i: int|
            0 <= i < files.len() ==> encode_utf8(#[trigger] files[i].name).len()
                <= MAX_FILE_NAME_LEN,
        reader.data == table_bytes(key, files, data_position, from, files.len()) + sentinel_bytes(
            key,
        ) + rest,
    ensures
        read_records(reader, (files.len() - from) as nat) matches Some((last, found)) && {
            &&& found == Seq::new(
                (files.len() - from) as nat,
                |i: int| file_header(files, data_position, from + i),
            )
            &&& last.read_file_header().1 == Ok::<ReaderAction<Option<FileHeader3View>>, Fault>(
                ReaderAction::Done(None),
            )
            &&& last.read_file_header().0.data == rest
            &&& last.read_file_header().0.next_file_header_position is None
        },
    decreases files.len() - from,
{
    let count = files.len();
    let headers = Seq::new(
        (count - from) as nat,
        |i: int| file_header(files, data_position, from + i),
    );
    if from == count {
        assert(table_bytes(key, files, data_position, from, count) =~= Seq::<u8>::empty());
        assert(reader.data =~= sentinel_bytes(key) + rest);
        lemma_step_reads_sentinel(reader, key, rest);
        assert(headers =~= Seq::<FileHeader3View>::empty());
    } else {
        let header = file_header(files, data_position, from as int);
        assert(encode_utf8(files[from as int].name).len() <= MAX_FILE_NAME_LEN);
        lemma_step_reads_table_record(reader, key, files, data_position, from, rest);
        let behind = reader.read_file_header().0;
        lemma_run_reads_table(behind, key, files, data_position, from + 1, rest);
        lemma_read_records_unfold(reader, (count - from - 1) as nat, header);
        let others = Seq::new(
            (count - from - 1) as nat,
            |i: int| file_header(files, data_position, from + 1 + i),
        );
        assert(seq![header] + others =~= headers);
    }
}

/// The step for the archive header finds the header that was written: a
/// reader that has seen nothing and is given the header written with an
/// archive key that the header can hold, and then anything, is done, holds
/// that key and what followed the header, and stands at the first record of
/// the file table.
pub proof fn lemma_step_reads_header3(key: u32, behind: Seq<u8>)
    requires
        storable_key(key),
    ensures
        Reader3View::initial().filled(header3_bytes(key) + behind).read_header().1 == Ok::<
            ReaderAction<()>,
            Fault,
        >(ReaderAction::Done(())),
        at_record(Reader3View::initial().filled(header3_bytes(key) + behind).read_header().0, key),
        Reader3View::initial().filled(header3_bytes(key) + behind).read_header().0.data == behind,
{
    let start = Reader3View::initial().filled(header3_bytes(key) + behind);
    assert(start.data =~= header3_bytes(key) + behind);
    lemma_header3_round_trip(key, behind);
    assert((header3_bytes(key) + behind).skip(HEADER_LEN3 as int) =~= behind);
}

/// The headers of all the files of a table, with their offsets taken from
/// the position at which the file data starts.
pub proof fn lemma_headers_from_start(files: Seq<FileEntry>, data_position: nat)
    ensures
        Seq::new((files.len() - 0) as nat, |i: int| file_header(files, data_position, 0 + i))
            == Seq::new(
            files.len(),
            |i: int|
                FileHeader3View {
                    name: files[i].name,
                    size: files[i].size,
                    key: files[i].key,
                    offset: (data_position + sizes_before(files, i as nat)) as u32,
                },
        ),
{
    assert(Seq::new(
        (files.len() - 0) as nat,
        |i: int| file_header(files, data_position, 0 + i),
    ) =~= Seq::new(
        files.len(),
        |i: int|
            FileHeader3View {
                name: files[i].name,
                size: files[i].size,
                key: files[i].key,
                offset: (data_position + sizes_before(files, i as nat)) as u32,
            },
    ));
}

/// What a writer has staged of an archive, a run of steps reads back. The
/// data of a writer that has written nothing, holds an archive key that the
/// header can hold and files that all start at offsets that a `u32` holds,
/// and has staged the archive header and the file table, is read by a reader
/// that has seen nothing and is given that data and then anything: the step
/// for the archive header is done and yields the archive key, a run of steps
/// over as many records as there are files hands out the headers of the
/// files, each with the name, the size and the key of its file and with an
/// offset that is the length of the staged data and the sizes of the files
/// before it, and the step after the run finds the end of the table.
pub proof fn lemma_run_table_round_trip(
    writer: Writer3View,
    past: Writer3View,
    written: Writer3View,
    rest: Seq<u8>,
)
    requires
        writer.wf(),
        writer.offsets_fit(),
        writer.state is Header,
        writer.data.len() == 0,
        storable_key(writer.key),
        writer.header_step(past, Ok(WriterAction::Done(()))),
        past.table_step(written, Ok(WriterAction::Done(()))),
    ensures
        Reader3View::initial().filled(written.data + rest).read_header().1 == Ok::<
            ReaderAction<()>,
            Fault,
        >(ReaderAction::Done(())),
        Reader3View::initial().filled(written.data + rest).read_header().0.key == Some(writer.key),
        read_records(
            Reader3View::initial().filled(written.data + rest).read_header().0,
            writer.files.len(),
        ) matches Some((last, found)) && {
            &&& found == Seq::new(
                writer.files.len(),
                |i: int|
                    FileHeader3View {
                        name: writer.files[i].name,
                        size: writer.files[i].size,
                        key: writer.files[i].key,
                        offset: (written.data.len() + sizes_before(writer.files, i as nat)) as u32,
                    },
            )
            &&& last.read_file_header().1 == Ok::<ReaderAction<Option<FileHeader3View>>, Fault>(
                ReaderAction::Done(None),
            )
            &&& last.read_file_header().0.data == rest
        },
{
    let key = writer.key;
    let files = writer.files;
    let behind = table_bytes(key, files, writer.data_position, 0, files.len()) + sentinel_bytes(
        key,
    ) + rest;
    lemma_staged_table(writer, past, written, rest);
    lemma_step_reads_header3(key, behind);
    let reader = Reader3View::initial().filled(written.data + rest).read_header().0;
    lemma_run_reads_table(reader, key, files, writer.data_position, 0, rest);
    lemma_headers_from_start(files, writer.data_position);
}

} // verus!
