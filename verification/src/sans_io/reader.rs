use vstd::prelude::*;
use vstd::slice::slice_subrange;
use vstd::utf8::encode_utf8;

use super::{
    reader_answer, Error, Fault, FileHeader, FileHeaderView, ReaderAction, ReaderAnswer,
};
use crate::buffer::{
    buffer_available_data, buffer_available_space, buffer_capacity, buffer_consume,
    buffer_data, buffer_data_slice, buffer_fill, buffer_reset, buffer_space, buffer_space_slice,
    buffer_with_capacity,
};
use crate::cipher::{
    copy_bytes, crypt_data, crypt_file_data, data_counter_after, data_key_after,
    lemma_crypt_data_chunks, lemma_crypt_data_involution, lemma_data_position_split,
};
use crate::laws::{
    archive_bytes, entries_bytes, key_behind, key_behind_all, lemma_entry_round_trip,
    lemma_header_round_trip, lemma_scan_entry_stable, lemma_scan_header_stable, storable, Entry,
};
use crate::layout::{
    entry_bytes, entry_key_after, header_bytes, parse_entry, parse_header, scan_entry,
    scan_header, Parsed, Scan, DEFAULT_KEY, HEADER_LEN, MAX_FILE_NAME_LEN, VERSION,
};

verus! {

/// The size of the staging buffer of a reader.
pub const DEFAULT_BUFFER_CAPACITY: usize = 10240;

/// The largest position from which a reader can still step without leaving
/// the range of a `u64`: an entry header and the data of one file fit behind
/// it.
pub const POSITION_LIMIT: u64 = 0xffff_fffd_ffff_ffff;

/// The parse state
#[derive(Debug, Copy, Clone)]
pub enum State {
    /// The archive header has not been read.
    Header,
    /// The next thing to read is an entry header.
    FileHeader,
    /// An entry header has been read. `key` and `counter` are the cipher
    /// state of its data, and `remaining` bytes of it have not been handed
    /// out.
    FileData { key: u32, counter: u8, remaining: u32 },
}

/// A reader as a mathematical value.
pub struct ReaderView {
    /// The bytes that the driver has committed and the reader has not
    /// consumed.
    pub data: Seq<u8>,
    /// The parse state.
    pub state: State,
    /// Where in the archive the first byte of `data` stands.
    pub position: nat,
    /// Where in the archive the next entry header stands.
    pub next_file_position: nat,
    /// The rotating key of the archive.
    pub key: u32,
}

impl ReaderView {
    /// A reader that has seen nothing.
    pub open spec fn initial() -> ReaderView {
        ReaderView {
            data: Seq::empty(),
            state: State::Header,
            position: 0,
            next_file_position: 0,
            key: DEFAULT_KEY,
        }
    }

    /// The counter of the cipher names one of the four bytes of a key, and a
    /// reader that expects an entry header stands where it expects it.
    pub open spec fn wf(self) -> bool {
        match self.state {
            State::Header => true,
            State::FileHeader => self.position == self.next_file_position,
            State::FileData { counter, .. } => counter < 4,
        }
    }

    /// Whether the data of the reader is what stands in `archive` at the
    /// position of the reader.
    pub open spec fn mirrors(self, archive: Seq<u8>) -> bool {
        self.data.len() == 0 || (self.position + self.data.len() <= archive.len() && self.data
            == archive.subrange(self.position as int, (self.position + self.data.len()) as int))
    }

    /// Whether the reader can step without a position leaving the range of a
    /// `u64`.
    pub open spec fn within_limits(self) -> bool {
        self.position <= POSITION_LIMIT && self.next_file_position <= POSITION_LIMIT
    }

    /// The reader after the driver committed `bytes`.
    pub open spec fn filled(self, bytes: Seq<u8>) -> ReaderView {
        ReaderView { data: self.data + bytes, ..self }
    }

    /// The reader after the driver finished the seek it was asked for.
    pub open spec fn sought(self) -> ReaderView {
        ReaderView { data: Seq::empty(), position: self.next_file_position, ..self }
    }

    /// The step that reads the archive header: the reader afterwards and its
    /// answer. Past the header nothing happens. Before it, the header has to
    /// stand at the start of the data; it is then consumed and the reader
    /// expects the first entry header behind it.
    pub open spec fn read_header(self) -> (ReaderView, ReaderAnswer<()>) {
        if !(self.state is Header) {
            (self, Ok(ReaderAction::Done(())))
        } else {
            match scan_header(VERSION, self.data) {
                Scan::Short { missing } => (self, Ok(ReaderAction::Read(missing as usize))),
                Scan::Bad { fault } => (self, Err(fault)),
                Scan::Found { value, len } => (
                    ReaderView {
                        data: self.data.skip(len as int),
                        state: State::FileHeader,
                        position: len,
                        next_file_position: len,
                        key: self.key,
                    },
                    Ok(ReaderAction::Done(())),
                ),
            }
        }
    }

    /// The step that reads the next entry header, for a reader that is past
    /// the archive header. A reader that stands in the data of a file and not
    /// at the next entry header asks for a seek. Otherwise the entry header
    /// has to stand at the start of the data; it is then consumed, the reader
    /// takes the key behind it and remembers where the entry ends.
    pub open spec fn read_entry(self) -> (ReaderView, ReaderAnswer<FileHeaderView>) {
        if self.state is FileData && self.position != self.next_file_position {
            (self, Ok(ReaderAction::Seek(self.next_file_position as u64)))
        } else {
            let ready = ReaderView { state: State::FileHeader, ..self };
            match scan_entry(self.key, self.data) {
                Scan::Short { missing } => (ready, Ok(ReaderAction::Read(missing as usize))),
                Scan::Bad { fault } => (ready, Err(fault)),
                Scan::Found { value, len } => (
                    ReaderView {
                        data: self.data.skip(len as int),
                        state: State::FileData { key: value.key, counter: 0, remaining: value.size },
                        position: self.position + len,
                        next_file_position: (self.next_file_position + len + value.size) as nat,
                        key: value.key,
                    },
                    Ok(ReaderAction::Done(FileHeaderView { name: value.name, size: value.size })),
                ),
            }
        }
    }

    /// The step that reads the next entry header: the archive header first,
    /// if it has not been read, then the entry header.
    pub open spec fn read_file_header(self) -> (ReaderView, ReaderAnswer<FileHeaderView>) {
        let (past, answer) = self.read_header();
        match answer {
            Ok(ReaderAction::Done(_)) => past.read_entry(),
            Ok(ReaderAction::Read(n)) => (past, Ok(ReaderAction::Read(n))),
            Ok(ReaderAction::Seek(position)) => (past, Ok(ReaderAction::Seek(position))),
            Err(fault) => (past, Err(fault)),
        }
    }

    /// How many bytes a step hands out of the data of the current file, with
    /// `remaining` bytes of the file outstanding and room for `room` bytes.
    pub open spec fn handed_out(self, remaining: u32, room: nat) -> nat {
        let available = if self.data.len() <= room {
            self.data.len()
        } else {
            room
        };
        if available <= remaining {
            available
        } else {
            remaining as nat
        }
    }

    /// The step that reads file data, for a reader that is past the archive
    /// header, with `space` free bytes in its buffer after the step and `output` as the
    /// bytes of the buffer to fill: the reader afterwards, its answer and the
    /// bytes of the filled buffer. Outside the data of a file, and at its
    /// end, nothing is handed out. With no data at hand the reader asks for
    /// as much as its buffer can take. Otherwise it deciphers as many bytes
    /// as the data, the buffer to fill and the rest of the file allow into
    /// the front of the output.
    pub open spec fn read_data(self, space: nat, output: Seq<u8>) -> (
        ReaderView,
        ReaderAnswer<usize>,
        Seq<u8>,
    ) {
        match self.state {
            State::FileData { key, counter, remaining } => {
                if remaining == 0 {
                    (self, Ok(ReaderAction::Done(0)), output)
                } else if self.data.len() == 0 {
                    (self, Ok(ReaderAction::Read(space as usize)), output)
                } else {
                    let len = self.handed_out(remaining, output.len());
                    (
                        ReaderView {
                            data: self.data.skip(len as int),
                            state: State::FileData {
                                key: data_key_after(key, counter as int, len as int),
                                counter: data_counter_after(counter as int, len as int) as u8,
                                remaining: (remaining - len) as u32,
                            },
                            position: self.position + len,
                            next_file_position: self.next_file_position,
                            key: self.key,
                        },
                        Ok(ReaderAction::Done(len as usize)),
                        crypt_data(key, counter as int, self.data.take(len as int)) + output.skip(
                            len as int,
                        ),
                    )
                }
            },
            _ => (self, Ok(ReaderAction::Done(0)), output),
        }
    }

    /// Whether the reader is in a file of `size` bytes whose cipher started
    /// with `start_key`, with `read` bytes of the file handed out.
    pub open spec fn in_file(self, start_key: u32, size: u32, read: nat) -> bool {
        read <= size && self.state == (State::FileData {
            key: data_key_after(start_key, 0, read as int),
            counter: data_counter_after(0, read as int) as u8,
            remaining: (size - read) as u32,
        })
    }

    /// The step that reads file data: the archive header first, if it has
    /// not been read, then the data.
    pub open spec fn read_file_data(self, space: nat, output: Seq<u8>) -> (
        ReaderView,
        ReaderAnswer<usize>,
        Seq<u8>,
    ) {
        let (past, answer) = self.read_header();
        match answer {
            Ok(ReaderAction::Done(_)) => past.read_data(space, output),
            Ok(ReaderAction::Read(n)) => (past, Ok(ReaderAction::Read(n)), output),
            Ok(ReaderAction::Seek(position)) => (past, Ok(ReaderAction::Seek(position)), output),
            Err(fault) => (past, Err(fault), output),
        }
    }
}

/// A sans-io reader state machine.
#[derive(Debug)]
pub struct Reader {
    buffer: oval::Buffer,
    state: State,
    position: u64,
    next_file_position: u64,
    key: u32,
}

impl View for Reader {
    type V = ReaderView;

    closed spec fn view(&self) -> ReaderView {
        ReaderView {
            data: buffer_data(self.buffer),
            state: self.state,
            position: self.position as nat,
            next_file_position: self.next_file_position as nat,
            key: self.key,
        }
    }
}

impl Reader {
    /// The free bytes of the buffer, which the driver writes new data to.
    pub closed spec fn spec_space(&self) -> Seq<u8> {
        buffer_space(self.buffer)
    }

    /// The capacity of the buffer, as a mathematical value.
    pub closed spec fn spec_capacity(&self) -> nat {
        buffer_capacity(self.buffer)
    }

    /// The buffer has the capacity it was made with, and its data and its
    /// free space together take no more than the capacity and no less than
    /// half of it.
    pub open spec fn roomy(&self) -> bool {
        &&& self.spec_capacity() == DEFAULT_BUFFER_CAPACITY
        &&& self@.data.len() + self.spec_space().len() <= DEFAULT_BUFFER_CAPACITY
        &&& self@.data.len() + self.spec_space().len() >= DEFAULT_BUFFER_CAPACITY / 2
    }

    /// Create a new reader state machine.
    pub fn new() -> (reader: Self)
        ensures
            reader@ == ReaderView::initial(),
            reader@.wf(),
            reader.roomy(),
            reader.spec_space().len() == DEFAULT_BUFFER_CAPACITY,
    {
        Reader {
            buffer: buffer_with_capacity(DEFAULT_BUFFER_CAPACITY),
            state: State::Header,
            position: 0,
            next_file_position: 0,
            key: DEFAULT_KEY,
        }
    }

    /// Get a reference to the read buffer part where new data should be written.
    ///
    /// You should indicate how many bytes were written with `fill`.
    pub fn space(&mut self) -> (space: &mut [u8])
        ensures
            space@ == old(self).spec_space(),
            final(space)@.len() == space@.len(),
            final(self).spec_space() == final(space)@,
            final(self)@ == old(self)@,
            old(self).roomy() ==> final(self).roomy(),
    {
        buffer_space_slice(&mut self.buffer)
    }

    /// Set the number of bytes written to the space buffer.
    ///
    /// The bytes at the front of the space are appended to the data, as many
    /// as `num` says and the space holds.
    pub fn fill(&mut self, num: usize)
        ensures
            old(self)@.wf() ==> final(self)@.wf(),
            old(self).roomy() ==> final(self).roomy(),
            final(self)@ == old(self)@.filled(
                old(self).spec_space().take(
                    if num <= old(self).spec_space().len() {
                        num as int
                    } else {
                        old(self).spec_space().len() as int
                    },
                ),
            ),
            final(self).spec_space().len() + num >= old(self).spec_space().len(),
    {
        buffer_fill(&mut self.buffer, num);
    }

    /// Tell the state machine that the seek it requested is finished.
    ///
    /// This will clear any buffered bytes.
    /// A seek is requested only while the position is not that of the next
    /// entry header.
    pub fn finish_seek(&mut self)
        requires
            old(self)@.position != old(self)@.next_file_position,
        ensures
            old(self)@.wf() ==> final(self)@.wf(),
            old(self).roomy() ==> final(self).roomy(),
            final(self)@ == old(self)@.sought(),
            final(self).spec_space().len() >= old(self)@.data.len() + old(self).spec_space().len(),
    {
        self.position = self.next_file_position;
        buffer_reset(&mut self.buffer);
    }

    /// Whether the reader can step without a position leaving the range of a
    /// `u64`.
    pub fn within_limits(&self) -> (within: bool)
        ensures
            within == self@.within_limits(),
    {
        self.position <= POSITION_LIMIT && self.next_file_position <= POSITION_LIMIT
    }

    /// Get the amount of data currently in the buffer.
    pub fn available_data(&self) -> (n: usize)
        ensures
            n == self@.data.len(),
    {
        buffer_available_data(&self.buffer)
    }

    /// Step the state machine, performing the action of reading and validating the header.
    ///
    /// If the header has already been read, `Ok(ReaderAction::Done(()))` is returned and no work is performed.
    /// Calling this method is optional.
    /// The state machine will automatically read the header if it has not been read.
    /// This will never request a seek.
    pub fn step_read_header(&mut self) -> (r: Result<ReaderAction<()>, Error>)
        requires
            old(self)@.wf(),
            old(self).roomy(),
        ensures
            final(self)@.wf(),
            final(self).roomy(),
            r matches Ok(ReaderAction::Read(n)) ==> 1 <= n <= final(self).spec_space().len(),
            final(self).spec_space().len() <= usize::MAX,
            final(self)@ == old(self)@.read_header().0,
            reader_answer(r) == old(self)@.read_header().1,
            final(self).spec_space().len() >= old(self).spec_space().len(),
            final(self)@ == old(self)@ ==> final(self).spec_space() == old(self).spec_space(),
    {
        match self.state {
            State::Header => {},
            State::FileHeader | State::FileData { .. } => {
                return Ok(ReaderAction::Done(()));
            },
        }
        match parse_header(VERSION, buffer_data_slice(&self.buffer)) {
            Parsed::Short(missing) => {
                return Ok(ReaderAction::Read(missing));
            },
            Parsed::Bad(error) => {
                return Err(error);
            },
            Parsed::Found(_, _) => {},
        }
        buffer_consume(&mut self.buffer, HEADER_LEN);
        self.position = 8;
        self.next_file_position = 8;
        self.state = State::FileHeader;
        Ok(ReaderAction::Done(()))
    }

    /// Step the state machine, performing the action of reading the next file header.
    ///
    /// This will read the header if it has not been read already.
    /// This may request a seek.
    /// If you want to skip over the file data, call this again after it returns `ReaderAction::Done`.
    pub fn step_read_file_header(&mut self) -> (r: Result<ReaderAction<FileHeader>, Error>)
        requires
            old(self)@.wf(),
            old(self).roomy(),
            old(self)@.within_limits(),
        ensures
            final(self)@.wf(),
            final(self).roomy(),
            r matches Ok(ReaderAction::Read(n)) ==> 1 <= n <= final(self).spec_space().len(),
            final(self).spec_space().len() <= usize::MAX,
            final(self)@ == old(self)@.read_file_header().0,
            reader_answer(r) == old(self)@.read_file_header().1,
            final(self).spec_space().len() >= old(self).spec_space().len(),
            final(self)@ == old(self)@ ==> final(self).spec_space() == old(self).spec_space(),
    {
        match self.step_read_header() {
            Err(error) => {
                return Err(error);
            },
            Ok(ReaderAction::Read(n)) => {
                return Ok(ReaderAction::Read(n));
            },
            Ok(ReaderAction::Seek(position)) => {
                return Ok(ReaderAction::Seek(position));
            },
            Ok(ReaderAction::Done(_)) => {},
        }
        match self.state {
            State::FileData { .. } => {
                if self.position != self.next_file_position {
                    return Ok(ReaderAction::Seek(self.next_file_position));
                }
                self.state = State::FileHeader;
            },
            _ => {},
        }
        let parsed = parse_entry(self.key, buffer_data_slice(&self.buffer));
        match parsed {
            Parsed::Short(missing) => Ok(ReaderAction::Read(missing)),
            Parsed::Bad(error) => Err(error),
            Parsed::Found(found, len) => {
                let (header, key) = found;
                buffer_consume(&mut self.buffer, len);
                self.position = self.position + len as u64;
                self.next_file_position = self.next_file_position + len as u64 + header.size as u64;
                self.key = key;
                self.state = State::FileData { key, counter: 0, remaining: header.size };
                Ok(ReaderAction::Done(header))
            },
        }
    }

    /// Read file data.
    ///
    /// This will read the header if it has not already been read.
    /// This will return `Ok(ReaderAction::Done(0))` if a file header has not been read.
    /// This will never request a seek.
    pub fn step_read_file_data(&mut self, output_buffer: &mut [u8]) -> (r: Result<
        ReaderAction<usize>,
        Error,
    >)
        requires
            old(self)@.wf(),
            old(self).roomy(),
            old(self)@.within_limits(),
        ensures
            final(self)@.wf(),
            final(self).roomy(),
            r matches Ok(ReaderAction::Read(n)) ==> 1 <= n <= final(self).spec_space().len(),
            final(self).spec_space().len() <= usize::MAX,
            final(self)@ == old(self)@.read_file_data(
                final(self).spec_space().len(),
                old(output_buffer)@,
            ).0,
            reader_answer(r) == old(self)@.read_file_data(
                final(self).spec_space().len(),
                old(output_buffer)@,
            ).1,
            final(output_buffer)@ == old(self)@.read_file_data(
                final(self).spec_space().len(),
                old(output_buffer)@,
            ).2,
            final(self).spec_space().len() >= old(self).spec_space().len(),
            final(self)@ == old(self)@ ==> final(self).spec_space() == old(self).spec_space(),
    {
        match self.step_read_header() {
            Err(error) => {
                return Err(error);
            },
            Ok(ReaderAction::Read(n)) => {
                return Ok(ReaderAction::Read(n));
            },
            Ok(ReaderAction::Seek(position)) => {
                return Ok(ReaderAction::Seek(position));
            },
            Ok(ReaderAction::Done(_)) => {},
        }
        let (mut key, mut counter, remaining) = match self.state {
            State::FileData { key, counter, remaining } => (key, counter, remaining),
            _ => {
                return Ok(ReaderAction::Done(0));
            },
        };
        if remaining == 0 {
            return Ok(ReaderAction::Done(0));
        }
        let data = buffer_data_slice(&self.buffer);
        if data.len() == 0 {
            return Ok(ReaderAction::Read(buffer_available_space(&self.buffer)));
        }
        let len = if data.len() <= output_buffer.len() {
            data.len()
        } else {
            output_buffer.len()
        };
        let len = if len <= remaining as usize {
            len
        } else {
            remaining as usize
        };
        if len == 0 {
            assert(self@.data.skip(0) =~= self@.data);
            assert(output_buffer@.take(0) + output_buffer@.skip(0) =~= output_buffer@);
            return Ok(ReaderAction::Done(0));
        }
        let (head, _) = output_buffer.split_at_mut(len);
        copy_bytes(head, slice_subrange(data, 0, len));
        crypt_file_data(&mut key, &mut counter, head);
        self.state = State::FileData { key, counter, remaining: remaining - len as u32 };
        buffer_consume(&mut self.buffer, len);
        self.position = self.position + len as u64;
        Ok(ReaderAction::Done(len))
    }
}

impl Default for Reader {
    fn default() -> (reader: Self)
        ensures
            reader@ == ReaderView::initial(),
            reader@.wf(),
            reader.roomy(),
            reader.spec_space().len() == DEFAULT_BUFFER_CAPACITY,
    {
        Self::new()
    }
}

/// Reading the archive header again changes nothing: once the step that
/// reads the header is done, the same step on the reader it left is done at
/// once and leaves the reader, the bytes of its data among the rest, as it
/// is.
pub proof fn lemma_read_header_idempotent(reader: ReaderView)
    ensures
        reader.read_header().1 == Ok::<ReaderAction<()>, Fault>(ReaderAction::Done(()))
            ==> reader.read_header().0.read_header() == (
            reader.read_header().0,
            Ok::<ReaderAction<()>, Fault>(ReaderAction::Done(())),
        ),
{
}

/// Reading in pieces is reading at once. A reader that is stepped while the
/// bytes of an entry header have arrived in part, asks for more and gets the
/// rest, answers the next step as a reader that was given all the bytes
/// before its first step, and is then the same reader.
pub proof fn lemma_partial_reads(reader: ReaderView, first: Seq<u8>, second: Seq<u8>)
    ensures
        reader.filled(first).read_file_header().1 matches Ok(ReaderAction::Read(_))
            ==> reader.filled(first).read_file_header().0.filled(second).read_file_header()
            == reader.filled(first + second).read_file_header(),
{
    let data = reader.data + first;
    assert((reader.data + first) + second =~= reader.data + (first + second));
    if reader.state is Header {
        lemma_scan_header_stable(VERSION, data, second);
        if scan_header(VERSION, data) is Found {
            assert(data.skip(HEADER_LEN as int) + second =~= (data + second).skip(
                HEADER_LEN as int,
            ));
        }
    }
}

/// Reading file data leaves the course of the reader through the archive as
/// it is: the key of the archive and the place of the next entry header are
/// the same before and after the step.
pub proof fn lemma_data_keeps_course(reader: ReaderView, space: nat, output: Seq<u8>)
    ensures
        reader.read_file_data(space, output).0.key == reader.key,
        !(reader.state is Header) ==> reader.read_file_data(space, output).0.next_file_position
            == reader.next_file_position,
{
}

/// The entry header that a reader reports is the one that stands in the
/// archive where the reader expects the next entry header, under the key of
/// the reader, whatever the reader has read of the file data before: a
/// reader past the archive header whose data is what stands in the archive at
/// its position, and whose step is done with a file header, has found that
/// header where it stands in the archive.
pub proof fn lemma_header_from_archive(reader: ReaderView, archive: Seq<u8>)
    requires
        reader.wf(),
        !(reader.state is Header),
        reader.mirrors(archive),
        reader.read_file_header().1 matches Ok(ReaderAction::Done(_)),
    ensures
        scan_entry(reader.key, archive.skip(reader.next_file_position as int)) == scan_entry(
            reader.key,
            reader.data,
        ),
        scan_entry(reader.key, reader.data) matches Scan::Found { value, .. }
            && reader.read_file_header().1 == Ok::<ReaderAction<FileHeaderView>, Fault>(
            ReaderAction::Done(FileHeaderView { name: value.name, size: value.size }),
        ),
{
    let position = reader.position as int;
    let behind = archive.skip(position + reader.data.len());
    assert(position == reader.next_file_position);
    assert(scan_entry(reader.key, reader.data) is Found);
    assert(reader.data.len() >= 8);
    assert(archive.skip(position) =~= reader.data + behind);
    lemma_scan_entry_stable(reader.key, reader.data, behind);
}

/// A reader whose data is what stands in the archive at its position stays
/// so when it steps, and when it has sought the next entry header.
pub proof fn lemma_steps_keep_mirror(
    reader: ReaderView,
    archive: Seq<u8>,
    space: nat,
    output: Seq<u8>,
)
    requires
        reader.mirrors(archive),
        reader.state is Header ==> reader.position == 0,
    ensures
        reader.read_header().0.mirrors(archive),
        reader.read_file_header().0.mirrors(archive),
        reader.read_file_data(space, output).0.mirrors(archive),
        reader.sought().mirrors(archive),
{
    let past = reader.read_header().0;
    lemma_consuming_keeps_mirror(reader, archive, past);
    lemma_consuming_keeps_mirror(past, archive, past.read_entry().0);
    lemma_consuming_keeps_mirror(past, archive, past.read_data(space, output).0);
}

/// A reader whose data is what stands in the archive at its position stays
/// so when it moves on by as many bytes as it drops from the front of its
/// data.
pub proof fn lemma_consuming_keeps_mirror(reader: ReaderView, archive: Seq<u8>, after: ReaderView)
    requires
        reader.mirrors(archive),
        after.position >= reader.position,
        after.position - reader.position <= reader.data.len(),
        after.data =~= reader.data.skip(after.position - reader.position),
    ensures
        after.mirrors(archive),
{
    if after.data.len() > 0 {
        assert(after.data =~= archive.subrange(
            after.position as int,
            (after.position + after.data.len()) as int,
        ));
    }
}

/// A reader whose data is what stands in the archive at its position stays
/// so when the driver commits the bytes that stand in the archive behind its
/// data.
pub proof fn lemma_filling_keeps_mirror(reader: ReaderView, archive: Seq<u8>, bytes: Seq<u8>)
    requires
        reader.mirrors(archive),
        reader.position + reader.data.len() + bytes.len() <= archive.len(),
        bytes == archive.subrange(
            (reader.position + reader.data.len()) as int,
            (reader.position + reader.data.len() + bytes.len()) as int,
        ),
    ensures
        reader.filled(bytes).mirrors(archive),
{
    let after = reader.filled(bytes);
    assert(after.data =~= archive.subrange(
        after.position as int,
        (after.position + after.data.len()) as int,
    ));
}

/// A file is read in pieces as it is read at once. A reader in a file, with
/// some of its bytes handed out, hands out of the bytes at hand those that
/// stand at their place when all of the file up to there is deciphered with
/// the key the file started with; and the reader is then further in the
/// file.
pub proof fn lemma_file_read_in_pieces(
    reader: ReaderView,
    start_key: u32,
    size: u32,
    read: Seq<u8>,
    space: nat,
    output: Seq<u8>,
)
    requires
        reader.in_file(start_key, size, read.len()),
        read.len() < size,
        reader.data.len() > 0,
    ensures
        ({
            let count = reader.handed_out((size - read.len()) as u32, output.len());
            &&& reader.read_data(space, output).1 == Ok::<ReaderAction<usize>, Fault>(
                ReaderAction::Done(count as usize),
            )
            &&& reader.read_data(space, output).2.take(count as int) == crypt_data(
                start_key,
                0,
                read + reader.data.take(count as int),
            ).skip(read.len() as int)
            &&& reader.read_data(space, output).0.in_file(start_key, size, read.len() + count)
            &&& reader.read_data(space, output).0.data == reader.data.skip(count as int)
        }),
{
    let count = reader.handed_out((size - read.len()) as u32, output.len());
    let piece = reader.data.take(count as int);
    lemma_crypt_data_chunks(start_key, 0, read, piece);
    lemma_data_position_split(start_key, 0, read.len() as int, count as int);
    let handed = crypt_data(
        data_key_after(start_key, 0, read.len() as int),
        data_counter_after(0, read.len() as int),
        piece,
    );
    assert(crypt_data(start_key, 0, read + piece).skip(read.len() as int) =~= handed);
    assert((handed + output.skip(count as int)).take(count as int) =~= handed);
}

/// What a run of steps over `count` files hands out: for each file the step
/// that reads its header and then the step that reads its data into a
/// buffer as large as the file. The run yields the reader it ends with and
/// the files, unless a step is not done or hands out less than the file.
pub open spec fn read_files(reader: ReaderView, space: nat, count: nat) -> Option<
    (ReaderView, Seq<Entry>),
>
    decreases count,
{
    if count == 0 {
        Some((reader, Seq::empty()))
    } else {
        let (at_data, answer) = reader.read_file_header();
        match answer {
            Ok(ReaderAction::Done(header)) => {
                let (behind, handed, output) = at_data.read_file_data(
                    space,
                    Seq::new(header.size as nat, |i: int| 0u8),
                );
                if handed == Ok::<ReaderAction<usize>, Fault>(
                    ReaderAction::Done(header.size as usize),
                ) {
                    match read_files(behind, space, (count - 1) as nat) {
                        Some((last, rest)) => Some(
                            (last, seq![Entry { name: header.name, data: output }] + rest),
                        ),
                        None => None,
                    }
                } else {
                    None
                }
            },
            _ => None,
        }
    }
}

/// Whether the reader is past the archive header and stands where it expects
/// the next entry header.
pub open spec fn at_entry(reader: ReaderView) -> bool {
    !(reader.state is Header) && reader.position == reader.next_file_position
}

/// The step for an entry header finds the header that was written: a reader
/// that stands where it expects an entry header, and whose data begins with
/// the header of a file written with its key, is done with that header, holds
/// what followed it, and turns to the data of the file with the key behind
/// the header.
pub proof fn lemma_step_reads_entry(reader: ReaderView, name: Seq<char>, size: u32, rest: Seq<u8>)
    requires
        at_entry(reader),
        encode_utf8(name).len() <= MAX_FILE_NAME_LEN,
        reader.data == entry_bytes(reader.key, encode_utf8(name), size) + rest,
    ensures
        reader.read_file_header().1 == Ok::<ReaderAction<FileHeaderView>, Fault>(
            ReaderAction::Done(FileHeaderView { name, size }),
        ),
        reader.read_file_header().0 == (ReaderView {
            data: rest,
            state: State::FileData {
                key: entry_key_after(reader.key, encode_utf8(name).len()),
                counter: 0,
                remaining: size,
            },
            position: reader.position + entry_bytes(reader.key, encode_utf8(name), size).len(),
            next_file_position: (reader.position + entry_bytes(
                reader.key,
                encode_utf8(name),
                size,
            ).len() + size) as nat,
            key: entry_key_after(reader.key, encode_utf8(name).len()),
        }),
{
    lemma_entry_round_trip(reader.key, name, size, rest);
    let head = entry_bytes(reader.key, encode_utf8(name), size);
    assert((head + rest).skip(head.len() as int) =~= rest);
}

/// The step for file data hands out the file that was written: a reader at
/// the start of the data of a file, whose data begins with the enciphered
/// bytes of the file, hands out the file into a buffer as large as the file,
/// holds what followed it, and stands where it expects the next entry
/// header.
pub proof fn lemma_step_reads_data(
    reader: ReaderView,
    space: nat,
    key: u32,
    plain: Seq<u8>,
    rest: Seq<u8>,
)
    requires
        plain.len() <= u32::MAX,
        reader.state == (State::FileData { key, counter: 0, remaining: plain.len() as u32 }),
        reader.next_file_position == reader.position + plain.len(),
        reader.data == crypt_data(key, 0, plain) + rest,
    ensures
        reader.read_file_data(space, Seq::new(plain.len(), |i: int| 0u8)).1 == Ok::<
            ReaderAction<usize>,
            Fault,
        >(ReaderAction::Done(plain.len() as usize)),
        reader.read_file_data(space, Seq::new(plain.len(), |i: int| 0u8)).2 == plain,
        at_entry(reader.read_file_data(space, Seq::new(plain.len(), |i: int| 0u8)).0),
        reader.read_file_data(space, Seq::new(plain.len(), |i: int| 0u8)).0.data == rest,
        reader.read_file_data(space, Seq::new(plain.len(), |i: int| 0u8)).0.key == reader.key,
        reader.read_file_data(space, Seq::new(plain.len(), |i: int| 0u8)).0.position
            == reader.position + plain.len(),
{
    let size = plain.len();
    let room = Seq::new(size, |i: int| 0u8);
    let body = crypt_data(key, 0, plain);
    let (behind, handed, output) = reader.read_data(space, room);
    lemma_crypt_data_involution(key, 0, plain);
    if size > 0 {
        assert(reader.handed_out(size as u32, room.len()) == size);
        assert(reader.data.take(size as int) =~= body);
        assert(room.skip(size as int) =~= Seq::<u8>::empty());
        assert(output =~= plain);
        assert(behind.data =~= rest);
    } else {
        assert(plain =~= Seq::<u8>::empty());
        assert(body =~= Seq::<u8>::empty());
        assert(output =~= plain);
        assert(reader.data =~= rest);
    }
}

/// A run of steps reads files back as they were written. A reader that stands
/// where it expects an entry header, and whose data is the entries of a
/// sequence of files written with its key and then anything, hands out those
/// files, with the same names and the same data in the same order, in a run
/// of steps over as many files; it ends behind the entries, with the key
/// behind them, and holds what followed them.
pub proof fn lemma_run_reads_entries(
    reader: ReaderView,
    space: nat,
    entries: Seq<Entry>,
    tail: Seq<u8>,
)
    requires
        at_entry(reader),
        forall|i: int| 0 <= i < entries.len() ==> storable(#[trigger] entries[i]),
        reader.data == entries_bytes(reader.key, entries) + tail,
    ensures
        read_files(reader, space, entries.len()) matches Some((last, found)) && {
            &&& found == entries
            &&& at_entry(last)
            &&& last.data == tail
            &&& last.key == key_behind_all(reader.key, entries)
            &&& last.position == reader.position + entries_bytes(reader.key, entries).len()
        },
    decreases entries.len(),
{
    if entries.len() == 0 {
        assert(entries_bytes(reader.key, entries) + tail =~= tail);
    } else {
        let first = entries[0];
        let others = entries.drop_first();
        let size = first.data.len() as u32;
        let next = key_behind(reader.key, first);
        let head = entry_bytes(reader.key, encode_utf8(first.name), size);
        let body = crypt_data(next, 0, first.data);
        let behind_bytes = entries_bytes(next, others) + tail;
        assert(storable(first));
        assert forall|i: int| 0 <= i < others.len() implies storable(#[trigger] others[i]) by {
            assert(others[i] == entries[i + 1]);
        }
        assert(reader.data =~= head + (body + behind_bytes));
        lemma_step_reads_entry(reader, first.name, size, body + behind_bytes);
        let at_data = reader.read_file_header().0;
        lemma_step_reads_data(at_data, space, next, first.data, behind_bytes);
        let behind = at_data.read_file_data(space, Seq::new(size as nat, |i: int| 0u8)).0;
        lemma_run_reads_entries(behind, space, others, tail);
        let rest = read_files(behind, space, others.len())->Some_0.1;
        assert(seq![first] + rest =~= entries);
    }
}

/// An archive is read back in a run of steps as it was written. A reader that
/// has seen nothing and is given the archive of a sequence of files, each
/// with a name of no more than the maximum length and with data whose length
/// a `u32` holds, hands out those files in a run of steps over as many files.
/// With nothing behind the archive the reader then has no data and asks for
/// the four bytes of a further length field, which at the end of the input
/// ends the archive; with one byte behind the archive it holds that byte and
/// asks for three more, which at the end of the input is an error.
pub proof fn lemma_run_reads_archive(entries: Seq<Entry>, space: nat, tail: Seq<u8>)
    requires
        forall|i: int| 0 <= i < entries.len() ==> storable(#[trigger] entries[i]),
        tail.len() <= 1,
    ensures
        read_files(
            ReaderView::initial().filled(archive_bytes(entries) + tail).read_header().0,
            space,
            entries.len(),
        ) matches Some((last, found)) && {
            &&& found == entries
            &&& last.data == tail
            &&& last.read_file_header() == (
                ReaderView { state: State::FileHeader, ..last },
                Ok::<ReaderAction<FileHeaderView>, Fault>(
                    ReaderAction::Read((4 - tail.len()) as usize),
                ),
            )
        },
        ReaderView::initial().filled(archive_bytes(entries) + tail).read_header().1 == Ok::<
            ReaderAction<()>,
            Fault,
        >(ReaderAction::Done(())),
{
    let body = entries_bytes(DEFAULT_KEY, entries);
    let start = ReaderView::initial().filled(archive_bytes(entries) + tail);
    assert(start.data =~= header_bytes(VERSION) + (body + tail));
    lemma_header_round_trip(VERSION, body + tail);
    let past = start.read_header().0;
    assert(past.data =~= body + tail);
    lemma_run_reads_entries(past, space, entries, tail);
}

} // verus!
