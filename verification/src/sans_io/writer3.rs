use vstd::prelude::*;
use vstd::utf8::encode_utf8;

use super::{
    writer_answer, Error, Fault, FileHeader3View, WriterAction, WriterAction3, WriterAnswer,
};
use crate::buffer::{
    buffer_available_space, buffer_capacity, buffer_consume, buffer_data, buffer_data_slice,
    buffer_fill, buffer_space, buffer_space_slice, buffer_with_capacity,
};
use crate::cipher::{
    crypt_data, crypt_file_data, data_counter_after, data_key_after, lemma_crypt_data_chunks,
    lemma_data_position_split,
};
use crate::laws::{
    lemma_record_len, lemma_record_round_trip, lemma_sentinel_round_trip, ReadFault,
};
use crate::layout::{
    header3_bytes, put_header3, put_record, put_sentinel, record_bytes, scan_record,
    sentinel_bytes, Scan, HEADER_LEN3, MAX_FILE_NAME_LEN, U32_LEN,
};

verus! {

/// The size of the staging buffer of a writer.
pub const DEFAULT_BUFFER_CAPACITY: usize = 10240;

/// The state of a writer.
#[derive(Debug, Copy, Clone)]
pub enum State {
    /// The archive header has not been written.
    Header,
    /// The records of the first `index` files have been written, and the
    /// data of those files takes `relative_data_offset` bytes.
    FileHeader { index: usize, relative_data_offset: u32 },
    /// The file table has been written. The data of the first `index` files
    /// has been written, `remaining` bytes of the next file have not, and
    /// `key` and `counter` are the cipher state of its data.
    FileData { index: usize, remaining: u32, key: u32, counter: u8 },
}

/// A file that a writer was told about.
pub struct FileEntry {
    /// The file name.
    pub name: Seq<char>,
    /// The length of the file data.
    pub size: u32,
    /// The key of the file data.
    pub key: u32,
}

/// The files that a writer holds, as mathematical values.
pub open spec fn entries(files: Seq<(String, u32, u32)>) -> Seq<FileEntry> {
    Seq::new(files.len(), |i: int| FileEntry { name: files[i].0@, size: files[i].1, key: files[i].2 })
}

/// The length of the record of a file in the file table.
pub open spec fn record_len(file: FileEntry) -> nat {
    4 * U32_LEN as nat + encode_utf8(file.name).len()
}

/// The length of the records of the first `count` files.
pub open spec fn records_len(files: Seq<FileEntry>, count: nat) -> nat
    decreases count,
{
    if count == 0 {
        0
    } else {
        records_len(files, (count - 1) as nat) + record_len(files[count - 1])
    }
}

/// The length of the data of the first `count` files.
pub open spec fn sizes_before(files: Seq<FileEntry>, count: nat) -> nat
    decreases count,
{
    if count == 0 {
        0
    } else {
        sizes_before(files, (count - 1) as nat) + files[count - 1].size as nat
    }
}

/// Where the file table of an archive with these files ends and the file
/// data starts: behind the archive header, a record for each file and the
/// record that ends the table.
pub open spec fn table_end(files: Seq<FileEntry>) -> nat {
    HEADER_LEN3 as nat + records_len(files, files.len()) + 4 * U32_LEN as nat
}

/// The record of file `index` in an archive whose file data starts at
/// `data_position`: the data of a file stands behind the data of the files
/// before it.
pub open spec fn file_record(key: u32, files: Seq<FileEntry>, data_position: nat, index: int) -> Seq<
    u8,
> {
    record_bytes(
        key,
        (data_position + sizes_before(files, index as nat)) as u32,
        files[index].size,
        files[index].key,
        encode_utf8(files[index].name),
    )
}

/// The records of the files from `from` up to `to`, one after the other.
pub open spec fn table_bytes(
    key: u32,
    files: Seq<FileEntry>,
    data_position: nat,
    from: nat,
    to: nat,
) -> Seq<u8>
    decreases to,
{
    if to <= from {
        Seq::empty()
    } else {
        table_bytes(key, files, data_position, from, (to - 1) as nat) + file_record(
            key,
            files,
            data_position,
            to - 1,
        )
    }
}

/// A writer of the third format as a mathematical value.
pub struct Writer3View {
    /// The bytes that the writer has staged and the driver has not taken.
    pub data: Seq<u8>,
    /// The free bytes behind the data, where the driver stages file data.
    pub space: Seq<u8>,
    /// The archive key.
    pub key: u32,
    /// The state of the writer.
    pub state: State,
    /// The files that the writer was told about.
    pub files: Seq<FileEntry>,
    /// Where the file data starts in the archive.
    pub data_position: nat,
}

impl Writer3View {
    /// The file data starts where the table of the files ends, no name is
    /// longer than the maximum, and the state speaks of files that exist:
    /// while the table is written it holds the length of the data of the
    /// files whose records are written, and while data is written no more of
    /// a file is outstanding than it has and the counter of the cipher names
    /// one of the four bytes of a key.
    pub open spec fn wf(self) -> bool {
        &&& self.data_position == table_end(self.files)
        &&& forall|i: int|
            0 <= i < self.files.len() ==> encode_utf8(#[trigger] self.files[i].name).len()
                <= MAX_FILE_NAME_LEN
        &&& match self.state {
            State::Header => true,
            State::FileHeader { index, relative_data_offset } => index <= self.files.len()
                && relative_data_offset == sizes_before(self.files, index as nat),
            State::FileData { index, remaining, key, counter } => counter < 4 && index
                <= self.files.len() && (index < self.files.len() ==> remaining
                <= self.files[index as int].size),
        }
    }

    /// Whether every file starts at an offset that a `u32` holds.
    pub open spec fn offsets_fit(self) -> bool {
        self.data_position + sizes_before(self.files, self.files.len()) <= u32::MAX
    }

    /// Whether `post` is this writer after it staged `bytes`: they stand
    /// behind the data, the space has lost no more than their length, and
    /// key and files are the same.
    pub open spec fn staged(self, bytes: Seq<u8>, post: Writer3View) -> bool {
        &&& post.data == self.data + bytes
        &&& post.space.len() + bytes.len() >= self.space.len()
        &&& post.key == self.key
        &&& post.files == self.files
        &&& post.data_position == self.data_position
    }

    /// Whether files can still be added: the file table has not been
    /// started.
    pub open spec fn accepts_files(self) -> bool {
        match self.state {
            State::Header => true,
            State::FileHeader { index, .. } => index == 0,
            State::FileData { .. } => false,
        }
    }

    /// Whether the file table, with the record of a further file whose name
    /// has `name_len` bytes, still ends at a position that a `u32` holds.
    pub open spec fn has_room(self, name_len: nat) -> bool {
        self.data_position + 4 * U32_LEN + name_len <= u32::MAX
    }

    /// The writer after the file `file` was added to it.
    pub open spec fn with_file(self, file: FileEntry) -> Writer3View {
        Writer3View {
            files: self.files.push(file),
            data_position: self.data_position + record_len(file),
            ..self
        }
    }

    /// The state in which the writer expects the data of file `index`: all
    /// of the file is outstanding and its cipher starts with its key. Behind
    /// the last file nothing is outstanding.
    pub open spec fn data_state(self, index: usize) -> State {
        if index < self.files.len() {
            State::FileData {
                index,
                remaining: self.files[index as int].size,
                key: self.files[index as int].key,
                counter: 0,
            }
        } else {
            State::FileData { index, remaining: 0, key: 0, counter: 0 }
        }
    }

    /// Whether all that the writer was told about has been written: nothing
    /// has been started, or the data of every file is complete.
    pub open spec fn complete(self) -> bool {
        match self.state {
            State::Header => true,
            State::FileHeader { .. } => false,
            State::FileData { index, .. } => index == self.files.len(),
        }
    }

    /// The step that writes the archive header, from this writer to `post`
    /// with `answer`. Past the header nothing happens. Before it, the writer
    /// asks for the buffer to be emptied while the header does not fit the
    /// space, and else stages the header and turns to the file table.
    pub open spec fn header_step(self, post: Writer3View, answer: WriterAnswer<()>) -> bool {
        if !(self.state is Header) {
            post == self && answer == Ok::<WriterAction<()>, Fault>(WriterAction::Done(()))
        } else if self.space.len() < HEADER_LEN3 {
            post == self && answer == Ok::<WriterAction<()>, Fault>(WriterAction::Write)
        } else {
            &&& self.staged(header3_bytes(self.key), post)
            &&& post.state == State::FileHeader { index: 0, relative_data_offset: 0 }
            &&& answer == Ok::<WriterAction<()>, Fault>(WriterAction::Done(()))
        }
    }

    /// The step that writes the file table, for a writer that is past the
    /// archive header. Past the table nothing happens. Else the writer
    /// stages the records that are still to be written, one after the other,
    /// and behind the last the record that ends the table, and then expects
    /// the data of the first file. It stops before the first record that
    /// does not fit the space, remembers how far it came and asks for the
    /// buffer to be emptied.
    pub open spec fn table_step(self, post: Writer3View, answer: WriterAnswer<()>) -> bool {
        match self.state {
            State::FileHeader { index, relative_data_offset } => {
                match answer {
                    Ok(WriterAction::Write) => {
                        &&& post.state matches State::FileHeader {
                            index: stop,
                            relative_data_offset: offset,
                        }
                        &&& index <= stop <= self.files.len()
                        &&& offset == sizes_before(self.files, stop as nat)
                        &&& self.staged(
                            table_bytes(
                                self.key,
                                self.files,
                                self.data_position,
                                index as nat,
                                stop as nat,
                            ),
                            post,
                        )
                        &&& post.space.len() < if stop < self.files.len() {
                            record_len(self.files[stop as int])
                        } else {
                            4 * U32_LEN as nat
                        }
                    },
                    Ok(WriterAction::Done(_)) => {
                        &&& post.state == self.data_state(0)
                        &&& self.staged(
                            table_bytes(
                                self.key,
                                self.files,
                                self.data_position,
                                index as nat,
                                self.files.len(),
                            ) + sentinel_bytes(self.key),
                            post,
                        )
                    },
                    Err(_) => false,
                }
            },
            _ => post == self && answer == Ok::<WriterAction<()>, Fault>(WriterAction::Done(())),
        }
    }

    /// The step that writes the file table: the archive header first, if it
    /// has not been written, then the table.
    pub open spec fn file_headers_step(self, post: Writer3View, answer: WriterAnswer<()>) -> bool {
        exists|past: Writer3View, head: WriterAnswer<()>| #[trigger]
            self.header_step(past, head) && if head is Ok && head->Ok_0 is Done {
                past.table_step(post, answer)
            } else {
                post == past && answer == head
            }
    }

    /// The sum of two byte counts, or the largest `u32` if that is less.
    pub open spec fn capped_sum(written: u32, more: u32) -> u32 {
        if written + more <= u32::MAX {
            (written + more) as u32
        } else {
            u32::MAX
        }
    }

    /// The step that writes `count` bytes of data of file `file_index`,
    /// which the driver has put at the front of the space, for a writer that
    /// is past the file table.
    ///
    /// The driver has to name the file whose data the writer expects. If it
    /// names the next file, the expected file is short of data; if it names
    /// the file before, that file got data beyond its size, as does a file
    /// that gets more than it has outstanding: these fail with the number of
    /// bytes got and the number announced. Any other file is out of
    /// sequence. This holds behind the last file too: bytes for the last
    /// file are beyond its size and bytes for any other file are out of
    /// sequence, and only a step with no bytes is done there, with nothing
    /// written.
    ///
    /// Else the bytes are enciphered where they stand and staged, and with
    /// the last byte of the file the writer turns to the next file.
    pub open spec fn data_step(
        self,
        file_index: usize,
        count: usize,
        post: Writer3View,
        answer: WriterAnswer<usize>,
    ) -> bool
        recommends
            self.state is FileData,
            count <= self.space.len(),
            count <= u32::MAX,
    {
        let expected = self.state->FileData_index;
        let remaining = self.state->FileData_remaining;
        let key = self.state->FileData_key;
        let counter = self.state->FileData_counter;
        if expected >= self.files.len() {
            if count == 0 {
                post == self && answer == Ok::<WriterAction<usize>, Fault>(WriterAction::Done(0))
            } else if file_index + 1 == expected {
                post == self && answer == Err::<WriterAction<usize>, Fault>(
                    Fault::FileDataSizeMismatch {
                        actual: Self::capped_sum(self.files[file_index as int].size, count as u32),
                        expected: self.files[file_index as int].size,
                    },
                )
            } else {
                post == self && answer == Err::<WriterAction<usize>, Fault>(Fault::InvalidState)
            }
        } else if file_index == expected + 1 {
            post == self && answer == Err::<WriterAction<usize>, Fault>(
                Fault::FileDataSizeMismatch {
                    actual: (self.files[expected as int].size - remaining) as u32,
                    expected: self.files[expected as int].size,
                },
            )
        } else if file_index + 1 == expected {
            post == self && answer == Err::<WriterAction<usize>, Fault>(
                Fault::FileDataSizeMismatch {
                    actual: Self::capped_sum(self.files[file_index as int].size, count as u32),
                    expected: self.files[file_index as int].size,
                },
            )
        } else if file_index != expected {
            post == self && answer == Err::<WriterAction<usize>, Fault>(Fault::InvalidState)
        } else if count > remaining {
            post == self && answer == Err::<WriterAction<usize>, Fault>(
                Fault::FileDataSizeMismatch {
                    actual: Self::capped_sum(
                        (self.files[expected as int].size - remaining) as u32,
                        count as u32,
                    ),
                    expected: self.files[expected as int].size,
                },
            )
        } else {
            &&& self.staged(crypt_data(key, counter as int, self.space.take(count as int)), post)
            &&& post.state == if remaining == count {
                self.data_state((expected + 1) as usize)
            } else {
                State::FileData {
                    index: expected,
                    remaining: (remaining - count) as u32,
                    key: data_key_after(key, counter as int, count as int),
                    counter: data_counter_after(counter as int, count as int) as u8,
                }
            }
            &&& answer == Ok::<WriterAction<usize>, Fault>(WriterAction::Done(count))
        }
    }

    /// Whether the writer is in file `index`, with `written` bytes of the
    /// file written.
    pub open spec fn in_file(self, index: usize, written: nat) -> bool {
        &&& index < self.files.len()
        &&& written <= self.files[index as int].size
        &&& self.state == (State::FileData {
            index,
            remaining: (self.files[index as int].size - written) as u32,
            key: data_key_after(self.files[index as int].key, 0, written as int),
            counter: data_counter_after(0, written as int) as u8,
        })
    }

    /// The number of bytes that the writer still has to stage before it
    /// turns to file data: the archive header and the rest of the file
    /// table with the record that ends it.
    pub open spec fn pending_len(self) -> nat {
        match self.state {
            State::Header => self.data_position,
            State::FileHeader { index, .. } => (records_len(self.files, self.files.len())
                - records_len(self.files, index as nat) + 4 * U32_LEN) as nat,
            State::FileData { .. } => 0,
        }
    }

    /// The step that writes file data: the archive header and the file
    /// table first, if they have not been written, then the data.
    pub open spec fn file_data_step(
        self,
        file_index: usize,
        count: usize,
        post: Writer3View,
        answer: WriterAnswer<usize>,
    ) -> bool {
        exists|past: Writer3View, head: WriterAnswer<()>| #[trigger]
            self.file_headers_step(past, head) && if head is Ok && head->Ok_0 is Done {
                past.data_step(file_index, count, post, answer)
            } else {
                post == past && answer == Ok::<WriterAction<usize>, Fault>(WriterAction::Write)
            }
    }
}

/// A sans-io writer state machine.
#[derive(Debug)]
pub struct Writer3 {
    buffer: oval::Buffer,
    key: u32,
    state: State,
    files: Vec<(String, u32, u32)>,
    data_position: u32,
}

impl View for Writer3 {
    type V = Writer3View;

    closed spec fn view(&self) -> Writer3View {
        Writer3View {
            data: buffer_data(self.buffer),
            space: buffer_space(self.buffer),
            key: self.key,
            state: self.state,
            files: entries(self.files@),
            data_position: self.data_position as nat,
        }
    }
}

/// Adding a file to the end leaves the lengths of the records and of the
/// data of the files before it as they are.
pub proof fn lemma_push_keeps_prefix(files: Seq<FileEntry>, file: FileEntry, count: nat)
    requires
        count <= files.len(),
    ensures
        records_len(files.push(file), count) == records_len(files, count),
        sizes_before(files.push(file), count) == sizes_before(files, count),
    decreases count,
{
    if count > 0 {
        lemma_push_keeps_prefix(files, file, (count - 1) as nat);
        assert(files.push(file)[count - 1] == files[count - 1]);
    }
}

/// Adding a file to the end moves the end of the file table by the length of
/// its record.
pub proof fn lemma_push_moves_table_end(files: Seq<FileEntry>, file: FileEntry)
    ensures
        table_end(files.push(file)) == table_end(files) + record_len(file),
{
    lemma_push_keeps_prefix(files, file, files.len());
    assert(files.push(file)[files.len() as int] == file);
}

/// The data of the first files is no longer than the data of more of them.
pub proof fn lemma_sizes_before_grows(files: Seq<FileEntry>, fewer: nat, more: nat)
    requires
        fewer <= more,
    ensures
        sizes_before(files, fewer) <= sizes_before(files, more),
        records_len(files, fewer) <= records_len(files, more),
    decreases more,
{
    if fewer < more {
        lemma_sizes_before_grows(files, fewer, (more - 1) as nat);
    }
}

/// The records of the files from `from` up to `to` are as long as the
/// records of the first `to` files without those of the first `from`.
pub proof fn lemma_table_bytes_len(
    key: u32,
    files: Seq<FileEntry>,
    data_position: nat,
    from: nat,
    to: nat,
)
    requires
        from <= to,
    ensures
        table_bytes(key, files, data_position, from, to).len() == records_len(files, to)
            - records_len(files, from),
    decreases to,
{
    if from < to {
        lemma_table_bytes_len(key, files, data_position, from, (to - 1) as nat);
    }
}

impl Writer3 {
    /// The capacity of the buffer, as a mathematical value.
    pub closed spec fn spec_capacity(&self) -> nat {
        buffer_capacity(self.buffer)
    }

    /// The buffer has the capacity it was made with, and its data and its
    /// free space together take no more than the capacity and no less than
    /// half of it.
    pub open spec fn roomy(&self) -> bool {
        &&& self.spec_capacity() == DEFAULT_BUFFER_CAPACITY
        &&& self@.data.len() + self@.space.len() <= DEFAULT_BUFFER_CAPACITY
        &&& self@.data.len() + self@.space.len() >= DEFAULT_BUFFER_CAPACITY / 2
    }

    /// Create a new writer state machine.
    pub fn new(key: u32) -> (writer: Self)
        ensures
            writer@.data == Seq::<u8>::empty(),
            writer@.space.len() == DEFAULT_BUFFER_CAPACITY,
            writer@.key == key,
            writer@.state is Header,
            writer@.files == Seq::<FileEntry>::empty(),
            writer@.wf(),
            writer.roomy(),
    {
        let writer = Writer3 {
            buffer: buffer_with_capacity(DEFAULT_BUFFER_CAPACITY),
            key,
            state: State::Header,
            files: Vec::new(),
            data_position: 28,
        };
        assert(writer@.files =~= Seq::<FileEntry>::empty());
        writer
    }

    /// Get a reference to the output data buffer where data should be taken from.
    ///
    /// The amount of data copied should be marked with [`consume`].
    pub fn data(&self) -> (data: &[u8])
        ensures
            data@ == self@.data,
    {
        buffer_data_slice(&self.buffer)
    }

    /// Consume a number of bytes from the output buffer.
    ///
    /// As many bytes leave the front of the data as `size` says and the data
    /// holds.
    pub fn consume(&mut self, size: usize)
        ensures
            old(self).roomy() ==> final(self).roomy(),
            final(self)@ == (Writer3View {
                data: old(self)@.data.skip(
                    if size <= old(self)@.data.len() {
                        size as int
                    } else {
                        old(self)@.data.len() as int
                    },
                ),
                space: final(self)@.space,
                ..old(self)@
            }),
            final(self)@.space.len() >= old(self)@.space.len(),
    {
        buffer_consume(&mut self.buffer, size);
    }

    /// Get a reference to the space data buffer where data should be inserted.
    pub fn space(&mut self) -> (space: &mut [u8])
        ensures
            space@ == old(self)@.space,
            final(space)@.len() == space@.len(),
            old(self).roomy() ==> final(self).roomy(),
            final(self)@ == (Writer3View { space: final(space)@, ..old(self)@ }),
    {
        buffer_space_slice(&mut self.buffer)
    }

    /// Whether files can still be added: the file table has not been
    /// started.
    pub fn accepts_files(&self) -> (accepts: bool)
        ensures
            accepts == self@.accepts_files(),
    {
        match self.state {
            State::Header => true,
            State::FileHeader { index, .. } => index == 0,
            State::FileData { .. } => false,
        }
    }

    /// Whether the file table, with the record of a further file called
    /// `name`, still ends at a position that a `u32` holds.
    pub fn has_room(&self, name: &str) -> (room: bool)
        ensures
            room == self@.has_room(encode_utf8(name@).len()),
    {
        let name_len = name.as_bytes().len();
        if name_len > u32::MAX as usize {
            return false;
        }
        self.data_position as u64 + (4 * U32_LEN) as u64 + name_len as u64 <= u32::MAX as u64
    }

    /// Whether every file starts at an offset that a `u32` holds.
    pub fn offsets_fit(&self) -> (fit: bool)
        ensures
            fit == self@.offsets_fit(),
    {
        let count = self.files.len();
        let mut total: u64 = self.data_position as u64;
        let mut index: usize = 0;
        while index < count
            invariant
                count == self.files.len(),
                index <= count,
                total == self@.data_position + sizes_before(self@.files, index as nat),
                total <= u32::MAX,
            decreases count - index,
        {
            total = total + self.files[index].1 as u64;
            index = index + 1;
            if total > u32::MAX as u64 {
                proof {
                    lemma_sizes_before_grows(self@.files, index as nat, count as nat);
                }
                return false;
            }
        }
        true
    }

    /// Step the state machine, performing the action of writing the header.
    ///
    /// If the header has already been written, `Ok(WriterAction3::Done(()))` is returned and no work is performed.
    /// Calling this method is optional.
    /// The state machine will automatically write the header if it has not been written.
    pub fn step_write_header(&mut self) -> (r: Result<WriterAction3<()>, Error>)
        requires
            old(self)@.wf(),
            old(self).roomy(),
        ensures
            final(self)@.wf(),
            final(self).roomy(),
            r matches Ok(WriterAction::Write) ==> final(self)@.data.len() >= 1,
            old(self)@.header_step(final(self)@, writer_answer(r)),
    {
        match self.state {
            State::Header => {},
            State::FileHeader { .. } | State::FileData { .. } => {
                return Ok(WriterAction::Done(()));
            },
        }
        if buffer_available_space(&self.buffer) < HEADER_LEN3 {
            return Ok(WriterAction::Write);
        }
        let space = buffer_space_slice(&mut self.buffer);
        let (target, _) = space.split_at_mut(HEADER_LEN3);
        put_header3(target, self.key);
        assert(buffer_space(self.buffer).subrange(0, HEADER_LEN3 as int) =~= header3_bytes(
            self.key,
        ));
        buffer_fill(&mut self.buffer, HEADER_LEN3);
        self.state = State::FileHeader { index: 0, relative_data_offset: 0 };
        Ok(WriterAction::Done(()))
    }

    /// Add a file.
    ///
    /// This only tells the writer about the file.
    /// Writing the file metadata and data is done separately.
    /// This can only be called before file header writing begins.
    /// Where the file is accepted, the file table with the record of this
    /// file has to end at a position that a `u32` holds.
    pub fn add_file(&mut self, name: String, size: u32, key: u32) -> (r: Result<(), Error>)
        requires
            old(self)@.wf(),
            old(self).roomy(),
            old(self)@.accepts_files() && encode_utf8(name@).len() <= MAX_FILE_NAME_LEN ==> old(
                self,
            )@.has_room(encode_utf8(name@).len()),
        ensures
            final(self)@.wf(),
            final(self).roomy(),
            match r {
                Ok(_) => {
                    &&& old(self)@.accepts_files()
                    &&& encode_utf8(name@).len() <= MAX_FILE_NAME_LEN
                    &&& final(self)@ == old(self)@.with_file(FileEntry { name: name@, size, key })
                },
                Err(error) => {
                    &&& final(self)@ == old(self)@
                    &&& error@ == if !old(self)@.accepts_files() {
                        Fault::InvalidState
                    } else {
                        Fault::FileNameTooLongUsize { len: encode_utf8(name@).len() as usize }
                    }
                    &&& !old(self)@.accepts_files() || encode_utf8(name@).len() > MAX_FILE_NAME_LEN
                },
            },
    {
        match self.state {
            State::Header => {},
            State::FileHeader { index, .. } => {
                if index != 0 {
                    return Err(Error::InvalidState);
                }
            },
            State::FileData { .. } => {
                return Err(Error::InvalidState);
            },
        }
        let name_len = name.as_str().as_bytes().len();
        if name_len > MAX_FILE_NAME_LEN as usize {
            return Err(Error::FileNameTooLongUsize { len: name_len });
        }
        let ghost file = FileEntry { name: name@, size, key };
        self.files.push((name, size, key));
        self.data_position = self.data_position + (4 * U32_LEN as u32 + name_len as u32);
        proof {
            let before = old(self)@.files;
            assert(self@.files =~= before.push(file));
            lemma_push_moves_table_end(before, file);
            assert forall|i: int| 0 <= i < self@.files.len() implies encode_utf8(
                #[trigger] self@.files[i].name,
            ).len() <= MAX_FILE_NAME_LEN by {
                if i < before.len() {
                    assert(self@.files[i] == before[i]);
                }
            }
        }
        Ok(())
    }

    /// Step the state machine, performing the action of writing the file headers.
    ///
    /// If the file headers have already been written, `Ok(WriterAction3::Done(()))` is returned and no work is performed.
    /// Calling this method is optional.
    /// The state machine will automatically write the header if it has not been written.
    /// Every file has to start at an offset that a `u32` holds.
    pub fn step_write_file_headers(&mut self) -> (r: Result<WriterAction3<()>, Error>)
        requires
            old(self)@.wf(),
            old(self).roomy(),
            old(self)@.offsets_fit(),
        ensures
            final(self)@.wf(),
            final(self).roomy(),
            r matches Ok(WriterAction::Write) ==> final(self)@.data.len() >= 1,
            old(self)@.file_headers_step(final(self)@, writer_answer(r)),
            r is Ok,
            r matches Ok(WriterAction::Done(_)) ==> {
                &&& final(self)@.state is FileData
                &&& final(self)@.space.len() + old(self)@.pending_len() >= old(self)@.space.len()
            },
    {
        match self.step_write_header() {
            Err(error) => {
                return Err(error);
            },
            Ok(WriterAction::Write) => {
                return Ok(WriterAction::Write);
            },
            Ok(WriterAction::Done(_)) => {},
        }
        let ghost past = self@;
        assert(old(self)@.header_step(past, Ok(WriterAction::Done(()))));
        let (mut index, mut relative_data_offset) = match self.state {
            State::FileHeader { index, relative_data_offset } => (index, relative_data_offset),
            _ => {
                return Ok(WriterAction::Done(()));
            },
        };
        let ghost start = index as nat;
        let count = self.files.len();
        proof {
            lemma_table_bytes_len(past.key, past.files, past.data_position, start, start);
        }
        while index < count
            invariant
                old(self)@.header_step(past, Ok(WriterAction::Done(()))),
                self.roomy(),
                past.wf(),
                past.offsets_fit(),
                past.state matches State::FileHeader { index: first, .. } && first == start,
                count == past.files.len(),
                count == self.files.len(),
                start <= index <= count,
                self.state == past.state,
                relative_data_offset == sizes_before(past.files, index as nat),
                past.staged(
                    table_bytes(past.key, past.files, past.data_position, start, index as nat),
                    self@,
                ),
            decreases count - index,
        {
            let file = &self.files[index];
            let name = file.0.as_str();
            let size = file.1;
            let file_key = file.2;
            let name_len = name.as_bytes().len();
            assert(self@.files[index as int] == past.files[index as int]);
            assert(encode_utf8(past.files[index as int].name).len() <= MAX_FILE_NAME_LEN);
            let expected_size = (4 * U32_LEN) + name_len;
            if buffer_available_space(&self.buffer) < expected_size {
                self.state = State::FileHeader { index, relative_data_offset };
                assert(past.table_step(self@, Ok(WriterAction::Write)));
                return Ok(WriterAction::Write);
            }
            proof {
                lemma_sizes_before_grows(past.files, (index + 1) as nat, count as nat);
                lemma_sizes_before_grows(past.files, index as nat, (index + 1) as nat);
            }
            let offset = self.data_position + relative_data_offset;
            let key = self.key;
            let space = buffer_space_slice(&mut self.buffer);
            let (target, _) = space.split_at_mut(expected_size);
            put_record(key, offset, size, file_key, name, target);
            assert(buffer_space(self.buffer).subrange(0, expected_size as int) =~= file_record(
                past.key,
                past.files,
                past.data_position,
                index as int,
            ));
            buffer_fill(&mut self.buffer, expected_size);
            index = index + 1;
            relative_data_offset = relative_data_offset + size;
            assert(self@.data =~= past.data + table_bytes(
                past.key,
                past.files,
                past.data_position,
                start,
                index as nat,
            ));
        }
        if buffer_available_space(&self.buffer) < 4 * U32_LEN {
            self.state = State::FileHeader { index, relative_data_offset };
            assert(past.table_step(self@, Ok(WriterAction::Write)));
            return Ok(WriterAction::Write);
        }
        let key = self.key;
        let ghost table = self@;
        let space = buffer_space_slice(&mut self.buffer);
        let (target, _) = space.split_at_mut(4 * U32_LEN);
        put_sentinel(key, target);
        assert(buffer_space(self.buffer).subrange(0, 4 * U32_LEN as int) =~= sentinel_bytes(key));
        buffer_fill(&mut self.buffer, 4 * U32_LEN);
        self.state = if count > 0 {
            State::FileData {
                index: 0,
                remaining: self.files[0].1,
                key: self.files[0].2,
                counter: 0,
            }
        } else {
            State::FileData { index: 0, remaining: 0, key: 0, counter: 0 }
        };
        proof {
            let records = table_bytes(past.key, past.files, past.data_position, start, count as nat);
            assert(self@.data =~= past.data + (records + sentinel_bytes(key)));
            lemma_table_bytes_len(past.key, past.files, past.data_position, start, count as nat);
                assert(past.table_step(self@, Ok(WriterAction::Done(()))));
        }
        Ok(WriterAction::Done(()))
    }

    /// Step the state machine, performing the action of writing the file data.
    ///
    /// The state machine will automatically write the header if it has not been written.
    /// The state machine will automatically write the file headers if they have not been written.
    /// Populate the space buffer with the bytes to write, then pass the number of bytes written to this function.
    /// The bytes have to fit the space behind what the writer still has to
    /// stage of the header and the file headers.
    pub fn step_write_file_data(&mut self, file_index: usize, size: usize) -> (r: Result<
        WriterAction3<usize>,
        Error,
    >)
        requires
            old(self)@.wf(),
            old(self).roomy(),
            old(self)@.offsets_fit(),
            size <= u32::MAX,
            size + old(self)@.pending_len() <= old(self)@.space.len(),
        ensures
            final(self)@.wf(),
            final(self).roomy(),
            r matches Ok(WriterAction::Write) ==> final(self)@.data.len() >= 1,
            old(self)@.file_data_step(file_index, size, final(self)@, writer_answer(r)),
    {
        match self.step_write_file_headers() {
            Err(error) => {
                return Err(error);
            },
            Ok(WriterAction::Write) => {
                return Ok(WriterAction::Write);
            },
            Ok(WriterAction::Done(_)) => {},
        }
        let ghost past = self@;
        assert(old(self)@.file_headers_step(past, Ok(WriterAction::Done(()))));
        let size_u32 = size as u32;
        let (expected, remaining, mut key, mut counter) = match self.state {
            State::FileData { index, remaining, key, counter } => (index, remaining, key, counter),
            _ => {
                return Err(Error::InvalidState);
            },
        };
        if expected >= self.files.len() {
            if size == 0 {
                return Ok(WriterAction::Done(0));
            }
            if file_index < expected && file_index + 1 == expected {
                let file_size = self.files[file_index].1;
                assert(file_size == past.files[file_index as int].size);
                let actual = if size_u32 <= u32::MAX - file_size {
                    file_size + size_u32
                } else {
                    u32::MAX
                };
                return Err(Error::FileDataSizeMismatch { actual, expected: file_size });
            }
            return Err(Error::InvalidState);
        }
        let file_size = self.files[expected].1;
        assert(file_size == past.files[expected as int].size);
        if file_index != expected {
            if file_index == expected + 1 {
                return Err(
                    Error::FileDataSizeMismatch {
                        actual: file_size - remaining,
                        expected: file_size,
                    },
                );
            }
            if file_index < expected && file_index + 1 == expected {
                let file_size = self.files[file_index].1;
                assert(file_size == past.files[file_index as int].size);
                let actual = if size_u32 <= u32::MAX - file_size {
                    file_size + size_u32
                } else {
                    u32::MAX
                };
                return Err(Error::FileDataSizeMismatch { actual, expected: file_size });
            }
            return Err(Error::InvalidState);
        }
        if size_u32 > remaining {
            let written = file_size - remaining;
            let actual = if size_u32 <= u32::MAX - written {
                written + size_u32
            } else {
                u32::MAX
            };
            return Err(Error::FileDataSizeMismatch { actual, expected: file_size });
        }
        let space = buffer_space_slice(&mut self.buffer);
        let (target, _) = space.split_at_mut(size);
        crypt_file_data(&mut key, &mut counter, target);
        assert(buffer_space(self.buffer).subrange(0, size as int) =~= crypt_data(
            past.state->FileData_key,
            past.state->FileData_counter as int,
            past.space.take(size as int),
        ));
        if remaining == size_u32 {
            let new_index = expected + 1;
            self.state = if new_index < self.files.len() {
                State::FileData {
                    index: new_index,
                    remaining: self.files[new_index].1,
                    key: self.files[new_index].2,
                    counter: 0,
                }
            } else {
                State::FileData { index: new_index, remaining: 0, key: 0, counter: 0 }
            };
        } else {
            self.state = State::FileData {
                index: expected,
                remaining: remaining - size_u32,
                key,
                counter,
            };
        }
        buffer_fill(&mut self.buffer, size);
        Ok(WriterAction::Done(size))
    }

    /// Finish writing.
    ///
    /// A writer can finish before it has started the archive, and when the
    /// data of every file is complete. Otherwise the archive
    /// is incomplete, and finishing is out of sequence.
    pub fn finish(&self) -> (r: Result<(), Error>)
        ensures
            self@.complete() ==> r is Ok,
            !self@.complete() ==> r is Err && r->Err_0@ == Fault::InvalidState,
    {
        match self.state {
            State::Header => Ok(()),
            State::FileHeader { .. } => Err(Error::InvalidState),
            State::FileData { index, .. } => {
                if index == self.files.len() {
                    Ok(())
                } else {
                    Err(Error::InvalidState)
                }
            },
        }
    }
}

/// A file is written in pieces as it is written at once. A writer in a file,
/// with some of its bytes written, that takes the next bytes of the file
/// from the front of its space, stages the bytes that stand at their place
/// when the whole of the file up to there is enciphered with the key of the
/// file; and the writer is then further in the file, or, with the last byte
/// of the file, at the start of the next.
pub proof fn lemma_file_written_in_pieces(
    writer: Writer3View,
    index: usize,
    written: Seq<u8>,
    count: usize,
    post: Writer3View,
    answer: WriterAnswer<usize>,
)
    requires
        writer.in_file(index, written.len()),
        written.len() + count <= writer.files[index as int].size,
        count <= writer.space.len(),
        writer.data_step(index, count, post, answer),
    ensures
        answer == Ok::<WriterAction<usize>, Fault>(WriterAction::Done(count)),
        post.data == writer.data + crypt_data(
            writer.files[index as int].key,
            0,
            written + writer.space.take(count as int),
        ).skip(written.len() as int),
        written.len() + count < writer.files[index as int].size ==> post.in_file(
            index,
            written.len() + count as nat,
        ),
        written.len() + count == writer.files[index as int].size ==> post.state
            == writer.data_state((index + 1) as usize),
{
    let start_key = writer.files[index as int].key;
    let piece = writer.space.take(count as int);
    lemma_crypt_data_chunks(start_key, 0, written, piece);
    lemma_data_position_split(start_key, 0, written.len() as int, count as int);
    let whole = crypt_data(start_key, 0, written + piece);
    assert(whole.skip(written.len() as int) =~= crypt_data(
        data_key_after(start_key, 0, written.len() as int),
        data_counter_after(0, written.len() as int),
        piece,
    ));
}

/// The file headers that stand in a file table, for a reader that holds the
/// archive key `key`: those of the records up to the record that ends the
/// table. A table that is cut short, or holds something that is no record, is
/// unreadable.
pub open spec fn scan_table(key: u32, bytes: Seq<u8>) -> Result<Seq<FileHeader3View>, ReadFault>
    decreases bytes.len(),
{
    match scan_record(key, bytes) {
        Scan::Short { .. } => Err(ReadFault::UnexpectedEof),
        Scan::Bad { fault } => Err(ReadFault::Invalid { fault }),
        Scan::Found { value: None, .. } => Ok(Seq::empty()),
        Scan::Found { value: Some(header), len } => {
            if len == 0 || bytes.len() < len {
                Err(ReadFault::UnexpectedEof)
            } else {
                match scan_table(key, bytes.skip(len as int)) {
                    Ok(rest) => Ok(seq![header] + rest),
                    Err(fault) => Err(fault),
                }
            }
        },
    }
}

/// The file header that the record of file `index` stands for, in an archive
/// whose file data starts at `data_position`.
pub open spec fn file_header(files: Seq<FileEntry>, data_position: nat, index: int) -> FileHeader3View {
    FileHeader3View {
        name: files[index].name,
        size: files[index].size,
        key: files[index].key,
        offset: (data_position + sizes_before(files, index as nat)) as u32,
    }
}

/// The records from `from` up to `to` are the record of file `from` and then
/// the records from the next file on.
pub proof fn lemma_table_bytes_front(
    key: u32,
    files: Seq<FileEntry>,
    data_position: nat,
    from: nat,
    to: nat,
)
    requires
        from < to,
    ensures
        table_bytes(key, files, data_position, from, to) == file_record(
            key,
            files,
            data_position,
            from as int,
        ) + table_bytes(key, files, data_position, from + 1, to),
    decreases to,
{
    if from + 1 < to {
        lemma_table_bytes_front(key, files, data_position, from, (to - 1) as nat);
        let first = file_record(key, files, data_position, from as int);
        let middle = table_bytes(key, files, data_position, from + 1, (to - 1) as nat);
        let last = file_record(key, files, data_position, to - 1);
        assert((first + middle) + last =~= first + (middle + last));
    } else {
        let first = file_record(key, files, data_position, from as int);
        assert(table_bytes(key, files, data_position, from, from) =~= Seq::<u8>::empty());
        assert(table_bytes(key, files, data_position, from + 1, to) =~= Seq::<u8>::empty());
        assert(Seq::<u8>::empty() + first =~= first + Seq::<u8>::empty());
    }
}

/// A file table from file `from` on, with what follows it, begins with the
/// record of file `from`, and the table from the next file on follows.
pub proof fn lemma_table_front_data(
    key: u32,
    files: Seq<FileEntry>,
    data_position: nat,
    from: nat,
    rest: Seq<u8>,
)
    requires
        from < files.len(),
    ensures
        table_bytes(key, files, data_position, from, files.len()) + sentinel_bytes(key) + rest
            == file_record(key, files, data_position, from as int) + (table_bytes(
            key,
            files,
            data_position,
            from + 1,
            files.len(),
        ) + sentinel_bytes(key) + rest),
{
    lemma_table_bytes_front(key, files, data_position, from, files.len());
    let record = file_record(key, files, data_position, from as int);
    let others = table_bytes(key, files, data_position, from + 1, files.len());
    let end = sentinel_bytes(key);
    assert((record + others) + end + rest =~= record + (others + end + rest));
}

/// What a writer holds once it has staged the archive header and the file
/// table: the header, the records of its files and the record that ends the
/// table, which together are as long as the position at which the file data
/// starts.
pub proof fn lemma_staged_table(
    writer: Writer3View,
    past: Writer3View,
    written: Writer3View,
    rest: Seq<u8>,
)
    requires
        writer.wf(),
        writer.state is Header,
        writer.data.len() == 0,
        writer.header_step(past, Ok(WriterAction::Done(()))),
        past.table_step(written, Ok(WriterAction::Done(()))),
    ensures
        written.data.len() == writer.data_position,
        written.data + rest == header3_bytes(writer.key) + (table_bytes(
            writer.key,
            writer.files,
            writer.data_position,
            0,
            writer.files.len(),
        ) + sentinel_bytes(writer.key) + rest),
{
    let key = writer.key;
    let table = table_bytes(key, writer.files, writer.data_position, 0, writer.files.len());
    lemma_table_bytes_len(key, writer.files, writer.data_position, 0, writer.files.len());
    assert(written.data =~= header3_bytes(key) + table + sentinel_bytes(key));
    assert((header3_bytes(key) + table + sentinel_bytes(key)) + rest =~= header3_bytes(key) + (
    table + sentinel_bytes(key) + rest));
}

/// The headers of a file table begin with the header of its first record: a
/// table that begins with the record of a file whose data does not start at
/// offset zero and whose name has no more than the maximum length holds the
/// header of that file and then the headers of what follows the record.
pub proof fn lemma_scan_table_step(key: u32, file: FileHeader3View, behind: Seq<u8>)
    requires
        file.offset != 0,
        encode_utf8(file.name).len() <= MAX_FILE_NAME_LEN,
    ensures
        scan_table(
            key,
            record_bytes(key, file.offset, file.size, file.key, encode_utf8(file.name)) + behind,
        ) == match scan_table(key, behind) {
            Ok(rest) => Ok::<Seq<FileHeader3View>, ReadFault>(seq![file] + rest),
            Err(fault) => Err(fault),
        },
{
    let record = record_bytes(key, file.offset, file.size, file.key, encode_utf8(file.name));
    lemma_record_round_trip(key, file, behind);
    lemma_record_len(key, file.offset, file.size, file.key, encode_utf8(file.name));
    assert((record + behind).skip(record.len() as int) =~= behind);
}

/// A file table is read back as it was written: the headers found in the
/// records of a sequence of files, followed by the record that ends the
/// table and by anything, are the headers of those files in their order,
/// each with the name, the size and the key of its file and with the offset
/// at which the data of the file stands, provided that no name is longer
/// than the maximum and every file starts at an offset that a `u32` holds
/// and that is not zero.
pub proof fn lemma_table_round_trip(
    key: u32,
    files: Seq<FileEntry>,
    data_position: nat,
    from: nat,
    rest: Seq<u8>,
)
    requires
        from <= files.len(),
        0 < data_position,
        data_position + sizes_before(files, files.len()) <= u32::MAX,
        forall|i: int|
            0 <= i < files.len() ==> encode_utf8(#[trigger] files[i].name).len()
                <= MAX_FILE_NAME_LEN,
    ensures
        scan_table(
            key,
            table_bytes(key, files, data_position, from, files.len()) + sentinel_bytes(key) + rest,
        ) == Ok::<Seq<FileHeader3View>, ReadFault>(
            Seq::new(
                (files.len() - from) as nat,
                |i: int| file_header(files, data_position, from + i),
            ),
        ),
    decreases files.len() - from,
{
    let count = files.len();
    let headers = Seq::new(
        (count - from) as nat,
        |i: int| file_header(files, data_position, from + i),
    );
    if from == count {
        assert(table_bytes(key, files, data_position, from, count) =~= Seq::<u8>::empty());
        assert(table_bytes(key, files, data_position, from, count) + sentinel_bytes(key) + rest
            =~= sentinel_bytes(key) + rest);
        lemma_sentinel_round_trip(key, rest);
        assert(headers =~= Seq::<FileHeader3View>::empty());
    } else {
        let header = file_header(files, data_position, from as int);
        let behind = table_bytes(key, files, data_position, from + 1, count) + sentinel_bytes(key)
            + rest;
        lemma_table_front_data(key, files, data_position, from, rest);
        lemma_sizes_before_grows(files, from, count);
        assert(encode_utf8(files[from as int].name).len() <= MAX_FILE_NAME_LEN);
        assert(header.offset != 0);
        lemma_scan_table_step(key, header, behind);
        lemma_table_round_trip(key, files, data_position, from + 1, rest);
        let others = Seq::new(
            (count - from - 1) as nat,
            |i: int| file_header(files, data_position, from + 1 + i),
        );
        assert(seq![header] + others =~= headers);
    }
}

} // verus!
