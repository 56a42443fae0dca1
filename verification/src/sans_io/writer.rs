use vstd::prelude::*;
use vstd::utf8::encode_utf8;

use super::{writer_answer, Error, Fault, WriterAction, WriterAnswer};
use crate::buffer::{
    buffer_available_space, buffer_capacity, buffer_consume, buffer_data, buffer_data_slice,
    buffer_fill, buffer_space, buffer_space_slice, buffer_with_capacity,
};
use crate::cipher::{
    crypt_data, crypt_file_data, data_counter_after, data_key_after, lemma_crypt_data_chunks,
    lemma_data_position_split,
};
use crate::laws::{archive_bytes, entries_bytes, key_behind, key_behind_all, Entry};
use crate::layout::{
    entry_bytes, entry_key_after, header_bytes, put_entry, put_header, DEFAULT_KEY, HEADER_LEN,
    MAX_FILE_NAME_LEN, U32_LEN, VERSION,
};

verus! {

/// The size of the staging buffer of a writer.
pub const DEFAULT_BUFFER_CAPACITY: usize = 10240;

/// The state of a writer.
#[derive(Debug, Copy, Clone)]
pub enum State {
    /// The archive header has not been written.
    Header,
    /// The next thing to write is an entry header.
    FileHeader,
    /// An entry header has been written for a file of `size` bytes. `key`
    /// and `counter` are the cipher state of its data, and `remaining` bytes
    /// of it have not been written.
    FileData { key: u32, counter: u8, remaining: u32, size: u32 },
}

/// A writer as a mathematical value.
pub struct WriterView {
    /// The bytes that the writer has staged and the driver has not taken.
    pub data: Seq<u8>,
    /// The free bytes behind the data, where the driver stages file data.
    pub space: Seq<u8>,
    /// The rotating key of the archive.
    pub key: u32,
    /// The state of the writer.
    pub state: State,
}

impl WriterView {
    /// The counter of the cipher names one of the four bytes of a key, and no
    /// more of a file is outstanding than it has.
    pub open spec fn wf(self) -> bool {
        self.state matches State::FileData { counter, remaining, size, .. } ==> counter < 4
            && remaining <= size
    }

    /// Whether `post` is this writer after it staged `bytes`: they stand
    /// behind the data, and the space has lost no more than their length.
    pub open spec fn staged(self, bytes: Seq<u8>, post: WriterView) -> bool {
        post.data == self.data + bytes && post.space.len() + bytes.len() >= self.space.len()
    }

    /// Whether the writer is in the middle of a file: an entry header has
    /// been written and not all of the data it announced.
    pub open spec fn mid_entry(self) -> bool {
        self.state matches State::FileData { remaining, .. } && remaining > 0
    }

    /// The number of bytes the current file was announced with, and zero
    /// outside a file.
    pub open spec fn announced(self) -> u32 {
        match self.state {
            State::FileData { size, .. } => size,
            _ => 0,
        }
    }

    /// The number of bytes the current file has got, and zero outside a file.
    pub open spec fn written(self) -> u32 {
        match self.state {
            State::FileData { remaining, size, .. } => (size - remaining) as u32,
            _ => 0,
        }
    }

    /// The step that writes the archive header, from this writer to `post`
    /// with `answer`. Past the header nothing happens. Before it, the writer
    /// asks for the buffer to be emptied while the header does not fit the
    /// space, and else stages the header and expects an entry.
    pub open spec fn header_step(self, post: WriterView, answer: WriterAnswer<()>) -> bool {
        if !(self.state is Header) {
            post == self && answer == Ok::<WriterAction<()>, Fault>(WriterAction::Done(()))
        } else if self.space.len() < HEADER_LEN {
            post == self && answer == Ok::<WriterAction<()>, Fault>(WriterAction::Write)
        } else {
            &&& self.staged(header_bytes(VERSION), post)
            &&& post.key == self.key
            &&& post.state == State::FileHeader
            &&& answer == Ok::<WriterAction<()>, Fault>(WriterAction::Done(()))
        }
    }

    /// The step that writes an entry header for a file called `name` with
    /// `size` bytes of data, for a writer that is past the archive header.
    /// In the middle of a file the step fails with the number of bytes the
    /// file has got and the number it was announced with. A name of more
    /// than the maximum length is refused. The writer asks for the buffer to
    /// be emptied while the entry header does not fit the space, and else
    /// stages it, takes the key behind it and expects the data.
    pub open spec fn entry_step(
        self,
        name: Seq<char>,
        size: u32,
        post: WriterView,
        answer: WriterAnswer<()>,
    ) -> bool {
        let name_bytes = encode_utf8(name);
        if self.mid_entry() {
            post == self && answer == Err::<WriterAction<()>, Fault>(
                Fault::FileDataSizeMismatch { actual: self.written(), expected: self.announced() },
            )
        } else if name_bytes.len() > MAX_FILE_NAME_LEN {
            post == self && answer == Err::<WriterAction<()>, Fault>(
                Fault::FileNameTooLongUsize { len: name_bytes.len() as usize },
            )
        } else if self.space.len() < 2 * U32_LEN + name_bytes.len() {
            post == self && answer == Ok::<WriterAction<()>, Fault>(WriterAction::Write)
        } else {
            &&& self.staged(entry_bytes(self.key, name_bytes, size), post)
            &&& post.key == entry_key_after(self.key, name_bytes.len())
            &&& post.state == State::FileData { key: post.key, counter: 0, remaining: size, size }
            &&& answer == Ok::<WriterAction<()>, Fault>(WriterAction::Done(()))
        }
    }

    /// The step that writes an entry header: the archive header first, if it
    /// has not been written, then the entry header.
    pub open spec fn file_header_step(
        self,
        name: Seq<char>,
        size: u32,
        post: WriterView,
        answer: WriterAnswer<()>,
    ) -> bool {
        exists|past: WriterView, head: WriterAnswer<()>| #[trigger]
            self.header_step(past, head) && if head is Ok && head->Ok_0 is Done {
                past.entry_step(name, size, post, answer)
            } else {
                post == past && answer == head
            }
    }

    /// The sum of two byte counts, or the largest `u32` if that is less.
    pub open spec fn capped_sum(written: u32, more: u32) -> u32 {
        if written + more <= u32::MAX {
            (written + more) as u32
        } else {
            u32::MAX
        }
    }

    /// The step that writes `count` bytes of file data, which the driver has
    /// put at the front of the space, for a writer that is past the archive
    /// header. Outside the data of a file the step is out of sequence. More
    /// bytes than the file has outstanding make the step fail with the
    /// number of bytes the file would have got and the number it was
    /// announced with. Else the bytes are enciphered where they stand and
    /// staged, and with the last byte of the file the writer expects the next
    /// entry.
    pub open spec fn data_step(self, count: usize, post: WriterView, answer: WriterAnswer<usize>) -> bool
        recommends
            count <= self.space.len(),
            count <= u32::MAX,
    {
        match self.state {
            State::FileData { key, counter, remaining, size } => {
                if count > remaining {
                    post == self && answer == Err::<WriterAction<usize>, Fault>(
                        Fault::FileDataSizeMismatch {
                            actual: Self::capped_sum(self.written(), count as u32),
                            expected: size,
                        },
                    )
                } else {
                    &&& self.staged(
                        crypt_data(key, counter as int, self.space.take(count as int)),
                        post,
                    )
                    &&& post.key == self.key
                    &&& post.state == if remaining == count {
                        State::FileHeader
                    } else {
                        State::FileData {
                            key: data_key_after(key, counter as int, count as int),
                            counter: data_counter_after(counter as int, count as int) as u8,
                            remaining: (remaining - count) as u32,
                            size,
                        }
                    }
                    &&& answer == Ok::<WriterAction<usize>, Fault>(WriterAction::Done(count))
                }
            },
            _ => post == self && answer == Err::<WriterAction<usize>, Fault>(Fault::InvalidState),
        }
    }

    /// Whether the writer is in a file of `size` bytes whose cipher started
    /// with `start_key`, with `written` bytes of the file written and more
    /// to come.
    pub open spec fn in_file(self, start_key: u32, size: u32, written: nat) -> bool {
        written <= size && self.state == (State::FileData {
            key: data_key_after(start_key, 0, written as int),
            counter: data_counter_after(0, written as int) as u8,
            remaining: (size - written) as u32,
            size,
        })
    }

    /// The step that writes file data: the archive header first, if it has
    /// not been written, then the data.
    pub open spec fn file_data_step(
        self,
        count: usize,
        post: WriterView,
        answer: WriterAnswer<usize>,
    ) -> bool {
        exists|past: WriterView, head: WriterAnswer<()>| #[trigger]
            self.header_step(past, head) && if head is Ok && head->Ok_0 is Done {
                past.data_step(count, post, answer)
            } else {
                post == past && answer == Ok::<WriterAction<usize>, Fault>(WriterAction::Write)
            }
    }
}

/// A sans-io writer state machine.
#[derive(Debug)]
pub struct Writer {
    buffer: oval::Buffer,
    key: u32,
    state: State,
}

impl View for Writer {
    type V = WriterView;

    closed spec fn view(&self) -> WriterView {
        WriterView {
            data: buffer_data(self.buffer),
            space: buffer_space(self.buffer),
            key: self.key,
            state: self.state,
        }
    }
}

impl Writer {
    /// The capacity of the buffer, as a mathematical value.
    pub closed spec fn spec_capacity(&self) -> nat {
        buffer_capacity(self.buffer)
    }

    /// The buffer has the capacity it was made with, and its data and its
    /// free space together take no more than the capacity and no less than
    /// half of it.
    pub open spec fn roomy(&self) -> bool {
        &&& self.spec_capacity() == DEFAULT_BUFFER_CAPACITY
        &&& self@.data.len() + self@.space.len() <= DEFAULT_BUFFER_CAPACITY
        &&& self@.data.len() + self@.space.len() >= DEFAULT_BUFFER_CAPACITY / 2
    }

    /// Create a new writer state machine.
    pub fn new() -> (writer: Self)
        ensures
            writer@.data == Seq::<u8>::empty(),
            writer@.space.len() == DEFAULT_BUFFER_CAPACITY,
            writer@.key == DEFAULT_KEY,
            writer@.state is Header,
            writer@.wf(),
            writer.roomy(),
    {
        Writer {
            buffer: buffer_with_capacity(DEFAULT_BUFFER_CAPACITY),
            key: DEFAULT_KEY,
            state: State::Header,
        }
    }

    /// Get a reference to the output data buffer where data should be taken from.
    ///
    /// The amount of data copied should be marked with [`consume`].
    pub fn data(&self) -> (data: &[u8])
        ensures
            data@ == self@.data,
    {
        buffer_data_slice(&self.buffer)
    }

    /// Get a reference to the space data buffer where data should be inserted.
    pub fn space(&mut self) -> (space: &mut [u8])
        ensures
            space@ == old(self)@.space,
            final(space)@.len() == space@.len(),
            old(self).roomy() ==> final(self).roomy(),
            final(self)@ == (WriterView { space: final(space)@, ..old(self)@ }),
    {
        buffer_space_slice(&mut self.buffer)
    }

    /// Consume a number of bytes from the output buffer.
    ///
    /// As many bytes leave the front of the data as `size` says and the data
    /// holds.
    pub fn consume(&mut self, size: usize)
        ensures
            old(self).roomy() ==> final(self).roomy(),
            final(self)@.data == old(self)@.data.skip(
                if size <= old(self)@.data.len() {
                    size as int
                } else {
                    old(self)@.data.len() as int
                },
            ),
            final(self)@.space.len() >= old(self)@.space.len(),
            final(self)@.key == old(self)@.key,
            final(self)@.state == old(self)@.state,
    {
        buffer_consume(&mut self.buffer, size);
    }

    /// Step the state machine, performing the action of writing the header.
    ///
    /// If the header has already been written, `Ok(WriterAction::Done(()))` is returned and no work is performed.
    /// Calling this method is optional.
    /// The state machine will automatically write the header if it has not been written.
    pub fn step_write_header(&mut self) -> (r: Result<WriterAction<()>, Error>)
        requires
            old(self)@.wf(),
            old(self).roomy(),
        ensures
            final(self)@.wf(),
            final(self).roomy(),
            r matches Ok(WriterAction::Write) ==> final(self)@.data.len() >= 1,
            old(self)@.header_step(final(self)@, writer_answer(r)),
    {
        match self.state {
            State::Header => {},
            State::FileHeader | State::FileData { .. } => {
                return Ok(WriterAction::Done(()));
            },
        }
        if buffer_available_space(&self.buffer) < HEADER_LEN {
            return Ok(WriterAction::Write);
        }
        let space = buffer_space_slice(&mut self.buffer);
        let (target, _) = space.split_at_mut(HEADER_LEN);
        put_header(target, VERSION);
        assert(buffer_space(self.buffer).subrange(0, HEADER_LEN as int) =~= header_bytes(VERSION));
        buffer_fill(&mut self.buffer, HEADER_LEN);
        self.state = State::FileHeader;
        Ok(WriterAction::Done(()))
    }

    /// Step the state machine, performing the action of writing the next file header.
    ///
    /// This will write the header if it has not been written already.
    pub fn step_write_file_header(&mut self, name: &str, size: u32) -> (r: Result<
        WriterAction<()>,
        Error,
    >)
        requires
            old(self)@.wf(),
            old(self).roomy(),
        ensures
            final(self)@.wf(),
            final(self).roomy(),
            r matches Ok(WriterAction::Write) ==> final(self)@.data.len() >= 1,
            old(self)@.file_header_step(name@, size, final(self)@, writer_answer(r)),
    {
        match self.step_write_header() {
            Err(error) => {
                return Err(error);
            },
            Ok(WriterAction::Write) => {
                return Ok(WriterAction::Write);
            },
            Ok(WriterAction::Done(_)) => {},
        }
        let ghost past = self@;
        assert(old(self)@.header_step(past, Ok(WriterAction::Done(()))));
        match self.state {
            State::FileData { remaining, size: announced, .. } => {
                if remaining > 0 {
                    return Err(
                        Error::FileDataSizeMismatch {
                            actual: announced - remaining,
                            expected: announced,
                        },
                    );
                }
            },
            _ => {},
        }
        let name_len = name.as_bytes().len();
        if name_len > MAX_FILE_NAME_LEN as usize {
            return Err(Error::FileNameTooLongUsize { len: name_len });
        }
        let file_header_size = (U32_LEN * 2) + name_len;
        if buffer_available_space(&self.buffer) < file_header_size {
            return Ok(WriterAction::Write);
        }
        let mut key = self.key;
        let space = buffer_space_slice(&mut self.buffer);
        let (target, _) = space.split_at_mut(file_header_size);
        put_entry(&mut key, name, size, target);
        assert(buffer_space(self.buffer).subrange(0, file_header_size as int) =~= entry_bytes(
            past.key,
            encode_utf8(name@),
            size,
        ));
        self.key = key;
        buffer_fill(&mut self.buffer, file_header_size);
        self.state = State::FileData { key, counter: 0, remaining: size, size };
        Ok(WriterAction::Done(()))
    }

    /// Step the state machine, performing the action of writing the file data.
    ///
    /// This will write the header if it has not been written already.
    /// Populate the space buffer with the bytes to write, then pass the number of bytes written to this function.
    pub fn step_write_file_data(&mut self, size: usize) -> (r: Result<WriterAction<usize>, Error>)
        requires
            old(self)@.wf(),
            old(self).roomy(),
            size <= old(self)@.space.len(),
            size <= u32::MAX,
        ensures
            final(self)@.wf(),
            final(self).roomy(),
            r matches Ok(WriterAction::Write) ==> final(self)@.data.len() >= 1,
            old(self)@.file_data_step(size, final(self)@, writer_answer(r)),
    {
        match self.step_write_header() {
            Err(error) => {
                return Err(error);
            },
            Ok(WriterAction::Write) => {
                return Ok(WriterAction::Write);
            },
            Ok(WriterAction::Done(_)) => {},
        }
        let ghost past = self@;
        assert(old(self)@.header_step(past, Ok(WriterAction::Done(()))));
        let (mut key, mut counter, remaining, announced) = match self.state {
            State::FileData { key, counter, remaining, size } => (key, counter, remaining, size),
            _ => {
                return Err(Error::InvalidState);
            },
        };
        let size_u32 = size as u32;
        if size_u32 > remaining {
            let written = announced - remaining;
            let actual = if size_u32 <= u32::MAX - written {
                written + size_u32
            } else {
                u32::MAX
            };
            return Err(Error::FileDataSizeMismatch { actual, expected: announced });
        }
        let space = buffer_space_slice(&mut self.buffer);
        let (target, _) = space.split_at_mut(size);
        crypt_file_data(&mut key, &mut counter, target);
        assert(buffer_space(self.buffer).subrange(0, size as int) =~= crypt_data(
            past.state->FileData_key,
            past.state->FileData_counter as int,
            past.space.take(size as int),
        ));
        if remaining == size_u32 {
            self.state = State::FileHeader;
        } else {
            self.state = State::FileData {
                key,
                counter,
                remaining: remaining - size_u32,
                size: announced,
            };
        }
        buffer_fill(&mut self.buffer, size);
        Ok(WriterAction::Done(size))
    }

    /// Finish writing.
    ///
    /// A writer in the middle of a file cannot finish. Otherwise the archive
    /// is complete once the driver has emptied the buffer and flushed the
    /// transport.
    pub fn finish(&self) -> (r: Result<(), Error>)
        ensures
            self@.mid_entry() ==> r is Err && r->Err_0@ == Fault::InvalidState,
            !self@.mid_entry() ==> r is Ok,
    {
        match self.state {
            State::FileData { remaining, .. } => {
                if remaining > 0 {
                    return Err(Error::InvalidState);
                }
            },
            _ => {},
        }
        Ok(())
    }
}

impl Default for Writer {
    fn default() -> (writer: Self)
        ensures
            writer@.data == Seq::<u8>::empty(),
            writer@.space.len() == DEFAULT_BUFFER_CAPACITY,
            writer@.key == DEFAULT_KEY,
            writer@.state is Header,
            writer@.wf(),
            writer.roomy(),
    {
        Self::new()
    }
}

/// An entry header that is staged leaves the writer at the start of the
/// file: the bytes of the header stand behind the data as the archive holds
/// them, and the cipher of the file starts with the key behind the header.
pub proof fn lemma_entry_staged(
    writer: WriterView,
    name: Seq<char>,
    size: u32,
    post: WriterView,
)
    requires
        writer.entry_step(name, size, post, Ok(WriterAction::Done(()))),
    ensures
        post.data == writer.data + entry_bytes(writer.key, encode_utf8(name), size),
        post.key == entry_key_after(writer.key, encode_utf8(name).len()),
        post.in_file(post.key, size, 0),
{
}

/// A file is written in pieces as it is written at once. A writer in a file,
/// with some of its bytes written, that takes the next bytes of the file
/// from the front of its space, stages the bytes that stand at their place
/// when the whole of the file up to there is enciphered with the key the
/// file started with; and the writer is then further in the file, or, with
/// the last byte of the file, ready for the next entry.
pub proof fn lemma_file_written_in_pieces(
    writer: WriterView,
    start_key: u32,
    size: u32,
    written: Seq<u8>,
    count: usize,
    post: WriterView,
    answer: WriterAnswer<usize>,
)
    requires
        writer.in_file(start_key, size, written.len()),
        written.len() + count <= size,
        count <= writer.space.len(),
        writer.data_step(count, post, answer),
    ensures
        answer == Ok::<WriterAction<usize>, Fault>(WriterAction::Done(count)),
        post.data == writer.data + crypt_data(
            start_key,
            0,
            written + writer.space.take(count as int),
        ).skip(written.len() as int),
        post.key == writer.key,
        written.len() + count < size ==> post.in_file(
            start_key,
            size,
            written.len() + count as nat,
        ),
        written.len() + count == size ==> post.state is FileHeader,
{
    let piece = writer.space.take(count as int);
    lemma_crypt_data_chunks(start_key, 0, written, piece);
    lemma_data_position_split(start_key, 0, written.len() as int, count as int);
    let whole = crypt_data(start_key, 0, written + piece);
    assert(whole.skip(written.len() as int) =~= crypt_data(
        data_key_after(start_key, 0, written.len() as int),
        data_counter_after(0, written.len() as int),
        piece,
    ));
}

/// Whether `post` is a writer that a run of steps over the files can leave,
/// with nothing taken out of the buffer in between: for each file the step
/// that stages its entry header, and then, once the driver has put the data
/// of the file at the front of the space, the step that stages the data.
pub open spec fn writes_files(pre: WriterView, entries: Seq<Entry>, post: WriterView) -> bool
    decreases entries.len(),
{
    if entries.len() == 0 {
        post == pre
    } else {
        let size = entries[0].data.len();
        exists|at_data: WriterView, staged: WriterView, behind: WriterView|
            #![trigger
                pre.entry_step(entries[0].name, size as u32, at_data, Ok(WriterAction::Done(()))),
                staged.data_step(size as usize, behind, Ok(WriterAction::Done(size as usize)))
            ]
            {
                &&& pre.entry_step(entries[0].name, size as u32, at_data, Ok(WriterAction::Done(())))
                &&& staged == (WriterView { space: staged.space, ..at_data })
                &&& staged.space.len() == at_data.space.len()
                &&& size <= staged.space.len()
                &&& staged.space.take(size as int) == entries[0].data
                &&& staged.data_step(
                    size as usize,
                    behind,
                    Ok(WriterAction::Done(size as usize)),
                )
                &&& writes_files(behind, entries.drop_first(), post)
            }
    }
}

/// A run of steps stages files as the archive holds them. A writer between
/// two files that takes a run of steps over a sequence of files, each with
/// data whose length a `u32` holds, and from whose buffer nothing is taken in
/// between, then holds behind its data the entries of those files, written
/// with the key it had, and has the key behind them.
pub proof fn lemma_run_writes_entries(pre: WriterView, entries: Seq<Entry>, post: WriterView)
    requires
        forall|i: int| 0 <= i < entries.len() ==> (#[trigger] entries[i]).data.len() <= u32::MAX,
        writes_files(pre, entries, post),
    ensures
        post.data == pre.data + entries_bytes(pre.key, entries),
        post.key == key_behind_all(pre.key, entries),
        entries.len() > 0 ==> post.state is FileHeader,
    decreases entries.len(),
{
    if entries.len() == 0 {
        assert(pre.data + entries_bytes(pre.key, entries) =~= pre.data);
    } else {
        let first = entries[0];
        let others = entries.drop_first();
        let size = first.data.len();
        let (at_data, staged, behind) = choose|
            at_data: WriterView,
            staged: WriterView,
            behind: WriterView,
        |
            #![trigger
                pre.entry_step(first.name, size as u32, at_data, Ok(WriterAction::Done(()))),
                staged.data_step(size as usize, behind, Ok(WriterAction::Done(size as usize)))
            ]
            {
                &&& pre.entry_step(first.name, size as u32, at_data, Ok(WriterAction::Done(())))
                &&& staged == (WriterView { space: staged.space, ..at_data })
                &&& staged.space.len() == at_data.space.len()
                &&& size <= staged.space.len()
                &&& staged.space.take(size as int) == first.data
                &&& staged.data_step(size as usize, behind, Ok(WriterAction::Done(size as usize)))
                &&& writes_files(behind, others, post)
            };
        assert forall|i: int| 0 <= i < others.len() implies (#[trigger] others[i]).data.len()
            <= u32::MAX by {
            assert(others[i] == entries[i + 1]);
        }
        lemma_entry_staged(pre, first.name, size as u32, at_data);
        assert(staged.in_file(staged.key, size as u32, 0));
        lemma_file_written_in_pieces(
            staged,
            staged.key,
            size as u32,
            Seq::empty(),
            size as usize,
            behind,
            Ok(WriterAction::Done(size as usize)),
        );
        assert(Seq::<u8>::empty() + first.data =~= first.data);
        assert(crypt_data(staged.key, 0, first.data).skip(0) =~= crypt_data(
            staged.key,
            0,
            first.data,
        ));
        lemma_run_writes_entries(behind, others, post);
        let head = entry_bytes(pre.key, encode_utf8(first.name), size as u32);
        let body = crypt_data(key_behind(pre.key, first), 0, first.data);
        assert(post.data =~= pre.data + (head + body + entries_bytes(
            key_behind(pre.key, first),
            others,
        )));
        if others.len() == 0 {
            assert(post == behind);
        }
    }
}

/// A run of steps writes the archive. A writer that has written nothing and
/// has room for the archive header, that stages the header and then takes a
/// run of steps over a sequence of files, with nothing taken out of its
/// buffer in between, holds the archive of those files.
pub proof fn lemma_run_writes_archive(
    pre: WriterView,
    entries: Seq<Entry>,
    past: WriterView,
    post: WriterView,
)
    requires
        pre.data.len() == 0,
        pre.key == DEFAULT_KEY,
        pre.state is Header,
        forall|i: int| 0 <= i < entries.len() ==> (#[trigger] entries[i]).data.len() <= u32::MAX,
        pre.header_step(past, Ok(WriterAction::Done(()))),
        writes_files(past, entries, post),
    ensures
        post.data == archive_bytes(entries),
{
    lemma_run_writes_entries(past, entries, post);
    assert(pre.data + header_bytes(VERSION) =~= header_bytes(VERSION));
}

} // verus!
