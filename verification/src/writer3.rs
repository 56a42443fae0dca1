use vstd::prelude::*;

use crate::sans_io::writer3::{FileEntry, Writer3View};
use crate::sans_io::{Fault, WriterAction, WriterAnswer};
use crate::writer::{step_answer, StepAnswer, WriteStep};
use crate::{Error, Failure};

verus! {

/// What the writer of file data is at.
#[derive(Debug, Copy, Clone)]
pub enum State {
    /// The file table has not been written.
    FileHeader,
    /// The file table has been written, and `size` bytes of file data stand
    /// in the space and have not been enciphered. `is_new` says that no file
    /// data has been asked for since the table or the last file.
    FileData { size: usize, is_new: bool },
    /// The data of a file has ended; what is staged has to leave the buffer.
    Flush,
}

/// The part of an archive writer of the third format that decides: the state
/// machine together with what the writer of file data is at. A driver steps
/// it and does to its transport what the steps ask for.
#[derive(Debug)]
pub struct Core3 {
    state_machine: crate::sans_io::Writer3,
    state: State,
}

/// A [`Core3`] as a mathematical value.
pub struct Core3View {
    /// The state machine.
    pub machine: Writer3View,
    /// What the writer of file data is at.
    pub state: State,
}

impl Core3View {
    /// The state machine is well formed; file data is written behind the
    /// file table, in an archive whose files start at offsets that a `u32`
    /// holds; and the file data that waits in the space fits the space and a
    /// `u32`.
    pub open spec fn wf(self) -> bool {
        &&& self.machine.wf()
        &&& !(self.state is FileHeader) ==> self.machine.state is FileData
            && self.machine.offsets_fit()
        &&& self.state matches State::FileData { size, .. } ==> size <= self.machine.space.len()
            && size <= u32::MAX
    }

    /// What a driver has to do for file data to arrive: empty the buffer if
    /// it has no space, and read file data into the space if it has.
    pub open spec fn filling(self) -> WriteStep {
        if self.machine.space.len() == 0 {
            WriteStep::Write
        } else {
            WriteStep::Read
        }
    }

    /// The step that writes the archive header, from this core to `post`
    /// with `answer`: the state machine takes its step for the header, and
    /// the step is complete when the state machine is done and nothing is
    /// left in the buffer. Until then the driver has to write.
    pub open spec fn header_step(self, post: Core3View, answer: StepAnswer) -> bool {
        post.state == self.state && exists|inner: WriterAnswer<()>| #[trigger]
            self.machine.header_step(post.machine, inner) && match inner {
                Err(fault) => answer == Err::<WriteStep, Failure>(Failure::SansIo { fault }),
                Ok(WriterAction::Write) => answer == Ok::<WriteStep, Failure>(WriteStep::Write),
                Ok(WriterAction::Done(_)) => answer == Ok::<WriteStep, Failure>(
                    if post.machine.data.len() == 0 {
                        WriteStep::Done
                    } else {
                        WriteStep::Write
                    },
                ),
            }
    }

    /// The step that writes the archive header and the file table, from this
    /// core to `post` with `answer`. An archive whose files do not all start
    /// at an offset that a `u32` holds is refused. Else the state machine
    /// takes its step for the file table, and the step is complete when the
    /// state machine is done and nothing is left in the buffer; the core then
    /// expects file data. Until then the driver has to write.
    pub open spec fn file_headers_step(self, post: Core3View, answer: StepAnswer) -> bool {
        if !self.machine.offsets_fit() {
            post == self && answer == Err::<WriteStep, Failure>(Failure::FileDataTooLong)
        } else {
            exists|inner: WriterAnswer<()>| #[trigger]
                self.machine.file_headers_step(post.machine, inner) && match inner {
                    Err(fault) => post.state == self.state && answer == Err::<WriteStep, Failure>(
                        Failure::SansIo { fault },
                    ),
                    Ok(WriterAction::Write) => post.state == self.state && answer == Ok::<
                        WriteStep,
                        Failure,
                    >(WriteStep::Write),
                    Ok(WriterAction::Done(_)) => if post.machine.data.len() == 0 {
                        post.state == (State::FileData { size: 0, is_new: true }) && answer == Ok::<
                            WriteStep,
                            Failure,
                        >(WriteStep::Done)
                    } else {
                        post.state == self.state && answer == Ok::<WriteStep, Failure>(
                            WriteStep::Write,
                        )
                    },
                }
        }
    }

    /// The step that writes data of file `file_index`, for a core that is
    /// past the file table, from this core to `post` with `answer`.
    ///
    /// A core with file data in the space lets the state machine take its
    /// step for these bytes. A core that has not asked for data of this file before lets
    /// the state machine take its step for no bytes, so that the state
    /// machine finds the file in its turn and passes a file without data. A
    /// core with no file data in the space asks for some: for the buffer to
    /// be emptied if there is no space, and for file data to be read if
    /// there is. A core whose file data has ended asks for the buffer to be
    /// emptied, and is done with the file when it is empty.
    pub open spec fn data_step(self, file_index: usize, post: Core3View, answer: StepAnswer) -> bool {
        match self.state {
            State::FileData { size: staged, is_new } => if staged == 0 && !is_new {
                post == self && answer == Ok::<WriteStep, Failure>(self.filling())
            } else {
                exists|inner: WriterAnswer<usize>| #[trigger]
                    self.machine.file_data_step(file_index, staged, post.machine, inner)
                        && match inner {
                        Err(fault) => post.state == self.state && answer == Err::<
                            WriteStep,
                            Failure,
                        >(Failure::SansIo { fault }),
                        Ok(WriterAction::Write) => post.state == self.state && answer == Ok::<
                            WriteStep,
                            Failure,
                        >(WriteStep::Write),
                        Ok(WriterAction::Done(_)) => post.state == (State::FileData {
                            size: 0,
                            is_new: false,
                        }) && answer == Ok::<WriteStep, Failure>(post.filling()),
                    }
            },
            State::Flush => if self.machine.data.len() == 0 {
                post == (Core3View { state: State::FileData { size: 0, is_new: true }, ..self })
                    && answer == Ok::<WriteStep, Failure>(WriteStep::Done)
            } else {
                post == self && answer == Ok::<WriteStep, Failure>(WriteStep::Write)
            },
            State::FileHeader => false,
        }
    }

    /// The step that writes data of file `file_index`: the archive header
    /// and the file table first, if they have not been written, then the
    /// data.
    pub open spec fn file_data_step(
        self,
        file_index: usize,
        post: Core3View,
        answer: StepAnswer,
    ) -> bool {
        if self.state is FileHeader {
            exists|past: Core3View, head: StepAnswer| #[trigger]
                self.file_headers_step(past, head) && if head == Ok::<WriteStep, Failure>(
                    WriteStep::Done,
                ) {
                    past.data_step(file_index, post, answer)
                } else {
                    post == past && answer == head
                }
        } else {
            self.data_step(file_index, post, answer)
        }
    }

    /// The core after the driver told it of a read of `num` bytes, if it was
    /// waiting for one and the bytes fit the space and a `u32`: no byte ends
    /// the file data, and else the bytes wait in the space.
    pub open spec fn read(self, num: usize) -> Option<Core3View> {
        if self.state matches State::FileData { size, .. } && size == 0 && num
            <= self.machine.space.len() && num <= u32::MAX {
            Some(
                Core3View {
                    state: if num == 0 {
                        State::Flush
                    } else {
                        State::FileData { size: num, is_new: false }
                    },
                    ..self
                },
            )
        } else {
            None
        }
    }

    /// Whether the archive is complete: nothing of it has been written, or
    /// the core is between two files and the state machine has the data of
    /// every file.
    pub open spec fn complete(self) -> bool {
        self.machine.complete() && match self.state {
            State::FileHeader => true,
            State::FileData { size, is_new } => size == 0 && is_new,
            State::Flush => false,
        }
    }
}

impl View for Core3 {
    type V = Core3View;

    closed spec fn view(&self) -> Core3View {
        Core3View { machine: self.state_machine@, state: self.state }
    }
}

impl Core3 {
    /// The buffer of the state machine has the capacity it was made with,
    /// and its data and its free space together take no more than the
    /// capacity and no less than half of it.
    pub closed spec fn roomy(&self) -> bool {
        self.state_machine.roomy()
    }

    /// Create a core for an archive with the archive key `key`.
    pub fn new(key: u32) -> (core: Self)
        ensures
            core@.state is FileHeader,
            core@.machine.data == Seq::<u8>::empty(),
            core@.machine.key == key,
            core@.machine.state is Header,
            core@.machine.files == Seq::<FileEntry>::empty(),
            core@.wf(),
            core.roomy(),
    {
        Core3 { state_machine: crate::sans_io::Writer3::new(key), state: State::FileHeader }
    }

    /// Get a reference to the output data buffer where data should be taken from.
    pub fn data(&self) -> (data: &[u8])
        ensures
            data@ == self@.machine.data,
    {
        self.state_machine.data()
    }

    /// Get a reference to the space data buffer where file data should be inserted.
    pub fn space(&mut self) -> (space: &mut [u8])
        ensures
            space@ == old(self)@.machine.space,
            final(space)@.len() == space@.len(),
            old(self).roomy() ==> final(self).roomy(),
            final(self)@ == (Core3View {
                machine: Writer3View { space: final(space)@, ..old(self)@.machine },
                ..old(self)@
            }),
    {
        self.state_machine.space()
    }

    /// Consume a number of bytes from the output buffer.
    pub fn consume(&mut self, size: usize)
        requires
            old(self)@.wf(),
            old(self).roomy(),
        ensures
            final(self)@.wf(),
            final(self).roomy(),
            final(self)@ == (Core3View {
                machine: Writer3View {
                    data: old(self)@.machine.data.skip(
                        if size <= old(self)@.machine.data.len() {
                            size as int
                        } else {
                            old(self)@.machine.data.len() as int
                        },
                    ),
                    space: final(self)@.machine.space,
                    ..old(self)@.machine
                },
                ..old(self)@
            }),
            final(self)@.machine.space.len() >= old(self)@.machine.space.len(),
    {
        self.state_machine.consume(size);
    }

    /// Step the writing of the archive header.
    ///
    /// If the header has already been written, this is a NOP.
    pub fn step_write_header(&mut self) -> (r: Result<WriteStep, Error>)
        requires
            old(self)@.wf(),
            old(self).roomy(),
        ensures
            final(self)@.wf(),
            final(self).roomy(),
            r matches Ok(WriteStep::Write) ==> final(self)@.machine.data.len() >= 1,
            r matches Ok(WriteStep::Read) ==> final(self)@.machine.space.len() >= 1,
            old(self)@.header_step(final(self)@, step_answer(r)),
    {
        let action = match self.state_machine.step_write_header() {
            Ok(action) => action,
            Err(error) => {
                return Err(Error::SansIo(error));
            },
        };
        match action {
            WriterAction::Write => Ok(WriteStep::Write),
            WriterAction::Done(_) => {
                if self.state_machine.data().len() == 0 {
                    Ok(WriteStep::Done)
                } else {
                    Ok(WriteStep::Write)
                }
            },
        }
    }

    /// Add a file.
    ///
    /// This only tells the writer about the file.
    /// Writing the file metadata and data is done separately.
    /// This can only be called before file header writing begins.
    /// A file table that would end behind what a `u32` holds is refused.
    pub fn add_file(&mut self, name: String, size: u32, key: u32) -> (r: Result<(), Error>)
        requires
            old(self)@.wf(),
            old(self).roomy(),
        ensures
            final(self)@.wf(),
            final(self).roomy(),
            final(self)@.state == old(self)@.state,
            match r {
                Ok(_) => {
                    &&& old(self)@.machine.accepts_files()
                    &&& vstd::utf8::encode_utf8(name@).len() <= crate::layout::MAX_FILE_NAME_LEN
                    &&& old(self)@.machine.has_room(vstd::utf8::encode_utf8(name@).len())
                    &&& final(self)@.machine == old(self)@.machine.with_file(
                        FileEntry { name: name@, size, key },
                    )
                },
                Err(error) => {
                    &&& final(self)@ == old(self)@
                    &&& error@ == if !old(self)@.machine.accepts_files() {
                        Failure::SansIo { fault: Fault::InvalidState }
                    } else if vstd::utf8::encode_utf8(name@).len()
                        > crate::layout::MAX_FILE_NAME_LEN {
                        Failure::SansIo {
                            fault: Fault::FileNameTooLongUsize {
                                len: vstd::utf8::encode_utf8(name@).len() as usize,
                            },
                        }
                    } else {
                        Failure::FileDataTooLong
                    }
                    &&& old(self)@.machine.accepts_files() && vstd::utf8::encode_utf8(name@).len()
                        <= crate::layout::MAX_FILE_NAME_LEN ==> !old(self)@.machine.has_room(
                        vstd::utf8::encode_utf8(name@).len(),
                    )
                },
            },
    {
        if self.state_machine.accepts_files() && name.as_str().as_bytes().len()
            <= crate::layout::MAX_FILE_NAME_LEN as usize && !self.state_machine.has_room(
            name.as_str(),
        ) {
            return Err(Error::FileDataTooLong);
        }
        match self.state_machine.add_file(name, size, key) {
            Ok(_) => Ok(()),
            Err(error) => Err(Error::SansIo(error)),
        }
    }

    /// What a driver has to do for file data to arrive.
    fn filling(&mut self) -> (step: WriteStep)
        ensures
            final(self)@ == old(self)@,
            old(self).roomy() ==> final(self).roomy(),
            step == old(self)@.filling(),
    {
        if self.state_machine.space().len() == 0 {
            WriteStep::Write
        } else {
            WriteStep::Read
        }
    }

    /// Step the writing of the file headers.
    ///
    /// If the file headers have already been written, no further bytes are staged.
    /// The header is written first if it has not been written.
    pub fn step_write_file_headers(&mut self) -> (r: Result<WriteStep, Error>)
        requires
            old(self)@.wf(),
            old(self).roomy(),
        ensures
            final(self)@.wf(),
            final(self).roomy(),
            r matches Ok(WriteStep::Write) ==> final(self)@.machine.data.len() >= 1,
            r matches Ok(WriteStep::Read) ==> final(self)@.machine.space.len() >= 1,
            old(self)@.file_headers_step(final(self)@, step_answer(r)),
    {
        if !self.state_machine.offsets_fit() {
            return Err(Error::FileDataTooLong);
        }
        let action = match self.state_machine.step_write_file_headers() {
            Ok(action) => action,
            Err(error) => {
                return Err(Error::SansIo(error));
            },
        };
        match action {
            WriterAction::Write => Ok(WriteStep::Write),
            WriterAction::Done(_) => {
                if self.state_machine.data().len() == 0 {
                    self.state = State::FileData { size: 0, is_new: true };
                    Ok(WriteStep::Done)
                } else {
                    Ok(WriteStep::Write)
                }
            },
        }
    }

    /// Step the writing of the data of file `file_index`.
    ///
    /// The step is to be repeated with the same argument until it is done.
    pub fn step_write_file_data(&mut self, file_index: usize) -> (r: Result<WriteStep, Error>)
        requires
            old(self)@.wf(),
            old(self).roomy(),
        ensures
            final(self)@.wf(),
            final(self).roomy(),
            r matches Ok(WriteStep::Write) ==> final(self)@.machine.data.len() >= 1,
            r matches Ok(WriteStep::Read) ==> final(self)@.machine.space.len() >= 1,
            old(self)@.file_data_step(file_index, final(self)@, step_answer(r)),
    {
        match self.state {
            State::FileHeader => {
                match self.step_write_file_headers() {
                    Ok(WriteStep::Done) => {},
                    other => {
                        return other;
                    },
                }
            },
            _ => {},
        }
        let ghost past = self@;
        assert(old(self)@.state is FileHeader ==> old(self)@.file_headers_step(
            past,
            Ok(WriteStep::Done),
        ));
        match self.state {
            State::FileData { size, is_new } => {
                if size == 0 && !is_new {
                    return Ok(self.filling());
                }
                let action = match self.state_machine.step_write_file_data(file_index, size) {
                    Ok(action) => action,
                    Err(error) => {
                        return Err(Error::SansIo(error));
                    },
                };
                match action {
                    WriterAction::Write => Ok(WriteStep::Write),
                    WriterAction::Done(_) => {
                        self.state = State::FileData { size: 0, is_new: false };
                        Ok(self.filling())
                    },
                }
            },
            State::Flush => {
                if self.state_machine.data().len() == 0 {
                    self.state = State::FileData { size: 0, is_new: true };
                    Ok(WriteStep::Done)
                } else {
                    Ok(WriteStep::Write)
                }
            },
            State::FileHeader => Err(Error::InvalidState),
        }
    }

    /// Tell the core how the read went that it asked for: `num` bytes of
    /// file data were written to the front of the space, and none if the
    /// file data has ended.
    ///
    /// It is an error to tell of a read that was not asked for, or of more
    /// bytes than the space has.
    pub fn finish_read(&mut self, num: usize) -> (r: Result<(), Error>)
        requires
            old(self)@.wf(),
            old(self).roomy(),
        ensures
            final(self)@.wf(),
            final(self).roomy(),
            match old(self)@.read(num) {
                Some(post) => r is Ok && final(self)@ == post,
                None => r matches Err(Error::InvalidState) && final(self)@ == old(self)@,
            },
    {
        match self.state {
            State::FileData { size, .. } => {
                if size != 0 {
                    return Err(Error::InvalidState);
                }
            },
            _ => {
                return Err(Error::InvalidState);
            },
        }
        if num > self.state_machine.space().len() || num > u32::MAX as usize {
            return Err(Error::InvalidState);
        }
        if num == 0 {
            self.state = State::Flush;
        } else {
            self.state = State::FileData { size: num, is_new: false };
        }
        Ok(())
    }

    /// Finish writing.
    ///
    /// The archive has to be complete. The driver then flushes its
    /// transport.
    pub fn finish(&self) -> (r: Result<(), Error>)
        ensures
            self@.complete() ==> r is Ok,
            !self@.complete() ==> r matches Err(Error::InvalidState),
    {
        match self.state {
            State::FileHeader => {},
            State::FileData { size, is_new } => {
                if size != 0 || !is_new {
                    return Err(Error::InvalidState);
                }
            },
            State::Flush => {
                return Err(Error::InvalidState);
            },
        }
        match self.state_machine.finish() {
            Ok(_) => Ok(()),
            Err(_) => Err(Error::InvalidState),
        }
    }
}

/// The archive writer: a transport, which a driver writes to, together with
/// the core that says what to write.
#[derive(Debug)]
pub struct Writer3<W> {
    /// The inner writer.
    writer: W,
    /// The deciding part.
    core: Core3,
}

impl<W> Writer3<W> {
    /// The transport, as a mathematical value.
    pub closed spec fn spec_writer(&self) -> W {
        self.writer
    }

    /// The deciding part, as a mathematical value.
    pub closed spec fn spec_core(&self) -> Core3 {
        self.core
    }

    /// Create an archive writer around a writer.
    pub fn new(writer: W, key: u32) -> (made: Self)
        ensures
            made.spec_writer() == writer,
            made.spec_core()@.state is FileHeader,
            made.spec_core()@.machine.state is Header,
            made.spec_core()@.machine.key == key,
            made.spec_core()@.machine.data == Seq::<u8>::empty(),
            made.spec_core()@.machine.files == Seq::<FileEntry>::empty(),
            made.spec_core()@.wf(),
            made.spec_core().roomy(),
    {
        Writer3 { writer, core: Core3::new(key) }
    }

    /// Get the inner writer.
    pub fn into_inner(self) -> (writer: W)
        ensures
            writer == self.spec_writer(),
    {
        self.writer
    }

    /// Get a mutable ref to the inner writer.
    pub fn get_mut(&mut self) -> (writer: &mut W)
        ensures
            *writer == old(self).spec_writer(),
            final(self).spec_writer() == *final(writer),
            final(self).spec_core() == old(self).spec_core(),
    {
        &mut self.writer
    }

    /// Get the transport and the deciding part, for a driver that moves
    /// bytes from the one to the other.
    pub fn parts(&mut self) -> (parts: (&mut W, &mut Core3))
        ensures
            *parts.0 == old(self).spec_writer(),
            *parts.1 == old(self).spec_core(),
            final(self).spec_writer() == *final(parts.0),
            final(self).spec_core() == *final(parts.1),
    {
        (&mut self.writer, &mut self.core)
    }
}

/// A step that is taken again goes on where it stopped. A core past the
/// file table that asked the driver to write, and is stepped again for the
/// same file before the driver has written anything, asks again and is the
/// same core: nothing is staged a second time and nothing that was staged is
/// lost.
pub proof fn lemma_retry_stages_nothing(
    core: Core3View,
    file_index: usize,
    asked: Core3View,
    again: Core3View,
    answer: StepAnswer,
)
    requires
        core.wf(),
        !(core.state is FileHeader),
        core.data_step(file_index, asked, Ok(WriteStep::Write)),
        asked.data_step(file_index, again, answer),
    ensures
        again == asked,
        answer == Ok::<WriteStep, Failure>(WriteStep::Write),
{
    if let State::FileData { size: staged, is_new } = core.state {
        if !(staged == 0 && !is_new) {
            // The state machine is past the file table, so it took its step
            // for the bytes and the core then found no space.
            let inner = choose|inner: WriterAnswer<usize>| #[trigger]
                core.machine.file_data_step(file_index, staged, asked.machine, inner);
            let (past, head) = choose|past: Writer3View, head: WriterAnswer<()>| #[trigger]
                core.machine.file_headers_step(past, head) && if head is Ok && head->Ok_0 is Done {
                    past.data_step(file_index, staged, asked.machine, inner)
                } else {
                    asked.machine == past && inner == Ok::<WriterAction<usize>, Fault>(
                        WriterAction::Write,
                    )
                };
            let (first, start) = choose|first: Writer3View, start: WriterAnswer<()>| #[trigger]
                core.machine.header_step(first, start) && if start is Ok && start->Ok_0 is Done {
                    first.table_step(past, head)
                } else {
                    past == first && head == start
                };
            assert(start == Ok::<WriterAction<()>, Fault>(WriterAction::Done(())));
            assert(head == Ok::<WriterAction<()>, Fault>(WriterAction::Done(())));
        }
    }
}

} // verus!
