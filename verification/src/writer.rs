use vstd::prelude::*;

use crate::sans_io::writer::WriterView;
use crate::sans_io::{Fault, WriterAction, WriterAnswer};
use crate::{Error, Failure};

verus! {

/// What the writer of a file is at.
#[derive(Debug, Copy, Clone)]
pub enum State {
    /// The next thing to write is the header of a file.
    FileHeader,
    /// The header of a file has been written, and `size` bytes of its data
    /// stand in the space and have not been enciphered.
    FileData { size: usize },
    /// The data of a file has ended; what is staged has to leave the buffer.
    Flush,
}

/// What a driver has to do before it steps again.
#[derive(Debug, Copy, Clone, PartialEq, Eq)]
pub enum WriteStep {
    /// Write bytes of the data to the transport, and consume as many as were
    /// written.
    Write,
    /// Read file data into the space, and tell with `finish_read` how many
    /// bytes were read.
    Read,
    /// Nothing: the step is complete.
    Done,
}

/// The part of an archive writer that decides: the state machine together
/// with what the writer of a file is at. A driver steps it and does to its
/// transport what the steps ask for.
#[derive(Debug)]
pub struct Core {
    state: State,
    state_machine: crate::sans_io::Writer,
}

/// A [`Core`] as a mathematical value.
pub struct CoreView {
    /// What the writer of a file is at.
    pub state: State,
    /// The state machine.
    pub machine: WriterView,
}

/// What a step of a [`Core`] answers, as a mathematical value.
pub type StepAnswer = Result<WriteStep, Failure>;

/// The result of a step of a [`Core`] as a mathematical value.
pub open spec fn step_answer(r: Result<WriteStep, Error>) -> StepAnswer {
    match r {
        Ok(step) => Ok(step),
        Err(error) => Err(error@),
    }
}

impl CoreView {
    /// The state machine is well formed; file data is written behind the
    /// archive header; and the file data that waits in the space fits the
    /// space and a `u32`.
    pub open spec fn wf(self) -> bool {
        &&& self.machine.wf()
        &&& self.state is FileData ==> !(self.machine.state is Header)
        &&& self.state matches State::FileData { size } ==> size <= self.machine.space.len()
            && size <= u32::MAX
    }

    /// What a driver has to do for file data to arrive: empty the buffer if
    /// it has no space, and read file data into the space if it has.
    pub open spec fn filling(self) -> WriteStep {
        if self.machine.space.len() == 0 {
            WriteStep::Write
        } else {
            WriteStep::Read
        }
    }

    /// The step that writes the archive header, from this core to `post`
    /// with `answer`: the state machine takes its step for the header, and
    /// the step is complete when the state machine is done and nothing is
    /// left in the buffer. Until then the driver has to write.
    pub open spec fn header_step(self, post: CoreView, answer: StepAnswer) -> bool {
        exists|inner: WriterAnswer<()>| #[trigger]
            self.machine.header_step(post.machine, inner) && match inner {
                Err(fault) => post.state == self.state && answer == Err::<WriteStep, Failure>(
                    Failure::SansIo { fault },
                ),
                Ok(WriterAction::Write) => post.state == self.state && answer == Ok::<
                    WriteStep,
                    Failure,
                >(WriteStep::Write),
                Ok(WriterAction::Done(_)) => if post.machine.data.len() == 0 {
                    post.state == State::FileHeader && answer == Ok::<WriteStep, Failure>(
                        WriteStep::Done,
                    )
                } else {
                    post.state == self.state && answer == Ok::<WriteStep, Failure>(WriteStep::Write)
                },
            }
    }

    /// The step that writes a file called `name` with `size` bytes of data,
    /// from this core to `post` with `answer`.
    ///
    /// A core that is to write the header of the file lets the state machine
    /// take its step for the entry header, and turns to the file data when
    /// that is done. A core with file data in the space lets the state
    /// machine take its step for these bytes. A core with no file data in the
    /// space asks for some: for the buffer to be emptied if there is no
    /// space, and for file data to be read if there is. A core whose file
    /// data has ended asks for the buffer to be emptied, and is done with the
    /// file when it is empty.
    pub open spec fn file_step(
        self,
        name: Seq<char>,
        size: u32,
        post: CoreView,
        answer: StepAnswer,
    ) -> bool {
        match self.state {
            State::FileHeader => exists|inner: WriterAnswer<()>| #[trigger]
                self.machine.file_header_step(name, size, post.machine, inner) && match inner {
                    Err(fault) => post.state == self.state && answer == Err::<WriteStep, Failure>(
                        Failure::SansIo { fault },
                    ),
                    Ok(WriterAction::Write) => post.state == self.state && answer == Ok::<
                        WriteStep,
                        Failure,
                    >(WriteStep::Write),
                    Ok(WriterAction::Done(_)) => post.state == (State::FileData { size: 0 })
                        && answer == Ok::<WriteStep, Failure>(post.filling()),
                },
            State::FileData { size: staged } => if staged == 0 {
                post == self && answer == Ok::<WriteStep, Failure>(self.filling())
            } else {
                exists|inner: WriterAnswer<usize>| #[trigger]
                    self.machine.file_data_step(staged, post.machine, inner) && match inner {
                        Err(fault) => post.state == self.state && answer == Err::<
                            WriteStep,
                            Failure,
                        >(Failure::SansIo { fault }),
                        Ok(WriterAction::Write) => post.state == self.state && answer == Ok::<
                            WriteStep,
                            Failure,
                        >(WriteStep::Write),
                        Ok(WriterAction::Done(_)) => post.state == (State::FileData { size: 0 })
                            && answer == Ok::<WriteStep, Failure>(post.filling()),
                    }
            },
            State::Flush => if self.machine.data.len() == 0 {
                post == (CoreView { state: State::FileHeader, ..self }) && answer == Ok::<
                    WriteStep,
                    Failure,
                >(WriteStep::Done)
            } else {
                post == self && answer == Ok::<WriteStep, Failure>(WriteStep::Write)
            },
        }
    }

    /// The core after the driver told it of a read of `num` bytes, if it was
    /// waiting for one and the bytes fit the space and a `u32`: no byte ends
    /// the file data, and else the bytes wait in the space.
    pub open spec fn read(self, num: usize) -> Option<CoreView> {
        if self.state == (State::FileData { size: 0 }) && num <= self.machine.space.len() && num
            <= u32::MAX {
            Some(
                CoreView {
                    state: if num == 0 {
                        State::Flush
                    } else {
                        State::FileData { size: num }
                    },
                    ..self
                },
            )
        } else {
            None
        }
    }

    /// Whether the archive is complete as far as it was begun: the core
    /// is between two files and the state machine is not in the middle of
    /// one.
    pub open spec fn complete(self) -> bool {
        self.state is FileHeader && !self.machine.mid_entry()
    }
}

impl View for Core {
    type V = CoreView;

    closed spec fn view(&self) -> CoreView {
        CoreView { state: self.state, machine: self.state_machine@ }
    }
}

impl Core {
    /// The buffer of the state machine has the capacity it was made with,
    /// and its data and its free space together take no more than the
    /// capacity and no less than half of it.
    pub closed spec fn roomy(&self) -> bool {
        self.state_machine.roomy()
    }

    /// Create a core that has written nothing.
    pub fn new() -> (core: Self)
        ensures
            core@.state is FileHeader,
            core@.machine.data == Seq::<u8>::empty(),
            core@.machine.key == crate::layout::DEFAULT_KEY,
            core@.machine.state is Header,
            core@.wf(),
            core.roomy(),
    {
        Core { state: State::FileHeader, state_machine: crate::sans_io::Writer::new() }
    }

    /// Get a reference to the output data buffer where data should be taken from.
    pub fn data(&self) -> (data: &[u8])
        ensures
            data@ == self@.machine.data,
    {
        self.state_machine.data()
    }

    /// Get a reference to the space data buffer where file data should be inserted.
    pub fn space(&mut self) -> (space: &mut [u8])
        ensures
            space@ == old(self)@.machine.space,
            final(space)@.len() == space@.len(),
            old(self).roomy() ==> final(self).roomy(),
            final(self)@ == (CoreView {
                machine: WriterView { space: final(space)@, ..old(self)@.machine },
                ..old(self)@
            }),
    {
        self.state_machine.space()
    }

    /// Consume a number of bytes from the output buffer.
    pub fn consume(&mut self, size: usize)
        requires
            old(self)@.wf(),
            old(self).roomy(),
        ensures
            final(self)@.wf(),
            final(self).roomy(),
            final(self)@.state == old(self)@.state,
            final(self)@.machine.data == old(self)@.machine.data.skip(
                if size <= old(self)@.machine.data.len() {
                    size as int
                } else {
                    old(self)@.machine.data.len() as int
                },
            ),
            final(self)@.machine.space.len() >= old(self)@.machine.space.len(),
            final(self)@.machine.key == old(self)@.machine.key,
            final(self)@.machine.state == old(self)@.machine.state,
    {
        self.state_machine.consume(size);
    }

    /// Step the writing of the archive header.
    ///
    /// If the header has already been written, this is a NOP.
    pub fn step_write_header(&mut self) -> (r: Result<WriteStep, Error>)
        requires
            old(self)@.wf(),
            old(self).roomy(),
        ensures
            final(self)@.wf(),
            final(self).roomy(),
            r matches Ok(WriteStep::Write) ==> final(self)@.machine.data.len() >= 1,
            r matches Ok(WriteStep::Read) ==> final(self)@.machine.space.len() >= 1,
            old(self)@.header_step(final(self)@, step_answer(r)),
    {
        let action = match self.state_machine.step_write_header() {
            Ok(action) => action,
            Err(error) => {
                return Err(Error::SansIo(error));
            },
        };
        match action {
            WriterAction::Write => Ok(WriteStep::Write),
            WriterAction::Done(_) => {
                if self.state_machine.data().len() == 0 {
                    self.state = State::FileHeader;
                    Ok(WriteStep::Done)
                } else {
                    Ok(WriteStep::Write)
                }
            },
        }
    }

    /// What a driver has to do for file data to arrive.
    fn filling(&mut self) -> (step: WriteStep)
        ensures
            final(self)@ == old(self)@,
            old(self).roomy() ==> final(self).roomy(),
            step == old(self)@.filling(),
    {
        if self.state_machine.space().len() == 0 {
            WriteStep::Write
        } else {
            WriteStep::Read
        }
    }

    /// Step the writing of a file.
    ///
    /// A file is composed of a name (path), size, and data.
    /// The step is to be repeated with the same arguments until it is done.
    /// Note that if anything other than a driver's own error occurs, the written bytes are likely corrupted.
    pub fn step_write_file(&mut self, file_name: &str, file_size: u32) -> (r: Result<
        WriteStep,
        Error,
    >)
        requires
            old(self)@.wf(),
            old(self).roomy(),
        ensures
            final(self)@.wf(),
            final(self).roomy(),
            r matches Ok(WriteStep::Write) ==> final(self)@.machine.data.len() >= 1,
            r matches Ok(WriteStep::Read) ==> final(self)@.machine.space.len() >= 1,
            old(self)@.file_step(file_name@, file_size, final(self)@, step_answer(r)),
    {
        match self.state {
            State::FileHeader => {
                let action = match self.state_machine.step_write_file_header(file_name, file_size) {
                    Ok(action) => action,
                    Err(error) => {
                        return Err(Error::SansIo(error));
                    },
                };
                match action {
                    WriterAction::Write => Ok(WriteStep::Write),
                    WriterAction::Done(_) => {
                        self.state = State::FileData { size: 0 };
                        Ok(self.filling())
                    },
                }
            },
            State::FileData { size } => {
                if size == 0 {
                    return Ok(self.filling());
                }
                let action = match self.state_machine.step_write_file_data(size) {
                    Ok(action) => action,
                    Err(error) => {
                        return Err(Error::SansIo(error));
                    },
                };
                match action {
                    WriterAction::Write => Ok(WriteStep::Write),
                    WriterAction::Done(_) => {
                        self.state = State::FileData { size: 0 };
                        Ok(self.filling())
                    },
                }
            },
            State::Flush => {
                if self.state_machine.data().len() == 0 {
                    self.state = State::FileHeader;
                    Ok(WriteStep::Done)
                } else {
                    Ok(WriteStep::Write)
                }
            },
        }
    }

    /// Tell the core how the read went that it asked for: `num` bytes of
    /// file data were written to the front of the space, and none if the
    /// file data has ended.
    ///
    /// It is an error to tell of a read that was not asked for, or of more
    /// bytes than the space has.
    pub fn finish_read(&mut self, num: usize) -> (r: Result<(), Error>)
        requires
            old(self)@.wf(),
            old(self).roomy(),
        ensures
            final(self)@.wf(),
            final(self).roomy(),
            match old(self)@.read(num) {
                Some(post) => r is Ok && final(self)@ == post,
                None => r matches Err(Error::InvalidState) && final(self)@ == old(self)@,
            },
    {
        match self.state {
            State::FileData { size } => {
                if size != 0 {
                    return Err(Error::InvalidState);
                }
            },
            _ => {
                return Err(Error::InvalidState);
            },
        }
        if num > self.state_machine.space().len() || num > u32::MAX as usize {
            return Err(Error::InvalidState);
        }
        if num == 0 {
            self.state = State::Flush;
        } else {
            self.state = State::FileData { size: num };
        }
        Ok(())
    }

    /// Finish writing.
    ///
    /// The writer has to be between two files. The driver then flushes its
    /// transport.
    pub fn finish(&self) -> (r: Result<(), Error>)
        ensures
            self@.complete() ==> r is Ok,
            !self@.complete() ==> r matches Err(Error::InvalidState),
    {
        match self.state {
            State::FileHeader => {},
            _ => {
                return Err(Error::InvalidState);
            },
        }
        match self.state_machine.finish() {
            Ok(_) => Ok(()),
            Err(_) => Err(Error::InvalidState),
        }
    }
}

/// The archive writer: a transport, which a driver writes to, together with
/// the core that says what to write.
#[derive(Debug)]
pub struct Writer<W> {
    /// The inner writer.
    writer: W,
    /// The deciding part.
    core: Core,
}

impl<W> Writer<W> {
    /// The transport, as a mathematical value.
    pub closed spec fn spec_writer(&self) -> W {
        self.writer
    }

    /// The deciding part, as a mathematical value.
    pub closed spec fn spec_core(&self) -> Core {
        self.core
    }

    /// Create an archive writer around a writer.
    pub fn new(writer: W) -> (made: Writer<W>)
        ensures
            made.spec_writer() == writer,
            made.spec_core()@.state is FileHeader,
            made.spec_core()@.machine.state is Header,
            made.spec_core()@.machine.data == Seq::<u8>::empty(),
            made.spec_core()@.wf(),
            made.spec_core().roomy(),
    {
        Writer { writer, core: Core::new() }
    }

    /// Get the inner writer.
    pub fn into_inner(self) -> (writer: W)
        ensures
            writer == self.spec_writer(),
    {
        self.writer
    }

    /// Get a mutable ref to the inner writer.
    pub fn get_mut(&mut self) -> (writer: &mut W)
        ensures
            *writer == old(self).spec_writer(),
            final(self).spec_writer() == *final(writer),
            final(self).spec_core() == old(self).spec_core(),
    {
        &mut self.writer
    }

    /// Get the transport and the deciding part, for a driver that moves
    /// bytes from the one to the other.
    pub fn parts(&mut self) -> (parts: (&mut W, &mut Core))
        ensures
            *parts.0 == old(self).spec_writer(),
            *parts.1 == old(self).spec_core(),
            final(self).spec_writer() == *final(parts.0),
            final(self).spec_core() == *final(parts.1),
    {
        (&mut self.writer, &mut self.core)
    }
}

/// A step that is taken again goes on where it stopped. A core that asked
/// the driver to write, and is stepped again for the same file before the
/// driver has written anything, asks again and is the same core: nothing is
/// staged a second time and nothing that was staged is lost.
pub proof fn lemma_retry_stages_nothing(
    core: CoreView,
    name: Seq<char>,
    size: u32,
    asked: CoreView,
    again: CoreView,
    answer: StepAnswer,
)
    requires
        core.wf(),
        core.file_step(name, size, asked, Ok(WriteStep::Write)),
        asked.file_step(name, size, again, answer),
    ensures
        again == asked,
        answer == Ok::<WriteStep, Failure>(WriteStep::Write),
{
    if asked.state is FileHeader {
        // The state machine asked for room, for the archive header or for the
        // entry header, and asks for it again.
        let inner = choose|inner: WriterAnswer<()>| #[trigger]
            core.machine.file_header_step(name, size, asked.machine, inner) && inner == Ok::<
                WriterAction<()>,
                Fault,
            >(WriterAction::Write);
        let (past, head) = choose|past: WriterView, head: WriterAnswer<()>| #[trigger]
            core.machine.header_step(past, head) && if head is Ok && head->Ok_0 is Done {
                past.entry_step(name, size, asked.machine, inner)
            } else {
                asked.machine == past && inner == head
            };
        let inner2 = choose|inner2: WriterAnswer<()>| #[trigger]
            asked.machine.file_header_step(name, size, again.machine, inner2);
        let (past2, head2) = choose|past2: WriterView, head2: WriterAnswer<()>| #[trigger]
            asked.machine.header_step(past2, head2) && if head2 is Ok && head2->Ok_0 is Done {
                past2.entry_step(name, size, again.machine, inner2)
            } else {
                again.machine == past2 && inner2 == head2
            };
        assert(again.machine == asked.machine);
        assert(inner2 == Ok::<WriterAction<()>, Fault>(WriterAction::Write));
    } else if let State::FileData { size: staged } = core.state {
        if staged > 0 {
            let inner = choose|inner: WriterAnswer<usize>| #[trigger]
                core.machine.file_data_step(staged, asked.machine, inner);
            let (past, head) = choose|past: WriterView, head: WriterAnswer<()>| #[trigger]
                core.machine.header_step(past, head) && if head is Ok && head->Ok_0 is Done {
                    past.data_step(staged, asked.machine, inner)
                } else {
                    asked.machine == past && inner == Ok::<WriterAction<usize>, Fault>(
                        WriterAction::Write,
                    )
                };
            assert(head == Ok::<WriterAction<()>, Fault>(WriterAction::Done(())));
        }
    }
}

} // verus!
