use vstd::prelude::*;

use crate::sans_io::reader::ReaderView;
use crate::writer::Core;

verus! {

/// A tokio wrapper for an archive reader: a transport, which a driver awaits,
/// together with the state machine that says what to read and where to seek.
#[derive(Debug)]
pub struct TokioReader<R> {
    reader: R,
    state_machine: crate::sans_io::Reader,
}

impl<R> TokioReader<R> {
    /// The transport, as a mathematical value.
    pub closed spec fn spec_reader(&self) -> R {
        self.reader
    }

    /// The state machine, as a mathematical value.
    pub closed spec fn spec_state_machine(&self) -> crate::sans_io::Reader {
        self.state_machine
    }

    /// Make a new [`TokioReader`].
    pub fn new(reader: R) -> (made: Self)
        ensures
            made.spec_reader() == reader,
            made.spec_state_machine()@ == ReaderView::initial(),
            made.spec_state_machine()@.wf(),
            made.spec_state_machine().roomy(),
    {
        TokioReader { reader, state_machine: crate::sans_io::Reader::new() }
    }

    /// Get the inner reader
    pub fn into_inner(self) -> (reader: R)
        ensures
            reader == self.spec_reader(),
    {
        self.reader
    }

    /// Get a mutable ref to the inner reader
    pub fn get_mut(&mut self) -> (reader: &mut R)
        ensures
            *reader == old(self).spec_reader(),
            final(self).spec_reader() == *final(reader),
            final(self).spec_state_machine() == old(self).spec_state_machine(),
    {
        &mut self.reader
    }

    /// Get the transport and the state machine, for a driver that moves
    /// bytes from the one to the other.
    pub fn parts(&mut self) -> (parts: (&mut R, &mut crate::sans_io::Reader))
        ensures
            *parts.0 == old(self).spec_reader(),
            *parts.1 == old(self).spec_state_machine(),
            final(self).spec_reader() == *final(parts.0),
            final(self).spec_state_machine() == *final(parts.1),
    {
        (&mut self.reader, &mut self.state_machine)
    }
}

/// The archive writer: a transport, which a driver awaits, together with the
/// core that says what to write.
#[derive(Debug)]
pub struct TokioWriter<W> {
    /// The inner writer.
    writer: W,
    /// The deciding part.
    core: Core,
}

impl<W> TokioWriter<W> {
    /// The transport, as a mathematical value.
    pub closed spec fn spec_writer(&self) -> W {
        self.writer
    }

    /// The deciding part, as a mathematical value.
    pub closed spec fn spec_core(&self) -> Core {
        self.core
    }

    /// Create an archive writer around a writer.
    pub fn new(writer: W) -> (made: Self)
        ensures
            made.spec_writer() == writer,
            made.spec_core()@.state is FileHeader,
            made.spec_core()@.machine.state is Header,
            made.spec_core()@.machine.data == Seq::<u8>::empty(),
            made.spec_core()@.wf(),
            made.spec_core().roomy(),
    {
        TokioWriter { writer, core: Core::new() }
    }

    /// Get the inner writer.
    pub fn into_inner(self) -> (writer: W)
        ensures
            writer == self.spec_writer(),
    {
        self.writer
    }

    /// Get a mutable ref to the inner writer.
    pub fn get_mut(&mut self) -> (writer: &mut W)
        ensures
            *writer == old(self).spec_writer(),
            final(self).spec_writer() == *final(writer),
            final(self).spec_core() == old(self).spec_core(),
    {
        &mut self.writer
    }

    /// Get the transport and the deciding part, for a driver that moves
    /// bytes from the one to the other.
    pub fn parts(&mut self) -> (parts: (&mut W, &mut Core))
        ensures
            *parts.0 == old(self).spec_writer(),
            *parts.1 == old(self).spec_core(),
            final(self).spec_writer() == *final(parts.0),
            final(self).spec_core() == *final(parts.1),
    {
        (&mut self.writer, &mut self.core)
    }
}

} // verus!
