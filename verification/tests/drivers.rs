use rgssad::reader::{finish_read, File, ReadOutcome, Reader};
use rgssad::reader3::{File3, Reader3};
use rgssad::sans_io::{Error as SansIoError, FileHeader, FileHeader3, ReaderAction};
use rgssad::tokio::{TokioReader, TokioWriter};
use rgssad::writer::{Core, WriteStep, Writer};
use rgssad::writer3::{Core3, Writer3};
use rgssad::Error;

const ARCHIVE: [u8; 70] = [
    0x52, 0x47, 0x53, 0x53, 0x41, 0x44, 0x00, 0x01, 0xfb, 0xca, 0xad, 0xde, 0x94, 0x98, 0x89, 0x96,
    0xf1, 0xa5, 0x49, 0x66, 0xbb, 0xe5, 0x6a, 0xed, 0x9f, 0x03, 0xcc, 0x1f, 0x9a, 0x74, 0xe2, 0x7c,
    0xe1, 0xe8, 0xe7, 0xdd, 0x8e, 0x05, 0x47, 0x13, 0xdc, 0xb3, 0x02, 0xac, 0xea, 0x34, 0x42, 0x0a,
    0x2e, 0x6b, 0x5d, 0x49, 0x40, 0xed, 0x8a, 0xff, 0xc9, 0x84, 0xed, 0xd0, 0xa5, 0x91, 0x4a, 0xf8,
    0xc0, 0x35, 0xfd, 0xa5, 0xba, 0x88,
];

const ARCHIVE3: [u8; 85] = [
    0x52, 0x47, 0x53, 0x53, 0x41, 0x44, 0x00, 0x03, 0xb3, 0x0b, 0x00, 0x00, 0x06, 0x69, 0x00, 0x00,
    0x4d, 0x69, 0x00, 0x00, 0x0a, 0x5a, 0x22, 0x11, 0x4b, 0x69, 0x00, 0x00, 0x2f, 0x47, 0x74, 0x78,
    0x3a, 0x05, 0x69, 0x00, 0x00, 0x44, 0x69, 0x00, 0x00, 0xeb, 0xcc, 0xa5, 0xa5, 0x49, 0x69, 0x00,
    0x00, 0x2c, 0x46, 0x63, 0x2e, 0x2c, 0x00, 0x6e, 0x4e, 0x69, 0x00, 0x00, 0x4e, 0x69, 0x00, 0x00,
    0x4e, 0x69, 0x00, 0x00, 0x4e, 0x69, 0x00, 0x00, 0x2c, 0x5a, 0x03, 0xa5, 0xa4, 0xa7, 0xa6, 0x82,
    0x82, 0x81, 0x80, 0xa5, 0xbd,
];

fn write_out(core: &mut Core, output: &mut Vec<u8>, limit: usize) {
    let data = core.data();
    let n = data.len().min(limit);
    assert!(n > 0, "asked to write though nothing is staged");
    output.extend_from_slice(&data[..n]);
    core.consume(n);
}

fn read_in(core: &mut Core, input: &mut &[u8], piece: usize) {
    let space = core.space();
    assert!(!space.is_empty(), "asked to read though there is no space");
    let n = piece.min(space.len()).min(input.len());
    space[..n].copy_from_slice(&input[..n]);
    *input = &input[n..];
    core.finish_read(n).expect("the read was asked for");
}

fn write_all(files: &[(&str, Vec<u8>)], limit: usize, piece: usize) -> Vec<u8> {
    let mut output = Vec::new();
    let mut core = Core::new();
    loop {
        match core.step_write_header().expect("failed to write header") {
            WriteStep::Write => write_out(&mut core, &mut output, limit),
            WriteStep::Read => unreachable!(),
            WriteStep::Done => break,
        }
    }
    for (name, data) in files {
        let mut input = &data[..];
        loop {
            match core.step_write_file(name, data.len() as u32).expect("failed to write file") {
                WriteStep::Write => write_out(&mut core, &mut output, limit),
                WriteStep::Read => read_in(&mut core, &mut input, piece),
                WriteStep::Done => break,
            }
        }
        assert!(core.data().is_empty());
    }
    core.finish().expect("failed to finish");
    output
}

#[test]
fn core_writes_the_reference_bytes() {
    let files = [("a.txt", b"hi!".to_vec()), ("Data/Map001.rvdata", (0..20u8).collect())];
    for limit in [1, 3, 1000] {
        for piece in [1, 4, 1000] {
            assert_eq!(write_all(&files, limit, piece), ARCHIVE.to_vec());
        }
    }
}

#[test]
fn core_writes_large_and_empty_files() {
    let files = [
        ("empty", Vec::new()),
        ("large", (0..50000usize).map(|i| (i % 251) as u8).collect()),
        ("empty again", Vec::new()),
    ];
    let archive = write_all(&files, 4096, 9000);
    assert_eq!(archive.len(), 8 + (8 + 5) + (8 + 5 + 50000) + (8 + 11));
    assert_eq!(write_all(&files, 1, 1), archive);
}

#[test]
fn core_header_step_is_done_once_the_buffer_is_empty() {
    let mut core = Core::new();
    assert!(matches!(core.step_write_header(), Ok(WriteStep::Write)));
    assert_eq!(core.data(), b"RGSSAD\0\x01");
    core.consume(5);
    assert!(matches!(core.step_write_header(), Ok(WriteStep::Write)));
    core.consume(3);
    assert!(matches!(core.step_write_header(), Ok(WriteStep::Done)));
    assert!(matches!(core.step_write_header(), Ok(WriteStep::Done)));
    assert!(core.finish().is_ok());
}

#[test]
fn core_refuses_reads_it_did_not_ask_for() {
    let mut core = Core::new();
    assert!(matches!(core.finish_read(1), Err(Error::InvalidState)));
    assert!(matches!(core.step_write_file("a", 2), Ok(WriteStep::Read)));
    let room = core.space().len();
    assert!(matches!(core.finish_read(room + 1), Err(Error::InvalidState)));
    assert!(core.finish_read(2).is_ok());
    assert!(matches!(core.finish_read(1), Err(Error::InvalidState)));
    assert!(matches!(core.finish(), Err(Error::InvalidState)));
}

#[test]
fn core_reports_a_file_that_is_cut_short() {
    let mut core = Core::new();
    assert!(matches!(core.step_write_file("a", 5), Ok(WriteStep::Read)));
    core.space()[..2].copy_from_slice(b"xy");
    core.finish_read(2).expect("the read was asked for");
    assert!(matches!(core.step_write_file("a", 5), Ok(WriteStep::Read)));
    // The file data ends after two of five bytes.
    core.finish_read(0).expect("the read was asked for");
    assert!(matches!(core.step_write_file("a", 5), Ok(WriteStep::Write)));
    let staged = core.data().len();
    core.consume(staged);
    assert!(matches!(core.step_write_file("a", 5), Ok(WriteStep::Done)));
    // The core is between two files, the state machine is not.
    assert!(matches!(core.finish(), Err(Error::InvalidState)));
    assert!(matches!(
        core.step_write_file("b", 1),
        Err(Error::SansIo(SansIoError::FileDataSizeMismatch { actual: 2, expected: 5 }))
    ));
}

#[test]
fn core_reports_file_data_beyond_the_size() {
    let mut core = Core::new();
    assert!(matches!(core.step_write_file("a", 1), Ok(WriteStep::Read)));
    core.space()[..2].copy_from_slice(b"xy");
    core.finish_read(2).expect("the read was asked for");
    assert!(matches!(
        core.step_write_file("a", 1),
        Err(Error::SansIo(SansIoError::FileDataSizeMismatch { actual: 2, expected: 1 }))
    ));
}

#[test]
fn core_passes_on_a_name_that_is_too_long() {
    let mut core = Core::new();
    let name = "n".repeat(5000);
    assert!(matches!(
        core.step_write_file(&name, 1),
        Err(Error::SansIo(SansIoError::FileNameTooLongUsize { len: 5000 }))
    ));
}

fn write_out3(core: &mut Core3, output: &mut Vec<u8>, limit: usize) {
    let data = core.data();
    let n = data.len().min(limit);
    assert!(n > 0, "asked to write though nothing is staged");
    output.extend_from_slice(&data[..n]);
    core.consume(n);
}

fn write_all3(key: u32, files: &[(&str, Vec<u8>, u32)], limit: usize, piece: usize) -> Vec<u8> {
    let mut output = Vec::new();
    let mut core = Core3::new(key);
    for (name, data, file_key) in files {
        core.add_file(name.to_string(), data.len() as u32, *file_key).expect("failed to add");
    }
    loop {
        match core.step_write_header().expect("failed to write header") {
            WriteStep::Write => write_out3(&mut core, &mut output, limit),
            WriteStep::Read => unreachable!(),
            WriteStep::Done => break,
        }
    }
    for (index, (_, data, _)) in files.iter().enumerate() {
        let mut input = &data[..];
        loop {
            match core.step_write_file_data(index).expect("failed to write file data") {
                WriteStep::Write => write_out3(&mut core, &mut output, limit),
                WriteStep::Read => {
                    let space = core.space();
                    let n = piece.min(space.len()).min(input.len());
                    space[..n].copy_from_slice(&input[..n]);
                    input = &input[n..];
                    core.finish_read(n).expect("the read was asked for");
                }
                WriteStep::Done => break,
            }
        }
    }
    if files.is_empty() {
        loop {
            match core.step_write_file_headers().expect("failed to write file headers") {
                WriteStep::Write => write_out3(&mut core, &mut output, limit),
                WriteStep::Read => unreachable!(),
                WriteStep::Done => break,
            }
        }
    }
    core.finish().expect("failed to finish");
    output
}

#[test]
fn core3_writes_the_reference_bytes() {
    let files = [
        ("a.txt", b"hi!".to_vec(), 0x11223344),
        ("b/c.bin", (0..10u8).collect(), 0xA5A5A5A5),
    ];
    for limit in [1, 5, 1000] {
        for piece in [1, 2, 1000] {
            assert_eq!(write_all3(0x694E, &files, limit, piece), ARCHIVE3.to_vec());
        }
    }
}

#[test]
fn core3_writes_an_archive_without_files() {
    let archive = write_all3(0x694E, &[], 3, 3);
    assert_eq!(&archive[..12], b"RGSSAD\0\x03\xb3\x0b\x00\x00");
    assert_eq!(archive.len(), 28);
}

#[test]
fn core3_refuses_files_behind_the_table() {
    let mut core = Core3::new(0x694E);
    assert!(core.add_file("a".to_string(), 0, 0).is_ok());
    let mut output = Vec::new();
    loop {
        match core.step_write_file_headers().expect("failed to write file headers") {
            WriteStep::Write => write_out3(&mut core, &mut output, 1000),
            WriteStep::Read => unreachable!(),
            WriteStep::Done => break,
        }
    }
    assert!(matches!(
        core.add_file("b".to_string(), 0, 0),
        Err(Error::SansIo(SansIoError::InvalidState))
    ));
    // The file is empty, but it has not been written.
    assert!(matches!(core.finish(), Err(Error::InvalidState)));
    assert!(matches!(core.step_write_file_data(0), Ok(WriteStep::Read)));
    core.finish_read(0).expect("the read was asked for");
    assert!(matches!(core.step_write_file_data(0), Ok(WriteStep::Done)));
    assert!(core.finish().is_ok());
}

#[test]
fn core3_writes_files_without_data() {
    let files = [
        ("first", Vec::new(), 1),
        ("second", vec![1u8, 2, 3], 0x0A0B0C0D),
        ("third", Vec::new(), 3),
    ];
    let archive = write_all3(0x694E, &files, 7, 2);
    let table = 12 + (16 + 5) + (16 + 6) + (16 + 5) + 16;
    assert_eq!(archive.len(), table + 3);
    assert_eq!(&archive[table..], &[1 ^ 0x0D, 2 ^ 0x0C, 3 ^ 0x0B]);
}

#[test]
fn core3_finds_a_file_out_of_its_turn() {
    let mut core = Core3::new(0x694E);
    core.add_file("a".to_string(), 2, 0).expect("failed to add");
    core.add_file("b".to_string(), 2, 0).expect("failed to add");
    core.add_file("c".to_string(), 2, 0).expect("failed to add");
    let mut output = Vec::new();
    loop {
        match core.step_write_file_headers().expect("failed to write file headers") {
            WriteStep::Write => write_out3(&mut core, &mut output, 1000),
            WriteStep::Read => unreachable!(),
            WriteStep::Done => break,
        }
    }
    assert!(matches!(
        core.step_write_file_data(1),
        Err(Error::SansIo(SansIoError::FileDataSizeMismatch { actual: 0, expected: 2 }))
    ));
    assert!(matches!(
        core.step_write_file_data(2),
        Err(Error::SansIo(SansIoError::InvalidState))
    ));
    assert!(matches!(core.step_write_file_data(0), Ok(WriteStep::Read)));
}

#[test]
fn core3_refuses_an_archive_that_is_too_large() {
    let mut core = Core3::new(0x694E);
    assert!(core.add_file("a".to_string(), u32::MAX, 0).is_ok());
    assert!(core.add_file("b".to_string(), 1, 0).is_ok());
    assert!(matches!(core.step_write_file_headers(), Err(Error::FileDataTooLong)));
    assert!(matches!(core.step_write_file_data(0), Err(Error::FileDataTooLong)));
}

#[test]
fn core3_reports_data_for_a_file_that_does_not_exist() {
    let mut core = Core3::new(0x694E);
    let mut output = Vec::new();
    loop {
        match core.step_write_file_data(0).expect("failed to step") {
            WriteStep::Write => write_out3(&mut core, &mut output, 1000),
            WriteStep::Read => break,
            WriteStep::Done => unreachable!(),
        }
    }
    core.space()[0] = 1;
    core.finish_read(1).expect("the read was asked for");
    assert!(matches!(
        core.step_write_file_data(0),
        Err(Error::SansIo(SansIoError::InvalidState))
    ));
}

#[test]
fn core3_reports_data_beyond_the_last_file() {
    let mut core = Core3::new(0x694E);
    core.add_file("a".to_string(), 2, 5).expect("failed to add");
    let mut output = Vec::new();
    let mut input: &[u8] = &[1, 2, 3];
    let error = loop {
        match core.step_write_file_data(0) {
            Ok(WriteStep::Write) => write_out3(&mut core, &mut output, 1000),
            Ok(WriteStep::Read) => {
                // The file data comes two bytes at first and then one more.
                let n = input.len().min(2);
                core.space()[..n].copy_from_slice(&input[..n]);
                input = &input[n..];
                core.finish_read(n).expect("the read was asked for");
            }
            Ok(WriteStep::Done) => panic!("the core should have errored"),
            Err(error) => break error,
        }
    };
    assert!(matches!(
        error,
        Error::SansIo(SansIoError::FileDataSizeMismatch { actual: 3, expected: 2 })
    ));
}

#[test]
fn end_of_input_ends_the_archive_between_entries_only() {
    let mut reader = rgssad::sans_io::Reader::new();
    assert!(matches!(finish_read(&mut reader, 0), Ok(ReadOutcome::EndOfArchive)));
    reader.space()[..3].copy_from_slice(&ARCHIVE[..3]);
    assert!(matches!(finish_read(&mut reader, 3), Ok(ReadOutcome::More)));
    assert_eq!(reader.available_data(), 3);
    assert!(matches!(finish_read(&mut reader, 0), Err(Error::UnexpectedEof)));
    assert_eq!(reader.available_data(), 3);
}

#[test]
fn readers_and_writers_hold_their_transport() {
    let mut reader = Reader::new(vec![1u8, 2]);
    assert_eq!(reader.get_ref(), &vec![1u8, 2]);
    reader.get_mut().push(3);
    {
        let (transport, state_machine) = reader.parts();
        transport.push(4);
        assert!(matches!(state_machine.step_read_header(), Ok(ReaderAction::Read(8))));
    }
    assert_eq!(reader.into_inner(), vec![1u8, 2, 3, 4]);

    let mut reader = Reader3::new(7u8);
    assert_eq!(reader.key(), None);
    *reader.get_mut() = 8;
    assert_eq!(*reader.get_ref(), 8);
    {
        let (_, state_machine) = reader.parts();
        state_machine.space()[..12].copy_from_slice(&ARCHIVE3[..12]);
        state_machine.fill(12);
        assert!(state_machine.step_read_header().is_ok());
    }
    assert_eq!(reader.key(), Some(0x694E));
    assert_eq!(reader.into_inner(), 8);

    let mut reader = TokioReader::new("transport");
    *reader.get_mut() = "other";
    assert_eq!(reader.parts().1.available_data(), 0);
    assert_eq!(reader.into_inner(), "other");

    let mut writer = Writer::new(Vec::<u8>::new());
    writer.get_mut().push(9);
    {
        let (transport, core) = writer.parts();
        assert!(matches!(core.step_write_header(), Ok(WriteStep::Write)));
        transport.extend_from_slice(core.data());
    }
    assert_eq!(writer.into_inner(), b"\x09RGSSAD\0\x01".to_vec());

    let mut writer = Writer3::new(Vec::<u8>::new(), 3);
    writer.get_mut().push(9);
    {
        let (transport, core) = writer.parts();
        assert!(matches!(core.step_write_header(), Ok(WriteStep::Write)));
        transport.extend_from_slice(core.data());
    }
    assert_eq!(writer.into_inner(), b"\x09RGSSAD\0\x03\0\0\0\0".to_vec());

    let mut writer = TokioWriter::new(5u32);
    *writer.get_mut() += 1;
    assert!(writer.parts().1.finish().is_ok());
    assert_eq!(writer.into_inner(), 6);
}

#[test]
fn files_tell_what_their_headers_hold() {
    let file = File::new(FileHeader { name: "a/b".to_string(), size: 7 });
    assert_eq!(file.name(), "a/b");
    assert_eq!(file.size(), 7);
    let file = File3::new(FileHeader3 { name: "c".to_string(), size: 8, key: 9, offset: 10 });
    assert_eq!(file.name(), "c");
    assert_eq!(file.size(), 8);
    assert_eq!(file.key(), 9);
    assert_eq!(file.header().offset, 10);
}

#[test]
fn errors_of_the_state_machines_become_library_errors() {
    let error = Error::from(SansIoError::InvalidVersion { version: 2 });
    assert!(matches!(error, Error::SansIo(SansIoError::InvalidVersion { version: 2 })));
}
