use rgssad::sans_io::{
    Error as SansIoError, FileHeader3, Reader3, ReaderAction3, Writer3, WriterAction3,
};

/// An archive of the third format with the key 0x694E and two files, written
/// out by hand: `a.txt` holding `hi!` under the key 0x11223344 and `b/c.bin`
/// holding the bytes 0 to 9 under the key 0xA5A5A5A5.
const ARCHIVE: [u8; 85] = [
    0x52, 0x47, 0x53, 0x53, 0x41, 0x44, 0x00, 0x03, 0xb3, 0x0b, 0x00, 0x00, 0x06, 0x69, 0x00, 0x00,
    0x4d, 0x69, 0x00, 0x00, 0x0a, 0x5a, 0x22, 0x11, 0x4b, 0x69, 0x00, 0x00, 0x2f, 0x47, 0x74, 0x78,
    0x3a, 0x05, 0x69, 0x00, 0x00, 0x44, 0x69, 0x00, 0x00, 0xeb, 0xcc, 0xa5, 0xa5, 0x49, 0x69, 0x00,
    0x00, 0x2c, 0x46, 0x63, 0x2e, 0x2c, 0x00, 0x6e, 0x4e, 0x69, 0x00, 0x00, 0x4e, 0x69, 0x00, 0x00,
    0x4e, 0x69, 0x00, 0x00, 0x4e, 0x69, 0x00, 0x00, 0x2c, 0x5a, 0x03, 0xa5, 0xa4, 0xa7, 0xa6, 0x82,
    0x82, 0x81, 0x80, 0xa5, 0xbd,
];

fn sample_files() -> Vec<(String, Vec<u8>, u32)> {
    vec![
        ("a.txt".to_string(), b"hi!".to_vec(), 0x11223344),
        ("b/c.bin".to_string(), (0..10u8).collect(), 0xA5A5A5A5),
    ]
}

struct Source {
    bytes: Vec<u8>,
    position: usize,
    chunk: usize,
}

impl Source {
    fn new(bytes: &[u8], chunk: usize) -> Self {
        Source { bytes: bytes.to_vec(), position: 0, chunk }
    }

    fn read(&mut self, space: &mut [u8]) -> usize {
        let left = self.bytes.len() - self.position;
        let n = self.chunk.min(space.len()).min(left);
        space[..n].copy_from_slice(&self.bytes[self.position..self.position + n]);
        self.position += n;
        n
    }

    fn seek(&mut self, position: u64) {
        self.position = (position as usize).min(self.bytes.len());
    }
}

fn feed(reader: &mut Reader3, source: &mut Source, size: usize) {
    let space = reader.space();
    // A request is for at least one byte and fits the space.
    assert!(1 <= size && size <= space.len());
    let n = source.read(&mut space[..size]);
    assert!(n > 0, "the archive ended early");
    reader.fill(n);
}

fn read_file(reader: &mut Reader3, source: &mut Source) -> Result<Option<FileHeader3>, SansIoError> {
    loop {
        assert!(reader.within_limits());
        match reader.step_read_file_header()? {
            ReaderAction3::Read(size) => feed(reader, source, size),
            ReaderAction3::Seek(position) => {
                source.seek(position);
                reader.finish_seek(position);
            }
            ReaderAction3::Done(header) => return Ok(header),
        }
    }
}

fn read_data(
    reader: &mut Reader3,
    source: &mut Source,
    header: &FileHeader3,
    piece: usize,
) -> Vec<u8> {
    let mut data = Vec::new();
    let mut buffer = vec![0u8; piece];
    loop {
        assert!(reader.within_limits());
        match reader.step_read_file_data(header, &mut buffer).expect("failed to read file data") {
            ReaderAction3::Read(size) => feed(reader, source, size),
            ReaderAction3::Seek(position) => {
                source.seek(position);
                reader.finish_seek(position);
            }
            ReaderAction3::Done(0) => return data,
            ReaderAction3::Done(n) => data.extend_from_slice(&buffer[..n]),
        }
    }
}

fn read_table(reader: &mut Reader3, source: &mut Source) -> Vec<FileHeader3> {
    let mut headers = Vec::new();
    while let Some(header) = read_file(reader, source).expect("failed to read file") {
        headers.push(header);
    }
    headers
}

fn drain(writer: &mut Writer3, output: &mut Vec<u8>, limit: usize) {
    let data = writer.data();
    let n = data.len().min(limit);
    // A writer that asks to be emptied holds something.
    assert!(n > 0);
    output.extend_from_slice(&data[..n]);
    writer.consume(n);
}

fn write_all(key: u32, files: &[(String, Vec<u8>, u32)], limit: usize, piece: usize) -> Vec<u8> {
    let mut output = Vec::new();
    let mut writer = Writer3::new(key);
    for (name, data, file_key) in files {
        assert!(writer.has_room(name));
        writer.add_file(name.clone(), data.len() as u32, *file_key).expect("failed to add file");
    }
    assert!(writer.offsets_fit());
    loop {
        match writer.step_write_file_headers().expect("failed to write file headers") {
            WriterAction3::Write => drain(&mut writer, &mut output, limit),
            WriterAction3::Done(()) => break,
        }
    }
    for (index, (_, data, _)) in files.iter().enumerate() {
        let mut written = 0;
        loop {
            while writer.space().is_empty() {
                drain(&mut writer, &mut output, limit);
            }
            let space = writer.space();
            let n = piece.min(space.len()).min(data.len() - written);
            space[..n].copy_from_slice(&data[written..written + n]);
            match writer.step_write_file_data(index, n).expect("failed to write file data") {
                WriterAction3::Write => unreachable!(),
                WriterAction3::Done(done) => assert_eq!(done, n),
            }
            written += n;
            if written == data.len() {
                break;
            }
        }
    }
    writer.finish().expect("failed to finish");
    while !writer.data().is_empty() {
        drain(&mut writer, &mut output, limit);
    }
    output
}

#[test]
fn key_is_derived_from_the_seed() {
    let mut reader = Reader3::new();
    assert_eq!(reader.key(), None);
    reader.space()[..12].copy_from_slice(b"RGSSAD\0\x03\xb3\x0b\x00\x00");
    reader.fill(12);
    assert!(matches!(reader.step_read_header(), Ok(ReaderAction3::Done(()))));
    assert_eq!(reader.key(), Some(0x694E));
}

#[test]
fn key_does_not_depend_on_how_the_header_arrives() {
    let header = b"RGSSAD\0\x03\xb3\x0b\x00\x00";
    let mut reader = Reader3::new();
    for (index, byte) in header.iter().enumerate() {
        match reader.step_read_header() {
            Ok(ReaderAction3::Read(missing)) => assert_eq!(missing, 12 - index),
            other => panic!("unexpected {other:?}"),
        }
        assert_eq!(reader.key(), None);
        reader.space()[0] = *byte;
        reader.fill(1);
    }
    assert!(matches!(reader.step_read_header(), Ok(ReaderAction3::Done(()))));
    assert_eq!(reader.key(), Some(0x694E));
    assert!(matches!(reader.step_read_header(), Ok(ReaderAction3::Done(()))));
    assert_eq!(reader.key(), Some(0x694E));
}

#[test]
fn key_derivation_wraps() {
    let mut reader = Reader3::new();
    reader.space()[..12].copy_from_slice(b"RGSSAD\0\x03\xff\xff\xff\xff");
    reader.fill(12);
    assert!(matches!(reader.step_read_header(), Ok(ReaderAction3::Done(()))));
    // 0xFFFFFFFF * 9 + 3 wraps to 0xFFFFFFFA.
    assert_eq!(reader.key(), Some(0xFFFFFFFA));
}

#[test]
fn writer3_produces_the_reference_bytes() {
    assert_eq!(write_all(0x694E, &sample_files(), usize::MAX, usize::MAX), ARCHIVE.to_vec());
    assert_eq!(write_all(0x694E, &sample_files(), 1, 1), ARCHIVE.to_vec());
    assert_eq!(write_all(0x694E, &sample_files(), 5, 3), ARCHIVE.to_vec());
}

#[test]
fn reader3_smoke() {
    let mut source = Source::new(&ARCHIVE, usize::MAX);
    let mut reader = Reader3::new();
    // Ensure skipping works.
    let num_skipped_entries = read_table(&mut reader, &mut source).len();

    let mut source = Source::new(&ARCHIVE, usize::MAX);
    let mut reader = Reader3::new();
    let mut files = Vec::new();
    while let Some(header) = read_file(&mut reader, &mut source).expect("failed to read file") {
        let data = read_data(&mut reader, &mut source, &header, 4096);
        files.push((header.name.clone(), data));
    }
    assert!(files.len() == num_skipped_entries);
    let key = reader.key().expect("missing key");
    assert!(key == 0x694E);
    let expected: Vec<(String, Vec<u8>)> =
        sample_files().into_iter().map(|(name, data, _)| (name, data)).collect();
    assert_eq!(files, expected);
}

#[test]
fn table_holds_offsets_sizes_and_keys() {
    let mut source = Source::new(&ARCHIVE, 1);
    let mut reader = Reader3::new();
    let headers = read_table(&mut reader, &mut source);
    assert_eq!(headers.len(), 2);
    assert_eq!(headers[0].name, "a.txt");
    assert_eq!((headers[0].offset, headers[0].size, headers[0].key), (72, 3, 0x11223344));
    assert_eq!(headers[1].name, "b/c.bin");
    assert_eq!((headers[1].offset, headers[1].size, headers[1].key), (75, 10, 0xA5A5A5A5));
    // The end of the table stays the end.
    assert!(read_file(&mut reader, &mut source).expect("failed to read").is_none());
}

#[test]
fn files_are_read_in_any_order() {
    let mut source = Source::new(&ARCHIVE, 4);
    let mut reader = Reader3::new();
    let headers = read_table(&mut reader, &mut source);
    let files = sample_files();
    for piece in [1, 2, 3, 5, 64] {
        for index in [1, 0, 1, 0] {
            let data = read_data(&mut reader, &mut source, &headers[index], piece);
            assert_eq!(data, files[index].1);
        }
    }
}

#[test]
fn a_file_that_was_read_to_its_end_has_nothing_left() {
    let mut source = Source::new(&ARCHIVE, 4);
    let mut reader = Reader3::new();
    let headers = read_table(&mut reader, &mut source);
    assert_eq!(read_data(&mut reader, &mut source, &headers[1], 3), (0..10u8).collect::<Vec<u8>>());
    assert!(read_data(&mut reader, &mut source, &headers[1], 3).is_empty());
    assert_eq!(read_data(&mut reader, &mut source, &headers[0], 3), b"hi!".to_vec());
}

#[test]
fn file_data_between_table_records() {
    let mut source = Source::new(&ARCHIVE, usize::MAX);
    let mut reader = Reader3::new();
    let first = read_file(&mut reader, &mut source).expect("failed to read").expect("no file");
    assert_eq!(read_data(&mut reader, &mut source, &first, 2), b"hi!".to_vec());
    let second = read_file(&mut reader, &mut source).expect("failed to read").expect("no file");
    assert_eq!(second.name, "b/c.bin");
    assert_eq!(read_data(&mut reader, &mut source, &second, 3), (0..10u8).collect::<Vec<u8>>());
    assert!(read_file(&mut reader, &mut source).expect("failed to read").is_none());
}

#[test]
fn round_trip_of_many_files3() {
    let mut files = Vec::new();
    for i in 0..30usize {
        let name = format!("Audio/BGM/\u{97f3}{i}.ogg");
        let data: Vec<u8> = (0..i * 53 + 1).map(|b| (b * 7 + i) as u8).collect();
        files.push((name, data, (i as u32).wrapping_mul(0x9E3779B9)));
    }
    files.push(("y".repeat(4096), vec![0x55; 12345], 1));
    // 0x694E is three more than a multiple of nine, so the header holds it.
    let archive = write_all(0x694E, &files, 1000, 700);
    let mut source = Source::new(&archive, 333);
    let mut reader = Reader3::new();
    let headers = read_table(&mut reader, &mut source);
    assert_eq!(headers.len(), files.len());
    for (header, file) in headers.iter().zip(&files).rev() {
        assert_eq!(header.name, file.0);
        assert_eq!(header.key, file.2);
        assert_eq!(read_data(&mut reader, &mut source, header, 1024), file.1);
    }
}

#[test]
fn archive_without_files_is_header_and_sentinel() {
    let archive = write_all(0x694E, &[], usize::MAX, usize::MAX);
    let mut expected = b"RGSSAD\0\x03\xb3\x0b\x00\x00".to_vec();
    for _ in 0..4 {
        expected.extend_from_slice(&0x694Eu32.to_le_bytes());
    }
    assert_eq!(archive, expected);
    let mut source = Source::new(&archive, usize::MAX);
    let mut reader = Reader3::new();
    assert!(read_table(&mut reader, &mut source).is_empty());
}

#[test]
fn seed_is_the_key_less_three_over_nine() {
    let mut writer = Writer3::new(3);
    assert!(matches!(writer.step_write_header(), Ok(WriterAction3::Done(()))));
    assert_eq!(writer.data(), b"RGSSAD\0\x03\x00\x00\x00\x00");
    let mut writer = Writer3::new(0);
    assert!(matches!(writer.step_write_header(), Ok(WriterAction3::Done(()))));
    // 0 - 3 wraps to 0xFFFFFFFD, and a ninth of that is 0x1C71C71C.
    assert_eq!(writer.data(), b"RGSSAD\0\x03\x1c\xc7\x71\x1c");
}

#[test]
fn reader_asks_to_seek_back_to_the_table() {
    let mut source = Source::new(&ARCHIVE, usize::MAX);
    let mut reader = Reader3::new();
    let first = read_file(&mut reader, &mut source).expect("failed to read").expect("no file");
    let mut buffer = [0u8; 8];
    assert!(matches!(
        reader.step_read_file_data(&first, &mut buffer),
        Ok(ReaderAction3::Seek(72))
    ));
    source.seek(72);
    reader.finish_seek(72);
    assert!(matches!(reader.step_read_file_data(&first, &mut buffer), Ok(ReaderAction3::Read(3))));
    // The first record ended at 33.
    assert!(matches!(reader.step_read_file_header(), Ok(ReaderAction3::Seek(33))));
}

#[test]
fn invalid_magic_and_version_are_reported3() {
    let mut reader = Reader3::new();
    reader.space()[..12].copy_from_slice(b"RGSSAX\0\x03\xb3\x0b\x00\x00");
    reader.fill(12);
    match reader.step_read_header() {
        Err(SansIoError::InvalidMagic { magic }) => assert_eq!(&magic, b"RGSSAX\0"),
        other => panic!("unexpected {other:?}"),
    }
    let mut reader = Reader3::new();
    reader.space()[..12].copy_from_slice(b"RGSSAD\0\x01\xb3\x0b\x00\x00");
    reader.fill(12);
    assert!(matches!(
        reader.step_read_file_header(),
        Err(SansIoError::InvalidVersion { version: 1 })
    ));
}

#[test]
fn too_long_file_name_is_reported_by_the_reader3() {
    let mut bytes = b"RGSSAD\0\x03\xb3\x0b\x00\x00".to_vec();
    for field in [100u32, 1, 2, 4097] {
        bytes.extend_from_slice(&(field ^ 0x694E).to_le_bytes());
    }
    let mut source = Source::new(&bytes, usize::MAX);
    let mut reader = Reader3::new();
    let error = read_file(&mut reader, &mut source).expect_err("reader should have errored");
    assert!(matches!(error, SansIoError::FileNameTooLongU32 { len: 4097 }));
}

#[test]
fn invalid_file_name_is_reported3() {
    let mut bytes = b"RGSSAD\0\x03\xb3\x0b\x00\x00".to_vec();
    for field in [100u32, 1, 2, 1] {
        bytes.extend_from_slice(&(field ^ 0x694E).to_le_bytes());
    }
    bytes.push(0x80 ^ 0x4E);
    let mut source = Source::new(&bytes, usize::MAX);
    let mut reader = Reader3::new();
    let error = read_file(&mut reader, &mut source).expect_err("reader should have errored");
    assert!(matches!(error, SansIoError::InvalidFileName { .. }));
}

#[test]
fn files_are_added_before_the_table() {
    let mut writer = Writer3::new(0x694E);
    assert!(writer.add_file("a".to_string(), 1, 2).is_ok());
    assert!(matches!(writer.step_write_header(), Ok(WriterAction3::Done(()))));
    assert!(writer.add_file("b".to_string(), 1, 2).is_ok());
    let error = writer.add_file("n".repeat(4097), 1, 2).expect_err("writer should have errored");
    assert!(matches!(error, SansIoError::FileNameTooLongUsize { len: 4097 }));
    assert!(matches!(writer.step_write_file_headers(), Ok(WriterAction3::Done(()))));
    let error = writer.add_file("c".to_string(), 1, 2).expect_err("writer should have errored");
    assert!(matches!(error, SansIoError::InvalidState));
    assert!(matches!(writer.step_write_file_headers(), Ok(WriterAction3::Done(()))));
    assert_eq!(writer.data().len(), 12 + 17 + 17 + 16);
}

#[test]
fn file_index_follows_the_files() {
    let mut writer = Writer3::new(0x694E);
    for name in ["a", "b", "c"] {
        writer.add_file(name.to_string(), 4, 9).expect("failed to add file");
    }
    assert!(matches!(writer.step_write_file_data(0, 2), Ok(WriterAction3::Done(2))));
    assert!(matches!(writer.finish(), Err(SansIoError::InvalidState)));
    // The first file is two bytes short.
    assert!(matches!(
        writer.step_write_file_data(1, 2),
        Err(SansIoError::FileDataSizeMismatch { actual: 2, expected: 4 })
    ));
    assert!(matches!(writer.step_write_file_data(2, 2), Err(SansIoError::InvalidState)));
    // More than the file has left.
    assert!(matches!(
        writer.step_write_file_data(0, 3),
        Err(SansIoError::FileDataSizeMismatch { actual: 5, expected: 4 })
    ));
    assert!(matches!(writer.step_write_file_data(0, 2), Ok(WriterAction3::Done(2))));
    // The first file is complete: more data for it is too much.
    assert!(matches!(
        writer.step_write_file_data(0, 1),
        Err(SansIoError::FileDataSizeMismatch { actual: 5, expected: 4 })
    ));
    assert!(matches!(writer.step_write_file_data(1, 4), Ok(WriterAction3::Done(4))));
    assert!(matches!(writer.step_write_file_data(2, 4), Ok(WriterAction3::Done(4))));
    assert!(writer.finish().is_ok());
    // Behind the last file a step with no bytes is done and writes nothing.
    let staged = writer.data().len();
    assert!(matches!(writer.step_write_file_data(2, 0), Ok(WriterAction3::Done(0))));
    assert!(matches!(writer.step_write_file_data(3, 0), Ok(WriterAction3::Done(0))));
    // More bytes for the last file are beyond its size.
    assert!(matches!(
        writer.step_write_file_data(2, 1),
        Err(SansIoError::FileDataSizeMismatch { actual: 5, expected: 4 })
    ));
    assert!(matches!(
        writer.step_write_file_data(2, 7),
        Err(SansIoError::FileDataSizeMismatch { actual: 11, expected: 4 })
    ));
    // Bytes for any other file are out of sequence.
    assert!(matches!(writer.step_write_file_data(3, 1), Err(SansIoError::InvalidState)));
    assert!(matches!(writer.step_write_file_data(0, 1), Err(SansIoError::InvalidState)));
    assert_eq!(writer.data().len(), staged);
    assert!(writer.finish().is_ok());
}

#[test]
fn bytes_without_any_file_are_out_of_sequence() {
    let mut writer = Writer3::new(0x694E);
    assert!(matches!(writer.step_write_file_headers(), Ok(WriterAction3::Done(()))));
    assert!(matches!(writer.step_write_file_data(0, 0), Ok(WriterAction3::Done(0))));
    assert!(matches!(writer.step_write_file_data(0, 1), Err(SansIoError::InvalidState)));
    assert!(writer.finish().is_ok());
}

#[test]
fn room_is_asked_for_the_name_at_hand() {
    let mut writer = Writer3::new(0x694E);
    assert!(writer.accepts_files());
    assert!(writer.has_room(""));
    assert!(writer.has_room(&"n".repeat(4096)));
    assert!(writer.has_room(&"n".repeat(100000)));
    writer.add_file("a".to_string(), 1, 1).expect("failed to add file");
    assert!(writer.accepts_files());
    assert!(matches!(writer.step_write_file_headers(), Ok(WriterAction3::Done(()))));
    assert!(!writer.accepts_files());
}

#[test]
fn finish_before_the_start_and_after_the_end() {
    let mut writer = Writer3::new(0x694E);
    assert!(writer.finish().is_ok());
    assert!(matches!(writer.step_write_header(), Ok(WriterAction3::Done(()))));
    assert!(matches!(writer.finish(), Err(SansIoError::InvalidState)));
    assert!(matches!(writer.step_write_file_headers(), Ok(WriterAction3::Done(()))));
    assert!(writer.finish().is_ok());
}

#[test]
fn table_is_written_in_pieces_when_room_is_short() {
    let mut writer = Writer3::new(0x694E);
    for i in 0..5 {
        writer.add_file(format!("{i}").repeat(4000), 1, 0).expect("failed to add file");
    }
    let mut output = Vec::new();
    let mut writes = 0;
    loop {
        match writer.step_write_file_headers().expect("failed to write file headers") {
            WriterAction3::Write => {
                writes += 1;
                drain(&mut writer, &mut output, usize::MAX);
            }
            WriterAction3::Done(()) => break,
        }
    }
    drain(&mut writer, &mut output, usize::MAX);
    assert!(writes >= 1);
    assert_eq!(output.len(), 12 + 5 * (16 + 4000) + 16);
    let mut source = Source::new(&output, usize::MAX);
    let mut reader = Reader3::new();
    let headers = read_table(&mut reader, &mut source);
    assert_eq!(headers.len(), 5);
    for (i, header) in headers.iter().enumerate() {
        assert_eq!(header.name, format!("{i}").repeat(4000));
        assert_eq!(header.offset as usize, output.len() + i);
    }
}
