use rgssad::reader::{finish_read, ReadOutcome};
use rgssad::sans_io::{Error as SansIoError, FileHeader, Reader, ReaderAction, Writer, WriterAction};
use rgssad::Error;

/// An archive of two files, written out by hand: `a.txt` holding `hi!` and
/// `Data/Map001.rvdata` holding the bytes 0 to 19.
const ARCHIVE: [u8; 70] = [
    0x52, 0x47, 0x53, 0x53, 0x41, 0x44, 0x00, 0x01, 0xfb, 0xca, 0xad, 0xde, 0x94, 0x98, 0x89, 0x96,
    0xf1, 0xa5, 0x49, 0x66, 0xbb, 0xe5, 0x6a, 0xed, 0x9f, 0x03, 0xcc, 0x1f, 0x9a, 0x74, 0xe2, 0x7c,
    0xe1, 0xe8, 0xe7, 0xdd, 0x8e, 0x05, 0x47, 0x13, 0xdc, 0xb3, 0x02, 0xac, 0xea, 0x34, 0x42, 0x0a,
    0x2e, 0x6b, 0x5d, 0x49, 0x40, 0xed, 0x8a, 0xff, 0xc9, 0x84, 0xed, 0xd0, 0xa5, 0x91, 0x4a, 0xf8,
    0xc0, 0x35, 0xfd, 0xa5, 0xba, 0x88,
];

fn sample_files() -> Vec<(String, Vec<u8>)> {
    vec![
        ("a.txt".to_string(), b"hi!".to_vec()),
        ("Data/Map001.rvdata".to_string(), (0..20u8).collect()),
    ]
}

/// A transport over bytes in memory that hands out at most `chunk` bytes per
/// read, and every `stall`th read none at all: a read that would block.
struct Source {
    bytes: Vec<u8>,
    position: usize,
    chunk: usize,
    stall: usize,
    reads: usize,
}

impl Source {
    fn new(bytes: &[u8], chunk: usize) -> Self {
        Source { bytes: bytes.to_vec(), position: 0, chunk, stall: 0, reads: 0 }
    }

    /// `None` stands for a read that would block.
    fn read(&mut self, space: &mut [u8]) -> Option<usize> {
        self.reads += 1;
        if self.stall != 0 && self.reads % self.stall == 0 {
            return None;
        }
        let left = self.bytes.len() - self.position;
        let n = self.chunk.min(space.len()).min(left);
        space[..n].copy_from_slice(&self.bytes[self.position..self.position + n]);
        self.position += n;
        Some(n)
    }

    fn seek(&mut self, position: u64) {
        self.position = (position as usize).min(self.bytes.len());
    }
}

fn read_header(reader: &mut Reader, source: &mut Source) -> Result<(), Error> {
    loop {
        match reader.step_read_header()? {
            ReaderAction::Read(size) => {
                let space = reader.space();
                // A request is for at least one byte and fits the space.
                assert!(1 <= size && size <= space.len());
                let limit = size;
                if let Some(n) = source.read(&mut space[..limit]) {
                    if n == 0 {
                        return Err(Error::UnexpectedEof);
                    }
                    reader.fill(n);
                }
            }
            ReaderAction::Done(()) => return Ok(()),
            ReaderAction::Seek(_) => unreachable!(),
        }
    }
}

fn read_file(reader: &mut Reader, source: &mut Source) -> Result<Option<FileHeader>, Error> {
    loop {
        assert!(reader.within_limits());
        match reader.step_read_file_header()? {
            ReaderAction::Read(size) => {
                let space = reader.space();
                // A request is for at least one byte and fits the space.
                assert!(1 <= size && size <= space.len());
                let limit = size;
                if let Some(n) = source.read(&mut space[..limit]) {
                    if finish_read(reader, n)? == ReadOutcome::EndOfArchive {
                        return Ok(None);
                    }
                }
            }
            ReaderAction::Seek(position) => {
                source.seek(position);
                reader.finish_seek();
            }
            ReaderAction::Done(header) => return Ok(Some(header)),
        }
    }
}

fn read_data(reader: &mut Reader, source: &mut Source, piece: usize) -> Vec<u8> {
    let mut data = Vec::new();
    let mut buffer = vec![0u8; piece];
    loop {
        assert!(reader.within_limits());
        match reader.step_read_file_data(&mut buffer).expect("failed to read file data") {
            ReaderAction::Read(size) => {
                let space = reader.space();
                // A request is for at least one byte and fits the space.
                assert!(1 <= size && size <= space.len());
                let limit = size;
                if let Some(n) = source.read(&mut space[..limit]) {
                    if n == 0 {
                        return data;
                    }
                    reader.fill(n);
                }
            }
            ReaderAction::Seek(_) => unreachable!(),
            ReaderAction::Done(0) => return data,
            ReaderAction::Done(n) => data.extend_from_slice(&buffer[..n]),
        }
    }
}

fn read_all(bytes: &[u8], chunk: usize, piece: usize) -> Result<Vec<(String, Vec<u8>)>, Error> {
    let mut source = Source::new(bytes, chunk);
    let mut reader = Reader::new();
    read_header(&mut reader, &mut source)?;
    let mut files = Vec::new();
    while let Some(header) = read_file(&mut reader, &mut source)? {
        let data = read_data(&mut reader, &mut source, piece);
        assert_eq!(data.len(), header.size as usize);
        files.push((header.name, data));
    }
    Ok(files)
}

fn skip_all(bytes: &[u8], chunk: usize) -> Result<Vec<(String, u32)>, Error> {
    let mut source = Source::new(bytes, chunk);
    let mut reader = Reader::new();
    read_header(&mut reader, &mut source)?;
    let mut files = Vec::new();
    while let Some(header) = read_file(&mut reader, &mut source)? {
        files.push((header.name, header.size));
    }
    Ok(files)
}

/// Takes at most `limit` bytes out of the writer.
fn drain(writer: &mut Writer, output: &mut Vec<u8>, limit: usize) {
    let data = writer.data();
    let n = data.len().min(limit);
    // A writer that asks to be emptied holds something.
    assert!(n > 0);
    output.extend_from_slice(&data[..n]);
    writer.consume(n);
}

fn write_all(files: &[(String, Vec<u8>)], limit: usize, piece: usize) -> Vec<u8> {
    let mut output = Vec::new();
    let mut writer = Writer::new();
    loop {
        match writer.step_write_header().expect("failed to write header") {
            WriterAction::Write => drain(&mut writer, &mut output, limit),
            WriterAction::Done(()) => break,
        }
    }
    for (name, data) in files {
        let size = u32::try_from(data.len()).expect("file data too large");
        loop {
            match writer.step_write_file_header(name, size).expect("failed to write file header") {
                WriterAction::Write => drain(&mut writer, &mut output, limit),
                WriterAction::Done(()) => break,
            }
        }
        let mut written = 0;
        while written < data.len() {
            while writer.space().is_empty() {
                drain(&mut writer, &mut output, limit);
            }
            let space = writer.space();
            let n = piece.min(space.len()).min(data.len() - written);
            space[..n].copy_from_slice(&data[written..written + n]);
            match writer.step_write_file_data(n).expect("failed to write file data") {
                WriterAction::Write => unreachable!(),
                WriterAction::Done(done) => assert_eq!(done, n),
            }
            written += n;
        }
    }
    writer.finish().expect("failed to finish");
    while !writer.data().is_empty() {
        drain(&mut writer, &mut output, limit);
    }
    output
}

#[test]
fn writer_produces_the_reference_bytes() {
    assert_eq!(write_all(&sample_files(), usize::MAX, usize::MAX), ARCHIVE.to_vec());
}

#[test]
fn writer_does_not_depend_on_the_pace_of_the_driver() {
    for limit in [1, 2, 3, 7, 64] {
        for piece in [1, 2, 5, 1000] {
            assert_eq!(write_all(&sample_files(), limit, piece), ARCHIVE.to_vec());
        }
    }
}

#[test]
fn reader_reads_the_reference_bytes() {
    assert_eq!(read_all(&ARCHIVE, usize::MAX, 4096).expect("failed to read"), sample_files());
}

#[test]
fn lib_reader_writer_smoke() {
    let files = read_all(&ARCHIVE, usize::MAX, 4096).expect("failed to read file");
    let new_file = write_all(&files, usize::MAX, usize::MAX);
    // Ensure archives are byte-for-byte equivalent.
    assert!(new_file == ARCHIVE.to_vec());
}

#[test]
fn round_trip_of_many_files() {
    let mut files = Vec::new();
    for i in 0..40usize {
        let name = format!("Graphics/Pictures/\u{56fe}{i}.png");
        let data: Vec<u8> = (0..i * 37).map(|b| (b * 31 + i) as u8).collect();
        files.push((name, data));
    }
    files.push((String::new(), Vec::new()));
    files.push(("x".repeat(4096), vec![0xAA; 20000]));
    let archive = write_all(&files, 4096, 512);
    assert_eq!(read_all(&archive, usize::MAX, 4096).expect("failed to read"), files);
    assert_eq!(read_all(&archive, 7, 3).expect("failed to read"), files);
}

#[test]
fn empty_archive_is_a_header() {
    let archive = write_all(&[], usize::MAX, usize::MAX);
    assert_eq!(archive, b"RGSSAD\0\x01".to_vec());
    assert_eq!(read_all(&archive, usize::MAX, 16).expect("failed to read"), Vec::new());
}

#[test]
fn slow_reader() {
    // One byte per read, and every third read would block.
    let mut source = Source::new(&ARCHIVE, 1);
    source.stall = 3;
    let mut reader = Reader::new();
    read_header(&mut reader, &mut source).expect("failed to read header");
    let mut files = Vec::new();
    while let Some(header) = read_file(&mut reader, &mut source).expect("failed to read file") {
        let data = read_data(&mut reader, &mut source, 1);
        files.push((header.name, data));
    }
    assert_eq!(files, read_all(&ARCHIVE, usize::MAX, 4096).expect("failed to read"));
    assert_eq!(files, sample_files());
}

#[test]
fn reader_slow_writer_smoke() {
    let files = read_all(&ARCHIVE, usize::MAX, 4096).expect("failed to read file");
    let new_file = write_all(&files, 1, 1);
    // Ensure archives are byte-for-byte equivalent.
    assert!(new_file == ARCHIVE.to_vec());
}

#[test]
fn reader_reader_smoke() {
    // Ensure skipping works.
    let skipped = skip_all(&ARCHIVE, usize::MAX).expect("failed to read file");
    let files = read_all(&ARCHIVE, usize::MAX, 4096).expect("failed to read file");
    assert!(files.len() == skipped.len());
    let read: Vec<(String, u32)> =
        files.iter().map(|(name, data)| (name.clone(), data.len() as u32)).collect();
    assert_eq!(read, skipped);
    assert_eq!(skip_all(&ARCHIVE, 1).expect("failed to read file"), skipped);
}

#[test]
fn partly_read_files_do_not_disturb_the_next_header() {
    let mut source = Source::new(&ARCHIVE, 5);
    let mut reader = Reader::new();
    read_header(&mut reader, &mut source).expect("failed to read header");
    let first = read_file(&mut reader, &mut source).expect("failed to read").expect("no file");
    assert_eq!((first.name.as_str(), first.size), ("a.txt", 3));
    let mut buffer = [0u8; 2];
    loop {
        match reader.step_read_file_data(&mut buffer).expect("failed to read data") {
            ReaderAction::Read(size) => {
                let space = reader.space();
                let n = source.read(&mut space[..size.min(5)]).expect("no stall");
                reader.fill(n);
            }
            ReaderAction::Done(n) => {
                assert_eq!(&buffer[..n], b"hi");
                break;
            }
            ReaderAction::Seek(_) => unreachable!(),
        }
    }
    let second = read_file(&mut reader, &mut source).expect("failed to read").expect("no file");
    assert_eq!((second.name.as_str(), second.size), ("Data/Map001.rvdata", 20));
    assert_eq!(read_data(&mut reader, &mut source, 64), (0..20u8).collect::<Vec<u8>>());
    assert!(read_file(&mut reader, &mut source).expect("failed to read").is_none());
}

#[test]
fn reader_trailing_bytes() {
    let mut file = ARCHIVE.to_vec();
    file.push(1);
    let mut source = Source::new(&file, usize::MAX);
    let mut reader = Reader::new();
    read_header(&mut reader, &mut source).expect("failed to read header");
    let mut count = 0;
    let error = loop {
        match read_file(&mut reader, &mut source) {
            Ok(Some(_file)) => count += 1,
            Ok(None) => panic!("reader should have errored"),
            Err(error) => break error,
        }
    };
    assert_eq!(count, 2);
    assert!(matches!(error, Error::UnexpectedEof));
    let error = read_file(&mut reader, &mut source).expect_err("reader should have errored");
    assert!(matches!(error, Error::UnexpectedEof));
}

#[test]
fn truncated_entry_header_is_not_the_end() {
    for cut in 9..20 {
        let mut source = Source::new(&ARCHIVE[..cut], usize::MAX);
        let mut reader = Reader::new();
        read_header(&mut reader, &mut source).expect("failed to read header");
        let error = read_file(&mut reader, &mut source).expect_err("reader should have errored");
        assert!(matches!(error, Error::UnexpectedEof));
    }
}

#[test]
fn header_read_is_idempotent() {
    let mut reader = Reader::new();
    let space = reader.space();
    space[..ARCHIVE.len()].copy_from_slice(&ARCHIVE);
    reader.fill(ARCHIVE.len());
    assert!(matches!(reader.step_read_header(), Ok(ReaderAction::Done(()))));
    let left = reader.available_data();
    assert_eq!(left, ARCHIVE.len() - 8);
    for _ in 0..3 {
        assert!(matches!(reader.step_read_header(), Ok(ReaderAction::Done(()))));
        assert_eq!(reader.available_data(), left);
    }
    let header = match reader.step_read_file_header() {
        Ok(ReaderAction::Done(header)) => header,
        other => panic!("unexpected {other:?}"),
    };
    assert_eq!(header.name, "a.txt");
    assert!(matches!(reader.step_read_header(), Ok(ReaderAction::Done(()))));
    assert_eq!(reader.available_data(), left - 13);
}

#[test]
fn reader_asks_for_what_is_missing() {
    let mut reader = Reader::new();
    assert!(matches!(reader.step_read_header(), Ok(ReaderAction::Read(8))));
    reader.space()[..3].copy_from_slice(&ARCHIVE[..3]);
    reader.fill(3);
    assert!(matches!(reader.step_read_header(), Ok(ReaderAction::Read(5))));
    assert!(matches!(reader.step_read_file_header(), Ok(ReaderAction::Read(5))));
    reader.space()[..5].copy_from_slice(&ARCHIVE[3..8]);
    reader.fill(5);
    assert!(matches!(reader.step_read_file_header(), Ok(ReaderAction::Read(4))));
    reader.space()[..4].copy_from_slice(&ARCHIVE[8..12]);
    reader.fill(4);
    // The name has five bytes: nine more bytes make the header complete.
    assert!(matches!(reader.step_read_file_header(), Ok(ReaderAction::Read(9))));
    reader.space()[..9].copy_from_slice(&ARCHIVE[12..21]);
    reader.fill(9);
    let header = match reader.step_read_file_header() {
        Ok(ReaderAction::Done(header)) => header,
        other => panic!("unexpected {other:?}"),
    };
    assert_eq!((header.name.as_str(), header.size), ("a.txt", 3));
}

#[test]
fn file_data_before_a_file_header_is_nothing() {
    let mut reader = Reader::new();
    reader.space()[..8].copy_from_slice(&ARCHIVE[..8]);
    reader.fill(8);
    let mut buffer = [0u8; 8];
    assert!(matches!(reader.step_read_file_data(&mut buffer), Ok(ReaderAction::Done(0))));
    assert_eq!(buffer, [0u8; 8]);
}

#[test]
fn reader_asks_to_seek_over_unread_data() {
    let mut reader = Reader::new();
    reader.space()[..21].copy_from_slice(&ARCHIVE[..21]);
    reader.fill(21);
    assert!(matches!(reader.step_read_file_header(), Ok(ReaderAction::Done(_))));
    // The header ended at 21 and the three bytes of data were not read.
    assert!(matches!(reader.step_read_file_header(), Ok(ReaderAction::Seek(24))));
    assert!(matches!(reader.step_read_file_header(), Ok(ReaderAction::Seek(24))));
    reader.space()[..10].copy_from_slice(&ARCHIVE[21..31]);
    reader.fill(10);
    assert_eq!(reader.available_data(), 10);
    let room = reader.space().len();
    reader.finish_seek();
    assert_eq!(reader.available_data(), 0);
    assert!(reader.space().len() >= room + 10);
    assert_eq!(reader.space().len(), 10240);
    assert!(matches!(reader.step_read_file_header(), Ok(ReaderAction::Read(4))));
}

#[test]
fn invalid_magic_is_reported() {
    let mut bytes = ARCHIVE.to_vec();
    bytes[2] = b'X';
    let error = read_all(&bytes, usize::MAX, 16).expect_err("reader should have errored");
    match error {
        Error::SansIo(SansIoError::InvalidMagic { magic }) => assert_eq!(&magic, b"RGXSAD\0"),
        other => panic!("unexpected {other:?}"),
    }
}

#[test]
fn invalid_version_is_reported() {
    let mut bytes = ARCHIVE.to_vec();
    bytes[7] = 3;
    let error = read_all(&bytes, usize::MAX, 16).expect_err("reader should have errored");
    assert!(matches!(error, Error::SansIo(SansIoError::InvalidVersion { version: 3 })));
}

#[test]
fn too_long_file_name_is_reported_by_the_reader() {
    let mut bytes = b"RGSSAD\0\x01".to_vec();
    bytes.extend_from_slice(&(4097u32 ^ 0xDEADCAFE).to_le_bytes());
    let error = read_all(&bytes, usize::MAX, 16).expect_err("reader should have errored");
    assert!(matches!(error, Error::SansIo(SansIoError::FileNameTooLongU32 { len: 4097 })));
}

#[test]
fn longest_file_name_is_read() {
    let files = vec![("n".repeat(4096), vec![1u8, 2, 3])];
    let archive = write_all(&files, usize::MAX, usize::MAX);
    assert_eq!(read_all(&archive, 100, 2).expect("failed to read"), files);
}

#[test]
fn invalid_file_name_is_reported() {
    let mut bytes = b"RGSSAD\0\x01".to_vec();
    bytes.extend_from_slice(&(1u32 ^ 0xDEADCAFE).to_le_bytes());
    // 0xFF is no UTF-8; the key behind the length field ends in 0xF5.
    bytes.push(0xFF ^ 0xF5);
    bytes.extend_from_slice(&[0, 0, 0, 0]);
    let error = read_all(&bytes, usize::MAX, 16).expect_err("reader should have errored");
    assert!(matches!(error, Error::SansIo(SansIoError::InvalidFileName { .. })));
}

#[test]
fn too_long_file_name_is_refused_by_the_writer() {
    let mut writer = Writer::new();
    let name = "n".repeat(4097);
    let error = writer.step_write_file_header(&name, 0).expect_err("writer should have errored");
    assert!(matches!(error, SansIoError::FileNameTooLongUsize { len: 4097 }));
    // The archive header has been staged, the entry has not.
    assert_eq!(writer.data(), b"RGSSAD\0\x01");
}

#[test]
fn writer_stages_the_header_once() {
    let mut writer = Writer::new();
    assert!(matches!(writer.step_write_header(), Ok(WriterAction::Done(()))));
    assert!(matches!(writer.step_write_header(), Ok(WriterAction::Done(()))));
    assert_eq!(writer.data(), b"RGSSAD\0\x01");
    writer.consume(3);
    assert_eq!(writer.data(), b"SAD\0\x01");
}

#[test]
fn writer_asks_for_room() {
    let mut writer = Writer::new();
    let room = writer.space().len();
    assert_eq!(room, 10240);
    let big = vec![7u8; room - 8 - 9];
    assert!(matches!(writer.step_write_file_header("a", big.len() as u32), Ok(WriterAction::Done(()))));
    writer.space()[..big.len()].copy_from_slice(&big);
    assert!(matches!(writer.step_write_file_data(big.len()), Ok(WriterAction::Done(_))));
    assert!(writer.space().is_empty());
    let staged = writer.data().len();
    assert!(matches!(writer.step_write_file_header("b", 0), Ok(WriterAction::Write)));
    assert_eq!(writer.data().len(), staged);
    writer.consume(staged);
    assert!(matches!(writer.step_write_file_header("b", 0), Ok(WriterAction::Done(()))));
}

#[test]
fn writer_reports_a_file_that_is_cut_short() {
    let mut writer = Writer::new();
    assert!(matches!(writer.step_write_file_header("a", 10), Ok(WriterAction::Done(()))));
    assert!(matches!(writer.step_write_file_data(4), Ok(WriterAction::Done(4))));
    let error = writer.step_write_file_header("b", 1).expect_err("writer should have errored");
    assert!(matches!(error, SansIoError::FileDataSizeMismatch { actual: 4, expected: 10 }));
    assert!(matches!(writer.finish(), Err(SansIoError::InvalidState)));
}

#[test]
fn writer_reports_a_file_that_overflows() {
    let mut writer = Writer::new();
    assert!(matches!(writer.step_write_file_header("a", 10), Ok(WriterAction::Done(()))));
    assert!(matches!(writer.step_write_file_data(4), Ok(WriterAction::Done(4))));
    let staged = writer.data().len();
    let error = writer.step_write_file_data(7).expect_err("writer should have errored");
    assert!(matches!(error, SansIoError::FileDataSizeMismatch { actual: 11, expected: 10 }));
    assert_eq!(writer.data().len(), staged);
    assert!(matches!(writer.step_write_file_data(6), Ok(WriterAction::Done(6))));
    assert!(writer.finish().is_ok());
}

#[test]
fn writer_refuses_data_without_a_file() {
    let mut writer = Writer::new();
    assert!(matches!(writer.step_write_file_data(0), Err(SansIoError::InvalidState)));
    assert!(writer.finish().is_ok());
}

#[test]
fn is_done_tells_done_from_the_rest() {
    assert!(ReaderAction::Done(5u8).is_done());
    assert!(!ReaderAction::<u8>::Read(5).is_done());
    assert!(!ReaderAction::<u8>::Seek(5).is_done());
    assert!(WriterAction::Done(5u8).is_done());
    assert!(!WriterAction::<u8>::Write.is_done());
}

#[test]
fn fill_commits_no_more_than_the_space() {
    let mut reader = Reader::new();
    assert!(reader.within_limits());
    let room = reader.space().len();
    assert_eq!(room, 10240);
    reader.space()[0] = 0x52;
    reader.fill(1);
    assert_eq!(reader.available_data(), 1);
    reader.fill(usize::MAX);
    assert_eq!(reader.available_data(), room);
    assert!(reader.space().is_empty());
}

#[test]
fn consume_takes_no_more_than_the_data() {
    let mut writer = Writer::new();
    assert!(matches!(writer.step_write_header(), Ok(WriterAction::Done(()))));
    writer.consume(usize::MAX);
    assert!(writer.data().is_empty());
    writer.consume(1);
    assert!(writer.data().is_empty());
    assert!(matches!(writer.step_write_file_header("a", 0), Ok(WriterAction::Done(()))));
    assert_eq!(writer.data().len(), 9);
}

#[test]
fn room_comes_back_when_the_buffer_is_emptied() {
    let mut writer = Writer::new();
    assert!(matches!(writer.step_write_file_header("a", 20000), Ok(WriterAction::Done(()))));
    let mut written = 0;
    while written < 20000 {
        if writer.space().is_empty() {
            let staged = writer.data().len();
            writer.consume(staged);
            assert!(!writer.space().is_empty());
        }
        let n = writer.space().len().min(20000 - written);
        assert!(matches!(writer.step_write_file_data(n), Ok(WriterAction::Done(_))));
        written += n;
    }
    assert!(writer.finish().is_ok());
}

/// A small generator of numbers that look random, so that the paces of the
/// drivers below differ from run to run of the loop and not from run to run
/// of the test.
struct Dice(u64);

impl Dice {
    fn roll(&mut self, sides: usize) -> usize {
        self.0 = self.0.wrapping_mul(6364136223846793005).wrapping_add(1442695040888963407);
        ((self.0 >> 33) as usize) % sides + 1
    }
}

#[test]
fn round_trip_under_changing_paces() {
    let mut dice = Dice(0x5EED);
    for round in 0..20 {
        let mut files = Vec::new();
        for i in 0..dice.roll(12) {
            let name = format!("dir{round}/file{i}.bin");
            let len = dice.roll(9000) - 1;
            let data: Vec<u8> = (0..len).map(|_| dice.roll(256) as u8).collect();
            files.push((name, data));
        }
        let archive = write_all(&files, dice.roll(5000), dice.roll(5000));
        assert_eq!(archive, write_all(&files, usize::MAX, usize::MAX));
        let chunk = dice.roll(3000);
        let piece = dice.roll(3000);
        assert_eq!(read_all(&archive, chunk, piece).expect("failed to read"), files);
        let sizes: Vec<(String, u32)> =
            files.iter().map(|(name, data)| (name.clone(), data.len() as u32)).collect();
        assert_eq!(skip_all(&archive, chunk).expect("failed to read"), sizes);
    }
}
