//! Laws of the archive formats: what is written is read back.

use vstd::prelude::*;
use vstd::utf8::{encode_utf8, encode_utf8_decode_utf8, encode_utf8_valid_utf8};

use crate::cipher::{
    advance, advance_by, crypt_data, crypt_name, crypt_name3, derive_key, derive_seed, key_byte,
    lemma_crypt_data_involution, lemma_crypt_name3_involution, lemma_crypt_name_involution,
};
use crate::layout::{
    entry_bytes, entry_key_after, header3_bytes, header_bytes, magic, record_bytes, scan_entry,
    scan_header, scan_header3, scan_record, sentinel_bytes, u32_at, u32_bytes, u32_of, EntryHead,
    Scan, DEFAULT_KEY, HEADER_LEN, HEADER_LEN3, MAGIC_LEN, MAX_FILE_NAME_LEN, U32_LEN, VERSION,
    VERSION3,
};
use crate::sans_io::reader::{lemma_run_reads_archive, read_files, ReaderView};
use crate::sans_io::writer::{lemma_run_writes_archive, writes_files, WriterView};
use crate::sans_io::{Fault, FileHeader3View, WriterAction};

verus! {

/// Masking a field twice with the same key gives the field back.
pub proof fn lemma_mask_twice(value: u32, key: u32)
    ensures
        (value ^ key) ^ key == value,
{
    assert((value ^ key) ^ key == value) by (bit_vector);
}

/// A `u32` is the one that its four bytes stand for.
pub proof fn lemma_u32_round_trip(value: u32)
    ensures
        u32_of(key_byte(value, 0), key_byte(value, 1), key_byte(value, 2), key_byte(value, 3))
            == value,
{
    assert((((value & 0xff) as u8) as u32) | ((((value >> 8) & 0xff) as u8) as u32) << 8 | ((((value
        >> 16) & 0xff) as u8) as u32) << 16 | ((((value >> 24) & 0xff) as u8) as u32) << 24
        == value) by (bit_vector);
}

/// Four bytes are those that stand for the `u32` they stand for.
pub proof fn lemma_bytes_round_trip(b0: u8, b1: u8, b2: u8, b3: u8)
    ensures
        u32_bytes(u32_of(b0, b1, b2, b3)) == seq![b0, b1, b2, b3],
{
    let value = u32_of(b0, b1, b2, b3);
    assert(value == (b0 as u32) | ((b1 as u32) << 8) | ((b2 as u32) << 16) | ((b3 as u32) << 24));
    assert(((value & 0xff) as u8) == b0 && (((value >> 8) & 0xff) as u8) == b1 && (((value >> 16)
        & 0xff) as u8) == b2 && (((value >> 24) & 0xff) as u8) == b3) by (bit_vector)
        requires
            value == (b0 as u32) | ((b1 as u32) << 8) | ((b2 as u32) << 16) | ((b3 as u32) << 24),
    ;
    assert(u32_bytes(value) =~= seq![b0, b1, b2, b3]);
}

/// A `u32` is read back from where its four bytes stand.
pub proof fn lemma_u32_at_written(before: Seq<u8>, value: u32, after: Seq<u8>)
    ensures
        u32_at(before + u32_bytes(value) + after, before.len() as int) == value,
        u32_bytes(value).len() == 4,
{
    lemma_u32_round_trip(value);
}

/// The header of an archive is found at the start of what begins with it,
/// whatever follows.
pub proof fn lemma_header_round_trip(version: u8, rest: Seq<u8>)
    ensures
        scan_header(version, header_bytes(version) + rest) == (Scan::Found {
            value: (),
            len: HEADER_LEN as nat,
        }),
{
    let data = header_bytes(version) + rest;
    assert(data.subrange(0, MAGIC_LEN as int) =~= magic());
}

/// The header of an archive of the third format is found at the start of
/// what begins with it, with the key that its seed stands for.
pub proof fn lemma_header3_found(key: u32, rest: Seq<u8>)
    ensures
        scan_header3(header3_bytes(key) + rest) == (Scan::Found {
            value: derive_key(derive_seed(key)),
            len: HEADER_LEN3 as nat,
        }),
{
    let data = header3_bytes(key) + rest;
    lemma_u32_at_written(header_bytes(VERSION3), derive_seed(key), rest);
    assert(data.subrange(0, MAGIC_LEN as int) =~= magic());
}

/// Whether the header of the third format can hold the archive key `key`:
/// the key is three more than a multiple of nine, and so is derived from the
/// seed that is stored for it.
pub open spec fn storable_key(key: u32) -> bool {
    key >= 3 && (key - 3) % 9 == 0
}

/// The seed stored for a key that the header can hold derives that key.
pub proof fn lemma_storable_key(key: u32)
    requires
        storable_key(key),
    ensures
        derive_key(derive_seed(key)) == key,
{
}

/// An archive key that the header can hold is read back from the header that
/// was written with it, whatever follows the header.
pub proof fn lemma_header3_round_trip(key: u32, rest: Seq<u8>)
    requires
        storable_key(key),
    ensures
        scan_header3(header3_bytes(key) + rest) == (Scan::Found {
            value: key,
            len: HEADER_LEN3 as nat,
        }),
{
    lemma_header3_found(key, rest);
    lemma_storable_key(key);
}

/// A record of the file table takes four fields and the bytes of its name.
pub proof fn lemma_record_len(key: u32, offset: u32, size: u32, file_key: u32, name: Seq<u8>)
    ensures
        record_bytes(key, offset, size, file_key, name).len() == 4 * U32_LEN + name.len(),
{
}

/// An entry header is read back as it was written: a name of no more than
/// the maximum length and a size, written with a key, are found with the
/// same key at the start of what begins with the written bytes, whatever
/// follows, together with the key behind the header that the writer holds
/// too.
pub proof fn lemma_entry_round_trip(key: u32, name: Seq<char>, size: u32, rest: Seq<u8>)
    requires
        encode_utf8(name).len() <= MAX_FILE_NAME_LEN,
    ensures
        scan_entry(key, entry_bytes(key, encode_utf8(name), size) + rest) == (Scan::Found {
            value: EntryHead {
                name,
                size,
                key: entry_key_after(key, encode_utf8(name).len()),
            },
            len: 2 * U32_LEN as nat + encode_utf8(name).len(),
        }),
        entry_bytes(key, encode_utf8(name), size).len() == 2 * U32_LEN + encode_utf8(name).len(),
{
    let bytes = encode_utf8(name);
    let len = bytes.len() as u32;
    let name_field = u32_bytes(len ^ key);
    let name_part = crypt_name(advance(key), bytes);
    let size_key = advance_by(key, bytes.len() + 1);
    let size_field = u32_bytes(size ^ size_key);
    let data = entry_bytes(key, bytes, size) + rest;
    assert(data =~= Seq::<u8>::empty() + name_field + (name_part + size_field + rest));
    lemma_u32_at_written(Seq::empty(), len ^ key, name_part + size_field + rest);
    lemma_mask_twice(len, key);
    assert(u32_at(data, 0) ^ key == len);
    assert(data.subrange(U32_LEN as int, U32_LEN + len) =~= name_part);
    lemma_crypt_name_involution(advance(key), bytes);
    encode_utf8_valid_utf8(name);
    encode_utf8_decode_utf8(name);
    assert(data =~= (name_field + name_part) + size_field + rest);
    lemma_u32_at_written(name_field + name_part, size ^ size_key, rest);
    lemma_mask_twice(size, size_key);
}

/// A record of the file table is read back as it was written: a file whose
/// data does not start at offset zero and whose name has no more than the
/// maximum length is found with the same archive key at the start of what
/// begins with its record, whatever follows.
pub proof fn lemma_record_round_trip(key: u32, file: FileHeader3View, rest: Seq<u8>)
    requires
        file.offset != 0,
        encode_utf8(file.name).len() <= MAX_FILE_NAME_LEN,
    ensures
        scan_record(
            key,
            record_bytes(key, file.offset, file.size, file.key, encode_utf8(file.name)) + rest,
        ) == (Scan::Found {
            value: Some(file),
            len: 4 * U32_LEN as nat + encode_utf8(file.name).len(),
        }),
{
    let bytes = encode_utf8(file.name);
    let len = bytes.len() as u32;
    let first = u32_bytes(file.offset ^ key);
    let second = u32_bytes(file.size ^ key);
    let third = u32_bytes(file.key ^ key);
    let fourth = u32_bytes(len ^ key);
    let name_part = crypt_name3(key, bytes);
    let data = record_bytes(key, file.offset, file.size, file.key, bytes) + rest;
    assert(data =~= Seq::<u8>::empty() + first + (second + third + fourth + name_part + rest));
    lemma_u32_at_written(Seq::empty(), file.offset ^ key, second + third + fourth + name_part + rest);
    assert(data =~= first + second + (third + fourth + name_part + rest));
    lemma_u32_at_written(first, file.size ^ key, third + fourth + name_part + rest);
    assert(data =~= (first + second) + third + (fourth + name_part + rest));
    lemma_u32_at_written(first + second, file.key ^ key, fourth + name_part + rest);
    assert(data =~= (first + second + third) + fourth + (name_part + rest));
    lemma_u32_at_written(first + second + third, len ^ key, name_part + rest);
    lemma_mask_twice(file.offset, key);
    lemma_mask_twice(file.size, key);
    lemma_mask_twice(file.key, key);
    lemma_mask_twice(len, key);
    assert(data.subrange(4 * U32_LEN as int, 4 * U32_LEN + len) =~= name_part);
    lemma_crypt_name3_involution(key, bytes);
    encode_utf8_valid_utf8(file.name);
    encode_utf8_decode_utf8(file.name);
}

/// The record that ends the file table is read as the end of the table,
/// whatever follows it.
pub proof fn lemma_sentinel_round_trip(key: u32, rest: Seq<u8>)
    ensures
        scan_record(key, sentinel_bytes(key) + rest) == (Scan::<Option<FileHeader3View>>::Found {
            value: None,
            len: 4 * U32_LEN as nat,
        }),
{
    let field = u32_bytes(key);
    let data = sentinel_bytes(key) + rest;
    assert(data =~= Seq::<u8>::empty() + field + (field + field + field + rest));
    lemma_u32_at_written(Seq::empty(), key, field + field + field + rest);
    assert(key ^ key == 0) by (bit_vector);
}

/// A `u32` that stands in `data` is the same whatever follows the data.
pub proof fn lemma_u32_at_stable(data: Seq<u8>, more: Seq<u8>, at: int)
    requires
        0 <= at,
        at + 4 <= data.len(),
    ensures
        u32_at(data + more, at) == u32_at(data, at),
{
}

/// What is found at the start of an archive does not depend on what follows
/// it: once the bytes suffice for an answer, further bytes leave the answer
/// as it is, and while they do not suffice, fewer bytes than are missing
/// leave the rest missing.
pub proof fn lemma_scan_header_stable(version: u8, data: Seq<u8>, more: Seq<u8>)
    ensures
        !(scan_header(version, data) is Short) ==> scan_header(version, data + more)
            == scan_header(version, data),
        scan_header(version, data) matches Scan::Short { missing } ==> missing > 0 && (more.len()
            < missing ==> scan_header(version, data + more) == Scan::<()>::Short {
            missing: (missing - more.len()) as nat,
        }),
{
    if data.len() >= HEADER_LEN {
        assert((data + more).subrange(0, MAGIC_LEN as int) =~= data.subrange(0, MAGIC_LEN as int));
    }
}

/// What is found at the start of an archive of the third format does not
/// depend on what follows it.
pub proof fn lemma_scan_header3_stable(data: Seq<u8>, more: Seq<u8>)
    ensures
        !(scan_header3(data) is Short) ==> scan_header3(data + more) == scan_header3(data),
        scan_header3(data) matches Scan::Short { missing } ==> missing > 0 && (more.len() < missing
            ==> scan_header3(data + more) == Scan::<u32>::Short {
            missing: (missing - more.len()) as nat,
        }),
{
    if data.len() >= HEADER_LEN3 {
        assert((data + more).subrange(0, MAGIC_LEN as int) =~= data.subrange(0, MAGIC_LEN as int));
        lemma_u32_at_stable(data, more, HEADER_LEN as int);
    }
}

/// The entry header that is found at the start of some bytes does not depend
/// on what follows it: once the bytes suffice for an answer, further bytes
/// leave the answer as it is, and while they do not suffice, fewer bytes than
/// are missing leave the rest missing.
pub proof fn lemma_scan_entry_stable(key: u32, data: Seq<u8>, more: Seq<u8>)
    ensures
        !(scan_entry(key, data) is Short) ==> scan_entry(key, data + more) == scan_entry(
            key,
            data,
        ),
        scan_entry(key, data) matches Scan::Short { missing } ==> missing > 0 && (more.len()
            < missing ==> scan_entry(key, data + more) == Scan::<EntryHead>::Short {
            missing: (missing - more.len()) as nat,
        }),
{
    if data.len() >= U32_LEN {
        lemma_u32_at_stable(data, more, 0);
        let name_len = u32_at(data, 0) ^ key;
        if name_len <= MAX_FILE_NAME_LEN && data.len() >= 2 * U32_LEN + name_len {
            assert((data + more).subrange(U32_LEN as int, U32_LEN + name_len) =~= data.subrange(
                U32_LEN as int,
                U32_LEN + name_len,
            ));
            lemma_u32_at_stable(data, more, U32_LEN + name_len);
        }
    }
}

/// The record of the file table that is found at the start of some bytes
/// does not depend on what follows it.
pub proof fn lemma_scan_record_stable(key: u32, data: Seq<u8>, more: Seq<u8>)
    ensures
        !(scan_record(key, data) is Short) ==> scan_record(key, data + more) == scan_record(
            key,
            data,
        ),
        scan_record(key, data) matches Scan::Short { missing } ==> missing > 0 && (more.len()
            < missing ==> scan_record(key, data + more) == Scan::<Option<FileHeader3View>>::Short {
            missing: (missing - more.len()) as nat,
        }),
{
    if data.len() >= 4 * U32_LEN {
        lemma_u32_at_stable(data, more, 0);
        lemma_u32_at_stable(data, more, 4);
        lemma_u32_at_stable(data, more, 8);
        lemma_u32_at_stable(data, more, 12);
        let name_len = u32_at(data, 12) ^ key;
        if name_len <= MAX_FILE_NAME_LEN && data.len() >= 4 * U32_LEN + name_len {
            assert((data + more).subrange(4 * U32_LEN as int, 4 * U32_LEN + name_len)
                =~= data.subrange(4 * U32_LEN as int, 4 * U32_LEN + name_len));
        }
    }
}

/// A file of an archive: its name and its data.
pub struct Entry {
    pub name: Seq<char>,
    pub data: Seq<u8>,
}

/// Why an archive cannot be read.
pub enum ReadFault {
    /// The archive ends in the middle of an entry.
    UnexpectedEof,
    /// The archive holds something that is no entry.
    Invalid { fault: Fault },
}

/// Whether an archive of the first format can hold the file: its name has no
/// more than the maximum length and a `u32` holds the length of its data.
pub open spec fn storable(entry: Entry) -> bool {
    encode_utf8(entry.name).len() <= MAX_FILE_NAME_LEN && entry.data.len() <= u32::MAX
}

/// The key of an archive of the first format behind the entry of a file.
pub open spec fn key_behind(key: u32, entry: Entry) -> u32 {
    entry_key_after(key, encode_utf8(entry.name).len())
}

/// The key behind all the given entries.
pub open spec fn key_behind_all(key: u32, entries: Seq<Entry>) -> u32
    decreases entries.len(),
{
    if entries.len() == 0 {
        key
    } else {
        key_behind_all(key_behind(key, entries[0]), entries.drop_first())
    }
}

/// The entries of an archive of the first format, starting with `key`: for
/// each file its header and, under the key behind the header, its data.
pub open spec fn entries_bytes(key: u32, entries: Seq<Entry>) -> Seq<u8>
    decreases entries.len(),
{
    if entries.len() == 0 {
        Seq::empty()
    } else {
        let first = entries[0];
        entry_bytes(key, encode_utf8(first.name), first.data.len() as u32) + crypt_data(
            key_behind(key, first),
            0,
            first.data,
        ) + entries_bytes(key_behind(key, first), entries.drop_first())
    }
}

/// An archive of the first format with the given files.
pub open spec fn archive_bytes(entries: Seq<Entry>) -> Seq<u8> {
    header_bytes(VERSION) + entries_bytes(DEFAULT_KEY, entries)
}

/// The files that stand in `bytes` for a reader of the first format that
/// holds `key`. Where the bytes end an entry may start, and nowhere else: an
/// entry that is cut short makes the bytes unreadable, as does anything that
/// is no entry.
pub open spec fn scan_entries(key: u32, bytes: Seq<u8>) -> Result<Seq<Entry>, ReadFault>
    decreases bytes.len(),
{
    if bytes.len() == 0 {
        Ok(Seq::empty())
    } else {
        match scan_entry(key, bytes) {
            Scan::Short { .. } => Err(ReadFault::UnexpectedEof),
            Scan::Bad { fault } => Err(ReadFault::Invalid { fault }),
            Scan::Found { value, len } => {
                if len == 0 || bytes.len() < len + value.size {
                    Err(ReadFault::UnexpectedEof)
                } else {
                    let first = Entry {
                        name: value.name,
                        data: crypt_data(
                            value.key,
                            0,
                            bytes.subrange(len as int, len + value.size),
                        ),
                    };
                    match scan_entries(value.key, bytes.skip(len + value.size)) {
                        Ok(rest) => Ok(seq![first] + rest),
                        Err(fault) => Err(fault),
                    }
                }
            },
        }
    }
}

/// The files that stand in an archive of the first format.
pub open spec fn scan_archive(bytes: Seq<u8>) -> Result<Seq<Entry>, ReadFault> {
    match scan_header(VERSION, bytes) {
        Scan::Short { .. } => Err(ReadFault::UnexpectedEof),
        Scan::Bad { fault } => Err(ReadFault::Invalid { fault }),
        Scan::Found { len, .. } => scan_entries(DEFAULT_KEY, bytes.skip(len as int)),
    }
}

/// An entry that is followed by further bytes is read back as it was written,
/// and the further bytes are read with the key behind the entry.
pub proof fn lemma_entry_then(key: u32, first: Entry, behind: Seq<u8>)
    requires
        storable(first),
    ensures
        scan_entries(
            key,
            entry_bytes(key, encode_utf8(first.name), first.data.len() as u32) + crypt_data(
                key_behind(key, first),
                0,
                first.data,
            ) + behind,
        ) == match scan_entries(key_behind(key, first), behind) {
            Ok(rest) => Ok::<Seq<Entry>, ReadFault>(seq![first] + rest),
            Err(fault) => Err(fault),
        },
{
    let size = first.data.len() as u32;
    let next = key_behind(key, first);
    let head = entry_bytes(key, encode_utf8(first.name), size);
    let body = crypt_data(next, 0, first.data);
    let bytes = head + body + behind;
    assert(bytes =~= head + (body + behind));
    lemma_entry_round_trip(key, first.name, size, body + behind);
    let len = head.len();
    assert(bytes.subrange(len as int, len + size) =~= body);
    lemma_crypt_data_involution(next, 0, first.data);
    assert(bytes.skip(len + size) =~= behind);
}

/// The entries of a sequence of files, with what follows them, begin with the
/// header and the data of the first file, and the entries of the other files
/// follow, written with the key behind the first.
pub proof fn lemma_entries_bytes_front(key: u32, entries: Seq<Entry>, tail: Seq<u8>)
    requires
        entries.len() > 0,
    ensures
        entries_bytes(key, entries) + tail == entry_bytes(
            key,
            encode_utf8(entries[0].name),
            entries[0].data.len() as u32,
        ) + crypt_data(key_behind(key, entries[0]), 0, entries[0].data) + (entries_bytes(
            key_behind(key, entries[0]),
            entries.drop_first(),
        ) + tail),
{
    let first = entries[0];
    let head = entry_bytes(key, encode_utf8(first.name), first.data.len() as u32);
    let body = crypt_data(key_behind(key, first), 0, first.data);
    let others = entries_bytes(key_behind(key, first), entries.drop_first());
    assert((head + body + others) + tail =~= head + body + (others + tail));
}

/// Entries that are followed by further bytes are read back as they were
/// written, and the further bytes are read with the key behind the entries.
pub proof fn lemma_entries_then(key: u32, entries: Seq<Entry>, tail: Seq<u8>)
    requires
        forall|i: int| 0 <= i < entries.len() ==> storable(#[trigger] entries[i]),
    ensures
        scan_entries(key, entries_bytes(key, entries) + tail) == match scan_entries(
            key_behind_all(key, entries),
            tail,
        ) {
            Ok(rest) => Ok::<Seq<Entry>, ReadFault>(entries + rest),
            Err(fault) => Err(fault),
        },
    decreases entries.len(),
{
    if entries.len() == 0 {
        assert(entries_bytes(key, entries) + tail =~= tail);
        match scan_entries(key, tail) {
            Ok(rest) => {
                assert(entries + rest =~= rest);
            },
            Err(_) => {},
        }
    } else {
        let first = entries[0];
        let others = entries.drop_first();
        let next = key_behind(key, first);
        let behind = entries_bytes(next, others) + tail;
        assert(storable(first));
        assert forall|i: int| 0 <= i < others.len() implies storable(#[trigger] others[i]) by {
            assert(others[i] == entries[i + 1]);
        }
        lemma_entries_bytes_front(key, entries, tail);
        lemma_entry_then(key, first, behind);
        lemma_entries_then(next, others, tail);
        match scan_entries(key_behind_all(key, entries), tail) {
            Ok(rest) => {
                assert(seq![first] + (others + rest) =~= entries + rest);
            },
            Err(_) => {},
        }
    }
}

/// An archive of the first format is read back as it was written: the files
/// found in the archive of a sequence of files, each with a name of no more
/// than the maximum length and with data whose length a `u32` holds, are
/// those files, with the same names and the same data in the same order.
pub proof fn lemma_archive_round_trip(entries: Seq<Entry>)
    requires
        forall|i: int| 0 <= i < entries.len() ==> storable(#[trigger] entries[i]),
    ensures
        scan_archive(archive_bytes(entries)) == Ok::<Seq<Entry>, ReadFault>(entries),
{
    let body = entries_bytes(DEFAULT_KEY, entries);
    lemma_header_round_trip(VERSION, body);
    assert(archive_bytes(entries).skip(HEADER_LEN as int) =~= body);
    lemma_entries_then(DEFAULT_KEY, entries, Seq::empty());
    assert(body + Seq::<u8>::empty() =~= body);
    assert(entries + Seq::<Entry>::empty() =~= entries);
}

/// One byte behind the last entry makes an archive unreadable: the archive of
/// a sequence of files with one further byte at its end is not read as an
/// archive of those files, but as one that ends in the middle of an entry.
pub proof fn lemma_trailing_byte_rejected(entries: Seq<Entry>, extra: u8)
    requires
        forall|i: int| 0 <= i < entries.len() ==> storable(#[trigger] entries[i]),
    ensures
        scan_archive(archive_bytes(entries).push(extra)) == Err::<Seq<Entry>, ReadFault>(
            ReadFault::UnexpectedEof,
        ),
{
    let body = entries_bytes(DEFAULT_KEY, entries);
    let tail = seq![extra];
    let bytes = archive_bytes(entries).push(extra);
    assert(bytes =~= header_bytes(VERSION) + (body + tail));
    lemma_header_round_trip(VERSION, body + tail);
    assert(bytes.skip(HEADER_LEN as int) =~= body + tail);
    lemma_entries_then(DEFAULT_KEY, entries, tail);
}

/// What a run of steps has written, a run of steps reads back. The data of
/// a writer that has staged the archive header and then, in a run of steps
/// with nothing taken out of its buffer in between, a sequence of files, each
/// with a name of no more than the maximum length and with data whose length
/// a `u32` holds, is handed out by a reader that has seen nothing and is given
/// that data, in a run of steps over as many files: the same files with the
/// same names and the same data in the same order, and nothing is left.
pub proof fn lemma_run_round_trip(
    writer: WriterView,
    past: WriterView,
    written: WriterView,
    entries: Seq<Entry>,
    space: nat,
)
    requires
        writer.data.len() == 0,
        writer.key == DEFAULT_KEY,
        writer.state is Header,
        forall|i: int| 0 <= i < entries.len() ==> storable(#[trigger] entries[i]),
        writer.header_step(past, Ok(WriterAction::Done(()))),
        writes_files(past, entries, written),
    ensures
        read_files(
            ReaderView::initial().filled(written.data).read_header().0,
            space,
            entries.len(),
        ) matches Some((last, found)) && found == entries && last.data.len() == 0,
{
    lemma_run_writes_archive(writer, entries, past, written);
    lemma_run_reads_archive(entries, space, Seq::empty());
    assert(archive_bytes(entries) + Seq::<u8>::empty() =~= archive_bytes(entries));
}

} // verus!
