//! The byte layout of the archive formats, as mathematical functions.
//!
//! The functions named `*_bytes` say which bytes stand for a value; the
//! functions named `scan_*` say what a reader finds at the start of a byte
//! sequence. The state machines are specified against them.

use vstd::prelude::*;
use vstd::slice::{slice_subrange, slice_to_vec};
use vstd::utf8::{decode_utf8, encode_utf8, valid_utf8};

use crate::cipher::{
    advance, advance_by, copy_bytes, crypt_name, crypt_name3, crypt_name_bytes,
    crypt_name_bytes3, crypt_u32, derive_key, derive_seed, key_byte, key_byte_at,
    lemma_advance_by_add,
};
use crate::sans_io::{
    string_from_utf8, Error, Fault, FileHeader, FileHeader3, FileHeader3View,
};

verus! {

/// The length of the magic number.
pub const MAGIC_LEN: usize = 7;

/// The version byte of the first format.
pub const VERSION: u8 = 1;

/// The version byte of the third format.
pub const VERSION3: u8 = 3;

/// The length of the header of the first format.
pub const HEADER_LEN: usize = 8;

/// The length of the header of the third format.
pub const HEADER_LEN3: usize = 12;

/// The key every archive of the first format starts with.
pub const DEFAULT_KEY: u32 = 0xDEADCAFE;

/// The maximum length of a file name, in bytes.
pub const MAX_FILE_NAME_LEN: u32 = 4096;

/// The length of an encoded `u32`.
pub const U32_LEN: usize = 4;

/// The magic number: `RGSSAD` and a zero byte.
pub open spec fn magic() -> Seq<u8> {
    seq![0x52u8, 0x47u8, 0x53u8, 0x53u8, 0x41u8, 0x44u8, 0x00u8]
}

/// The magic number as bytes.
pub fn magic_bytes() -> (bytes: [u8; 7])
    ensures
        bytes@ == magic(),
{
    let bytes: [u8; 7] = [0x52u8, 0x47u8, 0x53u8, 0x53u8, 0x41u8, 0x44u8, 0x00u8];
    assert(bytes@ =~= magic());
    bytes
}

/// Whether the first bytes of `data` are the magic number.
pub fn starts_with_magic(data: &[u8]) -> (found: bool)
    requires
        data@.len() >= MAGIC_LEN,
    ensures
        found == (data@.subrange(0, MAGIC_LEN as int) == magic()),
{
    let expected = magic_bytes();
    let mut i: usize = 0;
    while i < MAGIC_LEN
        invariant
            i <= MAGIC_LEN,
            data@.len() >= MAGIC_LEN,
            expected@ == magic(),
            forall|j: int| 0 <= j < i ==> data@[j] == expected@[j],
        decreases MAGIC_LEN - i,
    {
        if data[i] != expected[i] {
            assert(data@.subrange(0, MAGIC_LEN as int)[i as int] != magic()[i as int]);
            return false;
        }
        i += 1;
    }
    assert(data@.subrange(0, MAGIC_LEN as int) =~= magic());
    true
}

/// What a reader finds at the start of a byte sequence.
pub enum Scan<T> {
    /// The bytes end before the item does. `missing` more bytes are needed
    /// before more can be said.
    Short { missing: nat },
    /// The bytes do not start with a well-formed item.
    Bad { fault: Fault },
    /// The first `len` bytes are the item `value`.
    Found { value: T, len: nat },
}

/// The header of an entry of the first format.
pub struct EntryHead {
    /// The file name.
    pub name: Seq<char>,
    /// The length of the file data that follows the header.
    pub size: u32,
    /// The key after the header: the one the file data starts with.
    pub key: u32,
}

/// The header of an archive: the magic number and the version byte.
pub open spec fn header_bytes(version: u8) -> Seq<u8> {
    magic().push(version)
}

/// The header of an archive of the third format with the given archive key:
/// magic number, version and the seed the key is derived from.
pub open spec fn header3_bytes(key: u32) -> Seq<u8> {
    header_bytes(VERSION3) + u32_bytes(derive_seed(key))
}

/// The header of an entry of the first format, written with `key`: the
/// length of the name, the name and the length of the data, each under the
/// cipher, the key rotating once per field and once per byte of the name.
pub open spec fn entry_bytes(key: u32, name: Seq<u8>, size: u32) -> Seq<u8> {
    u32_bytes((name.len() as u32) ^ key) + crypt_name(advance(key), name)
        + u32_bytes(size ^ advance_by(key, name.len() + 1))
}

/// The key after an entry header whose name has `name_len` bytes.
pub open spec fn entry_key_after(key: u32, name_len: nat) -> u32 {
    advance_by(key, name_len + 2)
}

/// A record of the file table of the third format, written with the archive
/// key `key`: four fields masked with the key, then the name masked with the
/// bytes of the key in turn.
pub open spec fn record_bytes(key: u32, offset: u32, size: u32, file_key: u32, name: Seq<u8>) -> Seq<
    u8,
> {
    u32_bytes(offset ^ key) + u32_bytes(size ^ key) + u32_bytes(
        file_key ^ key,
    ) + u32_bytes((name.len() as u32) ^ key) + crypt_name3(key, name)
}

/// The record that ends the file table of the third format: four fields that
/// all hold the archive key, so that the first deciphers to zero.
pub open spec fn sentinel_bytes(key: u32) -> Seq<u8> {
    u32_bytes(key) + u32_bytes(key) + u32_bytes(key)
        + u32_bytes(key)
}

/// The four bytes that stand for a `u32`, the lowest first.
pub open spec fn u32_bytes(value: u32) -> Seq<u8> {
    seq![key_byte(value, 0), key_byte(value, 1), key_byte(value, 2), key_byte(value, 3)]
}

/// The `u32` that four bytes stand for, the lowest first.
pub open spec fn u32_of(b0: u8, b1: u8, b2: u8, b3: u8) -> u32 {
    (b0 as u32) | ((b1 as u32) << 8) | ((b2 as u32) << 16) | ((b3 as u32) << 24)
}

/// The `u32` that stands at `at` in `data`, little-endian.
pub open spec fn u32_at(data: Seq<u8>, at: int) -> u32 {
    u32_of(data[at], data[at + 1], data[at + 2], data[at + 3])
}

/// What stands at the start of an archive, for a reader that expects
/// `version`.
pub open spec fn scan_header(version: u8, data: Seq<u8>) -> Scan<()> {
    if data.len() < HEADER_LEN {
        Scan::Short { missing: (HEADER_LEN - data.len()) as nat }
    } else if data.subrange(0, MAGIC_LEN as int) != magic() {
        Scan::Bad { fault: Fault::InvalidMagic { magic: data.subrange(0, MAGIC_LEN as int) } }
    } else if data[MAGIC_LEN as int] != version {
        Scan::Bad { fault: Fault::InvalidVersion { version: data[MAGIC_LEN as int] } }
    } else {
        Scan::Found { value: (), len: HEADER_LEN as nat }
    }
}

/// What stands at the start of an archive of the third format: the archive
/// key, derived from the seed behind the version byte.
pub open spec fn scan_header3(data: Seq<u8>) -> Scan<u32> {
    if data.len() < HEADER_LEN3 {
        Scan::Short { missing: (HEADER_LEN3 - data.len()) as nat }
    } else if data.subrange(0, MAGIC_LEN as int) != magic() {
        Scan::Bad { fault: Fault::InvalidMagic { magic: data.subrange(0, MAGIC_LEN as int) } }
    } else if data[MAGIC_LEN as int] != VERSION3 {
        Scan::Bad { fault: Fault::InvalidVersion { version: data[MAGIC_LEN as int] } }
    } else {
        Scan::Found { value: derive_key(u32_at(data, HEADER_LEN as int)), len: HEADER_LEN3 as nat }
    }
}

/// What stands at the start of `data` for a reader of the first format that
/// expects an entry header and holds `key`.
pub open spec fn scan_entry(key: u32, data: Seq<u8>) -> Scan<EntryHead> {
    if data.len() < U32_LEN {
        Scan::Short { missing: (U32_LEN - data.len()) as nat }
    } else {
        let name_len = u32_at(data, 0) ^ key;
        let total = 2 * U32_LEN + name_len;
        if name_len > MAX_FILE_NAME_LEN {
            Scan::Bad { fault: Fault::FileNameTooLongU32 { len: name_len } }
        } else if data.len() < total {
            Scan::Short { missing: (total - data.len()) as nat }
        } else {
            let name = crypt_name(advance(key), data.subrange(U32_LEN as int, U32_LEN + name_len));
            if !valid_utf8(name) {
                Scan::Bad { fault: Fault::InvalidFileName }
            } else {
                Scan::Found {
                    value: EntryHead {
                        name: decode_utf8(name),
                        size: u32_at(data, U32_LEN + name_len) ^ advance_by(
                            key,
                            (name_len + 1) as nat,
                        ),
                        key: entry_key_after(key, name_len as nat),
                    },
                    len: total as nat,
                }
            }
        }
    }
}

/// What stands at the start of `data` for a reader of the third format that
/// expects a record of the file table and holds the archive key `key`. The
/// record that ends the table, whose offset is zero, is found as `None`; of it
/// only the four fields are read.
pub open spec fn scan_record(key: u32, data: Seq<u8>) -> Scan<Option<FileHeader3View>> {
    if data.len() < 4 * U32_LEN {
        Scan::Short { missing: (4 * U32_LEN - data.len()) as nat }
    } else {
        let offset = u32_at(data, 0) ^ key;
        let size = u32_at(data, 4) ^ key;
        let file_key = u32_at(data, 8) ^ key;
        let name_len = u32_at(data, 12) ^ key;
        let total = 4 * U32_LEN + name_len;
        if offset == 0 {
            Scan::Found { value: None, len: (4 * U32_LEN) as nat }
        } else if name_len > MAX_FILE_NAME_LEN {
            Scan::Bad { fault: Fault::FileNameTooLongU32 { len: name_len } }
        } else if data.len() < total {
            Scan::Short { missing: (total - data.len()) as nat }
        } else {
            let name = crypt_name3(key, data.subrange(4 * U32_LEN as int, total));
            if !valid_utf8(name) {
                Scan::Bad { fault: Fault::InvalidFileName }
            } else {
                Scan::Found {
                    value: Some(
                        FileHeader3View { name: decode_utf8(name), size, key: file_key, offset },
                    ),
                    len: total as nat,
                }
            }
        }
    }
}

/// Write `value` over the four bytes of `target`, little-endian.
pub fn put_u32(target: &mut [u8], value: u32)
    requires
        old(target)@.len() == U32_LEN,
    ensures
        final(target)@ == u32_bytes(value),
{
    target[0] = key_byte_at(value, 0);
    target[1] = key_byte_at(value, 1);
    target[2] = key_byte_at(value, 2);
    target[3] = key_byte_at(value, 3);
    assert(target@ =~= u32_bytes(value));
}

/// Write the header of an archive over `target`: the magic number and the
/// version byte.
pub fn put_header(target: &mut [u8], version: u8)
    requires
        old(target)@.len() == HEADER_LEN,
    ensures
        final(target)@ == header_bytes(version),
{
    let magic = magic_bytes();
    let (head, tail) = target.split_at_mut(MAGIC_LEN);
    copy_bytes(head, magic.as_slice());
    tail[0] = version;
    assert(head@ + tail@ =~= header_bytes(version));
}

/// Write the header of an entry of the first format over `target`, with `key`
/// as the key of the archive at that point, and leave in `key` the key behind
/// the header.
pub fn put_entry(key: &mut u32, name: &str, size: u32, target: &mut [u8])
    requires
        encode_utf8(name@).len() <= MAX_FILE_NAME_LEN,
        old(target)@.len() == 2 * U32_LEN + encode_utf8(name@).len(),
    ensures
        final(target)@ == entry_bytes(*old(key), encode_utf8(name@), size),
        *final(key) == entry_key_after(*old(key), encode_utf8(name@).len()),
{
    let ghost first = *key;
    let name_len = name.len();
    let field = crypt_u32(key, name_len as u32);
    let (len_bytes, rest) = target.split_at_mut(U32_LEN);
    put_u32(len_bytes, field);
    let (name_bytes, size_bytes) = rest.split_at_mut(name_len);
    copy_bytes(name_bytes, name.as_bytes());
    crypt_name_bytes(key, name_bytes);
    proof {
        assert(advance_by(first, 1) == advance(first)) by {
            reveal_with_fuel(advance_by, 2);
        }
        lemma_advance_by_add(first, 1, name_len as nat);
    }
    let field = crypt_u32(key, size);
    put_u32(size_bytes, field);
    assert(len_bytes@ + (name_bytes@ + size_bytes@) =~= entry_bytes(
        first,
        encode_utf8(name@),
        size,
    ));
}

/// Write the header of an archive of the third format over `target`: the
/// magic number, the version byte and the seed of the archive key `key`.
pub fn put_header3(target: &mut [u8], key: u32)
    requires
        old(target)@.len() == HEADER_LEN3,
    ensures
        final(target)@ == header3_bytes(key),
{
    let (head, seed_bytes) = target.split_at_mut(HEADER_LEN);
    put_header(head, VERSION3);
    put_u32(seed_bytes, key.wrapping_sub(3) / 9);
}

/// Write a record of the file table of the third format over `target`, with
/// `key` as the archive key.
pub fn put_record(key: u32, offset: u32, size: u32, file_key: u32, name: &str, target: &mut [u8])
    requires
        encode_utf8(name@).len() <= MAX_FILE_NAME_LEN,
        old(target)@.len() == 4 * U32_LEN + encode_utf8(name@).len(),
    ensures
        final(target)@ == record_bytes(key, offset, size, file_key, encode_utf8(name@)),
{
    let name_len = name.len();
    let (offset_bytes, rest) = target.split_at_mut(U32_LEN);
    put_u32(offset_bytes, offset ^ key);
    let (size_bytes, rest) = rest.split_at_mut(U32_LEN);
    put_u32(size_bytes, size ^ key);
    let (key_bytes, rest) = rest.split_at_mut(U32_LEN);
    put_u32(key_bytes, file_key ^ key);
    let (len_bytes, name_bytes) = rest.split_at_mut(U32_LEN);
    put_u32(len_bytes, (name_len as u32) ^ key);
    copy_bytes(name_bytes, name.as_bytes());
    crypt_name_bytes3(key, name_bytes);
    assert(offset_bytes@ + (size_bytes@ + (key_bytes@ + (len_bytes@ + name_bytes@))) =~= record_bytes(
        key,
        offset,
        size,
        file_key,
        encode_utf8(name@),
    ));
}

/// Write the record that ends the file table of the third format over
/// `target`, with `key` as the archive key.
pub fn put_sentinel(key: u32, target: &mut [u8])
    requires
        old(target)@.len() == 4 * U32_LEN,
    ensures
        final(target)@ == sentinel_bytes(key),
{
    let (first, rest) = target.split_at_mut(U32_LEN);
    put_u32(first, key);
    let (second, rest) = rest.split_at_mut(U32_LEN);
    put_u32(second, key);
    let (third, fourth) = rest.split_at_mut(U32_LEN);
    put_u32(third, key);
    put_u32(fourth, key);
    assert(first@ + (second@ + (third@ + fourth@)) =~= sentinel_bytes(key));
}

/// What a parser finds at the start of a byte sequence.
#[derive(Debug)]
pub enum Parsed<T> {
    /// The bytes end before the item does; so many more are needed before
    /// more can be said.
    Short(usize),
    /// The bytes do not start with a well-formed item.
    Bad(Error),
    /// The item, and the number of bytes it takes.
    Found(T, usize),
}

/// Whether `parsed` reports what `scan` holds, for an entry header: the same
/// case, and in it the same count, the same fault, or the same name, size and
/// key.
pub open spec fn parsed_entry_is(parsed: Parsed<(FileHeader, u32)>, scan: Scan<EntryHead>) -> bool {
    match parsed {
        Parsed::Short(missing) => scan == Scan::<EntryHead>::Short { missing: missing as nat },
        Parsed::Bad(error) => scan == Scan::<EntryHead>::Bad { fault: error@ },
        Parsed::Found(value, len) => scan == Scan::<EntryHead>::Found {
            value: EntryHead { name: value.0.name@, size: value.0.size, key: value.1 },
            len: len as nat,
        },
    }
}

/// Parse the header of an entry of the first format from the start of `data`,
/// with `key` as the key of the archive at that point. Finds the file header
/// and the key behind it.
pub fn parse_entry(key: u32, data: &[u8]) -> (parsed: Parsed<(FileHeader, u32)>)
    ensures
        parsed_entry_is(parsed, scan_entry(key, data@)),
{
    let mut key = key;
    let ghost first = key;
    let data_len = data.len();
    if data_len < U32_LEN {
        return Parsed::Short(U32_LEN - data_len);
    }
    let n = get_u32(data, 0);
    let n = crypt_u32(&mut key, n);
    if n > MAX_FILE_NAME_LEN {
        return Parsed::Bad(Error::FileNameTooLongU32 { len: n });
    }
    let file_name_len = n as usize;
    let file_header_size = (U32_LEN * 2) + file_name_len;
    if data_len < file_header_size {
        return Parsed::Short(file_header_size - data_len);
    }
    assert(n == u32_at(data@, 0) ^ first);
    assert(key == advance(first));
    let mut bytes = slice_to_vec(slice_subrange(data, U32_LEN, U32_LEN + file_name_len));
    crypt_name_bytes(&mut key, bytes.as_mut_slice());
    proof {
        assert(advance_by(first, 1) == advance(first)) by {
            reveal_with_fuel(advance_by, 2);
        }
        lemma_advance_by_add(first, 1, file_name_len as nat);
        assert(key == advance_by(first, (file_name_len + 1) as nat));
        assert(bytes@ == crypt_name(
            advance(first),
            data@.subrange(U32_LEN as int, U32_LEN + file_name_len),
        ));
    }
    let name = match string_from_utf8(bytes) {
        Ok(name) => name,
        Err(error) => {
            return Parsed::Bad(Error::InvalidFileName { error });
        },
    };
    let index = U32_LEN + file_name_len;
    let n = get_u32(data, index);
    let size = crypt_u32(&mut key, n);
    assert(size == u32_at(data@, U32_LEN + file_name_len) ^ advance_by(
        first,
        (file_name_len + 1) as nat,
    ));
    assert(key == entry_key_after(first, file_name_len as nat));
    Parsed::Found((FileHeader { name, size }, key), file_header_size)
}

/// Whether `parsed` reports what `scan` holds, for a record of the file
/// table: the same case, and in it the same count, the same fault, or the same
/// file header, if any.
pub open spec fn parsed_record_is(
    parsed: Parsed<Option<FileHeader3>>,
    scan: Scan<Option<FileHeader3View>>,
) -> bool {
    match parsed {
        Parsed::Short(missing) => scan == Scan::<Option<FileHeader3View>>::Short {
            missing: missing as nat,
        },
        Parsed::Bad(error) => scan == Scan::<Option<FileHeader3View>>::Bad { fault: error@ },
        Parsed::Found(Some(header), len) => scan == Scan::<Option<FileHeader3View>>::Found {
            value: Some(header@),
            len: len as nat,
        },
        Parsed::Found(None, len) => scan == Scan::<Option<FileHeader3View>>::Found {
            value: None,
            len: len as nat,
        },
    }
}

/// The `u32` that stands at `at` in `data`, little-endian.
pub fn get_u32(data: &[u8], at: usize) -> (value: u32)
    requires
        at + U32_LEN <= data@.len(),
    ensures
        value == u32_at(data@, at as int),
{
    proof {
        vstd::slice::axiom_spec_len(data);
    }
    let b0 = data[at] as u32;
    let b1 = data[at + 1] as u32;
    let b2 = data[at + 2] as u32;
    let b3 = data[at + 3] as u32;
    b0 | (b1 << 8) | (b2 << 16) | (b3 << 24)
}

/// Parse a record of the file table of the third format from the start of
/// `data`, with `key` as the archive key.
pub fn parse_record(key: u32, data: &[u8]) -> (parsed: Parsed<Option<FileHeader3>>)
    ensures
        parsed_record_is(parsed, scan_record(key, data@)),
{
    let data_len = data.len();
    let fields_len = 4 * U32_LEN;
    if data_len < fields_len {
        return Parsed::Short(fields_len - data_len);
    }
    let offset = get_u32(data, 0) ^ key;
    let size = get_u32(data, 4) ^ key;
    let file_key = get_u32(data, 8) ^ key;
    let name_len = get_u32(data, 12) ^ key;
    if offset == 0 {
        return Parsed::Found(None, fields_len);
    }
    if name_len > MAX_FILE_NAME_LEN {
        return Parsed::Bad(Error::FileNameTooLongU32 { len: name_len });
    }
    let expected_size = fields_len + name_len as usize;
    if data_len < expected_size {
        return Parsed::Short(expected_size - data_len);
    }
    let mut bytes = slice_to_vec(slice_subrange(data, fields_len, expected_size));
    crypt_name_bytes3(key, bytes.as_mut_slice());
    let name = match string_from_utf8(bytes) {
        Ok(name) => name,
        Err(error) => {
            return Parsed::Bad(Error::InvalidFileName { error });
        },
    };
    Parsed::Found(Some(FileHeader3 { name, size, key: file_key, offset }), expected_size)
}

/// Parse the header of an archive of the third format from the start of
/// `data`. Finds the archive key.
pub fn parse_header3(data: &[u8]) -> (parsed: Parsed<u32>)
    ensures
        match parsed {
            Parsed::Short(missing) => scan_header3(data@) == Scan::<u32>::Short {
                missing: missing as nat,
            },
            Parsed::Bad(error) => scan_header3(data@) == Scan::<u32>::Bad { fault: error@ },
            Parsed::Found(key, len) => scan_header3(data@) == Scan::<u32>::Found {
                value: key,
                len: len as nat,
            },
        },
{
    let data_len = data.len();
    if data_len < HEADER_LEN3 {
        return Parsed::Short(HEADER_LEN3 - data_len);
    }
    if !starts_with_magic(data) {
        let magic: [u8; 7] = [data[0], data[1], data[2], data[3], data[4], data[5], data[6]];
        assert(magic@ =~= data@.subrange(0, MAGIC_LEN as int));
        return Parsed::Bad(Error::InvalidMagic { magic });
    }
    let version = data[MAGIC_LEN];
    if version != VERSION3 {
        return Parsed::Bad(Error::InvalidVersion { version });
    }
    let seed = get_u32(data, HEADER_LEN);
    Parsed::Found(seed.wrapping_mul(9).wrapping_add(3), HEADER_LEN3)
}

/// Parse the header of an archive from the start of `data`, for a reader that
/// expects `version`.
pub fn parse_header(version: u8, data: &[u8]) -> (parsed: Parsed<()>)
    ensures
        match parsed {
            Parsed::Short(missing) => scan_header(version, data@) == Scan::<()>::Short {
                missing: missing as nat,
            },
            Parsed::Bad(error) => scan_header(version, data@) == Scan::<()>::Bad { fault: error@ },
            Parsed::Found(_, len) => scan_header(version, data@) == Scan::<()>::Found {
                value: (),
                len: len as nat,
            },
        },
{
    let data_len = data.len();
    if data_len < HEADER_LEN {
        return Parsed::Short(HEADER_LEN - data_len);
    }
    if !starts_with_magic(data) {
        let magic: [u8; 7] = [data[0], data[1], data[2], data[3], data[4], data[5], data[6]];
        assert(magic@ =~= data@.subrange(0, MAGIC_LEN as int));
        return Parsed::Bad(Error::InvalidMagic { magic });
    }
    let version_found = data[MAGIC_LEN];
    if version_found != version {
        return Parsed::Bad(Error::InvalidVersion { version: version_found });
    }
    Parsed::Found((), HEADER_LEN)
}

} // verus!
