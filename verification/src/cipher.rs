//! The rotating-key XOR cipher.
//!
//! Every transformation is an XOR with bytes derived from a 32-bit key, so
//! encrypting and decrypting are the same operation. The functions differ in
//! how the key moves while bytes pass through:
//!
//! * a 32-bit field is masked with the whole key, which then rotates once;
//! * a name of the first format is masked byte by byte with the low byte of
//!   the key, which rotates after every byte;
//! * file data is masked with the four bytes of the key in turn, and the key
//!   rotates each time the fourth byte has been used;
//! * a name of the third format is masked with the four bytes of a key that
//!   never rotates.

use vstd::prelude::*;

verus! {

/// The key that follows `key` in the rotation: `key * 7 + 3`, wrapping at 32
/// bits.
pub open spec fn advance(key: u32) -> u32 {
    ((key as int * 7 + 3) % 0x1_0000_0000) as u32
}

/// The key after `n` rotations.
pub open spec fn advance_by(key: u32, n: nat) -> u32
    decreases n,
{
    if n == 0 {
        key
    } else {
        advance(advance_by(key, (n - 1) as nat))
    }
}

/// The archive key of the third format that belongs to the seed stored in its
/// header: `seed * 9 + 3`, wrapping at 32 bits.
pub open spec fn derive_key(seed: u32) -> u32 {
    ((seed as int * 9 + 3) % 0x1_0000_0000) as u32
}

/// The seed that the third format stores for an archive key: `(key - 3) / 9`,
/// the subtraction wrapping at 32 bits.
pub open spec fn derive_seed(key: u32) -> u32 {
    ((((key as int - 3) % 0x1_0000_0000) as u32) / 9) as u32
}

/// Byte `index` of the little-endian representation of `key`.
pub open spec fn key_byte(key: u32, index: int) -> u8 {
    if index == 0 {
        (key & 0xff) as u8
    } else if index == 1 {
        ((key >> 8) & 0xff) as u8
    } else if index == 2 {
        ((key >> 16) & 0xff) as u8
    } else {
        ((key >> 24) & 0xff) as u8
    }
}

/// A name of the first format under the cipher: byte `i` is masked with the
/// low byte of the key after `i` rotations.
pub open spec fn crypt_name(key: u32, bytes: Seq<u8>) -> Seq<u8> {
    Seq::new(bytes.len(), |i: int| bytes[i] ^ key_byte(advance_by(key, i as nat), 0))
}

/// File data under the cipher, started with `counter` bytes of `key` already
/// used: byte `i` is masked with byte `(counter + i) % 4` of the key after
/// `(counter + i) / 4` rotations.
pub open spec fn crypt_data(key: u32, counter: int, bytes: Seq<u8>) -> Seq<u8> {
    Seq::new(
        bytes.len(),
        |i: int| bytes[i] ^ key_byte(advance_by(key, ((counter + i) / 4) as nat), (counter + i) % 4),
    )
}

/// The key that file data leaves behind after `len` bytes.
pub open spec fn data_key_after(key: u32, counter: int, len: int) -> u32 {
    advance_by(key, ((counter + len) / 4) as nat)
}

/// The counter that file data leaves behind after `len` bytes.
pub open spec fn data_counter_after(counter: int, len: int) -> int {
    (counter + len) % 4
}

/// A name of the third format under the cipher: byte `i` is masked with byte
/// `i % 4` of the key.
pub open spec fn crypt_name3(key: u32, bytes: Seq<u8>) -> Seq<u8> {
    Seq::new(bytes.len(), |i: int| bytes[i] ^ key_byte(key, i % 4))
}

/// Rotating `a` times and then `b` times is rotating `a + b` times.
pub proof fn lemma_advance_by_add(key: u32, a: nat, b: nat)
    ensures
        advance_by(advance_by(key, a), b) == advance_by(key, a + b),
    decreases b,
{
    if b > 0 {
        lemma_advance_by_add(key, a, (b - 1) as nat);
    }
}

/// Masking a byte twice with the same mask gives the byte back.
pub proof fn lemma_xor_twice(byte: u8, mask: u8)
    ensures
        (byte ^ mask) ^ mask == byte,
{
    assert((byte ^ mask) ^ mask == byte) by (bit_vector);
}

/// A name of the first format deciphers to what was enciphered: applying the
/// cipher twice with the same key is the identity.
pub proof fn lemma_crypt_name_involution(key: u32, bytes: Seq<u8>)
    ensures
        crypt_name(key, crypt_name(key, bytes)) == bytes,
{
    assert forall|i: int| 0 <= i < bytes.len() implies crypt_name(key, crypt_name(key, bytes))[i]
        == bytes[i] by {
        lemma_xor_twice(bytes[i], key_byte(advance_by(key, i as nat), 0));
    }
    assert(crypt_name(key, crypt_name(key, bytes)) =~= bytes);
}

/// A name of the third format deciphers to what was enciphered.
pub proof fn lemma_crypt_name3_involution(key: u32, bytes: Seq<u8>)
    ensures
        crypt_name3(key, crypt_name3(key, bytes)) == bytes,
{
    assert forall|i: int| 0 <= i < bytes.len() implies crypt_name3(key, crypt_name3(key, bytes))[i]
        == bytes[i] by {
        lemma_xor_twice(bytes[i], key_byte(key, i % 4));
    }
    assert(crypt_name3(key, crypt_name3(key, bytes)) =~= bytes);
}

/// File data deciphers to what was enciphered, from any starting counter.
pub proof fn lemma_crypt_data_involution(key: u32, counter: int, bytes: Seq<u8>)
    ensures
        crypt_data(key, counter, crypt_data(key, counter, bytes)) == bytes,
{
    assert forall|i: int| 0 <= i < bytes.len() implies crypt_data(
        key,
        counter,
        crypt_data(key, counter, bytes),
    )[i] == bytes[i] by {
        lemma_xor_twice(
            bytes[i],
            key_byte(advance_by(key, ((counter + i) / 4) as nat), (counter + i) % 4),
        );
    }
    assert(crypt_data(key, counter, crypt_data(key, counter, bytes)) =~= bytes);
}

/// The cipher on a name does not depend on how the name is cut into calls:
/// ciphering `head + tail` at once gives what ciphering `head` and then, with
/// the key that `head` left behind, `tail` gives.
pub proof fn lemma_crypt_name_chunks(key: u32, head: Seq<u8>, tail: Seq<u8>)
    ensures
        crypt_name(key, head + tail) == crypt_name(key, head) + crypt_name(
            advance_by(key, head.len()),
            tail,
        ),
        advance_by(key, (head + tail).len()) == advance_by(
            advance_by(key, head.len()),
            tail.len(),
        ),
{
    let whole = crypt_name(key, head + tail);
    let parts = crypt_name(key, head) + crypt_name(advance_by(key, head.len()), tail);
    assert forall|i: int| 0 <= i < whole.len() implies whole[i] == parts[i] by {
        if i >= head.len() {
            lemma_advance_by_add(key, head.len(), (i - head.len()) as nat);
        }
    }
    assert(whole =~= parts);
    lemma_advance_by_add(key, head.len(), tail.len());
}

/// The cipher on file data does not depend on how the data is cut into calls:
/// ciphering `head + tail` at once gives the bytes, the key and the counter
/// that ciphering `head` and then, from the key and counter that `head` left
/// behind, `tail` gives.
pub proof fn lemma_crypt_data_chunks(key: u32, counter: int, head: Seq<u8>, tail: Seq<u8>)
    requires
        0 <= counter < 4,
    ensures
        crypt_data(key, counter, head + tail) == crypt_data(key, counter, head) + crypt_data(
            data_key_after(key, counter, head.len() as int),
            data_counter_after(counter, head.len() as int),
            tail,
        ),
        data_key_after(key, counter, (head + tail).len() as int) == data_key_after(
            data_key_after(key, counter, head.len() as int),
            data_counter_after(counter, head.len() as int),
            tail.len() as int,
        ),
        data_counter_after(counter, (head + tail).len() as int) == data_counter_after(
            data_counter_after(counter, head.len() as int),
            tail.len() as int,
        ),
{
    let mid_key = data_key_after(key, counter, head.len() as int);
    let mid_counter = data_counter_after(counter, head.len() as int);
    let whole = crypt_data(key, counter, head + tail);
    let parts = crypt_data(key, counter, head) + crypt_data(mid_key, mid_counter, tail);
    assert forall|i: int| 0 <= i < whole.len() implies whole[i] == parts[i] by {
        if i >= head.len() {
            let j = i - head.len();
            lemma_data_position_split(key, counter, head.len() as int, j);
        }
    }
    assert(whole =~= parts);
    lemma_data_position_split(key, counter, head.len() as int, tail.len() as int);
}

/// The key and the counter `first + second` bytes into file data are those
/// `second` bytes after the key and the counter `first` bytes into it.
pub proof fn lemma_data_position_split(key: u32, counter: int, first: int, second: int)
    requires
        0 <= counter < 4,
        0 <= first,
        0 <= second,
    ensures
        data_key_after(key, counter, first + second) == data_key_after(
            data_key_after(key, counter, first),
            data_counter_after(counter, first),
            second,
        ),
        data_counter_after(counter, first + second) == data_counter_after(
            data_counter_after(counter, first),
            second,
        ),
{
    let a = (counter + first) / 4;
    let r = (counter + first) % 4;
    let b = (r + second) / 4;
    assert((counter + first + second) / 4 == a + b);
    assert((counter + first + second) % 4 == (r + second) % 4);
    lemma_advance_by_add(key, a as nat, b as nat);
}

/// Copy `source` over `target`, which has the same length.
pub fn copy_bytes(target: &mut [u8], source: &[u8])
    requires
        old(target)@.len() == source@.len(),
    ensures
        final(target)@ == source@,
{
    let n = target.len();
    let mut i: usize = 0;
    while i < n
        invariant
            i <= n,
            n == target@.len(),
            n == source@.len(),
            forall|j: int| 0 <= j < i ==> target@[j] == source@[j],
        decreases n - i,
    {
        target[i] = source[i];
        i += 1;
    }
    assert(target@ =~= source@);
}

/// Rotate a key once.
pub fn advance_key(key: u32) -> (next: u32)
    ensures
        next == advance(key),
{
    key.wrapping_mul(7).wrapping_add(3)
}

/// Byte `index` of the little-endian representation of `key`.
pub fn key_byte_at(key: u32, index: u8) -> (byte: u8)
    requires
        index < 4,
    ensures
        byte == key_byte(key, index as int),
{
    if index == 0 {
        assert(key & 0xff <= 0xff) by (bit_vector);
        (key & 0xff) as u8
    } else if index == 1 {
        assert((key >> 8) & 0xff <= 0xff) by (bit_vector);
        ((key >> 8) & 0xff) as u8
    } else if index == 2 {
        assert((key >> 16) & 0xff <= 0xff) by (bit_vector);
        ((key >> 16) & 0xff) as u8
    } else {
        assert((key >> 24) & 0xff <= 0xff) by (bit_vector);
        ((key >> 24) & 0xff) as u8
    }
}

/// Encrypt or decrypt a `u32` and rotate the key.
pub fn crypt_u32(key: &mut u32, n: u32) -> (r: u32)
    ensures
        r == n ^ *old(key),
        *final(key) == advance(*old(key)),
{
    let r = n ^ *key;
    *key = advance_key(*key);
    r
}

/// Encrypt or decrypt a name of the first format in place, rotating the key
/// once per byte.
pub fn crypt_name_bytes(key: &mut u32, bytes: &mut [u8])
    ensures
        final(bytes)@ == crypt_name(*old(key), old(bytes)@),
        *final(key) == advance_by(*old(key), old(bytes)@.len()),
{
    let n = bytes.len();
    let mut i: usize = 0;
    while i < n
        invariant
            i <= n,
            n == bytes@.len(),
            bytes@.len() == old(bytes)@.len(),
            *key == advance_by(*old(key), i as nat),
            forall|j: int| 0 <= j < i ==> bytes@[j] == crypt_name(*old(key), old(bytes)@)[j],
            forall|j: int| i <= j < n ==> bytes@[j] == old(bytes)@[j],
        decreases n - i,
    {
        let mask = key_byte_at(*key, 0);
        bytes[i] = bytes[i] ^ mask;
        *key = advance_key(*key);
        i += 1;
    }
    assert(bytes@ =~= crypt_name(*old(key), old(bytes)@));
}

/// Encrypt or decrypt file data in place. `counter` says how many bytes of the
/// current key have been used; the key rotates whenever the counter wraps.
pub fn crypt_file_data(key: &mut u32, counter: &mut u8, bytes: &mut [u8])
    requires
        *old(counter) < 4,
    ensures
        final(bytes)@ == crypt_data(*old(key), *old(counter) as int, old(bytes)@),
        *final(key) == data_key_after(*old(key), *old(counter) as int, old(bytes)@.len() as int),
        *final(counter) == data_counter_after(*old(counter) as int, old(bytes)@.len() as int),
{
    let n = bytes.len();
    let mut i: usize = 0;
    while i < n
        invariant
            i <= n,
            n == bytes@.len(),
            bytes@.len() == old(bytes)@.len(),
            *old(counter) < 4,
            *counter == (*old(counter) + i) % 4,
            *key == advance_by(*old(key), ((*old(counter) + i) / 4) as nat),
            forall|j: int|
                0 <= j < i ==> bytes@[j] == crypt_data(
                    *old(key),
                    *old(counter) as int,
                    old(bytes)@,
                )[j],
            forall|j: int| i <= j < n ==> bytes@[j] == old(bytes)@[j],
        decreases n - i,
    {
        let mask = key_byte_at(*key, *counter);
        bytes[i] = bytes[i] ^ mask;
        if *counter == 3 {
            *key = advance_key(*key);
            *counter = 0;
        } else {
            *counter = *counter + 1;
        }
        i += 1;
    }
    assert(bytes@ =~= crypt_data(*old(key), *old(counter) as int, old(bytes)@));
}

/// Encrypt or decrypt a name of the third format in place.
pub fn crypt_name_bytes3(key: u32, bytes: &mut [u8])
    ensures
        final(bytes)@ == crypt_name3(key, old(bytes)@),
{
    let n = bytes.len();
    let mut i: usize = 0;
    while i < n
        invariant
            i <= n,
            n == bytes@.len(),
            bytes@.len() == old(bytes)@.len(),
            forall|j: int| 0 <= j < i ==> bytes@[j] == crypt_name3(key, old(bytes)@)[j],
            forall|j: int| i <= j < n ==> bytes@[j] == old(bytes)@[j],
        decreases n - i,
    {
        let mask = key_byte_at(key, (i % 4) as u8);
        bytes[i] = bytes[i] ^ mask;
        i += 1;
    }
    assert(bytes@ =~= crypt_name3(key, old(bytes)@));
}

} // verus!
