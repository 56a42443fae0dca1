use rgssad::cipher::{
    advance_key, copy_bytes, crypt_file_data, crypt_name_bytes, crypt_name_bytes3, crypt_u32,
    key_byte_at,
};

#[test]
fn advance_key_multiplies_by_seven_and_adds_three() {
    assert_eq!(advance_key(0), 3);
    assert_eq!(advance_key(1), 10);
    assert_eq!(advance_key(0xDEADCAFE), 0x16C08CF5);
    assert_eq!(advance_key(0x16C08CF5), 0x9F43DAB6);
    assert_eq!(advance_key(u32::MAX), 0xFFFFFFFC);
}

#[test]
fn key_byte_at_is_little_endian() {
    assert_eq!(key_byte_at(0x12345678, 0), 0x78);
    assert_eq!(key_byte_at(0x12345678, 1), 0x56);
    assert_eq!(key_byte_at(0x12345678, 2), 0x34);
    assert_eq!(key_byte_at(0x12345678, 3), 0x12);
}

#[test]
fn crypt_u32_masks_and_rotates() {
    let mut key = 0xDEADCAFE;
    let masked = crypt_u32(&mut key, 5);
    assert_eq!(masked, 0xDEADCAFB);
    assert_eq!(key, 0x16C08CF5);
    let mut key = 0xDEADCAFE;
    assert_eq!(crypt_u32(&mut key, masked), 5);
}

#[test]
fn crypt_name_bytes_rotates_per_byte() {
    let mut key = 0xDEADCAFE;
    let mut bytes = *b"ab";
    crypt_name_bytes(&mut key, &mut bytes);
    assert_eq!(bytes, [0x9F, 0x97]);
    assert_eq!(key, 0x9F43DAB6);
}

#[test]
fn crypt_name_bytes_on_nothing_keeps_the_key() {
    let mut key = 0xDEADCAFE;
    let mut bytes: [u8; 0] = [];
    crypt_name_bytes(&mut key, &mut bytes);
    assert_eq!(key, 0xDEADCAFE);
}

#[test]
fn crypt_name_bytes_undoes_itself() {
    let mut bytes = b"Graphics/Titles/title.png".to_vec();
    let mut key = 77;
    crypt_name_bytes(&mut key, &mut bytes);
    assert_ne!(bytes, b"Graphics/Titles/title.png".to_vec());
    let mut key = 77;
    crypt_name_bytes(&mut key, &mut bytes);
    assert_eq!(bytes, b"Graphics/Titles/title.png".to_vec());
}

#[test]
fn crypt_file_data_exact_bytes() {
    let mut key = 0x12345678;
    let mut counter = 0;
    let mut bytes = [1u8, 2, 3, 4, 5, 6, 7, 8, 9];
    crypt_file_data(&mut key, &mut counter, &mut bytes);
    assert_eq!(bytes, [0x79, 0x54, 0x37, 0x16, 0x4E, 0x5B, 0x69, 0x77, 0x19]);
    assert_eq!(key, 0x7C048D10);
    assert_eq!(counter, 1);
}

#[test]
fn crypt_file_data_starts_at_the_counter() {
    let mut key = 0x12345678;
    let mut counter = 2;
    let mut bytes = [0u8, 0, 0];
    crypt_file_data(&mut key, &mut counter, &mut bytes);
    assert_eq!(bytes, [0x34, 0x12, 0x4B]);
    assert_eq!(key, 0x7F6E5D4B);
    assert_eq!(counter, 1);
}

#[test]
fn crypt_file_data_does_not_depend_on_chunks() {
    let plain: Vec<u8> = (0..=255u8).collect();
    let mut whole = plain.clone();
    let mut whole_key = 0xCAFEBABE;
    let mut whole_counter = 0;
    crypt_file_data(&mut whole_key, &mut whole_counter, &mut whole);
    for cut in 0..=plain.len() {
        let mut pieces = plain.clone();
        let mut key = 0xCAFEBABE;
        let mut counter = 0;
        let (head, tail) = pieces.split_at_mut(cut);
        crypt_file_data(&mut key, &mut counter, head);
        crypt_file_data(&mut key, &mut counter, tail);
        assert_eq!(pieces, whole);
        assert_eq!(key, whole_key);
        assert_eq!(counter, whole_counter);
    }
    let mut single = plain.clone();
    let mut key = 0xCAFEBABE;
    let mut counter = 0;
    for byte in single.chunks_mut(1) {
        crypt_file_data(&mut key, &mut counter, byte);
    }
    assert_eq!(single, whole);
}

#[test]
fn crypt_file_data_undoes_itself() {
    let plain: Vec<u8> = (0..100u8).collect();
    let mut bytes = plain.clone();
    let (mut key, mut counter) = (0x694E, 3);
    crypt_file_data(&mut key, &mut counter, &mut bytes);
    assert_ne!(bytes, plain);
    let (mut key, mut counter) = (0x694E, 3);
    crypt_file_data(&mut key, &mut counter, &mut bytes);
    assert_eq!(bytes, plain);
}

#[test]
fn crypt_name_bytes3_cycles_over_the_key() {
    let mut bytes = *b"hello";
    crypt_name_bytes3(0x694E, &mut bytes);
    assert_eq!(bytes, [0x26, 0x0C, 0x6C, 0x6C, 0x21]);
    crypt_name_bytes3(0x694E, &mut bytes);
    assert_eq!(&bytes, b"hello");
}

#[test]
fn copy_bytes_copies() {
    let mut target = [0u8; 4];
    copy_bytes(&mut target, &[9, 8, 7, 6]);
    assert_eq!(target, [9, 8, 7, 6]);
}
