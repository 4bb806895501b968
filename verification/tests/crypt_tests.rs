use stella_stage::crypt::{decrypt_data, decrypt_first_kb, encrypt_data, get_aes_key, get_iv, CryptError};

#[test]
fn encrypted_data_decrypts_back_fast() {
    let data: Vec<u8> = (0..5000u32).map(|i| (i * 7 % 251) as u8).collect();
    let encrypted = encrypt_data(&data, false).ok().expect("encryption works");
    assert_eq!(encrypted.len() % 16, 0);
    let decrypted = decrypt_data(encrypted).ok().expect("decryption works");
    assert_eq!(decrypted, data);
}

#[test]
fn encrypted_data_decrypts_back_small() {
    let data = b"<root><a name=\"x\"/></root>".repeat(40);
    let encrypted = encrypt_data(&data, true).ok().expect("encryption works");
    let decrypted = decrypt_data(encrypted).ok().expect("decryption works");
    assert_eq!(decrypted, data);
}

#[test]
fn empty_data_decrypts_back() {
    let encrypted = encrypt_data(&[], false).ok().expect("encryption works");
    let decrypted = decrypt_data(encrypted).ok().expect("decryption works");
    assert!(decrypted.is_empty());
}

#[test]
fn decrypt_rejects_size_not_multiple_of_16() {
    match decrypt_data(vec![0u8; 0x31]) {
        Err(CryptError::FileSizeError(m)) => assert_eq!(m, "File size is not a multiple of 16!"),
        _ => panic!("expected a size error"),
    }
}

#[test]
fn decrypt_rejects_too_small() {
    match decrypt_data(vec![0u8; 0x20]) {
        Err(CryptError::FileSizeError(m)) => assert_eq!(m, "File to decrypt is too small!"),
        _ => panic!("expected a size error"),
    }
}

#[test]
fn decrypt_detects_corruption() {
    let data: Vec<u8> = (0..3000u32).map(|i| (i % 13) as u8).collect();
    let mut encrypted = encrypt_data(&data, false).ok().expect("encryption works");
    let last = encrypted.len() - 1;
    encrypted[last] ^= 0x55;
    match decrypt_data(encrypted) {
        Err(CryptError::ChecksumMismatch { stored_crc, computed_crc }) => assert_ne!(stored_crc, computed_crc),
        _ => panic!("expected a checksum mismatch"),
    }
}

#[test]
fn first_kb_obfuscation_is_its_own_inverse() {
    let original: Vec<u8> = (0..1500u32).map(|i| (i * 31 % 256) as u8).collect();
    let mut buffer = original.clone();
    assert!(decrypt_first_kb(&mut buffer, 1024, 0x1234_5678_9abc_def0).is_ok());
    assert_ne!(buffer, original);
    assert_eq!(&buffer[1024..], &original[1024..]);
    assert!(decrypt_first_kb(&mut buffer, 1024, 0x1234_5678_9abc_def0).is_ok());
    assert_eq!(buffer, original);
}

#[test]
fn keys_depend_on_the_seed() {
    assert_eq!(get_aes_key(5), get_aes_key(5));
    assert_ne!(get_aes_key(5), get_aes_key(6));
    assert_eq!(get_iv(9), get_iv(9));
    assert_ne!(get_iv(9), get_iv(10));
}

#[test]
fn file_size_error_keeps_its_message() {
    match CryptError::file_size_error("some message") {
        CryptError::FileSizeError(m) => assert_eq!(m, "some message"),
        _ => panic!("expected a size error"),
    }
}

#[test]
fn first_kb_length_must_be_multiple_of_4() {
    let mut buffer = vec![1u8; 10];
    match decrypt_first_kb(&mut buffer, 6, 1) {
        Err(CryptError::FileSizeError(m)) => assert_eq!(m, "File size is not a multiple of 4!"),
        _ => panic!("expected a size error"),
    }
    assert_eq!(buffer, vec![1u8; 10]);
}
