use aes::cipher::generic_array::GenericArray;
use aes::cipher::{BlockEncrypt, KeyInit};
use aes::Aes128;
use bbtsdecrypt::crypto::{
    ctr_inc, decode_hex_16, decrypt_es_sparse_with_emulation_removal, hex_nibble, parse_key_spec,
    AesBlockEncryptor, HexKeyError, KeySpecError,
};

fn reference_aes(key: &[u8; 16], block: &[u8; 16]) -> [u8; 16] {
    let cipher = Aes128::new(GenericArray::from_slice(key));
    let mut b = GenericArray::clone_from_slice(block);
    cipher.encrypt_block(&mut b);
    let mut out = [0u8; 16];
    out.copy_from_slice(&b);
    out
}

fn counter_after(iv: &[u8; 16], n: usize) -> [u8; 16] {
    let mut c = *iv;
    for _ in 0..n {
        ctr_inc(&mut c);
    }
    c
}

#[test]
fn hex_nibble_values() {
    assert_eq!(hex_nibble(b'0'), Some(0));
    assert_eq!(hex_nibble(b'9'), Some(9));
    assert_eq!(hex_nibble(b'a'), Some(10));
    assert_eq!(hex_nibble(b'F'), Some(15));
    assert_eq!(hex_nibble(b'g'), None);
    assert_eq!(hex_nibble(b' '), None);
}

#[test]
fn decode_hex_16_accepts_exactly_32_hex_digits() {
    let key = decode_hex_16(b"000102030405060708090a0b0c0d0E0F").unwrap();
    assert_eq!(key, [0, 1, 2, 3, 4, 5, 6, 7, 8, 9, 10, 11, 12, 13, 14, 15]);
    assert_eq!(decode_hex_16(b"000102030405060708090a0b0c0d0e0"), None);
    assert_eq!(decode_hex_16(b"000102030405060708090a0b0c0d0e0fa"), None);
    assert_eq!(decode_hex_16(b"000102030405060708090a0b0c0d0e0g"), None);
}

#[test]
fn parse_key_spec_returns_the_aes_key() {
    let key = parse_key_spec("31379f0d5fcd5234862efd8aa9a4e95f:e81836fb4d37ddbc30ae4b80a3573146").unwrap();
    assert_eq!(
        key,
        [
            0xe8, 0x18, 0x36, 0xfb, 0x4d, 0x37, 0xdd, 0xbc, 0x30, 0xae, 0x4b, 0x80, 0xa3, 0x57, 0x31,
            0x46
        ]
    );
}

#[test]
fn parse_key_spec_trims_whitespace() {
    let key = parse_key_spec("  31379f0d5fcd5234862efd8aa9a4e95f: e81836fb4d37ddbc30ae4b80a3573146 \n")
        .unwrap();
    assert_eq!(key[0], 0xe8);
    assert_eq!(key[15], 0x46);
}

#[test]
fn parse_key_spec_error_variants() {
    assert_eq!(
        parse_key_spec("31379f0d5fcd5234862efd8aa9a4e95fe81836fb4d37ddbc30ae4b80a3573146"),
        Err(KeySpecError::Format)
    );
    assert_eq!(
        parse_key_spec("31379f0d5fcd5234862efd8aa9a4e95f:e81836fb4d37ddbc:30ae4b80a3573146"),
        Err(KeySpecError::Format)
    );
    assert_eq!(
        parse_key_spec("31379f0d5fcd5234862efd8aa9a4e95:e81836fb4d37ddbc30ae4b80a3573146"),
        Err(KeySpecError::Kid(HexKeyError::WrongLength))
    );
    assert_eq!(
        parse_key_spec("31379f0d5fcd5234862efd8aa9a4e9zz:e81836fb4d37ddbc30ae4b80a3573146"),
        Err(KeySpecError::Kid(HexKeyError::NotHex))
    );
    assert_eq!(
        parse_key_spec("31379f0d5fcd5234862efd8aa9a4e95f:e81836fb4d37ddbc30ae4b80a35731"),
        Err(KeySpecError::Key(HexKeyError::WrongLength))
    );
    assert_eq!(
        parse_key_spec("31379f0d5fcd5234862efd8aa9a4e95f:e81836fb4d37ddbc30ae4b80a35731xx"),
        Err(KeySpecError::Key(HexKeyError::NotHex))
    );
}

#[test]
fn ctr_inc_is_a_big_endian_increment() {
    let mut c = [0u8; 16];
    ctr_inc(&mut c);
    assert_eq!(c[15], 1);
    assert_eq!(&c[..15], &[0u8; 15]);

    let mut c = [0u8; 16];
    c[14] = 0x12;
    c[15] = 0xff;
    ctr_inc(&mut c);
    assert_eq!(c[14], 0x13);
    assert_eq!(c[15], 0x00);

    let mut c = [0xffu8; 16];
    ctr_inc(&mut c);
    assert_eq!(c, [0u8; 16]);
}

#[test]
fn ctr_inc_matches_u128_addition() {
    let start: u128 = 0x0123_4567_89ab_cdef_0011_2233_4455_66ff;
    let mut c = start.to_be_bytes();
    for k in 1..=300u128 {
        ctr_inc(&mut c);
        assert_eq!(u128::from_be_bytes(c), start.wrapping_add(k));
    }
}

#[test]
fn aes_block_matches_fips_197_vector() {
    let key: [u8; 16] = [0, 1, 2, 3, 4, 5, 6, 7, 8, 9, 10, 11, 12, 13, 14, 15];
    let plain: [u8; 16] = [
        0x00, 0x11, 0x22, 0x33, 0x44, 0x55, 0x66, 0x77, 0x88, 0x99, 0xaa, 0xbb, 0xcc, 0xdd, 0xee, 0xff,
    ];
    let enc = AesBlockEncryptor::new(&key);
    assert_eq!(
        enc.encrypt_block(&plain),
        [
            0x69, 0xc4, 0xe0, 0xd8, 0x6a, 0x7b, 0x04, 0x30, 0xd8, 0xcd, 0xb7, 0x80, 0x70, 0xb4, 0xc5,
            0x5a
        ]
    );
}

#[test]
fn sparse_decryption_uses_aes_on_every_tenth_and_last_block() {
    let key = [7u8; 16];
    let iv = [0x10u8; 16];
    let enc = AesBlockEncryptor::new(&key);
    let es = vec![0u8; 48];
    let out = decrypt_es_sparse_with_emulation_removal(&es, &enc, &iv);
    assert_eq!(out.len(), 48);
    // block 0: encrypted counter, block 1: plain counter, block 2 (last): encrypted counter
    assert_eq!(&out[0..16], &reference_aes(&key, &counter_after(&iv, 1)));
    assert_eq!(&out[16..32], &counter_after(&iv, 2));
    assert_eq!(&out[32..48], &reference_aes(&key, &counter_after(&iv, 3)));
}

#[test]
fn sparse_decryption_of_a_short_sample() {
    let key = [1u8; 16];
    let iv = [0u8; 16];
    let enc = AesBlockEncryptor::new(&key);
    let es = vec![0xaau8; 5];
    let out = decrypt_es_sparse_with_emulation_removal(&es, &enc, &iv);
    let ks = reference_aes(&key, &counter_after(&iv, 1));
    let expected: Vec<u8> = (0..5).map(|i| 0xaa ^ ks[i]).collect();
    assert_eq!(out, expected);
}

#[test]
fn sparse_decryption_removes_emulation_prevention_and_keeps_length() {
    let key = [3u8; 16];
    let iv = [9u8; 16];
    let enc = AesBlockEncryptor::new(&key);
    let es = vec![0x00, 0x00, 0x03, 0x01, 0x55, 0x66];
    let out = decrypt_es_sparse_with_emulation_removal(&es, &enc, &iv);
    assert_eq!(out.len(), es.len());
    let ks = reference_aes(&key, &counter_after(&iv, 1));
    let stripped = [0x00u8, 0x00, 0x01, 0x55, 0x66];
    for i in 0..5 {
        assert_eq!(out[i], stripped[i] ^ ks[i]);
    }
    assert_eq!(out[5], 0x66);
}

#[test]
fn sparse_decryption_applied_twice_gives_the_data_back() {
    let key = [0x2bu8; 16];
    let iv = [0x5au8; 16];
    let enc = AesBlockEncryptor::new(&key);
    let data: Vec<u8> = (0..200u32).map(|i| (i * 7 + 1) as u8 | 0x20).collect();
    let once = decrypt_es_sparse_with_emulation_removal(&data, &enc, &iv);
    assert_ne!(once, data);
    let twice = decrypt_es_sparse_with_emulation_removal(&once, &enc, &iv);
    assert_eq!(twice, data);
}
