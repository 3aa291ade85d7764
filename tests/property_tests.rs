//! Tests of the cipher's general properties on concrete values.

use rc4_rs::RC4;

fn encrypt(key: &[u8], data: &[u8]) -> Vec<u8> {
    let mut rc4 = RC4::new(key);
    let mut out = data.to_vec();
    rc4.xor_keystream_with(&mut out);
    out
}

#[test]
fn decrypt_with_fresh_cipher_recovers_plaintext() {
    let plaintext = b"Attack at dawn, or maybe a little later".to_vec();
    let ciphertext = encrypt(b"Secret", &plaintext);
    assert_ne!(ciphertext, plaintext);
    assert_eq!(encrypt(b"Secret", &ciphertext), plaintext);
}

#[test]
fn output_length_equals_input_length() {
    for len in [0usize, 1, 255, 256, 257, 1000] {
        let data = vec![0x5Au8; len];
        assert_eq!(encrypt(b"Key", &data).len(), len);
    }
}

#[test]
fn chunked_application_matches_single_call() {
    let data: Vec<u8> = (0..600u32).map(|x| (x * 7 % 251) as u8).collect();
    let whole = encrypt(b"Wiki", &data);

    let mut rc4 = RC4::new(b"Wiki");
    let mut out = Vec::new();
    let mut start = 0usize;
    for size in [0usize, 1, 3, 256, 0, 100, 240] {
        let mut chunk = data[start..start + size].to_vec();
        rc4.xor_keystream_with(&mut chunk);
        out.extend_from_slice(&chunk);
        start += size;
    }
    assert_eq!(start, data.len());
    assert_eq!(out, whole);
}

#[test]
fn empty_input_leaves_keystream_position() {
    let mut rc4 = RC4::new(b"Key");
    let mut empty: Vec<u8> = Vec::new();
    rc4.xor_keystream_with(&mut empty);
    assert!(empty.is_empty());

    let mut data = Vec::from("Plaintext");
    rc4.xor_keystream_with(&mut data);
    assert_eq!(data.as_slice(), [0xBB, 0xF3, 0x16, 0xE8, 0xD9, 0x40, 0xAF, 0x0A, 0xD3]);
}

#[test]
fn long_key_uses_only_first_256_bytes() {
    let long_key: Vec<u8> = (0..300u32).map(|x| (x * 13 + 1) as u8).collect();
    let mut other_tail = long_key.clone();
    for b in other_tail[256..].iter_mut() {
        *b = b.wrapping_add(99);
    }
    let data = vec![0u8; 64];
    let expected = encrypt(&long_key[..256], &data);
    assert_eq!(encrypt(&long_key, &data), expected);
    assert_eq!(encrypt(&other_tail, &data), expected);
}

#[test]
fn short_key_is_read_cyclically() {
    let key = b"Key";
    let cycled: Vec<u8> = (0..256usize).map(|x| key[x % key.len()]).collect();
    let data = Vec::from("Plaintext");
    assert_eq!(encrypt(key, &data), encrypt(&cycled, &data));
    assert_eq!(
        encrypt(&cycled, &data),
        [0xBB, 0xF3, 0x16, 0xE8, 0xD9, 0x40, 0xAF, 0x0A, 0xD3]
    );
}
