use rssh::codec::{my_crypto, open_sealed, seal};
use rssh::errs::ErrKind;

#[test]
fn seal_open_round_trip_bytes() {
    let payload: Vec<u8> = vec![0, 1, 2, 250, 255, 13, 10, 0, 128];
    let sealed = seal(payload.as_slice());
    let opened = open_sealed(sealed.as_str()).unwrap();
    assert_eq!(opened, payload);
}

#[test]
fn seal_open_round_trip_empty() {
    let payload: Vec<u8> = vec![];
    let sealed = seal(payload.as_slice());
    let opened = open_sealed(sealed.as_str()).unwrap();
    assert_eq!(opened, payload);
}

#[test]
fn seal_open_round_trip_non_utf8() {
    let payload: Vec<u8> = vec![0xff, 0xfe, 0xc0, 0x80, 0xed, 0xa0, 0x80];
    let sealed = seal(payload.as_slice());
    let opened = open_sealed(sealed.as_str()).unwrap();
    assert_eq!(opened, payload);
}

#[test]
fn seal_is_deterministic() {
    let payload: Vec<u8> = b"same plaintext".to_vec();
    let first = seal(payload.as_slice());
    let second = seal(payload.as_slice());
    assert_eq!(first, second);
}

#[test]
fn seal_actually_transforms() {
    // Seven bytes pad to one cipher block: 16 bytes, 24 base64 characters.
    // An identity codec would hand the seven characters back.
    let sealed = seal(b"payload");
    assert_eq!(sealed.len(), 24);
    assert_ne!(sealed, "payload");
}

#[test]
fn ciphertext_length_is_one_block_per_started_block() {
    // Padding always adds one to sixteen bytes: a whole extra block on a
    // block boundary, and nothing at all only for the empty payload.
    assert_eq!(base64::decode(seal(&[])).unwrap().len(), 0);
    assert_eq!(base64::decode(seal(&[7u8; 1])).unwrap().len(), 16);
    assert_eq!(base64::decode(seal(&[7u8; 15])).unwrap().len(), 16);
    assert_eq!(base64::decode(seal(&[7u8; 16])).unwrap().len(), 32);
    assert_eq!(base64::decode(seal(&[7u8; 17])).unwrap().len(), 32);
    assert_eq!(base64::decode(seal(&[7u8; 32])).unwrap().len(), 48);
}

#[test]
fn seal_open_round_trip_block_boundaries() {
    for n in [0usize, 1, 15, 16, 17, 31, 32, 33] {
        let payload = vec![0x5au8; n];
        let opened = open_sealed(seal(payload.as_slice()).as_str()).unwrap();
        assert_eq!(opened, payload);
    }
}

#[test]
fn open_rejects_truncated_ciphertext_block() {
    // Sixteen 0x20 bytes seal into two blocks; keeping only the first
    // yields text whose decryption ends in sixteen bytes of value 32 — a
    // pad byte larger than a block.  Opening must classify this as a
    // padding failure, not crash.
    let sealed = seal(&[0x20u8; 16]);
    let cipher = base64::decode(sealed).unwrap();
    assert_eq!(cipher.len(), 32);
    let crafted = base64::encode(&cipher[..16]);
    let err = open_sealed(crafted.as_str()).unwrap_err();
    assert_eq!(err.kind, ErrKind::CryptoError);
}

#[test]
fn my_crypto_crypto_error_on_bad_block_length() {
    // Valid base64 of three bytes: no whole cipher block.
    let err = my_crypto("AAAA", false).unwrap_err();
    assert_eq!(err.kind, ErrKind::CryptoError);
}

#[test]
fn open_rejects_invalid_encoding() {
    let err = open_sealed("!!! not base64 !!!").unwrap_err();
    assert_eq!(err.kind, ErrKind::DecodeError);
}

#[test]
fn open_rejects_bad_cipher_length() {
    // "AAAA" is valid base64 for three bytes, which is no whole AES block.
    let err = open_sealed("AAAA").unwrap_err();
    assert_eq!(err.kind, ErrKind::CryptoError);
}

#[test]
fn my_crypto_round_trip_text() {
    let sealed = my_crypto("hello vault", true).unwrap();
    let opened = my_crypto(sealed.as_str(), false).unwrap();
    assert_eq!(opened, "hello vault");
}

#[test]
fn my_crypto_decode_error() {
    let err = my_crypto("%%%", false).unwrap_err();
    assert_eq!(err.kind, ErrKind::DecodeError);
}
