use aes::cipher::block_padding::{NoPadding, Pkcs7};
use aes::cipher::{BlockEncryptMut, KeyIvInit};
use leaderboard::cipher::{decrypt, pkcs7_unpad, DecryptFailure};

fn test_key() -> Vec<u8> {
    (0u8..32).map(|i| i.wrapping_mul(7).wrapping_add(3)).collect()
}

fn test_iv() -> Vec<u8> {
    (0u8..16).collect()
}

fn encrypt(key: &[u8], iv: &[u8], plain: &[u8]) -> Vec<u8> {
    let ct = cbc::Encryptor::<aes::Aes256>::new(key.into(), iv.into())
        .encrypt_padded_vec_mut::<Pkcs7>(plain);
    let mut payload = iv.to_vec();
    payload.extend_from_slice(&ct);
    payload
}

fn encrypt_raw(key: &[u8], iv: &[u8], blocks: &[u8]) -> Vec<u8> {
    let ct = cbc::Encryptor::<aes::Aes256>::new(key.into(), iv.into())
        .encrypt_padded_vec_mut::<NoPadding>(blocks);
    let mut payload = iv.to_vec();
    payload.extend_from_slice(&ct);
    payload
}

#[test]
fn round_trip_record() {
    let key = test_key();
    let plain = br#"{"player":"Ada","time":4200}"#;
    let payload = encrypt(&key, &test_iv(), plain);
    assert_ne!(&payload[16..], &plain[..]);
    let out = decrypt(&key, &payload).unwrap();
    assert_eq!(out, plain.to_vec());
    let v: serde_json::Value = serde_json::from_slice(&out).unwrap();
    assert_eq!(v["player"].as_str(), Some("Ada"));
    assert_eq!(v["time"].as_i64(), Some(4200));
}

#[test]
fn round_trip_every_length_up_to_three_blocks() {
    let key = test_key();
    for n in 0..48usize {
        let plain: Vec<u8> = (0..n).map(|i| (i * 31 % 251) as u8).collect();
        let payload = encrypt(&key, &test_iv(), &plain);
        assert_eq!(decrypt(&key, &payload), Ok(plain));
    }
}

#[test]
fn full_padding_block_gives_empty_plaintext() {
    let key = test_key();
    let payload = encrypt(&key, &test_iv(), b"");
    assert_eq!(payload.len(), 32);
    assert_eq!(decrypt(&key, &payload), Ok(Vec::new()));
}

#[test]
fn short_payloads_fail() {
    let key = test_key();
    for n in 0..16usize {
        let payload = vec![0xABu8; n];
        assert_eq!(decrypt(&key, &payload), Err(DecryptFailure));
    }
}

#[test]
fn iv_alone_fails() {
    let key = test_key();
    assert_eq!(decrypt(&key, &test_iv()), Err(DecryptFailure));
}

#[test]
fn partial_block_ciphertext_fails() {
    let key = test_key();
    let good = encrypt(&key, &test_iv(), b"some plaintext that spans two blocks");
    for cut in 1..16usize {
        assert_eq!(decrypt(&key, &good[..good.len() - cut]), Err(DecryptFailure));
    }
    let mut longer = good.clone();
    longer.push(0);
    assert_eq!(decrypt(&key, &longer), Err(DecryptFailure));
}

#[test]
fn bad_padding_fails() {
    let key = test_key();
    // Last byte 5, but only the last byte holds 5.
    let mut block = [0x41u8; 16];
    block[15] = 5;
    assert_eq!(decrypt(&key, &encrypt_raw(&key, &test_iv(), &block)), Err(DecryptFailure));
    // Last byte 0.
    block[15] = 0;
    assert_eq!(decrypt(&key, &encrypt_raw(&key, &test_iv(), &block)), Err(DecryptFailure));
    // Last byte above the block size.
    block[15] = 17;
    assert_eq!(decrypt(&key, &encrypt_raw(&key, &test_iv(), &block)), Err(DecryptFailure));
    // Exact padding of 3 passes.
    block[13] = 3;
    block[14] = 3;
    block[15] = 3;
    assert_eq!(decrypt(&key, &encrypt_raw(&key, &test_iv(), &block)), Ok(vec![0x41u8; 13]));
}

#[test]
fn wrong_key_does_not_give_the_plaintext() {
    let key = test_key();
    let plain = b"{\"player\":\"Ada\",\"time\":4200}".to_vec();
    let payload = encrypt(&key, &test_iv(), &plain);
    let mut other = key.clone();
    other[0] ^= 1;
    assert_ne!(decrypt(&other, &payload), Ok(plain));
}

#[test]
fn unpad_exact() {
    assert_eq!(pkcs7_unpad(vec![9, 9, 2, 2]), Ok(vec![9, 9]));
    assert_eq!(pkcs7_unpad(vec![1]), Ok(vec![]));
    assert_eq!(pkcs7_unpad(vec![16; 16]), Ok(vec![]));
}

#[test]
fn unpad_rejects() {
    assert_eq!(pkcs7_unpad(vec![]), Err(DecryptFailure));
    assert_eq!(pkcs7_unpad(vec![7, 7, 0]), Err(DecryptFailure));
    assert_eq!(pkcs7_unpad(vec![9, 1, 2, 2, 3]), Err(DecryptFailure));
    assert_eq!(pkcs7_unpad(vec![2]), Err(DecryptFailure));
    assert_eq!(pkcs7_unpad(vec![17; 17]), Err(DecryptFailure));
}
