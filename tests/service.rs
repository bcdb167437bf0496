use aes::cipher::block_padding::Pkcs7;
use aes::cipher::{BlockEncryptMut, KeyIvInit};
use leaderboard::intake::{Intake, SubmitError};
use leaderboard::key::{parse_key, KeyError};
use leaderboard::store::{Leaderboard, Submission, DEFAULT_LIMIT};

const KEY_HEX: &str = "603deb1015ca71be2b73aef0857d77811f352c073b6108d72d9810a30914dff4";

fn key_bytes() -> Vec<u8> {
    vec![
        0x60, 0x3d, 0xeb, 0x10, 0x15, 0xca, 0x71, 0xbe, 0x2b, 0x73, 0xae, 0xf0, 0x85, 0x7d, 0x77,
        0x81, 0x1f, 0x35, 0x2c, 0x07, 0x3b, 0x61, 0x08, 0xd7, 0x2d, 0x98, 0x10, 0xa3, 0x09, 0x14,
        0xdf, 0xf4,
    ]
}

#[test]
fn parse_key_lower_and_upper_case() {
    assert_eq!(parse_key(KEY_HEX.as_bytes()), Ok(key_bytes()));
    assert_eq!(parse_key(KEY_HEX.to_uppercase().as_bytes()), Ok(key_bytes()));
}

#[test]
fn parse_key_rejects_non_hex() {
    assert_eq!(parse_key(b"abc"), Err(KeyError::NotHex));
    assert_eq!(parse_key(b"zz"), Err(KeyError::NotHex));
    let mut bad = KEY_HEX.to_string();
    bad.replace_range(10..11, "g");
    assert_eq!(parse_key(bad.as_bytes()), Err(KeyError::NotHex));
}

#[test]
fn parse_key_rejects_wrong_length() {
    assert_eq!(parse_key(b""), Err(KeyError::WrongLength));
    assert_eq!(parse_key(b"00ff"), Err(KeyError::WrongLength));
    assert_eq!(parse_key(&KEY_HEX.as_bytes()[..62]), Err(KeyError::WrongLength));
}

#[test]
fn statuses() {
    assert_eq!(SubmitError::Decrypt.status(), 400);
    assert_eq!(SubmitError::Decode.status(), 400);
    assert_eq!(SubmitError::Store.status(), 500);
}

#[test]
fn plain_intake_keeps_the_body() {
    let body = br#"{"player":"Bo","time":-3}"#;
    assert_eq!(Intake::Plain.open_body(body), Ok(body.to_vec()));
}

#[test]
fn encrypted_intake_reports_decrypt_failure() {
    let intake = Intake::Encrypted(key_bytes());
    assert_eq!(intake.open_body(&[1, 2, 3]), Err(SubmitError::Decrypt));
}

#[test]
fn submit_encrypted_then_read() {
    let key = parse_key(KEY_HEX.as_bytes()).unwrap();
    let iv: Vec<u8> = (100u8..116).collect();
    let plain = br#"{"player":"Ada","time":4200}"#;
    let ct = cbc::Encryptor::<aes::Aes256>::new(key.as_slice().into(), iv.as_slice().into())
        .encrypt_padded_vec_mut::<Pkcs7>(plain);
    let mut payload = iv.clone();
    payload.extend_from_slice(&ct);

    let mut board = Leaderboard::new();
    board.insert(3, Submission { player: "Zed".to_string(), time: 5000 });
    board.insert(3, Submission { player: "Cy".to_string(), time: 100 });

    let opened = Intake::Encrypted(key).open_body(&payload).unwrap();
    let v: serde_json::Value = serde_json::from_slice(&opened).unwrap();
    let submission = Submission {
        player: v["player"].as_str().unwrap().to_string(),
        time: v["time"].as_i64().unwrap() as i32,
    };
    board.insert(3, submission);

    let out = board.rank_query(3, DEFAULT_LIMIT);
    let found: Vec<(Option<i64>, String, i32)> =
        out.into_iter().map(|e| (e.rank, e.player, e.time)).collect();
    assert!(found.contains(&(Some(2), "Ada".to_string(), 4200)));
}
