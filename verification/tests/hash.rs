use arca::error::Error;
use arca::hash::{HashParseError, StoreEntryHash, HASH_LEN, HEX_LEN};

#[test]
fn hex_round_trip() {
    let mut bytes = [0u8; HASH_LEN];
    for (i, b) in bytes.iter_mut().enumerate() {
        *b = (i * 37 + 5) as u8;
    }
    let h = StoreEntryHash(bytes);
    let text = h.to_hex();
    assert_eq!(text.len(), HEX_LEN);
    assert_eq!(StoreEntryHash::from_hex(&text), Ok(h));
}

#[test]
fn hex_text_of_known_bytes() {
    let mut bytes = [0u8; HASH_LEN];
    bytes[0] = 0x01;
    bytes[1] = 0x9f;
    bytes[2] = 0xff;
    let text = StoreEntryHash(bytes).to_hex();
    assert!(text.starts_with("019fff00"));
}

#[test]
fn from_hex_accepts_uppercase() {
    let upper = format!("AB{}", "0".repeat(62));
    let lower = format!("ab{}", "0".repeat(62));
    assert_eq!(StoreEntryHash::from_hex(&upper), StoreEntryHash::from_hex(&lower));
    assert_eq!(StoreEntryHash::from_hex(&upper).unwrap().0[0], 0xab);
}

#[test]
fn from_hex_rejects_wrong_length() {
    assert_eq!(
        StoreEntryHash::from_hex("abc"),
        Err(HashParseError::InvalidLength { length: 3 })
    );
    assert_eq!(
        StoreEntryHash::from_hex(""),
        Err(HashParseError::InvalidLength { length: 0 })
    );
}

#[test]
fn from_hex_reports_first_bad_character() {
    let text = format!("{}zx{}", "0".repeat(5), "0".repeat(57));
    assert_eq!(
        StoreEntryHash::from_hex(&text),
        Err(HashParseError::InvalidCharacter { index: 5, character: 'z' })
    );
}

#[test]
fn parse_error_converts_into_error() {
    let e: Error = HashParseError::InvalidLength { length: 1 }.into();
    match e {
        Error::HashParse(HashParseError::InvalidLength { length }) => assert_eq!(length, 1),
        other => panic!("unexpected {:?}", other),
    }
}
