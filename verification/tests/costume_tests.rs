//! Tests of the costume metadata layer: the hash checksum, the derived
//! name strings, and the validated parse/read/update cycle.

use costume_codec::costume::JAN_1_2000_UNIX_TIME;
use costume_codec::{
    generate_costume_hash, get_file_name, get_in_game_display_name, is_valid_costume_file_name,
    CostumeParseError, CostumeSave, ParseError, UpdateCostumeMetadata,
};

fn be16_bytes(v: u16) -> [u8; 2] {
    [(v >> 8) as u8, v as u8]
}

fn app13_payload_bytes(
    identifier: &[u8],
    resource_type: &[u8; 4],
    resource_id: u16,
    resource_name: &[u8],
    account: &[u8],
    character: &[u8],
    hash: &[u8],
    spec_text: &[u8],
) -> Vec<u8> {
    let mut datasets: Vec<u8> = Vec::new();
    let entries: [(u8, &[u8]); 4] =
        [(120, account), (120, character), (120, hash), (202, spec_text)];
    for (dataset_number, data) in entries {
        datasets.push(0x1C);
        datasets.push(2);
        datasets.push(dataset_number);
        datasets.extend(be16_bytes(data.len() as u16));
        datasets.extend(data);
    }
    if datasets.len() % 2 == 1 {
        datasets.push(0);
    }
    let mut p: Vec<u8> = Vec::new();
    p.extend(identifier);
    p.extend(resource_type);
    p.extend(be16_bytes(resource_id));
    p.extend(resource_name);
    p.extend((datasets.len() as u32).to_be_bytes());
    p.extend(datasets);
    p
}

fn jpeg_with_app13_payload(payload: &[u8]) -> Vec<u8> {
    let mut b: Vec<u8> = vec![0xFF, 0xD8];
    b.push(0xFF);
    b.push(0xED);
    b.extend(be16_bytes((payload.len() + 2) as u16));
    b.extend(payload);
    b.extend([0xFF, 0xDA, 0x00, 0x04, 0x01, 0x02]);
    b.extend([0x11, 0xFF, 0x00, 0x22, 0xFF, 0xD1, 0x33]);
    b.extend([0xFF, 0xD9]);
    b
}

fn costume_jpeg(account: &[u8], character: &[u8], hash: &[u8], spec_text: &[u8]) -> Vec<u8> {
    let payload = app13_payload_bytes(
        b"Photoshop 3.0\0",
        b"8BIM",
        0x0404,
        b"\0\0",
        account,
        character,
        hash,
        spec_text,
    );
    jpeg_with_app13_payload(&payload)
}

#[test]
fn hash_of_empty_text() {
    assert_eq!(generate_costume_hash(""), "77990\0");
}

#[test]
fn hash_of_single_byte() {
    // lower = table[b'a'] = 0xA063, upper = 0xA063; packed and read as a
    // signed 32-bit value this is negative
    assert_eq!(generate_costume_hash("a"), "7799-1604083613\0");
}

#[test]
fn hash_of_two_bytes_is_order_sensitive() {
    assert_eq!(generate_costume_hash("ab"), "7799-235253353\0");
    assert_eq!(generate_costume_hash("ba"), "779946879127\0");
}

#[test]
fn hash_of_zero_byte() {
    assert_eq!(generate_costume_hash("\0"), "7799-1127105327\0");
}

#[test]
fn hash_of_longer_text() {
    assert_eq!(generate_costume_hash("CostumeParts"), "7799675198819\0");
}

#[test]
fn file_name_without_save_name() {
    assert_eq!(get_file_name("", Some(123)), "Costume_123.jpg");
}

#[test]
fn file_name_without_timestamp() {
    assert_eq!(get_file_name("abc", None), "Costume_abc.jpg");
}

#[test]
fn file_name_with_both() {
    assert_eq!(get_file_name("abc", Some(5)), "Costume_abc_5.jpg");
}

#[test]
fn file_name_with_negative_timestamp() {
    assert_eq!(get_file_name("abc", Some(-7)), "Costume_abc_-7.jpg");
}

#[test]
fn file_name_with_extreme_timestamps() {
    assert_eq!(
        get_file_name("x", Some(i64::MIN)),
        "Costume_x_-9223372036854775808.jpg"
    );
    assert_eq!(
        get_file_name("x", Some(i64::MAX)),
        "Costume_x_9223372036854775807.jpg"
    );
}

#[test]
fn display_name_without_timestamp() {
    assert_eq!(get_in_game_display_name("acct", "Hero", None), "acctHero");
}

#[test]
fn display_name_at_j2000_epoch() {
    assert_eq!(
        get_in_game_display_name("acct", "Hero", Some(0)),
        "acctHero 2000-01-01 00:00:00"
    );
}

#[test]
fn display_name_one_day_later() {
    assert_eq!(
        get_in_game_display_name("acct", "Hero", Some(86400)),
        "acctHero 2000-01-02 00:00:00"
    );
}

#[test]
fn j2000_epoch_constant() {
    assert_eq!(JAN_1_2000_UNIX_TIME, 946684800);
}

#[test]
fn valid_costume_file_names() {
    assert!(is_valid_costume_file_name("Costume_abc.jpg"));
    assert!(is_valid_costume_file_name("Costume_abc.JPG"));
    assert!(is_valid_costume_file_name("Costume_.jpg"));
    assert!(is_valid_costume_file_name("Costume_a_123.Jpg"));
}

#[test]
fn invalid_costume_file_names() {
    assert!(!is_valid_costume_file_name("Costume.jpg"));
    assert!(!is_valid_costume_file_name("costume_a.jpg"));
    assert!(!is_valid_costume_file_name("Costume_a.png"));
    assert!(!is_valid_costume_file_name("Costume_a.jpeg"));
    assert!(!is_valid_costume_file_name("Costume_a"));
    assert!(!is_valid_costume_file_name("photo.jpg"));
}

#[test]
fn parse_and_read_metadata() {
    let bytes = costume_jpeg(b"acct", b"Hero", b"77990\0", b"some spec text");
    let save = CostumeSave::parse(&bytes).unwrap();
    let metadata = save.get_metadata().unwrap();
    assert_eq!(metadata.account_name, "acct");
    assert_eq!(metadata.character_name, "Hero");
    assert_eq!(metadata.hash, "77990\0");
    assert_eq!(metadata.spec, "some spec text");
}

#[test]
fn byte_roundtrip_through_costume_save() {
    let bytes = costume_jpeg(b"acct", b"Hero", b"77990\0", b"some spec text");
    let save = CostumeSave::parse(&bytes).unwrap();
    assert_eq!(save.0.serialize(), bytes);
}

#[test]
fn metadata_survives_serialize_parse() {
    let bytes = costume_jpeg(b"acct", b"Hero", b"77990\0", b"spec one");
    let original = CostumeSave::parse(&bytes).unwrap();
    let reparsed = CostumeSave::parse(&original.0.serialize()).unwrap();
    let before = original.get_metadata().unwrap();
    let after = reparsed.get_metadata().unwrap();
    assert_eq!(before.account_name, after.account_name);
    assert_eq!(before.character_name, after.character_name);
    assert_eq!(before.hash, after.hash);
    assert_eq!(before.spec, after.spec);
}

#[test]
fn update_metadata_rewrites_slots() {
    let bytes = costume_jpeg(b"acct", b"Hero", b"77990\0", b"old spec");
    let mut save = CostumeSave::parse(&bytes).unwrap();
    let new_spec = "a considerably longer costume specification text";
    let new_hash = generate_costume_hash(new_spec);
    save.update_metadata(UpdateCostumeMetadata {
        account_name: None,
        character_name: Some(String::from("Villain")),
        hash: Some(new_hash.clone()),
        spec: Some(String::from(new_spec)),
    });
    let reparsed = CostumeSave::parse(&save.0.serialize()).unwrap();
    let metadata = reparsed.get_metadata().unwrap();
    assert_eq!(metadata.account_name, "acct");
    assert_eq!(metadata.character_name, "Villain");
    assert_eq!(metadata.hash, new_hash);
    assert_eq!(metadata.spec, new_spec);
}

#[test]
fn metadata_with_non_ascii_text() {
    let bytes = costume_jpeg(b"acct", "H\u{e9}ro".as_bytes(), b"77990\0", b"spec");
    let save = CostumeSave::parse(&bytes).unwrap();
    let metadata = save.get_metadata().unwrap();
    assert_eq!(metadata.character_name, "H\u{e9}ro");
}

#[test]
fn metadata_with_invalid_utf8_is_rejected() {
    let bytes = costume_jpeg(b"acct", &[0xFF, 0xFE], b"77990\0", b"spec");
    let save = CostumeSave::parse(&bytes).unwrap();
    assert!(save.get_metadata().is_none());
}

#[test]
fn wrong_resource_id_fails_validation() {
    let payload = app13_payload_bytes(
        b"Photoshop 3.0\0",
        b"8BIM",
        0x0405,
        b"\0\0",
        b"acct",
        b"Hero",
        b"77990\0",
        b"spec",
    );
    let bytes = jpeg_with_app13_payload(&payload);
    let result = CostumeSave::parse(&bytes);
    assert!(matches!(
        result,
        Err(CostumeParseError::InvalidApp13ResourceId { actual: 0x0405 })
    ));
}

#[test]
fn wrong_identifier_fails_validation() {
    let payload = app13_payload_bytes(
        b"Photoshoq 3.0\0",
        b"8BIM",
        0x0404,
        b"\0\0",
        b"acct",
        b"Hero",
        b"77990\0",
        b"spec",
    );
    let bytes = jpeg_with_app13_payload(&payload);
    let result = CostumeSave::parse(&bytes);
    match result {
        Err(CostumeParseError::InvalidApp13SegmentId { actual }) => {
            assert_eq!(actual, b"Photoshoq 3.0\0".to_vec());
        }
        Err(other) => panic!("expected InvalidApp13SegmentId, got {:?}", other),
        Ok(_) => panic!("expected InvalidApp13SegmentId, parse succeeded"),
    }
}

#[test]
fn wrong_resource_type_fails_validation() {
    let payload = app13_payload_bytes(
        b"Photoshop 3.0\0",
        b"8BIN",
        0x0404,
        b"\0\0",
        b"acct",
        b"Hero",
        b"77990\0",
        b"spec",
    );
    let bytes = jpeg_with_app13_payload(&payload);
    let result = CostumeSave::parse(&bytes);
    assert!(matches!(
        result,
        Err(CostumeParseError::InvalidApp13ResourceType { actual: 0x3842494E })
    ));
}

#[test]
fn wrong_resource_name_fails_validation() {
    let payload = app13_payload_bytes(
        b"Photoshop 3.0\0",
        b"8BIM",
        0x0404,
        b"A\0",
        b"acct",
        b"Hero",
        b"77990\0",
        b"spec",
    );
    let bytes = jpeg_with_app13_payload(&payload);
    let result = CostumeSave::parse(&bytes);
    match result {
        Err(CostumeParseError::InvalidApp13ResourceName { actual }) => {
            assert_eq!(actual, b"A\0".to_vec());
        }
        Err(other) => panic!("expected InvalidApp13ResourceName, got {:?}", other),
        Ok(_) => panic!("expected InvalidApp13ResourceName, parse succeeded"),
    }
}

#[test]
fn missing_app13_fails_validation() {
    let result = CostumeSave::parse(&[0xFF, 0xD8, 0xFF, 0xD9]);
    assert!(matches!(
        result,
        Err(CostumeParseError::InvalidApp13SegmentCount { count: 0 })
    ));
}

#[test]
fn doubled_app13_fails_validation() {
    let payload = app13_payload_bytes(
        b"Photoshop 3.0\0",
        b"8BIM",
        0x0404,
        b"\0\0",
        b"acct",
        b"Hero",
        b"77990\0",
        b"spec",
    );
    let mut bytes: Vec<u8> = vec![0xFF, 0xD8];
    for _ in 0..2 {
        bytes.push(0xFF);
        bytes.push(0xED);
        bytes.extend(be16_bytes((payload.len() + 2) as u16));
        bytes.extend(&payload);
    }
    bytes.extend([0xFF, 0xD9]);
    let result = CostumeSave::parse(&bytes);
    assert!(matches!(
        result,
        Err(CostumeParseError::InvalidApp13SegmentCount { count: 2 })
    ));
}

#[test]
fn bad_magic_surfaces_framing_error() {
    let result = CostumeSave::parse(&[0x00]);
    assert!(matches!(
        result,
        Err(CostumeParseError::JpegParseError(ParseError::InvalidSegmentMagic { magic: 0 }))
    ));
}
