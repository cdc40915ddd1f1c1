use pagedb::row::decode;
use pagedb::row::default_row;
use pagedb::row::encode;
use pagedb::row::get_id;
use pagedb::row::RowError;
use pagedb::row::RowField;
use pagedb::ROW_SIZE;

#[test]
fn test_serialize_row() {
    let id = 1;
    let username = "totem3";
    let email = "totem3@totem3.com";
    let buffer = encode(id, username.as_bytes(), email.as_bytes()).unwrap();
    let mut expected = vec![];
    expected.extend_from_slice(&id.to_le_bytes());
    expected.extend_from_slice(&[
        116, 111, 116, 101, 109, 51, 0, 0, 0, 0, 0, 0, 0, 0, 0, 0, 0, 0, 0, 0, 0, 0, 0, 0, 0,
        0, 0, 0, 0, 0, 0, 0,
    ]);
    expected.extend_from_slice(&[
        116, 111, 116, 101, 109, 51, 64, 116, 111, 116, 101, 109, 51, 46, 99, 111, 109, 0, 0,
        0, 0, 0, 0, 0, 0, 0, 0, 0, 0, 0, 0, 0, 0, 0, 0, 0, 0, 0, 0, 0, 0, 0, 0, 0, 0, 0, 0, 0,
        0, 0, 0, 0, 0, 0, 0, 0, 0, 0, 0, 0, 0, 0, 0, 0, 0, 0, 0, 0, 0, 0, 0, 0, 0, 0, 0, 0, 0,
        0, 0, 0, 0, 0, 0, 0, 0, 0, 0, 0, 0, 0, 0, 0, 0, 0, 0, 0, 0, 0, 0, 0, 0, 0, 0, 0, 0, 0,
        0, 0, 0, 0, 0, 0, 0, 0, 0, 0, 0, 0, 0, 0, 0, 0, 0, 0, 0, 0, 0, 0, 0, 0, 0, 0, 0, 0, 0,
        0, 0, 0, 0, 0, 0, 0, 0, 0, 0, 0, 0, 0, 0, 0, 0, 0, 0, 0, 0, 0, 0, 0, 0, 0, 0, 0, 0, 0,
        0, 0, 0, 0, 0, 0, 0, 0, 0, 0, 0, 0, 0, 0, 0, 0, 0, 0, 0, 0, 0, 0, 0, 0, 0, 0, 0, 0, 0,
        0, 0, 0, 0, 0, 0, 0, 0, 0, 0, 0, 0, 0, 0, 0, 0, 0, 0, 0, 0, 0, 0, 0, 0, 0, 0, 0, 0, 0,
        0, 0, 0, 0, 0, 0, 0, 0, 0, 0, 0, 0, 0, 0, 0, 0, 0, 0, 0, 0, 0, 0, 0, 0, 0, 0, 0, 0, 0,
        0, 0, 0, 0,
    ]);
    assert_eq!(expected, buffer);
}

#[test]
fn test_encode_decode_round_trip() {
    let row = encode(27, b"hoge", b"fuga").unwrap();
    assert_eq!(row.len(), ROW_SIZE);
    let (id, username, email) = decode(&row);
    assert_eq!(id, 27);
    assert_eq!(username, b"hoge".to_vec());
    assert_eq!(email, b"fuga".to_vec());
}

#[test]
fn test_encode_round_trip_full_width() {
    let username = [b'u'; 32];
    let email = [b'e'; 255];
    let row = encode(4294967295, &username, &email).unwrap();
    let (id, u, e) = decode(&row);
    assert_eq!(id, 4294967295);
    assert_eq!(u, username.to_vec());
    assert_eq!(e, email.to_vec());
}

#[test]
fn test_encode_username_too_long() {
    let username = [b'u'; 33];
    let r = encode(1, &username, b"mail");
    assert_eq!(r, Err(RowError::ValueTooLong { field: RowField::Username }));
}

#[test]
fn test_encode_email_too_long() {
    let email = [b'e'; 256];
    let r = encode(1, b"user", &email);
    assert_eq!(r, Err(RowError::ValueTooLong { field: RowField::Email }));
}

#[test]
fn test_encode_accepts_exact_widths() {
    let username = [b'u'; 32];
    let email = [b'e'; 255];
    assert!(encode(1, &username, &email).is_ok());
}

#[test]
fn test_get_id_reads_first_bytes() {
    let row = encode(305419896, b"a", b"b").unwrap();
    assert_eq!(get_id(&row), 305419896);
    assert_eq!(row[0], 0x78);
    assert_eq!(row[1], 0x56);
    assert_eq!(row[2], 0x34);
    assert_eq!(row[3], 0x12);
}

#[test]
fn test_default_row_is_all_zero() {
    let row = default_row();
    assert_eq!(row.len(), ROW_SIZE);
    assert!(row.iter().all(|b| *b == 0));
}
