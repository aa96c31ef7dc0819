use minikvp::io::checked_entry_size;
use minikvp::io::decode_header;
use minikvp::io::decode_key;
use minikvp::io::encode_entry;
use minikvp::io::read_entry_at;
use minikvp::io::ParseError;
use minikvp::model::InMemoryEntry;
use minikvp::model::NewEntry;
use minikvp::model::OnDiskEntry;

#[test]
fn from_new_entry_records_sizes_and_no_flags() {
    let e = OnDiskEntry::from_new_entry(NewEntry { key: "héllo".to_string(), value: vec![1, 2, 3] });
    assert_eq!(e.key_size, 6);
    assert_eq!(e.value_size, 3);
    assert_eq!(e.flags, 0);
    assert_eq!(e.key, "héllo");
    assert_eq!(e.value, vec![1, 2, 3]);
}

#[test]
fn tombstone_has_flag_set_and_no_value() {
    let ime = InMemoryEntry { key: "gone".to_string(), offset: 42 };
    let e = OnDiskEntry::tombstone_for(&ime);
    assert_eq!(e.key_size, 4);
    assert_eq!(e.value_size, 0);
    assert_eq!(e.flags, 1);
    assert_eq!(e.key, "gone");
    assert!(e.value.is_empty());
}

#[test]
fn encode_entry_is_big_endian_header_then_key_then_value() {
    let e = OnDiskEntry {
        key_size: 0x0102_0304,
        value_size: 0x0506_0708_090a_0b0c,
        flags: 0x0d,
        key: "k".to_string(),
        value: vec![0xee],
    };
    assert_eq!(
        encode_entry(&e),
        vec![1, 2, 3, 4, 5, 6, 7, 8, 9, 10, 11, 12, 13, b'k', 0xee]
    );
}

#[test]
fn encode_entry_of_readme_example() {
    let e = OnDiskEntry::from_new_entry(NewEntry { key: "hello".to_string(), value: b"world".to_vec() });
    let bytes = encode_entry(&e);
    assert_eq!(bytes.len(), 23);
    assert_eq!(&bytes[..13], &[0, 0, 0, 5, 0, 0, 0, 0, 0, 0, 0, 5, 0]);
    assert_eq!(&bytes[13..], b"helloworld");
}

#[test]
fn decode_header_reads_what_encode_entry_wrote() {
    let e = OnDiskEntry::from_new_entry(NewEntry { key: "abc".to_string(), value: vec![9; 300] });
    let bytes = encode_entry(&e);
    assert_eq!(decode_header(&bytes, 0), (3, 300, 0));
    let mut shifted = vec![7u8; 5];
    shifted.extend(bytes);
    assert_eq!(decode_header(&shifted, 5), (3, 300, 0));
}

#[test]
fn checked_entry_size_accepts_an_entry_that_fits() {
    assert_eq!(checked_entry_size(3, 5, 21), Ok(21));
    assert_eq!(checked_entry_size(3, 5, 100), Ok(21));
}

#[test]
fn checked_entry_size_rejects_an_entry_larger_than_the_file() {
    assert_eq!(checked_entry_size(3, 5, 20), Err(ParseError::SizeMismatch));
}

#[test]
fn checked_entry_size_rejects_an_overflowing_size() {
    assert_eq!(checked_entry_size(1, u64::MAX - 13, u64::MAX), Err(ParseError::SizeMismatch));
}

#[test]
fn decode_key_accepts_utf8() {
    assert_eq!(decode_key("wörld".as_bytes()), Ok("wörld".to_string()));
}

#[test]
fn decode_key_rejects_invalid_utf8() {
    assert_eq!(decode_key(&[0x61, 0xc3]), Err(ParseError::StringParseError));
}

#[test]
fn parse_error_messages() {
    assert_eq!(ParseError::SizeMismatch.message(), "Entry size in header does not match the file size");
    assert_eq!(ParseError::SliceCopyError.message(), "Failed to copy bytes into a fixed-size array");
    assert_eq!(ParseError::SeekError.message(), "Failed to seek within the store file");
    assert_eq!(ParseError::ReadError.message(), "Failed to read from the store file");
    assert_eq!(ParseError::StringParseError.message(), "Key contains invalid UTF-8");
}

#[test]
fn read_entry_at_reads_back_an_encoded_entry_between_others() {
    let first = encode_entry(&OnDiskEntry::from_new_entry(NewEntry { key: "a".to_string(), value: b"1".to_vec() }));
    let second = OnDiskEntry::from_new_entry(NewEntry { key: "wörld".to_string(), value: vec![0, 255, 7] });
    let mut data = first.clone();
    data.extend(encode_entry(&second));
    data.extend(first);
    let e = read_entry_at(&data, 15).unwrap();
    assert_eq!(e.key, "wörld");
    assert_eq!(e.key_size, 6);
    assert_eq!(e.value_size, 3);
    assert_eq!(e.flags, 0);
    assert_eq!(e.value, vec![0, 255, 7]);
}

#[test]
fn read_entry_at_checks_the_entry_size_against_the_whole_file() {
    let first = encode_entry(&OnDiskEntry::from_new_entry(NewEntry { key: "a".to_string(), value: b"1".to_vec() }));
    let mut data = first.clone();
    data.extend(encode_entry(&OnDiskEntry::from_new_entry(NewEntry { key: "b".to_string(), value: b"22".to_vec() })));
    data.pop();
    // The entry at 15 is cut short, but its declared size fits in the whole
    // file, so the read takes the bytes that are there.
    let e = read_entry_at(&data, 15).unwrap();
    assert_eq!(e.key, "b");
    assert_eq!(e.value_size, 2);
    assert_eq!(e.value, b"2");
    // An entry declared larger than the whole file is refused.
    let short = vec![0, 0, 0, 1, 0, 0, 0, 0, 0, 0, 0, 9, 0, b'k'];
    assert_eq!(read_entry_at(&short, 0).unwrap_err(), ParseError::SizeMismatch);
}

#[test]
fn read_entry_at_errors() {
    let data = vec![0, 0, 0, 1, 0, 0, 0, 0, 0, 0, 0, 0, 0, 0xff];
    assert_eq!(read_entry_at(&data, 0).unwrap_err(), ParseError::StringParseError);
    assert_eq!(read_entry_at(&data, 2).unwrap_err(), ParseError::ReadError);
    assert_eq!(read_entry_at(&data, 100).unwrap_err(), ParseError::ReadError);
}
