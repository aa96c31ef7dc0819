use minikvp::cli::decode_hex;
use minikvp::cli::decode_hex_can_slice;
use minikvp::cli::format_value;
use minikvp::cli::inspect_row;
use minikvp::cli::inspect_widths;
use minikvp::cli::sorted_keys;
use minikvp::cli::truncate;
use minikvp::model::OnDiskEntry;

#[test]
fn truncate_keeps_short_text() {
    assert_eq!(truncate("hello", 5), "hello");
    assert_eq!(truncate("hello", 10), "hello");
}

#[test]
fn truncate_cuts_long_text_with_an_ellipsis() {
    assert_eq!(truncate("hello world", 5), "hell…");
    assert_eq!(truncate("héllo wörld", 3), "hé…");
    assert_eq!(truncate("ab", 1), "…");
}

#[test]
fn truncate_to_zero_is_empty() {
    assert_eq!(truncate("hello", 0), "");
}

#[test]
fn format_value_shows_text() {
    assert_eq!(format_value(b"world", 10), "world");
    assert_eq!(format_value(b"hello again", 6), "hello…");
}

#[test]
fn format_value_marks_binary() {
    assert_eq!(format_value(&[0xff, 0x00], 10), "[bin]");
}

#[test]
fn format_value_of_empty_is_empty() {
    assert_eq!(format_value(&[], 10), "");
}

#[test]
fn decode_hex_decodes_pairs() {
    assert_eq!(decode_hex("FF00AB"), Ok(vec![0xff, 0x00, 0xab]));
    assert_eq!(decode_hex("ff0a"), Ok(vec![0xff, 0x0a]));
    assert_eq!(decode_hex(""), Ok(vec![]));
}

#[test]
fn decode_hex_takes_only_two_hex_digits_per_byte() {
    assert_eq!(decode_hex("+F10"), Err("invalid hex byte at position 0: '+F'".to_string()));
    assert_eq!(decode_hex("10+F"), Err("invalid hex byte at position 2: '+F'".to_string()));
    assert_eq!(decode_hex("0 "), Err("invalid hex byte at position 0: '0 '".to_string()));
    assert_eq!(decode_hex("aBcD"), Ok(vec![0xab, 0xcd]));
}

#[test]
fn decode_hex_rejects_odd_length() {
    assert_eq!(
        decode_hex("ABC"),
        Err("hex string must have an even number of characters".to_string())
    );
}

#[test]
fn decode_hex_names_the_first_bad_pair() {
    assert_eq!(decode_hex("zz00"), Err("invalid hex byte at position 0: 'zz'".to_string()));
    assert_eq!(decode_hex("00-1g0"), Err("invalid hex byte at position 2: '-1'".to_string()));
    assert_eq!(decode_hex("0011223344556677889900aa0G"), Err("invalid hex byte at position 24: '0G'".to_string()));
}

#[test]
fn decode_hex_rejects_a_two_byte_character() {
    assert_eq!(decode_hex("é00"), Err("invalid hex byte at position 0: 'é'".to_string()));
}

#[test]
fn decode_hex_can_slice_checks_character_boundaries() {
    assert!(decode_hex_can_slice("FF00"));
    assert!(decode_hex_can_slice("abc"));
    assert!(decode_hex_can_slice("zzé0"));
    assert!(!decode_hex_can_slice("0é0"));
    assert!(!decode_hex_can_slice("00aé0"));
    assert!(decode_hex_can_slice("00é0"));
}

#[test]
fn inspect_widths_split_the_remaining_space() {
    assert_eq!(inspect_widths(120), (27, 56));
    assert_eq!(inspect_widths(0), (10, 10));
    assert_eq!(inspect_widths(60), (10, 13));
}

#[test]
fn inspect_row_of_a_live_entry() {
    let e = OnDiskEntry { key_size: 5, value_size: 5, flags: 0, key: "hello".to_string(), value: b"world".to_vec() };
    let (flags, key, value) = inspect_row(&e, 10, 10);
    assert_eq!(flags, "0x00");
    assert_eq!(key, "hello");
    assert_eq!(value, "world");
}

#[test]
fn inspect_row_of_a_tombstone() {
    let e = OnDiskEntry { key_size: 5, value_size: 0, flags: 0x01, key: "hello".to_string(), value: vec![] };
    let (flags, key, value) = inspect_row(&e, 3, 10);
    assert_eq!(flags, "0x01");
    assert_eq!(key, "he…");
    assert_eq!(value, "[deleted]");
}

#[test]
fn inspect_row_uses_uppercase_hex_flags() {
    let e = OnDiskEntry { key_size: 3, value_size: 4, flags: 0xAE, key: "bin".to_string(), value: vec![0xff, 0xfe, 0, 1] };
    let (flags, _, value) = inspect_row(&e, 10, 10);
    assert_eq!(flags, "0xAE");
    assert_eq!(value, "[bin]");
}

#[test]
fn sorted_keys_orders_as_string_sort_does() {
    let keys: Vec<String> = ["b", "a", "é", "Z", "ab", "", "a", "zz", "aB"].iter().map(|s| s.to_string()).collect();
    let mut expected = keys.clone();
    expected.sort();
    assert_eq!(sorted_keys(&keys), expected);
    assert_eq!(sorted_keys(&vec![]), Vec::<String>::new());
}
