use mwemu_ldr::bytes::{decode_u16, decode_u32, decode_u64, encode_u16, encode_u32, encode_u64};
use mwemu_ldr::text::{
    after_last_char, before_first_char, encode_utf16, ends_with, eq_ignore_ascii_case, str_eq,
    trim_end_matches, units_to_le_bytes,
};

#[test]
fn little_endian_encodings() {
    assert_eq!(encode_u16(0x1234), vec![0x34, 0x12]);
    assert_eq!(encode_u32(0x1003f), vec![0x3f, 0x00, 0x01, 0x00]);
    assert_eq!(
        encode_u64(0x0102_0304_0506_0708),
        vec![0x08, 0x07, 0x06, 0x05, 0x04, 0x03, 0x02, 0x01]
    );
}

#[test]
fn little_endian_decodings() {
    assert_eq!(decode_u16(&[0x34, 0x12, 0xff]), 0x1234);
    assert_eq!(decode_u32(&[0x3f, 0x00, 0x01, 0x00]), 0x1003f);
    assert_eq!(decode_u64(&[8, 7, 6, 5, 4, 3, 2, 1]), 0x0102_0304_0506_0708);
}

#[test]
fn decode_of_encode_is_identity() {
    for v in [0u64, 1, 0xff, 0xdead_beef, u64::MAX, 0x8000_0000_0000_0001] {
        assert_eq!(decode_u64(&encode_u64(v)), v);
        assert_eq!(decode_u32(&encode_u32(v as u32)), v as u32);
        assert_eq!(decode_u16(&encode_u16(v as u16)), v as u16);
    }
}

#[test]
fn suffix_test() {
    assert!(ends_with("ntdll.pe", ".pe"));
    assert!(ends_with(".pe", ".pe"));
    assert!(!ends_with("pe", ".pe"));
    assert!(!ends_with("ntdll.dll", ".pe"));
    assert!(ends_with("anything", ""));
}

#[test]
fn ascii_case_insensitive_equality() {
    assert!(eq_ignore_ascii_case("NTDLL", "ntdll"));
    assert!(eq_ignore_ascii_case("Kernel32", "kERNEL32"));
    assert!(!eq_ignore_ascii_case("ntdll", "ntdl"));
    assert!(!eq_ignore_ascii_case("ntdll", "ntdlm"));
    assert!(eq_ignore_ascii_case("", ""));
}

#[test]
fn trailing_suffixes_are_all_removed() {
    assert_eq!(trim_end_matches("ntdll.pe", ".pe"), "ntdll");
    assert_eq!(trim_end_matches("odd.pe.pe", ".pe"), "odd");
    assert_eq!(trim_end_matches("plain", ".pe"), "plain");
}

#[test]
fn path_pieces() {
    assert_eq!(after_last_char("/home/user/bin/sample.exe", '/'), "sample.exe");
    assert_eq!(after_last_char("sample.exe", '/'), "sample.exe");
    assert_eq!(after_last_char("dir/", '/'), "");
    assert_eq!(before_first_char("sample.tar.gz", '.'), "sample");
    assert_eq!(before_first_char("noext", '.'), "noext");
}

#[test]
fn utf16_units_and_bytes() {
    assert_eq!(encode_utf16("Ab"), vec![0x41, 0x62]);
    assert_eq!(encode_utf16("\u{1F600}"), vec![0xD83D, 0xDE00]);
    assert_eq!(units_to_le_bytes(&[0x41, 0x1234]), vec![0x41, 0x00, 0x34, 0x12]);
}

#[test]
fn text_equality() {
    assert!(str_eq("user32.dll", "user32.dll"));
    assert!(!str_eq("user32.dll", "User32.dll"));
}
