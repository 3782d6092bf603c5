use mwemu_ldr::maps::{MapError, Maps, Permission, ALLOC_BASE};

fn one_region() -> Maps {
    let mut maps = Maps::new();
    assert_eq!(maps.create_map("data", 0x1000, 0x100, Permission::ReadWrite), Ok(()));
    maps
}

#[test]
fn qword_write_then_read_gives_value_back() {
    let mut maps = one_region();
    assert!(maps.write_qword(0x1010, 0x1122_3344_5566_7788));
    assert_eq!(maps.read_qword(0x1010), Some(0x1122_3344_5566_7788));
}

#[test]
fn narrower_reads_see_little_endian_prefix() {
    let mut maps = one_region();
    assert!(maps.write_qword(0x1010, 0x1122_3344_5566_7788));
    assert_eq!(maps.read_byte(0x1010), Some(0x88));
    assert_eq!(maps.read_word(0x1010), Some(0x7788));
    assert_eq!(maps.read_dword(0x1010), Some(0x5566_7788));
    assert_eq!(maps.read_dword(0x1014), Some(0x1122_3344));
}

#[test]
fn word_and_dword_and_byte_round_trip() {
    let mut maps = one_region();
    assert!(maps.write_word(0x1000, 0xbeef));
    assert!(maps.write_dword(0x1004, 0xdead_beef));
    assert!(maps.write_byte(0x10ff, 0x7f));
    assert_eq!(maps.read_word(0x1000), Some(0xbeef));
    assert_eq!(maps.read_dword(0x1004), Some(0xdead_beef));
    assert_eq!(maps.read_byte(0x10ff), Some(0x7f));
}

#[test]
fn write_elsewhere_keeps_other_words() {
    let mut maps = one_region();
    assert!(maps.write_qword(0x1010, 7));
    assert!(maps.write_qword(0x1018, 9));
    assert_eq!(maps.read_qword(0x1010), Some(7));
    assert_eq!(maps.read_qword(0x1018), Some(9));
}

#[test]
fn access_outside_every_region_fails() {
    let mut maps = one_region();
    assert_eq!(maps.read_qword(0x2000), None);
    assert_eq!(maps.read_byte(0xfff), None);
    assert!(!maps.write_qword(0x2000, 1));
}

#[test]
fn write_across_region_end_changes_nothing() {
    let mut maps = one_region();
    assert!(!maps.write_qword(0x10fc, u64::MAX));
    assert_eq!(maps.read_dword(0x10fc), Some(0));
    assert_eq!(maps.read_qword(0x10fc), None);
}

#[test]
fn new_region_is_zero_filled() {
    let maps = one_region();
    assert_eq!(maps.read_qword(0x1000), Some(0));
    assert_eq!(maps.len(), 1);
    assert_eq!(maps.get(0).get_base(), 0x1000);
    assert_eq!(maps.get(0).size(), 0x100);
    assert_eq!(maps.get(0).get_name(), "data");
}

#[test]
fn create_map_rejects_zero_size() {
    let mut maps = one_region();
    assert_eq!(maps.create_map("z", 0x5000, 0, Permission::Read), Err(MapError::BadSize));
    assert_eq!(maps.len(), 1);
}

#[test]
fn create_map_rejects_end_past_address_space() {
    let mut maps = one_region();
    assert_eq!(
        maps.create_map("hi", u64::MAX - 0x10, 0x100, Permission::Read),
        Err(MapError::OutOfRange)
    );
    assert_eq!(maps.len(), 1);
}

#[test]
fn create_map_rejects_overlap() {
    let mut maps = one_region();
    assert_eq!(maps.create_map("o", 0x10f0, 0x20, Permission::Read), Err(MapError::Overlap));
    assert_eq!(maps.create_map("o2", 0xff0, 0x11, Permission::Read), Err(MapError::Overlap));
    assert_eq!(maps.len(), 1);
}

#[test]
fn adjacent_regions_are_accepted() {
    let mut maps = one_region();
    assert_eq!(maps.create_map("next", 0x1100, 0x10, Permission::Read), Ok(()));
    assert_eq!(maps.create_map("prev", 0xff0, 0x10, Permission::Read), Ok(()));
    assert_eq!(maps.len(), 3);
}

#[test]
fn new_region_keeps_existing_reads() {
    let mut maps = one_region();
    assert!(maps.write_qword(0x1020, 0x55));
    assert_eq!(maps.create_map("other", 0x8000, 0x10, Permission::Read), Ok(()));
    assert_eq!(maps.read_qword(0x1020), Some(0x55));
}

#[test]
fn alloc_addr_is_above_every_region() {
    let mut maps = Maps::new();
    assert_eq!(maps.alloc_addr(0x10), Some(ALLOC_BASE));
    assert_eq!(maps.create_map("hi", 0x2000_0000, 0x1000, Permission::Read), Ok(()));
    assert_eq!(maps.alloc_addr(0x10), Some(0x2000_1000));
    assert_eq!(maps.alloc_addr(0), None);
}

#[test]
fn alloc_addr_is_free() {
    let mut maps = one_region();
    let a = maps.alloc_addr(0x940).unwrap();
    assert_eq!(maps.create_map("fresh", a, 0x940, Permission::ReadWrite), Ok(()));
}

#[test]
fn names_are_found() {
    let mut maps = one_region();
    assert_eq!(maps.create_map("peb", 0x3000, 0x100, Permission::Read), Ok(()));
    assert!(maps.exists_mapname("peb"));
    assert!(!maps.exists_mapname("teb"));
    assert_eq!(maps.find_name("peb"), Some(1));
    assert_eq!(maps.find_name("teb"), None);
    assert_eq!(maps.get_map_by_name("peb").unwrap().get_base(), 0x3000);
    assert!(maps.get_map_by_name("teb").is_none());
    assert_eq!(maps.get_mem("data").get_base(), 0x1000);
}

#[test]
fn region_read_qword_is_relative_to_its_base() {
    let mut maps = one_region();
    assert!(maps.write_qword(0x1018, 0xabc));
    assert_eq!(maps.get_mem("data").read_qword(0x1018), 0xabc);
}

#[test]
fn wide_string_round_trip() {
    let mut maps = one_region();
    assert!(maps.write_wide_string(0x1000, "kernel32.dll"));
    assert_eq!(maps.read_wide_string(0x1000), "kernel32.dll");
    assert_eq!(maps.read_word(0x1000), Some(0x6b));
    assert_eq!(maps.read_word(0x1002), Some(0x65));
}

#[test]
fn wide_string_is_written_without_terminator() {
    let mut maps = one_region();
    assert!(maps.write_wide_string(0x1000, "abcd"));
    assert!(maps.write_wide_string(0x1000, "xy"));
    assert_eq!(maps.read_wide_string(0x1000), "xycd");
}

#[test]
fn wide_string_stops_at_region_end() {
    let mut maps = one_region();
    assert!(maps.write_wide_string(0x10fc, "ab"));
    assert_eq!(maps.read_wide_string(0x10fc), "ab");
    assert!(!maps.write_wide_string(0x10fe, "ab"));
}

#[test]
fn c_string_reads_up_to_zero() {
    let mut maps = one_region();
    assert!(maps.write_bytes(0x1040, b"GetProcAddress\0junk"));
    assert_eq!(maps.read_string(0x1040), "GetProcAddress");
    assert_eq!(maps.read_string(0x2000), "");
}

#[test]
fn memcpy_copies_bytes() {
    let mut maps = one_region();
    assert!(maps.write_bytes(0x1000, &[1, 2, 3, 4]));
    assert!(maps.memcpy(0x1080, 0x1000, 4));
    assert_eq!(maps.read_dword(0x1080), Some(0x0403_0201));
    assert!(maps.memcpy(0x1080, 0x1000, 0));
}

#[test]
fn memcpy_from_unreadable_source_fails() {
    let mut maps = one_region();
    assert!(!maps.memcpy(0x1000, 0x9000, 4));
    assert_eq!(maps.read_dword(0x1000), Some(0));
}

#[test]
fn read_bytes_and_find() {
    let mut maps = one_region();
    assert!(maps.write_bytes(0x1000, &[9, 8, 7]));
    assert_eq!(maps.read_bytes(0x1000, 3), Some(vec![9, 8, 7]));
    assert_eq!(maps.read_bytes(0x10ff, 2), None);
    assert_eq!(maps.find(0x1010, 8), Some(0));
    assert_eq!(maps.find(0x10ff, 2), None);
}
