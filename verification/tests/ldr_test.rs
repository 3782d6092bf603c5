use mwemu_ldr::emu::{Config, Emu, CFG_DEFAULT_BASE};
use mwemu_ldr::ldr::{
    apply_forward_resolution, create_ldr_entry, dynamic_link_module, dynamic_unlink_module,
    get_module_base, show_linked_modules, update_ldr_entry_base, Flink,
};
use mwemu_ldr::maps::Permission;
use mwemu_ldr::regs::Arch;

const PEB: u64 = 0x7ffd_f000;
const LDR: u64 = 0x7ffe_0000;
const FIRST_ALLOC: u64 = 0x7ffe_0100;

fn config() -> Config {
    Config {
        arch: Arch::X86_64,
        code_base_addr: 0x40_0000,
        entry_point: CFG_DEFAULT_BASE,
        verbose: 0,
        exe_name: "test.exe".to_string(),
        filename: "/samples/test.exe".to_string(),
    }
}

fn emu_with_peb() -> Emu {
    let mut emu = Emu::new(config());
    assert_eq!(emu.maps.create_map("peb", PEB, 0x1000, Permission::ReadWrite), Ok(()));
    assert_eq!(emu.maps.create_map("ldr_data", LDR, 0x100, Permission::ReadWrite), Ok(()));
    assert!(emu.maps.write_qword(PEB + 0x18, LDR));
    emu
}

/// A list whose head is one self-linked entry for `name` (module base 0).
fn emu_with_list(name: &str) -> (Emu, u64) {
    let mut emu = emu_with_peb();
    let e = create_ldr_entry(&mut emu, 0, 0, name, 0, 0);
    assert!(emu.maps.write_qword(LDR + 0x10, e));
    (emu, e)
}

fn names(emu: &Emu) -> Vec<String> {
    show_linked_modules(emu).into_iter().map(|m| m.name).collect()
}

#[test]
fn created_entry_is_self_linked_without_neighbours() {
    let mut emu = emu_with_peb();
    let e = create_ldr_entry(&mut emu, 0, 0x1234, "foo.dll", 0, 0);
    assert_eq!(e, FIRST_ALLOC);
    assert_eq!(emu.maps.read_qword(e), Some(e));
    assert_eq!(emu.maps.read_qword(e + 8), Some(e));
    assert_eq!(emu.maps.read_qword(e + 0x10), Some(e + 0x10));
    assert_eq!(emu.maps.read_qword(e + 0x18), Some(e + 0x10));
    assert_eq!(emu.maps.read_qword(e + 0x20), Some(e + 0x20));
    assert_eq!(emu.maps.read_qword(e + 0x28), Some(e + 0x20));
    assert_eq!(emu.maps.read_qword(e + 0x7f), Some(0));
    assert_eq!(emu.maps.read_qword(e + 0x87), Some(0));
}

#[test]
fn created_entry_records_base_entry_point_and_names() {
    let mut emu = emu_with_peb();
    let e = create_ldr_entry(&mut emu, 0, 0x1234, "foo.dll", 0, 0);
    assert_eq!(emu.maps.read_qword(e + 0x30), Some(e));
    assert_eq!(emu.maps.read_qword(e + 0x38), Some(0x1234));
    assert_eq!(emu.maps.read_dword(e + 0x40), Some(0));
    assert_eq!(emu.maps.read_word(e + 0x48), Some(54));
    assert_eq!(emu.maps.read_word(e + 0x4a), Some(58));
    assert_eq!(emu.maps.read_qword(e + 0x50), Some(e + 0x100));
    assert_eq!(emu.maps.read_word(e + 0x58), Some(14));
    assert_eq!(emu.maps.read_word(e + 0x5a), Some(16));
    assert_eq!(emu.maps.read_qword(e + 0x60), Some(e + 0x140));
    assert_eq!(emu.maps.read_wide_string(e + 0x100), "C:\\Windows\\System32\\foo.dll");
    assert_eq!(emu.maps.read_wide_string(e + 0x140), "foo.dll");
    assert_eq!(emu.maps.read_byte(e + 0x93f), Some(0x61));
    let region = emu.maps.get_map_by_name("foo.dll.ldr").unwrap();
    assert_eq!(region.get_base(), e);
    assert_eq!(region.size(), 0x940);
}

#[test]
fn created_entry_links_to_given_neighbours() {
    let mut emu = emu_with_peb();
    let e = create_ldr_entry(&mut emu, 0, 0, "bar.dll", 0x5000, 0x6000);
    assert_eq!(emu.maps.read_qword(e), Some(0x5000));
    assert_eq!(emu.maps.read_qword(e + 8), Some(0x6000));
    assert_eq!(emu.maps.read_qword(e + 0x10), Some(0x5010));
    assert_eq!(emu.maps.read_qword(e + 0x18), Some(0x6010));
    assert_eq!(emu.maps.read_qword(e + 0x20), Some(0x5020));
    assert_eq!(emu.maps.read_qword(e + 0x28), Some(0x6020));
    assert_eq!(emu.maps.read_qword(e + 0x7f), Some(0x5000));
    assert_eq!(emu.maps.read_qword(e + 0x87), Some(0x6000));
}

#[test]
fn created_entry_reads_image_size_from_header() {
    let mut emu = emu_with_peb();
    assert_eq!(emu.maps.create_map("mod.pe", 0x10000, 0x1000, Permission::ReadWrite), Ok(()));
    assert!(emu.maps.write_dword(0x1003c, 0x80));
    assert!(emu.maps.write_dword(0x10000 + 0x80 + 0x50, 0x3000));
    let e = create_ldr_entry(&mut emu, 0x10000, 0x11000, "mod.dll", 0, 0);
    assert_eq!(emu.maps.read_qword(e + 0x30), Some(0x10000));
    assert_eq!(emu.maps.read_qword(e + 0x38), Some(0x11000));
    assert_eq!(emu.maps.read_dword(e + 0x40), Some(0x3000));
}

#[test]
fn second_entry_of_a_name_gets_numbered_region() {
    let mut emu = emu_with_peb();
    let a = create_ldr_entry(&mut emu, 0, 0, "dup.dll", 0, 0);
    let b = create_ldr_entry(&mut emu, 0, 0, "dup.dll", 0, 0);
    let c = create_ldr_entry(&mut emu, 0, 0, "dup.dll", 0, 0);
    assert_eq!(b, a + 0x940);
    assert_eq!(c, b + 0x940);
    assert_eq!(emu.maps.get_map_by_name("dup.dll.ldr").unwrap().get_base(), a);
    assert_eq!(emu.maps.get_map_by_name("dup.dll.ldr.0").unwrap().get_base(), b);
    assert_eq!(emu.maps.get_map_by_name("dup.dll.ldr.1").unwrap().get_base(), c);
    assert_eq!(emu.ldr_seq, 2);
}

#[test]
fn flink_reads_the_head_entry() {
    let (emu, e) = emu_with_list("first.dll");
    let mut flink = Flink::new(&emu);
    assert_eq!(flink.get_ptr(), e);
    flink.load(&emu);
    assert_eq!(flink.mod_name, "first.dll");
    assert_eq!(flink.mod_base, e);
    assert!(flink.has_module());
    assert_eq!(flink.get_next_flink(&emu), e);
    assert_eq!(flink.get_prev_flink(&emu), e);
    assert!(!flink.next(&emu));
    assert_eq!(flink.get_ptr(), e);
}

#[test]
fn flink_without_module_base() {
    let mut emu = emu_with_peb();
    assert!(emu.maps.write_qword(LDR + 0x10, 0));
    let mut flink = Flink::new(&emu);
    assert_eq!(flink.get_ptr(), 0);
    flink.load(&emu);
    assert_eq!(flink.mod_base, 0);
    assert!(!flink.has_module());
    flink.set_ptr(LDR);
    assert_eq!(flink.get_ptr(), LDR);
}

#[test]
fn set_mod_base_writes_dll_base() {
    let (mut emu, e) = emu_with_list("first.dll");
    let mut flink = Flink::new(&emu);
    flink.load(&emu);
    flink.set_mod_base(0x7700_0000, &mut emu);
    assert_eq!(flink.mod_base, 0x7700_0000);
    assert_eq!(emu.maps.read_qword(e + 0x30), Some(0x7700_0000));
    let mut again = Flink::new(&emu);
    again.get_mod_base(&emu);
    assert_eq!(again.mod_base, 0x7700_0000);
}

#[test]
fn linking_appends_before_the_head() {
    let (mut emu, first) = emu_with_list("first.dll");
    assert_eq!(emu.maps.create_map("second.pe", 0x20000, 0x1000, Permission::ReadWrite), Ok(()));
    dynamic_link_module(0x20000, 0x1000, "second.dll", &mut emu);
    let second = first + 0x940;
    assert_eq!(emu.maps.read_qword(first), Some(second));
    assert_eq!(emu.maps.read_qword(first + 8), Some(second));
    assert_eq!(emu.maps.read_qword(first + 0x10), Some(second + 0x10));
    assert_eq!(emu.maps.read_qword(first + 0x18), Some(second + 0x10));
    assert_eq!(emu.maps.read_qword(first + 0x28), Some(second + 0x20));
    assert_eq!(emu.maps.read_qword(second), Some(first));
    assert_eq!(emu.maps.read_qword(second + 8), Some(first));
    assert_eq!(emu.maps.read_qword(second + 0x30), Some(0x20000));
    assert_eq!(emu.maps.read_qword(second + 0x38), Some(0x1000));
    assert_eq!(names(&emu), vec!["first.dll".to_string(), "second.dll".to_string()]);
}

#[test]
fn linking_three_keeps_order() {
    let (mut emu, first) = emu_with_list("first.dll");
    dynamic_link_module(0, 0, "second.dll", &mut emu);
    dynamic_link_module(0, 0, "third.dll", &mut emu);
    let second = first + 0x940;
    let third = second + 0x940;
    assert_eq!(names(&emu), vec!["first.dll", "second.dll", "third.dll"]);
    assert_eq!(emu.maps.read_qword(second), Some(third));
    assert_eq!(emu.maps.read_qword(third), Some(first));
    assert_eq!(emu.maps.read_qword(first + 8), Some(third));
    assert_eq!(emu.maps.read_qword(third + 8), Some(second));
    let listing = show_linked_modules(&emu);
    assert_eq!(listing[1].ptr, second);
    assert_eq!(listing[1].flink, third);
    assert_eq!(listing[1].blink, first);
    assert_eq!(listing[1].base, second);
}

#[test]
fn created_entry_names_read_back_through_their_buffers() {
    let mut emu = emu_with_peb();
    let e = create_ldr_entry(&mut emu, 0, 0, "\u{dc}bung\u{1f600}.dll", 0, 0);
    let full = emu.maps.read_qword(e + 0x50).unwrap();
    assert_eq!(full, e + 0x100);
    assert_eq!(emu.maps.read_wide_string(full), "C:\\Windows\\System32\\\u{dc}bung\u{1f600}.dll");
    let base_name = emu.maps.read_qword(e + 0x60).unwrap();
    assert_eq!(emu.maps.read_wide_string(base_name), "\u{dc}bung\u{1f600}.dll");
    let mut flink = Flink::new(&emu);
    flink.set_ptr(e);
    flink.get_mod_name(&emu);
    assert_eq!(flink.mod_name, "\u{dc}bung\u{1f600}.dll");
}

#[test]
fn module_base_by_name() {
    let (mut emu, first) = emu_with_list("first.dll");
    dynamic_link_module(0, 0, "Second.DLL", &mut emu);
    assert_eq!(get_module_base("first.dll", &emu), Some(first));
    assert_eq!(get_module_base("FIRST", &emu), Some(first));
    assert_eq!(get_module_base("second.dll", &emu), Some(first + 0x940));
    assert_eq!(get_module_base("second", &emu), Some(first + 0x940));
    assert_eq!(get_module_base("third", &emu), None);
}

#[test]
fn linking_a_known_name_keeps_the_first_match() {
    let (mut emu, first) = emu_with_list("first.dll");
    dynamic_link_module(0x70000, 0, "FIRST.dll", &mut emu);
    assert_eq!(get_module_base("first.dll", &emu), Some(first));
    dynamic_link_module(0x80000, 0, "later.dll", &mut emu);
    assert_eq!(get_module_base("LATER", &emu), Some(0x80000));
}

#[test]
fn update_entry_base_by_name() {
    let (mut emu, first) = emu_with_list("first.dll");
    dynamic_link_module(0, 0, "second.dll", &mut emu);
    update_ldr_entry_base("SECOND.dll", 0x55000, &mut emu);
    assert_eq!(emu.maps.read_qword(first + 0x940 + 0x30), Some(0x55000));
    assert_eq!(get_module_base("second.dll", &emu), Some(0x55000));
    assert_eq!(get_module_base("first.dll", &emu), Some(first));
}

#[test]
fn update_of_unknown_name_changes_nothing() {
    let (mut emu, first) = emu_with_list("first.dll");
    update_ldr_entry_base("missing.dll", 0x55000, &mut emu);
    assert_eq!(emu.maps.read_qword(first + 0x30), Some(first));
}

#[test]
fn unlink_clears_previous_link_and_patches_successor() {
    let (mut emu, first) = emu_with_list("first.dll");
    dynamic_link_module(0, 0, "second.dll", &mut emu);
    dynamic_link_module(0, 0, "third.dll", &mut emu);
    let third = first + 2 * 0x940;
    dynamic_unlink_module("second.dll", &mut emu);
    assert_eq!(emu.maps.read_qword(first), Some(0));
    assert_eq!(emu.maps.read_qword(third + 4), Some(first));
}

#[test]
fn unlink_cuts_the_walk_before_the_module() {
    let (mut emu, first) = emu_with_list("first.dll");
    dynamic_link_module(0, 0, "second.dll", &mut emu);
    dynamic_link_module(0, 0, "third.dll", &mut emu);
    dynamic_unlink_module("second.dll", &mut emu);
    assert_eq!(get_module_base("first", &emu), Some(first));
    assert_eq!(get_module_base("second", &emu), None);
    assert_eq!(get_module_base("third", &emu), None);
    assert_eq!(names(&emu), vec!["first.dll".to_string()]);
}

#[test]
fn unlink_of_unknown_name_changes_nothing() {
    let (mut emu, first) = emu_with_list("first.dll");
    dynamic_link_module(0, 0, "second.dll", &mut emu);
    dynamic_unlink_module("absent.dll", &mut emu);
    assert_eq!(emu.maps.read_qword(first), Some(first + 0x940));
}

fn emu_with_exports() -> (Emu, u64) {
    let mut emu = emu_with_peb();
    let base = 0x30000u64;
    assert_eq!(emu.maps.create_map("lib.pe", base, 0x2000, Permission::ReadWrite), Ok(()));
    assert!(emu.maps.write_dword(base + 0x3c, 0x80));
    assert!(emu.maps.write_dword(base + 0x80 + 0x88, 0x1000));
    assert!(emu.maps.write_dword(base + 0x80 + 0x8c, 0x100));
    let et = base + 0x1000;
    assert!(emu.maps.write_dword(et + 0x18, 2));
    assert!(emu.maps.write_dword(et + 0x1c, 0x1100));
    assert!(emu.maps.write_dword(et + 0x20, 0x1200));
    assert!(emu.maps.write_dword(et + 0x24, 0x1300));
    assert!(emu.maps.write_dword(base + 0x1100, 0x1050));
    assert!(emu.maps.write_dword(base + 0x1104, 0x600));
    assert!(emu.maps.write_dword(base + 0x1200, 0x1400));
    assert!(emu.maps.write_dword(base + 0x1204, 0x1410));
    assert!(emu.maps.write_word(base + 0x1300, 1));
    assert!(emu.maps.write_word(base + 0x1302, 0));
    assert!(emu.maps.write_bytes(base + 0x1400, b"FuncA\0"));
    assert!(emu.maps.write_bytes(base + 0x1410, b"FuncB\0"));
    assert!(emu.maps.write_bytes(base + 0x1050, b"NTDLL.RtlAllocateHeap\0"));
    let e = create_ldr_entry(&mut emu, base, 0, "lib.dll", 0, 0);
    assert!(emu.maps.write_qword(LDR + 0x10, e));
    (emu, base)
}

#[test]
fn export_table_is_read() {
    let (emu, base) = emu_with_exports();
    let mut flink = Flink::new(&emu);
    flink.load(&emu);
    assert_eq!(flink.mod_base, base);
    assert_eq!(flink.pe_hdr, 0x80);
    assert_eq!(flink.export_table_rva, 0x1000);
    assert_eq!(flink.export_dir_size, 0x100);
    assert_eq!(flink.export_table, base + 0x1000);
    assert_eq!(flink.num_of_funcs, 2);
    assert_eq!(flink.func_name_tbl_rva, 0x1200);
    assert_eq!(flink.func_name_tbl, base + 0x1200);
}

#[test]
fn export_lookup_through_ordinal() {
    let (emu, base) = emu_with_exports();
    let mut flink = Flink::new(&emu);
    flink.load(&emu);
    let o = flink.get_function_ordinal(&emu, 0);
    assert_eq!(o.func_name, "FuncA");
    assert_eq!(o.ordinal_tbl_rva, 0x1300);
    assert_eq!(o.ordinal_tbl, base + 0x1300);
    assert_eq!(o.ordinal, 1);
    assert_eq!(o.func_addr_tbl_rva, 0x1100);
    assert_eq!(o.func_addr_tbl, base + 0x1100);
    assert_eq!(o.func_rva, 0x600);
    assert_eq!(o.func_va, base + 0x600);
    assert_eq!(o.forwarder, None);
    assert_eq!(o.forward_depth, 1);
}

#[test]
fn forwarded_export_carries_its_forwarder() {
    let (emu, base) = emu_with_exports();
    let mut flink = Flink::new(&emu);
    flink.load(&emu);
    let o = flink.get_function_ordinal_depth(&emu, 1, 3);
    assert_eq!(o.func_name, "FuncB");
    assert_eq!(o.ordinal, 0);
    assert_eq!(o.func_rva, 0x1050);
    assert_eq!(o.forwarder, Some("NTDLL.RtlAllocateHeap".to_string()));
    assert_eq!(o.forward_depth, 4);
    assert_eq!(o.func_va, base + 0x1050);
    let resolved = apply_forward_resolution(o, 0x7ff0_1234);
    assert_eq!(resolved.func_va, 0x7ff0_1234);
}

#[test]
fn unresolved_forwarder_keeps_module_relative_address() {
    let (emu, base) = emu_with_exports();
    let mut flink = Flink::new(&emu);
    flink.load(&emu);
    let o = flink.get_function_ordinal(&emu, 1);
    let kept = apply_forward_resolution(o, 0);
    assert_eq!(kept.func_va, base + 0x1050);
    let plain = flink.get_function_ordinal(&emu, 0);
    let same = apply_forward_resolution(plain, 0x9999);
    assert_eq!(same.func_va, base + 0x600);
}

#[test]
fn listing_reads_pe_signature_bytes() {
    let (mut emu, _) = emu_with_exports();
    assert!(emu.maps.write_bytes(0x30000 + 0x80, b"PE\0\0"));
    let listing = show_linked_modules(&emu);
    assert_eq!(listing.len(), 1);
    assert_eq!(listing[0].name, "lib.dll");
    assert_eq!(listing[0].pe_hdr, 0x80);
    assert_eq!(listing[0].pe1, b'P');
    assert_eq!(listing[0].pe2, b'E');
}
