use mwemu_ldr::emu::{Config, Emu, CFG_DEFAULT_BASE};
use mwemu_ldr::ldr::{get_module_base, show_linked_modules, Flink};
use mwemu_ldr::ldr_lists::{
    collect_modules, ensure_ntdll_loader_globals, ldr_hash_bucket_index, rebuild_ldr_hash_table,
    rebuild_ldr_lists, ModInfo, NTDLL_LDRP_GLOBAL_2680_RVA64, NTDLL_LDRP_GLOBAL_26C0_RVA64,
    NTDLL_LDRP_GLOBAL_26F0_RVA64, NTDLL_LDRP_HASH_TABLE_RVA64,
};
use mwemu_ldr::maps::Permission;
use mwemu_ldr::regs::Arch;

const PEB: u64 = 0x7ffd_f000;
const LDR: u64 = 0x7ffe_0000;
const EXE: u64 = 0x40_0000;
const NTDLL: u64 = 0x7fa0_0000;
const KERNEL32: u64 = 0x7fe0_0000;
const USER32: u64 = 0x7fd0_0000;
const NTDLL_SIZE: u64 = 0x1d_4000;
const FIRST_ALLOC: u64 = LDR + 0x100;

fn emu_with_images() -> Emu {
    let cfg = Config {
        arch: Arch::X86_64,
        code_base_addr: EXE,
        entry_point: CFG_DEFAULT_BASE,
        verbose: 0,
        exe_name: "test.exe".to_string(),
        filename: "/samples/test.exe".to_string(),
    };
    let mut emu = Emu::new(cfg);
    emu.base = EXE;
    assert_eq!(emu.maps.create_map("peb", PEB, 0x1000, Permission::ReadWrite), Ok(()));
    assert_eq!(emu.maps.create_map("ldr_data", LDR, 0x100, Permission::ReadWrite), Ok(()));
    assert!(emu.maps.write_qword(PEB + 0x18, LDR));
    assert_eq!(emu.maps.create_map("test.pe", EXE, 0x1000, Permission::ReadWriteExecute), Ok(()));
    assert!(emu.maps.write_dword(EXE + 0x3c, 0x80));
    assert!(emu.maps.write_dword(EXE + 0x80 + 0x28, 0x1500));
    assert!(emu.maps.write_dword(EXE + 0x80 + 0x50, 0x6000));
    assert_eq!(emu.maps.create_map("ntdll.pe", NTDLL, NTDLL_SIZE, Permission::ReadWrite), Ok(()));
    assert_eq!(emu.maps.create_map("kernel32.pe", KERNEL32, 0x1000, Permission::ReadWrite), Ok(()));
    assert_eq!(emu.maps.create_map("user32.pe", USER32, 0x1000, Permission::ReadWrite), Ok(()));
    emu
}

fn entry(i: u64) -> u64 {
    FIRST_ALLOC + i * 0x940
}

#[test]
fn bucket_index_is_alternating_sum_of_folded_units() {
    // 'B' - 'A' = 1; 'C' - ('B' - 'A') = 66, and 66 mod 32 = 2
    assert_eq!(ldr_hash_bucket_index("ab"), 1);
    assert_eq!(ldr_hash_bucket_index("abc"), 2);
    assert_eq!(ldr_hash_bucket_index("ABC"), 2);
    // 'A' - 'B' = -1, which is 31 mod 32
    assert_eq!(ldr_hash_bucket_index("ba"), 31);
}

#[test]
fn bucket_index_hashes_upper_cased_name() {
    assert_eq!(ldr_hash_bucket_index("a"), 1);
    assert_eq!(ldr_hash_bucket_index("A"), 1);
    assert_eq!(ldr_hash_bucket_index(""), 0);
    assert_eq!(ldr_hash_bucket_index("ntdll.dll"), 20);
    assert_eq!(ldr_hash_bucket_index("NTDLL.DLL"), 20);
    assert_eq!(ldr_hash_bucket_index("kernel32.dll"), 18);
    assert_eq!(ldr_hash_bucket_index("test.exe"), 22);
    assert_eq!(ldr_hash_bucket_index("user32.dll"), 0);
}

#[test]
fn modules_are_listed_exe_ntdll_kernel32_then_rest() {
    let emu = emu_with_images();
    let mods: Vec<(String, u64)> = collect_modules(&emu).into_iter().map(|m| (m.name, m.base)).collect();
    assert_eq!(
        mods,
        vec![
            ("test.exe".to_string(), EXE),
            ("ntdll.dll".to_string(), NTDLL),
            ("kernel32.dll".to_string(), KERNEL32),
            ("user32.dll".to_string(), USER32),
        ]
    );
}

#[test]
fn rebuild_links_entries_into_a_ring() {
    let mut emu = emu_with_images();
    rebuild_ldr_lists(&mut emu);
    for i in 0..4u64 {
        let next = entry((i + 1) % 4);
        let prev = entry((i + 3) % 4);
        assert_eq!(emu.maps.read_qword(entry(i)), Some(next));
        assert_eq!(emu.maps.read_qword(entry(i) + 8), Some(prev));
        assert_eq!(emu.maps.read_qword(entry(i) + 0x10), Some(next + 0x10));
        assert_eq!(emu.maps.read_qword(entry(i) + 0x18), Some(prev + 0x10));
        assert_eq!(emu.maps.read_qword(entry(i) + 0x20), Some(next + 0x20));
        assert_eq!(emu.maps.read_qword(entry(i) + 0x28), Some(prev + 0x20));
    }
}

#[test]
fn rebuild_points_loader_data_at_first_and_last() {
    let mut emu = emu_with_images();
    rebuild_ldr_lists(&mut emu);
    assert_eq!(emu.maps.read_qword(LDR + 0x10), Some(entry(0)));
    assert_eq!(emu.maps.read_qword(LDR + 0x18), Some(entry(3)));
    assert_eq!(emu.maps.read_qword(LDR + 0x20), Some(entry(0) + 0x10));
    assert_eq!(emu.maps.read_qword(LDR + 0x28), Some(entry(3) + 0x10));
    assert_eq!(emu.maps.read_qword(LDR + 0x30), Some(entry(0) + 0x20));
    assert_eq!(emu.maps.read_qword(LDR + 0x38), Some(entry(3) + 0x20));
    assert_eq!(emu.maps.read_dword(LDR + 4), Some(1));
    assert_eq!(emu.maps.read_qword(PEB + 0x10), Some(EXE));
}

#[test]
fn rebuild_records_bases_and_entry_points() {
    let mut emu = emu_with_images();
    rebuild_ldr_lists(&mut emu);
    assert_eq!(emu.maps.read_qword(entry(0) + 0x30), Some(EXE));
    assert_eq!(emu.maps.read_qword(entry(0) + 0x38), Some(EXE + 0x1500));
    assert_eq!(emu.maps.read_dword(entry(0) + 0x40), Some(0x6000));
    assert_eq!(emu.maps.read_qword(entry(1) + 0x30), Some(NTDLL));
    assert_eq!(emu.maps.read_qword(entry(1) + 0x38), Some(0));
    assert_eq!(emu.maps.read_qword(entry(2) + 0x30), Some(KERNEL32));
    assert_eq!(emu.maps.read_qword(entry(3) + 0x30), Some(USER32));
}

#[test]
fn rebuilt_list_walks_in_module_order() {
    let mut emu = emu_with_images();
    rebuild_ldr_lists(&mut emu);
    let names: Vec<String> = show_linked_modules(&emu).into_iter().map(|m| m.name).collect();
    assert_eq!(names, vec!["test.exe", "ntdll.dll", "kernel32.dll", "user32.dll"]);
    let mut flink = Flink::new(&emu);
    assert_eq!(flink.get_ptr(), entry(0));
    flink.load(&emu);
    assert!(flink.next(&emu));
    assert_eq!(flink.mod_name, "ntdll.dll");
    assert_eq!(get_module_base("KERNEL32", &emu), Some(KERNEL32));
    assert_eq!(get_module_base("user32.dll", &emu), Some(USER32));
    assert_eq!(get_module_base("gdi32.dll", &emu), None);
}

#[test]
fn rebuild_fills_ntdll_hash_buckets() {
    let mut emu = emu_with_images();
    rebuild_ldr_lists(&mut emu);
    let table = NTDLL + NTDLL_LDRP_HASH_TABLE_RVA64;
    // "test.exe" alone in bucket 22
    let head = table + 22 * 0x10;
    assert_eq!(emu.maps.read_qword(head), Some(entry(0) + 0x7f));
    assert_eq!(emu.maps.read_qword(head + 8), Some(entry(0) + 0x7f));
    assert_eq!(emu.maps.read_qword(entry(0) + 0x7f), Some(head));
    assert_eq!(emu.maps.read_qword(entry(0) + 0x87), Some(head));
    // "user32.dll" alone in bucket 0
    assert_eq!(emu.maps.read_qword(table), Some(entry(3) + 0x7f));
    // an empty bucket points at itself
    let empty = table + 5 * 0x10;
    assert_eq!(emu.maps.read_qword(empty), Some(empty));
    assert_eq!(emu.maps.read_qword(empty + 8), Some(empty));
}

#[test]
fn rebuild_resets_ntdll_loader_globals() {
    let mut emu = emu_with_images();
    rebuild_ldr_lists(&mut emu);
    let l1 = NTDLL + NTDLL_LDRP_GLOBAL_2680_RVA64;
    let st = NTDLL + NTDLL_LDRP_GLOBAL_26C0_RVA64;
    let l3 = NTDLL + NTDLL_LDRP_GLOBAL_26F0_RVA64;
    assert_eq!(emu.maps.read_qword(l1), Some(l1));
    assert_eq!(emu.maps.read_qword(l1 + 8), Some(l1));
    assert_eq!(emu.maps.read_qword(st), Some(u64::MAX));
    assert_eq!(emu.maps.read_qword(l3), Some(l3));
    assert_eq!(emu.maps.read_qword(l3 + 8), Some(l3));
}

#[test]
fn rebuild_without_loader_data_does_nothing() {
    let mut emu = emu_with_images();
    assert!(emu.maps.write_qword(PEB + 0x18, 0));
    let before = emu.maps.len();
    rebuild_ldr_lists(&mut emu);
    assert_eq!(emu.maps.len(), before);
    assert_eq!(emu.maps.read_qword(PEB + 0x10), Some(0));
}

#[test]
fn globals_need_ntdll() {
    let mut emu = emu_with_images();
    ensure_ntdll_loader_globals(&mut emu);
    let st = NTDLL + NTDLL_LDRP_GLOBAL_26C0_RVA64;
    assert_eq!(emu.maps.read_qword(st), Some(u64::MAX));
}

#[test]
fn hash_buckets_chain_modules_of_one_bucket() {
    let mut emu = emu_with_images();
    assert_eq!(emu.maps.create_map("e", 0x9000_0000, 0x200, Permission::ReadWrite), Ok(()));
    let a = 0x9000_0000u64;
    let b = 0x9000_0100u64;
    let mods = vec![
        ModInfo { name: "a".to_string(), base: 0 },
        ModInfo { name: "A".to_string(), base: 0 },
    ];
    rebuild_ldr_hash_table(&mut emu, &mods, &[a, b]);
    let head = NTDLL + NTDLL_LDRP_HASH_TABLE_RVA64 + 0x10;
    assert_eq!(emu.maps.read_qword(head), Some(a + 0x7f));
    assert_eq!(emu.maps.read_qword(head + 8), Some(b + 0x7f));
    assert_eq!(emu.maps.read_qword(a + 0x7f), Some(b + 0x7f));
    assert_eq!(emu.maps.read_qword(a + 0x87), Some(head));
    assert_eq!(emu.maps.read_qword(b + 0x7f), Some(head));
    assert_eq!(emu.maps.read_qword(b + 0x87), Some(a + 0x7f));
}

#[test]
fn second_rebuild_lists_the_same_modules() {
    let mut emu = emu_with_images();
    rebuild_ldr_lists(&mut emu);
    let first: Vec<(String, u64)> = show_linked_modules(&emu).into_iter().map(|m| (m.name, m.base)).collect();
    rebuild_ldr_lists(&mut emu);
    let second: Vec<(String, u64)> = show_linked_modules(&emu).into_iter().map(|m| (m.name, m.base)).collect();
    assert!(first.len() >= 3);
    assert_eq!(first, second);
}
