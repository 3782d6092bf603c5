use mwemu_ldr::elf::{find_text_section, select_entry_point, EntrySelection};
use mwemu_ldr::emu::{Config, Elf64, Elf64Section, Emu, CFG_DEFAULT_BASE, STATUS_SUCCESS};
use mwemu_ldr::maps::{Maps, Permission};
use mwemu_ldr::ntdll::{
    dispatch32, dispatch64, ldr_get_dll_handle_ex, ldr_load_dll32, ldr_load_dll32_gul, ldr_load_dll64,
    USER32_BASE, USER32_REGION_SIZE,
};
use mwemu_ldr::regs::{Arch, Regs64};

fn config(entry_point: u64) -> Config {
    Config {
        arch: Arch::X86_64,
        code_base_addr: 0x40_0000,
        entry_point,
        verbose: 0,
        exe_name: "sample".to_string(),
        filename: "sample".to_string(),
    }
}

fn mapped_image() -> (Maps, Regs64) {
    let mut maps = Maps::new();
    assert_eq!(maps.create_map("elf64.text", 0x40_1000, 0x200, Permission::ReadWriteExecute), Ok(()));
    assert_eq!(maps.create_map("stack", 0x7ff0_0000, 0x1000, Permission::ReadWrite), Ok(()));
    let mut regs = Regs64::new();
    regs.rsp = 0x7ff0_0ff0;
    (maps, regs)
}

fn emu_with_stack() -> Emu {
    let mut emu = Emu::new(config(CFG_DEFAULT_BASE));
    assert_eq!(emu.maps.create_map("stack", 0x10_0000, 0x1000, Permission::ReadWrite), Ok(()));
    emu
}

fn elf(e_entry: u64, sections: Vec<(&str, u64, u64)>, dynamic: Vec<&str>) -> Elf64 {
    Elf64 {
        e_entry,
        base: 0x55_0000,
        sections: sections
            .into_iter()
            .map(|(n, a, s)| Elf64Section { name: n.to_string(), addr: a, size: s })
            .collect(),
        dynamic: dynamic.into_iter().map(|s| s.to_string()).collect(),
    }
}

#[test]
fn load_dll64_maps_user32() {
    let mut emu = emu_with_stack();
    assert!(emu.maps.write_wide_string(0x10_0100, "user32.dll\0"));
    emu.regs.r8 = 0x10_0100;
    emu.regs.r9 = 0x10_0200;
    emu.regs.rax = 77;
    let loads = ldr_load_dll64(&mut emu);
    assert_eq!(emu.regs.rax, STATUS_SUCCESS);
    assert_eq!(emu.maps.read_qword(0x10_0200), Some(USER32_BASE));
    let u = emu.maps.get_map_by_name("user32").unwrap();
    assert_eq!(u.get_base(), USER32_BASE);
    assert_eq!(u.size() as u64, USER32_REGION_SIZE);
    let t = emu.maps.get_map_by_name("user32_text").unwrap();
    assert_eq!(t.get_base(), USER32_BASE + USER32_REGION_SIZE);
    assert_eq!(t.permission, Permission::ReadWriteExecute);
    let files: Vec<(String, String)> = loads.into_iter().map(|l| (l.map_name, l.path)).collect();
    assert_eq!(
        files,
        vec![
            ("user32".to_string(), "maps32/user32.bin".to_string()),
            ("user32_text".to_string(), "maps32/user32_text.bin".to_string()),
        ]
    );
}

#[test]
fn load_dll64_of_other_module_only_reports_success() {
    let mut emu = emu_with_stack();
    assert!(emu.maps.write_wide_string(0x10_0100, "gdi32.dll\0"));
    emu.regs.r8 = 0x10_0100;
    emu.regs.r9 = 0x10_0200;
    let loads = ldr_load_dll64(&mut emu);
    assert!(loads.is_empty());
    assert_eq!(emu.regs.rax, STATUS_SUCCESS);
    assert_eq!(emu.maps.len(), 1);
    assert_eq!(emu.maps.read_qword(0x10_0200), Some(0));
}

#[test]
fn load_dll32_reads_stack_arguments() {
    let mut emu = emu_with_stack();
    emu.regs.rsp = 0x10_0000;
    assert!(emu.maps.write_dword(0x10_000c, 0x10_0100));
    assert!(emu.maps.write_dword(0x10_0010, 0x10_0200));
    assert!(emu.maps.write_wide_string(0x10_0100, "user32.dll\0"));
    let loads = ldr_load_dll32(&mut emu);
    assert_eq!(loads.len(), 2);
    assert_eq!(emu.regs.rax, STATUS_SUCCESS);
    assert_eq!(emu.maps.read_dword(0x10_0200), Some(USER32_BASE as u32));
    assert_eq!(emu.maps.read_dword(0x10_0204), Some(0));
    assert!(emu.maps.exists_mapname("user32_text"));
}

#[test]
fn load_dll32_second_name_behaves_the_same() {
    let mut emu = emu_with_stack();
    emu.regs.rsp = 0x10_0000;
    assert!(emu.maps.write_dword(0x10_000c, 0x10_0100));
    assert!(emu.maps.write_dword(0x10_0010, 0x10_0200));
    assert!(emu.maps.write_wide_string(0x10_0100, "comctl32.dll\0"));
    let loads = ldr_load_dll32_gul(&mut emu);
    assert!(loads.is_empty());
    assert_eq!(emu.regs.rax, STATUS_SUCCESS);
    assert!(!emu.maps.exists_mapname("user32"));
}

#[test]
fn get_dll_handle_copies_name_and_hands_out_handle() {
    let mut emu = emu_with_stack();
    emu.regs.rsp = 0x10_0000;
    assert!(emu.maps.write_qword(0x10_0020, 0x10_0300));
    assert!(emu.maps.write_wide_string(0x10_0100, "ntdll.dll\0"));
    emu.regs.r9 = 0x10_0100;
    emu.regs.rdx = 0x10_0400;
    ldr_get_dll_handle_ex(&mut emu);
    assert_eq!(emu.regs.rax, 1);
    assert_eq!(emu.maps.read_qword(0x10_0300), Some(1));
    assert_eq!(emu.handles.len(), 1);
    assert_eq!(emu.handles[0].id, 1);
    assert_eq!(emu.handles[0].uri, "ntdll.dll");
    let copied = emu.maps.read_bytes(0x10_0400, 9).unwrap();
    let source = emu.maps.read_bytes(0x10_0100, 9).unwrap();
    assert_eq!(copied, source);
    ldr_get_dll_handle_ex(&mut emu);
    assert_eq!(emu.maps.read_qword(0x10_0300), Some(2));
}

#[test]
fn dispatch64_knows_its_entry_points() {
    let mut emu = emu_with_stack();
    assert!(emu.maps.write_wide_string(0x10_0100, "x.dll\0"));
    emu.regs.r8 = 0x10_0100;
    emu.regs.rax = 5;
    assert_eq!(dispatch64("LdrLoadDll", &mut emu).map(|v| v.len()), Some(0));
    assert_eq!(emu.regs.rax, STATUS_SUCCESS);
    emu.regs.rax = 5;
    assert!(dispatch64("LdrUnloadDll", &mut emu).is_none());
    assert_eq!(emu.regs.rax, 5);
}

#[test]
fn dispatch64_get_dll_handle() {
    let mut emu = emu_with_stack();
    emu.regs.rsp = 0x10_0000;
    assert!(emu.maps.write_qword(0x10_0020, 0x10_0300));
    assert!(emu.maps.write_wide_string(0x10_0100, "k.dll\0"));
    emu.regs.r9 = 0x10_0100;
    emu.regs.rdx = 0x10_0400;
    assert_eq!(dispatch64("LdrGetDllHandleEx", &mut emu).map(|v| v.len()), Some(0));
    assert_eq!(emu.regs.rax, 1);
    assert_eq!(emu.handles.len(), 1);
}

#[test]
fn dispatch32_knows_both_names() {
    let mut emu = emu_with_stack();
    emu.regs.rsp = 0x10_0000;
    assert!(emu.maps.write_dword(0x10_000c, 0x10_0100));
    assert!(emu.maps.write_dword(0x10_0010, 0x10_0200));
    assert!(emu.maps.write_wide_string(0x10_0100, "x.dll\0"));
    assert!(dispatch32("LdrLoadDll", &mut emu).is_some());
    assert!(dispatch32("LdrLoadDll_gul", &mut emu).is_some());
    emu.regs.rax = 9;
    assert!(dispatch32("LdrGetDllHandleEx", &mut emu).is_none());
    assert_eq!(emu.regs.rax, 9);
}

#[test]
fn handles_count_up_from_one() {
    let mut emu = emu_with_stack();
    assert_eq!(emu.handler_create("a"), 1);
    assert_eq!(emu.handler_create("b"), 2);
    assert_eq!(emu.handles[1].uri, "b");
}

#[test]
fn text_section_is_the_first_named_text() {
    let e = elf(0x1000, vec![(".init", 0x800, 0x10), (".text", 0x1000, 0x200), (".text", 0x5000, 1)], vec![]);
    assert_eq!(find_text_section(&e), (0x1000, 0x200));
    let none = elf(0x1000, vec![(".data", 0x800, 0x10)], vec![]);
    assert_eq!(find_text_section(&none), (0, 0));
}

#[test]
fn entry_point_rules() {
    let secs = vec![(".text", 0x1000, 0x200)];
    assert_eq!(select_entry_point(&elf(0x1100, secs.clone(), vec![]), 0x7000), EntrySelection::Configured(0x7000));
    assert_eq!(select_entry_point(&elf(0x1100, secs.clone(), vec![]), CFG_DEFAULT_BASE), EntrySelection::InText(0x1100));
    assert_eq!(
        select_entry_point(&elf(0x40, secs.clone(), vec![]), CFG_DEFAULT_BASE),
        EntrySelection::Relative(0x55_0040)
    );
    assert_eq!(select_entry_point(&elf(0x1200, secs.clone(), vec![]), CFG_DEFAULT_BASE), EntrySelection::BeyondText);
    assert_eq!(select_entry_point(&elf(0x1100, vec![], vec![]), 0x7000), EntrySelection::NoText);
}

#[test]
fn loading_elf_sets_pc_and_link_kind() {
    let mut emu = Emu::new(config(CFG_DEFAULT_BASE));
    let (maps, regs) = mapped_image();
    emu.load_elf64(elf(0x1100, vec![(".text", 0x1000, 0x200)], vec!["libc.so.6"]), maps, regs);
    assert_eq!(emu.pc(), 0x1100);
    assert_eq!(emu.regs.rsp, 0x7ff0_0ff0);
    assert_eq!(emu.maps.len(), 2);
    assert_eq!(emu.maps.get_mem("elf64.text").get_base(), 0x40_1000);
    assert!(emu.dyn_link);
    assert!(emu.elf64.is_some());
    assert_eq!(emu.elf64.as_ref().unwrap().get_dynamic().len(), 1);
}

#[test]
fn loading_static_elf_with_configured_entry() {
    let mut emu = Emu::new(config(0x7777));
    let (maps, regs) = mapped_image();
    emu.load_elf64(elf(0x1100, vec![(".text", 0x1000, 0x200)], vec![]), maps, regs);
    assert_eq!(emu.pc(), 0x7777);
    assert!(!emu.dyn_link);
}

#[test]
fn set_pc_sets_rip() {
    let mut emu = Emu::new(config(CFG_DEFAULT_BASE));
    emu.set_pc(0x1234);
    assert_eq!(emu.regs.rip, 0x1234);
    assert_eq!(emu.pc(), 0x1234);
}
