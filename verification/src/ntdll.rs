//! The ntdll loader entry points the emulator answers for the guest:
//! `LdrLoadDll` (32 and 64 bit) and `LdrGetDllHandleEx` (64 bit).
use vstd::prelude::*;
use crate::maps::{
    MapView, Permission, fresh_map, overlaps_any, region_for, write_spec, bytes_at, dword_at, qword_at,
};
use crate::regs::{low32, Regs64};
use crate::emu::{Emu, STATUS_SUCCESS};
use crate::ldr::{wide_text, utf8_len};
use crate::text::str_eq;

verus! {

/// Where the user32 image is mapped.
pub const USER32_BASE: u64 = 0x773b0000;

/// Size of each of the two user32 regions.
pub const USER32_REGION_SIZE: u64 = 0x1000;

/// A file whose bytes are to be placed at the start of a region.
pub struct ImageLoad {
    pub map_name: String,
    pub path: String,
}

/// What an image load request names, as a mathematical value.
pub struct ImageLoadView {
    pub map_name: Seq<char>,
    pub path: Seq<char>,
}

impl View for ImageLoad {
    type V = ImageLoadView;

    open spec fn view(&self) -> ImageLoadView {
        ImageLoadView { map_name: self.map_name@, path: self.path@ }
    }
}

/// Memory with the two user32 regions added.
pub open spec fn user32_maps(ms: Seq<MapView>) -> Seq<MapView> {
    ms.push(fresh_map("user32"@, USER32_BASE, USER32_REGION_SIZE as nat, Permission::ReadWrite)).push(
        fresh_map(
            "user32_text"@,
            (USER32_BASE + USER32_REGION_SIZE) as u64,
            USER32_REGION_SIZE as nat,
            Permission::ReadWriteExecute,
        ),
    )
}

/// The two user32 regions can be created.
pub open spec fn user32_room(ms: Seq<MapView>) -> bool {
    !overlaps_any(ms, USER32_BASE as int, USER32_REGION_SIZE as int) && !overlaps_any(
        ms,
        USER32_BASE + USER32_REGION_SIZE,
        USER32_REGION_SIZE as int,
    )
}

/// The files to place in the two user32 regions.
pub open spec fn user32_loads() -> Seq<ImageLoadView> {
    seq![
        ImageLoadView { map_name: "user32"@, path: "maps32/user32.bin"@ },
        ImageLoadView { map_name: "user32_text"@, path: "maps32/user32_text.bin"@ },
    ]
}

/// The guest asks for the module named at `name_ptr`, and it is user32.
pub open spec fn asks_user32(ms: Seq<MapView>, name_ptr: u64) -> bool {
    wide_text(ms, name_ptr) == "user32.dll"@
}

/// `LdrLoadDll` of a 32-bit guest can run: its two stack arguments are readable
/// and, for user32, its regions fit and the out parameter is writable afterwards.
pub open spec fn ldr_load_dll32_ok(ms: Seq<MapView>, regs: Regs64) -> bool {
    let esp = low32(regs.rsp);
    &&& dword_at(ms, esp + 12) is Some
    &&& dword_at(ms, esp + 16) is Some
    &&& asks_user32(ms, dword_at(ms, esp + 12)->0 as u64) ==> user32_room(ms) && region_for(
        user32_maps(ms),
        dword_at(ms, esp + 16)->0 as int,
        4,
    ) is Some
}

/// `LdrLoadDll` of a 64-bit guest can run: for user32, its regions fit and the
/// out parameter is writable afterwards.
pub open spec fn ldr_load_dll64_ok(ms: Seq<MapView>, regs: Regs64) -> bool {
    asks_user32(ms, regs.r8) ==> user32_room(ms) && region_for(user32_maps(ms), regs.r9 as int, 8) is Some
}

/// Memory and file requests after `LdrLoadDll` of a 32-bit guest.
pub open spec fn load_dll32_result(ms: Seq<MapView>, regs: Regs64) -> (Seq<MapView>, Seq<ImageLoadView>) {
    let esp = low32(regs.rsp);
    let name_ptr = dword_at(ms, esp + 12)->0 as u64;
    let out_ptr = dword_at(ms, esp + 16)->0 as u64;
    if asks_user32(ms, name_ptr) {
        (write_spec(user32_maps(ms), out_ptr as int, crate::bytes::le_bytes32(USER32_BASE as u32)), user32_loads())
    } else {
        (ms, Seq::empty())
    }
}

/// Memory and file requests after `LdrLoadDll` of a 64-bit guest.
pub open spec fn load_dll64_result(ms: Seq<MapView>, regs: Regs64) -> (Seq<MapView>, Seq<ImageLoadView>) {
    if asks_user32(ms, regs.r8) {
        (write_spec(user32_maps(ms), regs.r9 as int, crate::bytes::le_bytes64(USER32_BASE)), user32_loads())
    } else {
        (ms, Seq::empty())
    }
}

fn map_user32(emu: &mut Emu) -> (r: Vec<ImageLoad>)
    requires
        old(emu).wf(),
        user32_room(old(emu).maps@),
    ensures
        final(emu).wf(),
        final(emu).maps@ == user32_maps(old(emu).maps@),
        r@.map_values(|l: ImageLoad| l@) == user32_loads(),
        final(emu).regs == old(emu).regs && final(emu).cfg == old(emu).cfg && final(emu).base == old(emu).base
            && final(emu).ldr_seq == old(emu).ldr_seq && final(emu).handles == old(emu).handles
            && final(emu).elf64 == old(emu).elf64 && final(emu).dyn_link == old(emu).dyn_link
            && final(emu).flags == old(emu).flags,
{
    let ghost ms = emu.maps@;
    match emu.maps.create_map("user32", USER32_BASE, USER32_REGION_SIZE, Permission::ReadWrite) {
        Ok(()) => {},
        Err(_) => {
            assert(false);
        },
    }
    let ghost m1 = emu.maps@;
    assert(!overlaps_any(m1, USER32_BASE + USER32_REGION_SIZE, USER32_REGION_SIZE as int)) by {
        assert forall|i: int| 0 <= i < m1.len() implies (crate::maps::map_end(#[trigger] m1[i]) <= USER32_BASE
            + USER32_REGION_SIZE || USER32_BASE + USER32_REGION_SIZE + USER32_REGION_SIZE <= m1[i].base) by {
            if i < ms.len() {
                assert(m1[i] == ms[i]);
            }
        }
    }
    match emu.maps.create_map(
        "user32_text",
        USER32_BASE + USER32_REGION_SIZE,
        USER32_REGION_SIZE,
        Permission::ReadWriteExecute,
    ) {
        Ok(()) => {},
        Err(_) => {
            assert(false);
        },
    }
    let mut loads: Vec<ImageLoad> = Vec::new();
    loads.push(ImageLoad { map_name: "user32".to_owned(), path: "maps32/user32.bin".to_owned() });
    loads.push(ImageLoad { map_name: "user32_text".to_owned(), path: "maps32/user32_text.bin".to_owned() });
    assert(loads@.map_values(|l: ImageLoad| l@) =~= user32_loads());
    loads
}

/// `LdrLoadDll` for a 32-bit guest. The module name is read through the
/// pointer at `esp + 12`; for "user32.dll" the two user32 regions are mapped
/// (the returned requests name the files that fill them) and their base is
/// stored through the pointer at `esp + 16`. `eax` becomes `STATUS_SUCCESS`.
pub fn ldr_load_dll32(emu: &mut Emu) -> (r: Vec<ImageLoad>)
    requires
        old(emu).wf(),
        ldr_load_dll32_ok(old(emu).maps@, old(emu).regs),
    ensures
        final(emu).wf(),
        (final(emu).maps@, r@.map_values(|l: ImageLoad| l@)) == load_dll32_result(old(emu).maps@, old(emu).regs),
        final(emu).regs == (Regs64 { rax: STATUS_SUCCESS, ..old(emu).regs }),
        final(emu).cfg == old(emu).cfg && final(emu).base == old(emu).base
            && final(emu).ldr_seq == old(emu).ldr_seq && final(emu).handles == old(emu).handles
            && final(emu).elf64 == old(emu).elf64 && final(emu).dyn_link == old(emu).dyn_link
            && final(emu).flags == old(emu).flags,
{
    proof {
        reveal(wide_text);
    }
    let esp = emu.regs.get_esp();
    let libname_ptr = match emu.maps.read_dword(esp + 12) {
        Some(v) => v as u64,
        None => 0,
    };
    let libaddr_ptr = match emu.maps.read_dword(esp + 16) {
        Some(v) => v as u64,
        None => 0,
    };
    let libname = emu.maps.read_wide_string(libname_ptr);
    let mut loads: Vec<ImageLoad> = Vec::new();
    if str_eq(libname.as_str(), "user32.dll") {
        loads = map_user32(emu);
        emu.maps.write_dword(libaddr_ptr, USER32_BASE as u32);
    } else {
        assert(loads@.map_values(|l: ImageLoad| l@) =~= Seq::<ImageLoadView>::empty());
    }
    emu.regs.rax = STATUS_SUCCESS;
    loads
}

/// The same entry point reached under its second name.
pub fn ldr_load_dll32_gul(emu: &mut Emu) -> (r: Vec<ImageLoad>)
    requires
        old(emu).wf(),
        ldr_load_dll32_ok(old(emu).maps@, old(emu).regs),
    ensures
        final(emu).wf(),
        (final(emu).maps@, r@.map_values(|l: ImageLoad| l@)) == load_dll32_result(old(emu).maps@, old(emu).regs),
        final(emu).regs == (Regs64 { rax: STATUS_SUCCESS, ..old(emu).regs }),
        final(emu).cfg == old(emu).cfg && final(emu).base == old(emu).base
            && final(emu).ldr_seq == old(emu).ldr_seq && final(emu).handles == old(emu).handles
            && final(emu).elf64 == old(emu).elf64 && final(emu).dyn_link == old(emu).dyn_link
            && final(emu).flags == old(emu).flags,
{
    ldr_load_dll32(emu)
}

/// `LdrLoadDll` for a 64-bit guest. The module name is read through `r8`; for
/// "user32.dll" the two user32 regions are mapped (the returned requests name
/// the files that fill them) and their base is stored through `r9`.
/// `rax` becomes `STATUS_SUCCESS`.
pub fn ldr_load_dll64(emu: &mut Emu) -> (r: Vec<ImageLoad>)
    requires
        old(emu).wf(),
        ldr_load_dll64_ok(old(emu).maps@, old(emu).regs),
    ensures
        final(emu).wf(),
        (final(emu).maps@, r@.map_values(|l: ImageLoad| l@)) == load_dll64_result(old(emu).maps@, old(emu).regs),
        final(emu).regs == (Regs64 { rax: STATUS_SUCCESS, ..old(emu).regs }),
        final(emu).cfg == old(emu).cfg && final(emu).base == old(emu).base
            && final(emu).ldr_seq == old(emu).ldr_seq && final(emu).handles == old(emu).handles
            && final(emu).elf64 == old(emu).elf64 && final(emu).dyn_link == old(emu).dyn_link
            && final(emu).flags == old(emu).flags,
{
    proof {
        reveal(wide_text);
    }
    let libname_ptr = emu.regs.r8;
    let libaddr_ptr = emu.regs.r9;
    let libname = emu.maps.read_wide_string(libname_ptr);
    let mut loads: Vec<ImageLoad> = Vec::new();
    if str_eq(libname.as_str(), "user32.dll") {
        loads = map_user32(emu);
        emu.maps.write_qword(libaddr_ptr, USER32_BASE);
    } else {
        assert(loads@.map_values(|l: ImageLoad| l@) =~= Seq::<ImageLoadView>::empty());
    }
    emu.regs.rax = STATUS_SUCCESS;
    loads
}


/// `LdrGetDllHandleEx` of a 64-bit guest can run: the out-handle pointer at
/// `rsp + 0x20` is readable and the name (as many bytes as its UTF-8 length)
/// can be copied from `r9` to `rdx`.
pub open spec fn get_dll_handle_ok(ms: Seq<MapView>, regs: Regs64) -> bool {
    let n = utf8_len(wide_text(ms, regs.r9));
    &&& qword_at(ms, regs.rsp + 0x20) is Some
    &&& n > 0 ==> bytes_at(ms, regs.r9 as int, n as nat) is Some && region_for(ms, regs.rdx as int, n as int) is Some
}

/// Memory after `LdrGetDllHandleEx` handed out handle `handle`.
pub open spec fn get_dll_handle_maps(ms: Seq<MapView>, regs: Regs64, handle: u64) -> Seq<MapView> {
    let n = utf8_len(wide_text(ms, regs.r9));
    let out = qword_at(ms, regs.rsp + 0x20)->0;
    let m1 = if n == 0 {
        ms
    } else {
        write_spec(ms, regs.rdx as int, bytes_at(ms, regs.r9 as int, n as nat)->0)
    };
    write_spec(m1, out as int, crate::bytes::le_bytes64(handle))
}

/// `LdrGetDllHandleEx` for a 64-bit guest: copies the module name at `r9`
/// (UTF-8 length many bytes) to `rdx`, creates a handle for the name, stores
/// it through the pointer at `rsp + 0x20`, and sets `rax` to 1.
pub fn ldr_get_dll_handle_ex(emu: &mut Emu)
    requires
        old(emu).wf(),
        get_dll_handle_ok(old(emu).maps@, old(emu).regs),
    ensures
        final(emu).wf(),
        final(emu).handles@.len() == old(emu).handles@.len() + 1,
        forall|i: int| 0 <= i < old(emu).handles@.len() ==> final(emu).handles@[i] == old(emu).handles@[i],
        final(emu).handles@.last().id == crate::emu::next_handle_id(old(emu).handles@),
        final(emu).handles@.last().uri@ == wide_text(old(emu).maps@, old(emu).regs.r9),
        final(emu).maps@ == get_dll_handle_maps(
            old(emu).maps@,
            old(emu).regs,
            crate::emu::next_handle_id(old(emu).handles@),
        ),
        final(emu).regs == (Regs64 { rax: 1, ..old(emu).regs }),
        final(emu).cfg == old(emu).cfg && final(emu).base == old(emu).base
            && final(emu).ldr_seq == old(emu).ldr_seq && final(emu).elf64 == old(emu).elf64
            && final(emu).dyn_link == old(emu).dyn_link && final(emu).flags == old(emu).flags,
{
    proof {
        reveal(wide_text);
    }
    let ghost ms = emu.maps@;
    let path_ptr = emu.regs.rdx;
    let dll_name_ptr = emu.regs.r9;
    let out_hndl = match emu.maps.read_qword(emu.regs.rsp + 0x20) {
        Some(v) => v,
        None => 0,
    };
    let dll_name = emu.maps.read_wide_string(dll_name_ptr);
    let n = dll_name.as_str().len();
    assert(n == utf8_len(wide_text(ms, dll_name_ptr)));
    emu.maps.memcpy(path_ptr, dll_name_ptr, n);
    let handle = emu.handler_create(dll_name.as_str());
    emu.maps.write_qword(out_hndl, handle);
    emu.regs.rax = 1;
}

/// Runs the 32-bit ntdll loader entry point `api`; `None` when `api` is not one of them.
pub fn dispatch32(api: &str, emu: &mut Emu) -> (r: Option<Vec<ImageLoad>>)
    requires
        old(emu).wf(),
        (api@ == "LdrLoadDll"@ || api@ == "LdrLoadDll_gul"@) ==> ldr_load_dll32_ok(old(emu).maps@, old(emu).regs),
    ensures
        final(emu).wf(),
        (api@ == "LdrLoadDll"@ || api@ == "LdrLoadDll_gul"@) ==> (r matches Some(loads) && (final(emu).maps@, loads@.map_values(|l: ImageLoad| l@))
            == load_dll32_result(old(emu).maps@, old(emu).regs) && final(emu).regs == (Regs64 {
            rax: STATUS_SUCCESS,
            ..old(emu).regs
        })),
        !(api@ == "LdrLoadDll"@ || api@ == "LdrLoadDll_gul"@) ==> r is None && final(emu).maps == old(emu).maps && final(emu).regs == old(emu).regs,
        final(emu).cfg == old(emu).cfg && final(emu).base == old(emu).base
            && final(emu).ldr_seq == old(emu).ldr_seq && final(emu).handles == old(emu).handles
            && final(emu).elf64 == old(emu).elf64 && final(emu).dyn_link == old(emu).dyn_link
            && final(emu).flags == old(emu).flags,
{
    if str_eq(api, "LdrLoadDll") {
        Some(ldr_load_dll32(emu))
    } else if str_eq(api, "LdrLoadDll_gul") {
        Some(ldr_load_dll32_gul(emu))
    } else {
        None
    }
}

/// Runs the 64-bit ntdll loader entry point `api`; `None` when `api` is not one of them.
pub fn dispatch64(api: &str, emu: &mut Emu) -> (r: Option<Vec<ImageLoad>>)
    requires
        old(emu).wf(),
        api@ == "LdrLoadDll"@ ==> ldr_load_dll64_ok(old(emu).maps@, old(emu).regs),
        api@ == "LdrGetDllHandleEx"@ ==> get_dll_handle_ok(old(emu).maps@, old(emu).regs),
    ensures
        final(emu).wf(),
        api@ == "LdrLoadDll"@ ==> (r matches Some(loads) && (final(emu).maps@, loads@.map_values(|l: ImageLoad| l@))
            == load_dll64_result(old(emu).maps@, old(emu).regs) && final(emu).regs == (Regs64 {
            rax: STATUS_SUCCESS,
            ..old(emu).regs
        }) && final(emu).handles == old(emu).handles),
        api@ == "LdrGetDllHandleEx"@ ==> (r matches Some(loads) && loads@.len() == 0 && final(emu).maps@
            == get_dll_handle_maps(old(emu).maps@, old(emu).regs, crate::emu::next_handle_id(old(emu).handles@))
            && final(emu).regs == (Regs64 { rax: 1, ..old(emu).regs })),
        !(api@ == "LdrLoadDll"@ || api@ == "LdrGetDllHandleEx"@) ==> r is None && final(emu).maps == old(emu).maps
            && final(emu).regs == old(emu).regs && final(emu).handles == old(emu).handles,
        final(emu).cfg == old(emu).cfg && final(emu).base == old(emu).base
            && final(emu).ldr_seq == old(emu).ldr_seq && final(emu).elf64 == old(emu).elf64
            && final(emu).dyn_link == old(emu).dyn_link && final(emu).flags == old(emu).flags,
{
    proof {
        reveal_strlit("LdrLoadDll");
        reveal_strlit("LdrGetDllHandleEx");
        assert("LdrLoadDll"@.len() != "LdrGetDllHandleEx"@.len());
    }
    if str_eq(api, "LdrLoadDll") {
        Some(ldr_load_dll64(emu))
    } else if str_eq(api, "LdrGetDllHandleEx") {
        ldr_get_dll_handle_ex(emu);
        let v: Vec<ImageLoad> = Vec::new();
        Some(v)
    } else {
        None
    }
}

} // verus!
