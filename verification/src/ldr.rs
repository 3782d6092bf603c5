//! The PEB loader list of a 64-bit guest: walking the
//! `InLoadOrderModuleList`, reading module headers and export tables,
//! adding, removing and rebuilding loader entries.
use vstd::prelude::*;
use crate::bytes::le_u64;
use crate::maps::{
    MapView, Permission, fresh_map, alloc_spec, write_wide_spec, qword_at, dword_at, word_at, wide_units,
    c_bytes, map_named, holds, write_spec, lemma_alloc_fresh, lemma_region_for_holds, lemma_map_named_props,
};
use crate::text::{utf16_lossy, utf8_lossy};
use crate::emu::Emu;
use crate::structures::{OrdinalTable, OrdinalView, LdrDataTableEntry64, ListEntry64, UnicodeString64, ldr_entry_bytes, LDR_ENTRY_SIZE};
use crate::text::{lowercase, has_suffix, to_lowercase, ends_with, str_eq, decimal_chars, decimal_string};

verus! {

/// Addition modulo 2^64.
pub open spec fn wadd(a: u64, b: u64) -> u64 {
    vstd::wrapping::u64_specs::wrapping_add(a, b)
}

/// Multiplication modulo 2^64.
pub open spec fn wmul(a: u64, b: u64) -> u64 {
    vstd::wrapping::u64_specs::wrapping_mul(a, b)
}

/// The qword at `a`, or 0 when it cannot be read.
#[verifier::opaque]
pub open spec fn rq(ms: Seq<MapView>, a: u64) -> u64 {
    match qword_at(ms, a as int) {
        Some(v) => v,
        None => 0,
    }
}

/// The dword at `a` widened to 64 bits, or 0 when it cannot be read.
#[verifier::opaque]
pub open spec fn rd(ms: Seq<MapView>, a: u64) -> u64 {
    match dword_at(ms, a as int) {
        Some(v) => v as u64,
        None => 0,
    }
}

/// The word at `a` widened to 64 bits, or 0 when it cannot be read.
#[verifier::opaque]
pub open spec fn rw(ms: Seq<MapView>, a: u64) -> u64 {
    match word_at(ms, a as int) {
        Some(v) => v as u64,
        None => 0,
    }
}

/// The text of the UTF-16 string at `a`.
#[verifier::opaque]
pub open spec fn wide_text(ms: Seq<MapView>, a: u64) -> Seq<char> {
    utf16_lossy(wide_units(ms, a as int))
}

/// The text of the byte string at `a`.
#[verifier::opaque]
pub open spec fn c_text(ms: Seq<MapView>, a: u64) -> Seq<char> {
    utf8_lossy(c_bytes(ms, a as int))
}

/// The region named "peb" exists and holds its `Ldr` pointer at offset 0x18.
pub open spec fn has_peb(ms: Seq<MapView>) -> bool {
    match map_named(ms, "peb"@) {
        Some(i) => holds(ms[i], ms[i].base + 0x18, 8),
        None => false,
    }
}

/// The address of the region named "peb".
pub open spec fn peb_base(ms: Seq<MapView>) -> u64 {
    ms[map_named(ms, "peb"@)->0].base
}

/// `PEB.Ldr`.
pub open spec fn peb_ldr(ms: Seq<MapView>) -> u64 {
    let m = ms[map_named(ms, "peb"@)->0];
    le_u64(m.data.subrange(0x18, 0x20))
}

/// `Ldr.InLoadOrderModuleList.Flink`, or 0 when it cannot be read.
pub open spec fn list_head(ms: Seq<MapView>) -> u64 {
    rq(ms, wadd(peb_ldr(ms), 0x10))
}

/// What a `Flink` knows, as a mathematical value.
pub struct FlinkView {
    pub flink_addr: u64,
    pub mod_base: u64,
    pub mod_name: Seq<char>,
    pub pe_hdr: u64,
    pub export_table_rva: u64,
    pub export_dir_size: u64,
    pub export_table: u64,
    pub num_of_funcs: u64,
    pub func_name_tbl_rva: u64,
    pub func_name_tbl: u64,
}

/// A cursor on one loader entry, with what was read of its module.
#[derive(Debug)]
pub struct Flink {
    /// The address of the entry the cursor is on.
    pub flink_addr: u64,
    pub mod_base: u64,
    pub mod_name: String,
    pub pe_hdr: u64,
    pub export_table_rva: u64,
    pub export_dir_size: u64,
    pub export_table: u64,
    pub num_of_funcs: u64,
    pub func_name_tbl_rva: u64,
    pub func_name_tbl: u64,
}

impl View for Flink {
    type V = FlinkView;

    open spec fn view(&self) -> FlinkView {
        FlinkView {
            flink_addr: self.flink_addr,
            mod_base: self.mod_base,
            mod_name: self.mod_name@,
            pe_hdr: self.pe_hdr,
            export_table_rva: self.export_table_rva,
            export_dir_size: self.export_dir_size,
            export_table: self.export_table,
            num_of_funcs: self.num_of_funcs,
            func_name_tbl_rva: self.func_name_tbl_rva,
            func_name_tbl: self.func_name_tbl,
        }
    }
}

/// `DllBase` of the entry at `p`.
pub open spec fn mod_base_at(ms: Seq<MapView>, p: u64) -> u64 {
    rq(ms, wadd(p, 0x30))
}

/// `BaseDllName` of the entry at `p`.
pub open spec fn mod_name_at(ms: Seq<MapView>, p: u64) -> Seq<char> {
    wide_text(ms, rq(ms, wadd(p, 0x60)))
}

/// `e_lfanew` of the image at `base`, or 0 when it cannot be read.
pub open spec fn pe_hdr_of(ms: Seq<MapView>, base: u64) -> u64 {
    rd(ms, wadd(base, 0x3c))
}

/// The cursor after reading the export directory of its module.
#[verifier::opaque]
pub open spec fn export_spec(ms: Seq<MapView>, v: FlinkView) -> FlinkView {
    if v.pe_hdr == 0 {
        v
    } else {
        let rva = rd(ms, wadd(wadd(v.mod_base, v.pe_hdr), 0x88));
        let size = rd(ms, wadd(wadd(v.mod_base, v.pe_hdr), 0x8c));
        if rva == 0 {
            FlinkView { export_table_rva: rva, export_dir_size: size, ..v }
        } else {
            let table = wadd(rva, v.mod_base);
            let names_rva = rd(ms, wadd(table, 0x20));
            FlinkView {
                export_table_rva: rva,
                export_dir_size: size,
                export_table: table,
                num_of_funcs: rd(ms, wadd(table, 0x18)),
                func_name_tbl_rva: names_rva,
                func_name_tbl: wadd(names_rva, v.mod_base),
                ..v
            }
        }
    }
}

/// The cursor after reading base, name, PE header and export directory of its entry.
pub open spec fn load_spec(ms: Seq<MapView>, v: FlinkView) -> FlinkView {
    let base = mod_base_at(ms, v.flink_addr);
    export_spec(
        ms,
        FlinkView {
            mod_base: base,
            mod_name: mod_name_at(ms, v.flink_addr),
            pe_hdr: pe_hdr_of(ms, base),
            ..v
        },
    )
}

/// A cursor on `p` that has read nothing yet.
pub open spec fn fresh_flink(p: u64) -> FlinkView {
    FlinkView {
        flink_addr: p,
        mod_base: 0,
        mod_name: Seq::empty(),
        pe_hdr: 0,
        export_table_rva: 0,
        export_dir_size: 0,
        export_table: 0,
        num_of_funcs: 0,
        func_name_tbl_rva: 0,
        func_name_tbl: 0,
    }
}

/// Where `Flink::next` moves from `p`: the forward link, unless it is 0 or `p` itself.
pub open spec fn next_of(ms: Seq<MapView>, p: u64) -> Option<u64> {
    let nx = rq(ms, p);
    if nx == 0 || nx == p {
        None
    } else {
        Some(nx)
    }
}

/// The `k`-th entry visited by a walk that starts at `first` and stops when
/// `next` fails or comes back to `first`.
pub open spec fn chain(ms: Seq<MapView>, first: u64, k: nat) -> Option<u64>
    decreases k,
{
    if k == 0 {
        Some(first)
    } else {
        match chain(ms, first, (k - 1) as nat) {
            Some(p) => match next_of(ms, p) {
                Some(nx) => if nx == first {
                    None
                } else {
                    Some(nx)
                },
                None => None,
            },
            None => None,
        }
    }
}


/// What `get_function_ordinal_depth` finds for export `id` of the module the cursor `f` is on.
pub open spec fn ordinal_spec(ms: Seq<MapView>, f: FlinkView, id: u64, depth: u32) -> OrdinalView {
    let name_rva = rd(ms, wadd(f.func_name_tbl, wmul(id, 4)));
    let ord_rva = rd(ms, wadd(f.export_table, 0x24));
    let ord_tbl = wadd(ord_rva, f.mod_base);
    let ordinal = rw(ms, wadd(ord_tbl, wmul(2, id)));
    let fat_rva = rd(ms, wadd(f.export_table, 0x1c));
    let fat = wadd(fat_rva, f.mod_base);
    let func_rva = rd(ms, wadd(fat, wmul(4, ordinal)));
    let forwarded = f.export_dir_size > 0 && func_rva >= f.export_table_rva && func_rva
        < f.export_table_rva.saturating_add(f.export_dir_size);
    OrdinalView {
        func_name: c_text(ms, wadd(name_rva, f.mod_base)),
        ordinal_tbl_rva: ord_rva,
        ordinal_tbl: ord_tbl,
        ordinal,
        func_addr_tbl_rva: fat_rva,
        func_addr_tbl: fat,
        func_rva,
        func_va: wadd(func_rva, f.mod_base),
        forwarder: if forwarded {
            Some(c_text(ms, wadd(f.mod_base, func_rva)))
        } else {
            None
        },
        forward_depth: depth.saturating_add(1),
    }
}

/// `mod_name` is `libname` up to case, with or without a ".dll" suffix on `libname`.
pub open spec fn name_matches(libname: Seq<char>, mod_name: Seq<char>) -> bool {
    let l = lowercase(libname);
    let l2 = if has_suffix(l, ".dll"@) {
        l
    } else {
        l + ".dll"@
    };
    l == lowercase(mod_name) || l2 == lowercase(mod_name)
}

/// The base of the first of the entries `k..=4096` of the walk from `first` whose name matches `libname`.
pub open spec fn find_module_from(ms: Seq<MapView>, first: u64, libname: Seq<char>, k: nat) -> Option<u64>
    decreases 4097 - k,
{
    if k > 4096 {
        None
    } else {
        match chain(ms, first, k) {
            None => None,
            Some(p) => if name_matches(libname, mod_name_at(ms, p)) {
                Some(mod_base_at(ms, p))
            } else {
                find_module_from(ms, first, libname, k + 1)
            },
        }
    }
}

/// Reading a cursor keeps its position and reads base and name from the entry.
pub proof fn lemma_load_spec(ms: Seq<MapView>, v: FlinkView)
    ensures
        load_spec(ms, v).flink_addr == v.flink_addr,
        load_spec(ms, v).mod_base == mod_base_at(ms, v.flink_addr),
        load_spec(ms, v).mod_name == mod_name_at(ms, v.flink_addr),
        load_spec(ms, v).pe_hdr == pe_hdr_of(ms, mod_base_at(ms, v.flink_addr)),
{
    reveal(export_spec);
}


/// The walk from `first` stops after finitely many entries.
pub open spec fn walk_ends(ms: Seq<MapView>, first: u64) -> bool {
    exists|k: nat| #[trigger] chain(ms, first, k) is None
}

/// Entry `k` of the walk from `first` exists and satisfies `pred`.
pub open spec fn hit(ms: Seq<MapView>, first: u64, pred: spec_fn(u64) -> bool, k: nat) -> bool {
    chain(ms, first, k) matches Some(p) && pred(p)
}

/// Index of the first entry of the walk from `first` that satisfies `pred`.
#[verifier::opaque]
pub open spec fn first_hit(ms: Seq<MapView>, first: u64, pred: spec_fn(u64) -> bool) -> Option<nat> {
    if exists|k: nat| #[trigger] hit(ms, first, pred, k) {
        Some(
            choose|k: nat|
                #[trigger] hit(ms, first, pred, k) && forall|j: nat| j < k ==> !hit(ms, first, pred, j),
        )
    } else {
        None
    }
}

/// Once the walk has stopped it stays stopped.
pub proof fn lemma_chain_stops(ms: Seq<MapView>, first: u64, k: nat, j: nat)
    requires
        chain(ms, first, k) is None,
        k <= j,
    ensures
        chain(ms, first, j) is None,
    decreases j - k,
{
    if j > k {
        lemma_chain_stops(ms, first, k, (j - 1) as nat);
    }
}

/// An entry that the walk reaches comes before its end.
pub proof fn lemma_before_end(ms: Seq<MapView>, first: u64, bound: nat, k: nat)
    requires
        chain(ms, first, bound) is None,
        chain(ms, first, k) is Some,
    ensures
        k < bound,
{
    if k >= bound {
        lemma_chain_stops(ms, first, bound, k);
    }
}

/// The first satisfying entry is the one `first_hit` names.
pub proof fn lemma_first_hit_is(ms: Seq<MapView>, first: u64, pred: spec_fn(u64) -> bool, k: nat)
    requires
        hit(ms, first, pred, k),
        forall|j: nat| j < k ==> !hit(ms, first, pred, j),
    ensures
        first_hit(ms, first, pred) == Some(k),
{
    reveal(first_hit);
    let w = choose|m: nat| #[trigger] hit(ms, first, pred, m) && forall|j: nat| j < m ==> !hit(ms, first, pred, j);
    assert(hit(ms, first, pred, k) && forall|j: nat| j < k ==> !hit(ms, first, pred, j));
    if w < k {
        assert(!hit(ms, first, pred, w));
    } else if w > k {
        assert(!hit(ms, first, pred, k));
    }
}

/// No entry satisfies `pred` when none before the end of the walk does.
pub proof fn lemma_first_hit_none(ms: Seq<MapView>, first: u64, pred: spec_fn(u64) -> bool, bound: nat)
    requires
        chain(ms, first, bound) is None,
        forall|j: nat| j < bound ==> !hit(ms, first, pred, j),
    ensures
        first_hit(ms, first, pred) is None,
{
    reveal(first_hit);
    if exists|k: nat| #[trigger] hit(ms, first, pred, k) {
        let k = choose|k: nat| #[trigger] hit(ms, first, pred, k);
        if k >= bound {
            lemma_chain_stops(ms, first, bound, k);
        }
    }
}

/// A walk that ends has a known length bound.
pub proof fn lemma_walk_bound(ms: Seq<MapView>, first: u64) -> (bound: nat)
    requires
        walk_ends(ms, first),
    ensures
        chain(ms, first, bound) is None,
{
    choose|k: nat| #[trigger] chain(ms, first, k) is None
}

/// One line of the loader-list listing, as a mathematical value.
pub struct LinkedModuleView {
    pub ptr: u64,
    pub name: Seq<char>,
    pub flink: u64,
    pub blink: u64,
    pub base: u64,
    pub pe_hdr: u64,
    pub pe1: u8,
    pub pe2: u8,
}

/// The byte at `a`, or 0 when it cannot be read.
#[verifier::opaque]
pub open spec fn rb(ms: Seq<MapView>, a: u64) -> u8 {
    match crate::maps::byte_at(ms, a as int) {
        Some(v) => v,
        None => 0,
    }
}

/// What the listing says of the entry at `p`.
pub open spec fn linked_module_at(ms: Seq<MapView>, p: u64) -> LinkedModuleView {
    let base = mod_base_at(ms, p);
    let pe = pe_hdr_of(ms, base);
    LinkedModuleView {
        ptr: p,
        name: mod_name_at(ms, p),
        flink: rq(ms, p),
        blink: rq(ms, wadd(p, 8)),
        base,
        pe_hdr: pe,
        pe1: rb(ms, wadd(base, pe)),
        pe2: rb(ms, wadd(wadd(base, pe), 1)),
    }
}

/// `lowercase(name)` is the lowercase of the entry's name.
pub open spec fn same_name_nocase(ms: Seq<MapView>, name: Seq<char>) -> spec_fn(u64) -> bool {
    |p: u64| lowercase(mod_name_at(ms, p)) == lowercase(name)
}

/// The entry's name is exactly `name`.
pub open spec fn same_name(ms: Seq<MapView>, name: Seq<char>) -> spec_fn(u64) -> bool {
    |p: u64| mod_name_at(ms, p) == name
}

/// Memory after `update_ldr_entry_base(name, base)`.
pub open spec fn update_base_spec(ms: Seq<MapView>, name: Seq<char>, base: u64) -> Seq<MapView> {
    let first = list_head(ms);
    match first_hit(ms, first, same_name_nocase(ms, name)) {
        Some(k) => write_spec(ms, wadd(chain(ms, first, k)->0, 0x30) as int, crate::bytes::le_bytes64(base)),
        None => ms,
    }
}

/// Memory after `dynamic_unlink_module(name)`: the forward link of the entry before
/// the first entry named `name` (address 0 when it is the first) is cleared, and
/// that entry's address is stored 4 bytes into its successor.
pub open spec fn unlink_spec(ms: Seq<MapView>, name: Seq<char>) -> Seq<MapView> {
    let first = list_head(ms);
    match first_hit(ms, first, same_name(ms, name)) {
        Some(k) => {
            let prev: u64 = if k == 0 {
                0
            } else {
                chain(ms, first, (k - 1) as nat)->0
            };
            let p = chain(ms, first, k)->0;
            let nf = match next_of(ms, p) {
                Some(n) => n,
                None => p,
            };
            let m1 = write_spec(ms, prev as int, crate::bytes::le_bytes64(0));
            write_spec(m1, wadd(nf, 4) as int, crate::bytes::le_bytes64(prev))
        },
        None => ms,
    }
}


/// Size of the region that holds one loader entry and its two name strings.
pub const LDR_REGION_SIZE: u64 = 0x940;

/// Addition modulo 2^16.
pub open spec fn wadd16(a: u16, b: u16) -> u16 {
    vstd::wrapping::u16_specs::wrapping_add(a, b)
}

/// Multiplication modulo 2^16.
pub open spec fn wmul16(a: u16, b: u16) -> u16 {
    vstd::wrapping::u16_specs::wrapping_mul(a, b)
}

/// What `str::len` answers for a text: its UTF-8 length.
pub open spec fn utf8_len(s: Seq<char>) -> usize {
    vstd::utf8::encode_utf8(s).len() as usize
}

/// Directory that full module names are placed in.
pub open spec fn system32_dir() -> Seq<char> {
    "C:\\Windows\\System32\\"@
}

/// Name of the region created for the loader entry of `libname`: "<libname>.ldr",
/// or "<libname>.ldr.<seq>" when a region of the first name exists.
pub open spec fn ldr_region_name(ms: Seq<MapView>, libname: Seq<char>, seq: u32) -> Seq<char> {
    let plain = libname + ".ldr"@;
    if exists|i: int| 0 <= i < ms.len() && #[trigger] ms[i].name == plain {
        libname + ".ldr."@ + decimal_chars(seq as nat)
    } else {
        plain
    }
}

/// `SizeOfImage` of the image at `base` (0 for base 0).
pub open spec fn image_size_of(ms: Seq<MapView>, base: u64) -> u32 {
    if base > 0 {
        let pe = dword_at(ms, base + 0x3c)->0;
        dword_at(ms, base + pe + 0x50)->0
    } else {
        0
    }
}

/// The image at `base` has readable `e_lfanew` and `SizeOfImage` (or `base` is 0).
pub open spec fn image_header_readable(ms: Seq<MapView>, base: u64) -> bool {
    base > 0 ==> (dword_at(ms, base + 0x3c) is Some && dword_at(
        ms,
        base + dword_at(ms, base + 0x3c)->0 + 0x50,
    ) is Some)
}

/// Address of the base-name string in an entry region at `space` for a full name of
/// UTF-8 length `full_len`.
pub open spec fn base_name_addr(space: u64, full_len: usize) -> u64 {
    wadd(wadd((space + LDR_ENTRY_SIZE) as u64, wmul(full_len as u64, 2)), 10)
}

/// The loader entry written for `libname` into the region at `space`.
pub open spec fn ldr_entry_spec(
    ms: Seq<MapView>,
    space: u64,
    base: u64,
    entry_point: u64,
    libname: Seq<char>,
    next_flink: u64,
    prev_flink: u64,
) -> LdrDataTableEntry64 {
    let full = system32_dir() + libname;
    let links = if next_flink != 0 {
        (
            ListEntry64 { flink: next_flink, blink: prev_flink },
            ListEntry64 { flink: wadd(next_flink, 0x10), blink: wadd(prev_flink, 0x10) },
            ListEntry64 { flink: wadd(next_flink, 0x20), blink: wadd(prev_flink, 0x20) },
        )
    } else {
        (
            ListEntry64 { flink: space, blink: space },
            ListEntry64 { flink: (space + 0x10) as u64, blink: (space + 0x10) as u64 },
            ListEntry64 { flink: (space + 0x20) as u64, blink: (space + 0x20) as u64 },
        )
    };
    let full_units = wmul16(utf8_len(full) as u16, 2);
    let lib_units = wmul16(utf8_len(libname) as u16, 2);
    LdrDataTableEntry64 {
        in_load_order_links: links.0,
        in_memory_order_links: links.1,
        in_initialization_order_links: links.2,
        dll_base: if base > 0 {
            base
        } else {
            space
        },
        entry_point,
        size_of_image: image_size_of(ms, base),
        full_dll_name: UnicodeString64 {
            length: full_units,
            maximum_length: wadd16(full_units, 4),
            buffer: (space + LDR_ENTRY_SIZE) as u64,
        },
        base_dll_name: UnicodeString64 {
            length: lib_units,
            maximum_length: wadd16(lib_units, 2),
            buffer: base_name_addr(space, utf8_len(full)),
        },
        flags: 0,
        load_count: 0,
        tls_index: 0,
        hash_links: ListEntry64 { flink: next_flink, blink: prev_flink },
    }
}

/// Memory after `create_ldr_entry` placed an entry for `libname` at `space`:
/// a fresh region, its last byte 0x61, the full name at offset 0x100, the base
/// name after it, and the entry at the start.
#[verifier::opaque]
pub open spec fn create_entry_maps(
    ms: Seq<MapView>,
    space: u64,
    base: u64,
    entry_point: u64,
    libname: Seq<char>,
    next_flink: u64,
    prev_flink: u64,
    seq: u32,
) -> Seq<MapView> {
    write_spec(
        entry_region_maps(ms, space, libname, seq),
        space as int,
        ldr_entry_bytes(ldr_entry_spec(ms, space, base, entry_point, libname, next_flink, prev_flink)),
    )
}

/// Memory after `create_ldr_entry` made the region of an entry for `libname` at
/// `space` and wrote its marker byte and name strings, before the entry itself.
pub open spec fn entry_region_maps(ms: Seq<MapView>, space: u64, libname: Seq<char>, seq: u32) -> Seq<MapView> {
    let full = system32_dir() + libname;
    let m0 = ms.push(
        fresh_map(ldr_region_name(ms, libname, seq), space, LDR_REGION_SIZE as nat, Permission::ReadWrite),
    );
    let m1 = write_spec(m0, space + LDR_REGION_SIZE - 1, seq![0x61u8]);
    let m2 = write_wide_spec(m1, space + LDR_ENTRY_SIZE, full + "\0\0"@);
    write_wide_spec(m2, base_name_addr(space, utf8_len(full)) as int, libname + "\0"@)
}


/// The entry `dynamic_link_module` appends after: from `p` (the walk's
/// `iters`-th step), follow forward links until one leads back to `first`, a
/// link is 0 or points at its own entry, or 4096 steps were taken.
pub open spec fn link_tail_from(ms: Seq<MapView>, first: u64, p: u64, iters: nat) -> u64
    decreases 4097 - iters,
{
    let nx = rq(ms, p);
    if nx == first || nx == 0 || nx == p {
        p
    } else if rq(ms, nx) == first || iters + 1 > 4096 {
        nx
    } else {
        link_tail_from(ms, first, nx, iters + 1)
    }
}

/// Memory after hooking the entry at `space` between `tail` and `first`.
#[verifier::opaque]
pub open spec fn hook_entry_maps(ms: Seq<MapView>, first: u64, tail: u64, space: u64) -> Seq<MapView> {
    let m1 = write_spec(ms, tail as int, crate::bytes::le_bytes64(space));
    let m2 = write_spec(m1, wadd(tail, 0x10) as int, crate::bytes::le_bytes64((space + 0x10) as u64));
    let m3 = write_spec(m2, wadd(tail, 0x20) as int, crate::bytes::le_bytes64((space + 0x20) as u64));
    let m4 = write_spec(m3, wadd(first, 8) as int, crate::bytes::le_bytes64(space));
    let m5 = write_spec(m4, wadd(first, 0x18) as int, crate::bytes::le_bytes64((space + 0x10) as u64));
    write_spec(m5, wadd(first, 0x28) as int, crate::bytes::le_bytes64((space + 0x20) as u64))
}

impl Flink {
    /// A cursor on the first entry of the guest's load-order list.
    pub fn new(emu: &Emu) -> (r: Flink)
        requires
            emu.wf(),
            has_peb(emu.maps@),
        ensures
            r@ == fresh_flink(list_head(emu.maps@)),
    {
        reveal(rq);
        proof {
            lemma_map_named_props(emu.maps@, "peb"@);
        }
        let peb = emu.maps.get_mem("peb");
        let peb_base = peb.get_base();
        let ldr = peb.read_qword(peb_base + 0x18);
        assert(peb@.data.subrange(0x18, 0x20) =~= peb@.data.subrange(
            (peb_base + 0x18) - peb@.base,
            (peb_base + 0x18) - peb@.base + 8,
        ));
        let flink = match emu.maps.read_qword(ldr.wrapping_add(0x10)) {
            Some(v) => v,
            None => 0,
        };
        let r = Flink {
            flink_addr: flink,
            mod_base: 0,
            mod_name: String::new(),
            pe_hdr: 0,
            export_table_rva: 0,
            export_dir_size: 0,
            export_table: 0,
            num_of_funcs: 0,
            func_name_tbl_rva: 0,
            func_name_tbl: 0,
        };
        assert(r@.mod_name =~= Seq::<char>::empty());
        r
    }

    /// The entry the cursor is on.
    pub fn get_ptr(&self) -> (r: u64)
        ensures
            r == self@.flink_addr,
    {
        self.flink_addr
    }

    /// Puts the cursor on the entry at `addr`.
    pub fn set_ptr(&mut self, addr: u64)
        ensures
            final(self)@ == (FlinkView { flink_addr: addr, ..old(self)@ }),
    {
        self.flink_addr = addr;
    }

    /// Reads base, name, PE header and export directory of the current entry.
    pub fn load(&mut self, emu: &Emu)
        requires
            emu.wf(),
        ensures
            final(self)@ == load_spec(emu.maps@, old(self)@),
    {
        self.get_mod_base(emu);
        self.get_mod_name(emu);
        self.get_pe_hdr(emu);
        self.get_export_table(emu);
    }

    /// Reads `DllBase` of the current entry (0 when unreadable).
    pub fn get_mod_base(&mut self, emu: &Emu)
        requires
            emu.wf(),
        ensures
            final(self)@ == (FlinkView { mod_base: mod_base_at(emu.maps@, old(self)@.flink_addr), ..old(self)@ }),
    {
        reveal(rq);
        self.mod_base = match emu.maps.read_qword(self.flink_addr.wrapping_add(0x30)) {
            Some(v) => v,
            None => 0,
        };
    }

    /// Writes `base` as `DllBase` of the current entry and remembers it.
    pub fn set_mod_base(&mut self, base: u64, emu: &mut Emu)
        requires
            old(emu).wf(),
        ensures
            final(self)@ == (FlinkView { mod_base: base, ..old(self)@ }),
            final(emu).wf(),
            final(emu).maps@ == write_spec(
                old(emu).maps@,
                wadd(old(self)@.flink_addr, 0x30) as int,
                crate::bytes::le_bytes64(base),
            ),
            final(emu).regs == old(emu).regs && final(emu).cfg == old(emu).cfg && final(emu).base == old(emu).base
                && final(emu).ldr_seq == old(emu).ldr_seq && final(emu).handles == old(emu).handles
                && final(emu).elf64 == old(emu).elf64 && final(emu).dyn_link == old(emu).dyn_link
                && final(emu).flags == old(emu).flags,
    {
        self.mod_base = base;
        emu.maps.write_qword(self.flink_addr.wrapping_add(0x30), base);
    }

    /// Reads `BaseDllName` of the current entry.
    pub fn get_mod_name(&mut self, emu: &Emu)
        requires
            emu.wf(),
        ensures
            final(self)@ == (FlinkView { mod_name: mod_name_at(emu.maps@, old(self)@.flink_addr), ..old(self)@ }),
    {
        reveal(rq);
        reveal(wide_text);
        let mod_name_ptr = match emu.maps.read_qword(self.flink_addr.wrapping_add(0x60)) {
            Some(v) => v,
            None => 0,
        };
        self.mod_name = emu.maps.read_wide_string(mod_name_ptr);
    }

    /// Whether the cursor is on an entry with a module base.
    pub fn has_module(&self) -> (r: bool)
        ensures
            r == (self@.mod_base != 0 && self@.flink_addr != 0),
    {
        self.mod_base != 0 && self.flink_addr != 0
    }

    /// Reads `e_lfanew` of the current module (0 when unreadable).
    pub fn get_pe_hdr(&mut self, emu: &Emu)
        requires
            emu.wf(),
        ensures
            final(self)@ == (FlinkView { pe_hdr: pe_hdr_of(emu.maps@, old(self)@.mod_base), ..old(self)@ }),
    {
        reveal(rd);
        self.pe_hdr = match emu.maps.read_dword(self.mod_base.wrapping_add(0x3c)) {
            Some(hdr) => hdr as u64,
            None => 0,
        };
    }

    /// Reads the export directory of the current module.
    pub fn get_export_table(&mut self, emu: &Emu)
        requires
            emu.wf(),
        ensures
            final(self)@ == export_spec(emu.maps@, old(self)@),
    {
        reveal(rd);
        reveal(export_spec);
        if self.pe_hdr == 0 {
            return;
        }
        let hdr = self.mod_base.wrapping_add(self.pe_hdr);
        self.export_table_rva = match emu.maps.read_dword(hdr.wrapping_add(0x88)) {
            Some(rva) => rva as u64,
            None => 0,
        };
        self.export_dir_size = match emu.maps.read_dword(hdr.wrapping_add(0x8c)) {
            Some(v) => v as u64,
            None => 0,
        };
        if self.export_table_rva == 0 {
            return;
        }
        self.export_table = self.export_table_rva.wrapping_add(self.mod_base);
        self.num_of_funcs = match emu.maps.read_dword(self.export_table.wrapping_add(0x18)) {
            Some(v) => v as u64,
            None => 0,
        };
        self.func_name_tbl_rva = match emu.maps.read_dword(self.export_table.wrapping_add(0x20)) {
            Some(v) => v as u64,
            None => 0,
        };
        self.func_name_tbl = self.func_name_tbl_rva.wrapping_add(self.mod_base);
    }

    /// The forward link of the current entry (0 when unreadable).
    pub fn get_next_flink(&self, emu: &Emu) -> (r: u64)
        requires
            emu.wf(),
        ensures
            r == rq(emu.maps@, self@.flink_addr),
    {
        reveal(rq);
        match emu.maps.read_qword(self.flink_addr) {
            Some(v) => v,
            None => 0,
        }
    }

    /// The backward link of the current entry (0 when unreadable).
    pub fn get_prev_flink(&self, emu: &Emu) -> (r: u64)
        requires
            emu.wf(),
        ensures
            r == rq(emu.maps@, wadd(self@.flink_addr, 8)),
    {
        reveal(rq);
        match emu.maps.read_qword(self.flink_addr.wrapping_add(8)) {
            Some(v) => v,
            None => 0,
        }
    }

    /// Moves to the next entry and reads it; answers `false`, moving nowhere,
    /// when the forward link is 0 or points back at the current entry.
    pub fn next(&mut self, emu: &Emu) -> (r: bool)
        requires
            emu.wf(),
        ensures
            r == next_of(emu.maps@, old(self)@.flink_addr) is Some,
            r ==> final(self)@ == load_spec(
                emu.maps@,
                FlinkView { flink_addr: next_of(emu.maps@, old(self)@.flink_addr)->0, ..old(self)@ },
            ),
            !r ==> final(self)@ == old(self)@,
    {
        let next = self.get_next_flink(emu);
        if next == 0 || next == self.flink_addr {
            return false;
        }
        self.flink_addr = next;
        self.load(emu);
        true
    }

    /// What the export table says of export `function_id`.
    pub fn get_function_ordinal(&self, emu: &Emu, function_id: u64) -> (r: OrdinalTable)
        requires
            emu.wf(),
        ensures
            r@ == ordinal_spec(emu.maps@, self@, function_id, 0),
    {
        self.get_function_ordinal_depth(emu, function_id, 0)
    }

    /// What the export table says of export `function_id`. A forwarded export
    /// carries its forwarder text, to be resolved at depth `forward_depth + 1`,
    /// and keeps its module-relative address: this function does not resolve
    /// the forwarder; the caller resolves it and hands the answer to
    /// `apply_forward_resolution`.
    pub fn get_function_ordinal_depth(&self, emu: &Emu, function_id: u64, forward_depth: u32) -> (r: OrdinalTable)
        requires
            emu.wf(),
        ensures
            r@ == ordinal_spec(emu.maps@, self@, function_id, forward_depth),
    {
        reveal(rd);
        reveal(rw);
        reveal(c_text);
        let func_name_rva = match emu.maps.read_dword(self.func_name_tbl.wrapping_add(function_id.wrapping_mul(4))) {
            Some(v) => v as u64,
            None => 0,
        };
        let func_name = emu.maps.read_string(func_name_rva.wrapping_add(self.mod_base));
        let ordinal_tbl_rva = match emu.maps.read_dword(self.export_table.wrapping_add(0x24)) {
            Some(v) => v as u64,
            None => 0,
        };
        let ordinal_tbl = ordinal_tbl_rva.wrapping_add(self.mod_base);
        let ordinal = match emu.maps.read_word(ordinal_tbl.wrapping_add(2u64.wrapping_mul(function_id))) {
            Some(v) => v as u64,
            None => 0,
        };
        let func_addr_tbl_rva = match emu.maps.read_dword(self.export_table.wrapping_add(0x1c)) {
            Some(v) => v as u64,
            None => 0,
        };
        let func_addr_tbl = func_addr_tbl_rva.wrapping_add(self.mod_base);
        let func_rva = match emu.maps.read_dword(func_addr_tbl.wrapping_add(4u64.wrapping_mul(ordinal))) {
            Some(v) => v as u64,
            None => 0,
        };
        let forwarder = if self.export_dir_size > 0 && func_rva >= self.export_table_rva && func_rva
            < self.export_table_rva.saturating_add(self.export_dir_size) {
            Some(emu.maps.read_string(self.mod_base.wrapping_add(func_rva)))
        } else {
            None
        };
        OrdinalTable {
            func_name,
            ordinal_tbl_rva,
            ordinal_tbl,
            ordinal,
            func_addr_tbl_rva,
            func_addr_tbl,
            func_rva,
            func_va: func_rva.wrapping_add(self.mod_base),
            forwarder,
            forward_depth: forward_depth.saturating_add(1),
        }
    }
}

/// The address a looked-up export ends at once its forwarder, if any, was
/// resolved to `resolved`: a non-zero resolution replaces the module-relative address.
pub fn apply_forward_resolution(ordinal: OrdinalTable, resolved: u64) -> (r: OrdinalTable)
    ensures
        r@ == (OrdinalView {
            func_va: if ordinal@.forwarder is Some && resolved != 0 {
                resolved
            } else {
                ordinal@.func_va
            },
            ..ordinal@
        }),
{
    let mut ordinal = ordinal;
    if ordinal.forwarder.is_some() && resolved != 0 {
        ordinal.func_va = resolved;
    }
    ordinal
}

/// Base of the first module of the guest's load-order list (at most 4097
/// entries are looked at) whose name is `libname` up to case, also when
/// `libname` lacks its ".dll" suffix.
pub fn get_module_base(libname: &str, emu: &Emu) -> (r: Option<u64>)
    requires
        emu.wf(),
        has_peb(emu.maps@),
    ensures
        r == find_module_from(emu.maps@, list_head(emu.maps@), libname@, 0),
{
    let ghost ms = emu.maps@;
    let lower = to_lowercase(libname);
    let mut libname2 = to_lowercase(libname);
    if !ends_with(libname2.as_str(), ".dll") {
        libname2.append(".dll");
    }
    let mut flink = Flink::new(emu);
    flink.load(emu);
    let first_flink = flink.get_ptr();
    let mut iters: usize = 0;
    proof {
        lemma_load_spec(ms, fresh_flink(list_head(ms)));
    }
    loop
        invariant_except_break
            iters <= 4096,
            chain(ms, first_flink, iters as nat) == Some(flink@.flink_addr),
        invariant
            emu.wf(),
            ms == emu.maps@,
            first_flink == list_head(ms),
            flink@.mod_base == mod_base_at(ms, flink@.flink_addr),
            flink@.mod_name == mod_name_at(ms, flink@.flink_addr),
            lower@ == lowercase(libname@),
            libname2@ == (if has_suffix(lowercase(libname@), ".dll"@) {
                lowercase(libname@)
            } else {
                lowercase(libname@) + ".dll"@
            }),
            find_module_from(ms, first_flink, libname@, iters as nat) == find_module_from(
                ms,
                first_flink,
                libname@,
                0,
            ),
        ensures
            find_module_from(ms, first_flink, libname@, 0) is None,
        decreases 4097 - iters,
    {
        let name_lower = to_lowercase(flink.mod_name.as_str());
        if lower == name_lower || libname2 == name_lower {
            return Some(flink.mod_base);
        }
        assert(!name_matches(libname@, mod_name_at(ms, flink@.flink_addr)));
        let ghost p = flink@.flink_addr;
        let ghost fv = flink@;
        let ghost k = iters as nat;
        if !flink.next(emu) {
            assert(chain(ms, first_flink, k + 1) is None);
            assert(find_module_from(ms, first_flink, libname@, k + 1) is None);
            break;
        }
        proof {
            lemma_load_spec(ms, FlinkView { flink_addr: next_of(ms, p)->0, ..fv });
        }
        iters = iters + 1;
        if flink.get_ptr() == first_flink || iters > 4096 {
            assert(find_module_from(ms, first_flink, libname@, iters as nat) is None);
            break;
        }
    }
    None
}


/// One line of the loader-list listing.
pub struct LinkedModule {
    pub ptr: u64,
    pub name: String,
    pub flink: u64,
    pub blink: u64,
    pub base: u64,
    pub pe_hdr: u64,
    pub pe1: u8,
    pub pe2: u8,
}

impl View for LinkedModule {
    type V = LinkedModuleView;

    open spec fn view(&self) -> LinkedModuleView {
        LinkedModuleView {
            ptr: self.ptr,
            name: self.name@,
            flink: self.flink,
            blink: self.blink,
            base: self.base,
            pe_hdr: self.pe_hdr,
            pe1: self.pe1,
            pe2: self.pe2,
        }
    }
}

/// The entries of the guest's load-order list, in walk order, with their
/// links, base, PE header offset and first two header bytes.
pub fn show_linked_modules(emu: &Emu) -> (r: Vec<LinkedModule>)
    requires
        emu.wf(),
        has_peb(emu.maps@),
        walk_ends(emu.maps@, list_head(emu.maps@)),
    ensures
        chain(emu.maps@, list_head(emu.maps@), r@.len() as nat) is None,
        forall|i: int|
            0 <= i < r@.len() ==> chain(emu.maps@, list_head(emu.maps@), i as nat) == Some(
                (#[trigger] r@[i])@.ptr,
            ) && r@[i]@ == linked_module_at(emu.maps@, r@[i]@.ptr),
{
    reveal(rb);
    let ghost ms = emu.maps@;
    let ghost bound = lemma_walk_bound(ms, list_head(ms));
    let mut out: Vec<LinkedModule> = Vec::new();
    let mut flink = Flink::new(emu);
    flink.load(emu);
    let first_flink = flink.get_ptr();
    proof {
        lemma_load_spec(ms, fresh_flink(list_head(ms)));
    }
    proof {
        lemma_before_end(ms, first_flink, bound, 0);
    }
    loop
        invariant_except_break
            chain(ms, first_flink, out@.len() as nat) == Some(flink@.flink_addr),
            out@.len() < bound,
            flink@.mod_base == mod_base_at(ms, flink@.flink_addr),
            flink@.mod_name == mod_name_at(ms, flink@.flink_addr),
            flink@.pe_hdr == pe_hdr_of(ms, mod_base_at(ms, flink@.flink_addr)),
        invariant
            emu.wf(),
            ms == emu.maps@,
            first_flink == list_head(ms),
            chain(ms, first_flink, bound) is None,
            forall|i: int|
                0 <= i < out@.len() ==> chain(ms, first_flink, i as nat) == Some((#[trigger] out@[i])@.ptr)
                    && out@[i]@ == linked_module_at(ms, out@[i]@.ptr),
        ensures
            chain(ms, first_flink, out@.len() as nat) is None,
        decreases bound - out@.len(),
    {
        proof {
            reveal(rb);
        }
        let base = flink.mod_base;
        let hdr = base.wrapping_add(flink.pe_hdr);
        let pe1 = match emu.maps.read_byte(hdr) {
            Some(v) => v,
            None => 0,
        };
        let pe2 = match emu.maps.read_byte(hdr.wrapping_add(1)) {
            Some(v) => v,
            None => 0,
        };
        let line = LinkedModule {
            ptr: flink.get_ptr(),
            name: flink.mod_name.clone(),
            flink: flink.get_next_flink(emu),
            blink: flink.get_prev_flink(emu),
            base,
            pe_hdr: flink.pe_hdr,
            pe1,
            pe2,
        };
        assert(line@.name == mod_name_at(ms, flink@.flink_addr));
        assert(line@.flink == rq(ms, flink@.flink_addr));
        assert(line@.base == mod_base_at(ms, flink@.flink_addr));
        assert(line@.pe_hdr == pe_hdr_of(ms, base));
        assert(line@.pe1 == rb(ms, hdr));
        assert(line@ == linked_module_at(ms, flink@.flink_addr));
        let ghost k = out@.len() as nat;
        let ghost p = flink@.flink_addr;
        let ghost fv = flink@;
        assert(k < bound);
        out.push(line);
        assert(out@[k as int] == line);
        if !flink.next(emu) {
            assert(chain(ms, first_flink, k + 1) is None);
            break;
        }
        proof {
            lemma_load_spec(ms, FlinkView { flink_addr: next_of(ms, p)->0, ..fv });
        }
        if flink.get_ptr() == first_flink {
            assert(chain(ms, first_flink, k + 1) is None);
            break;
        }
        proof {
            lemma_before_end(ms, first_flink, bound, k + 1);
        }
    }
    out
}

/// Sets `DllBase` of the first entry of the guest's load-order list whose name is
/// `libname` up to case.
pub fn update_ldr_entry_base(libname: &str, base: u64, emu: &mut Emu)
    requires
        old(emu).wf(),
        has_peb(old(emu).maps@),
        walk_ends(old(emu).maps@, list_head(old(emu).maps@)),
    ensures
        final(emu).wf(),
        final(emu).maps@ == update_base_spec(old(emu).maps@, libname@, base),
        final(emu).regs == old(emu).regs && final(emu).cfg == old(emu).cfg && final(emu).base == old(emu).base
            && final(emu).ldr_seq == old(emu).ldr_seq && final(emu).handles == old(emu).handles
            && final(emu).elf64 == old(emu).elf64 && final(emu).dyn_link == old(emu).dyn_link
            && final(emu).flags == old(emu).flags,
{
    let ghost ms = emu.maps@;
    let ghost first = list_head(ms);
    let ghost pred = same_name_nocase(ms, libname@);
    let ghost bound = lemma_walk_bound(ms, first);
    let target = to_lowercase(libname);
    let mut flink = Flink::new(emu);
    flink.load(emu);
    let first_flink = flink.get_ptr();
    let ghost mut k: nat = 0;
    proof {
        lemma_load_spec(ms, fresh_flink(first));
    }
    proof {
        lemma_before_end(ms, first_flink, bound, 0);
    }
    loop
        invariant_except_break
            chain(ms, first_flink, k) == Some(flink@.flink_addr),
            flink@.mod_name == mod_name_at(ms, flink@.flink_addr),
            k < bound,
        invariant
            emu.wf(),
            ms == emu.maps@,
            first_flink == first,
            first == list_head(ms),
            pred == same_name_nocase(ms, libname@),
            ms == old(emu).maps@,
            target@ == lowercase(libname@),
            chain(ms, first_flink, bound) is None,
            forall|j: nat| j < k ==> !hit(ms, first, pred, j),
            emu.regs == old(emu).regs && emu.cfg == old(emu).cfg && emu.base == old(emu).base
                && emu.ldr_seq == old(emu).ldr_seq && emu.handles == old(emu).handles
                && emu.elf64 == old(emu).elf64 && emu.dyn_link == old(emu).dyn_link
                && emu.flags == old(emu).flags,
        ensures
            first_hit(ms, first, pred) is None,
        decreases bound - k,
    {
        let name_lower = to_lowercase(flink.mod_name.as_str());
        if name_lower == target {
            proof {
                assert(pred(flink@.flink_addr));
                assert(hit(ms, first, pred, k));
                lemma_first_hit_is(ms, first, pred, k);
            }
            let ghost p = flink@.flink_addr;
            flink.set_mod_base(base, emu);
            assert(emu.maps@ == write_spec(ms, wadd(p, 0x30) as int, crate::bytes::le_bytes64(base)));
            assert(update_base_spec(ms, libname@, base) == write_spec(ms, wadd(p, 0x30) as int, crate::bytes::le_bytes64(base)));
            return;
        }
        assert(!hit(ms, first, pred, k));
        let ghost p = flink@.flink_addr;
        let ghost fv = flink@;
        if !flink.next(emu) {
            proof {
                assert(chain(ms, first_flink, k + 1) is None);
                lemma_first_hit_none(ms, first, pred, k + 1);
            }
            break;
        }
        proof {
            lemma_load_spec(ms, FlinkView { flink_addr: next_of(ms, p)->0, ..fv });
        }
        if flink.get_ptr() == first_flink {
            proof {
                assert(chain(ms, first_flink, k + 1) is None);
                lemma_first_hit_none(ms, first, pred, k + 1);
            }
            break;
        }
        proof {
            lemma_before_end(ms, first_flink, bound, k + 1);
            k = k + 1;
        }
    }
}

/// Unhooks the first entry named exactly `libname` from the guest's
/// load-order list: clears the forward link of the entry before it and
/// stores that entry's address 4 bytes into its successor.
fn unlink_writes(emu: &mut Emu, prev_flink: u64, next_flink: u64)
    requires
        old(emu).wf(),
    ensures
        final(emu).wf(),
        final(emu).maps@ == write_spec(
            write_spec(old(emu).maps@, prev_flink as int, crate::bytes::le_bytes64(0)),
            wadd(next_flink, 4) as int,
            crate::bytes::le_bytes64(prev_flink),
        ),
        final(emu).regs == old(emu).regs && final(emu).cfg == old(emu).cfg && final(emu).base == old(emu).base
            && final(emu).ldr_seq == old(emu).ldr_seq && final(emu).handles == old(emu).handles
            && final(emu).elf64 == old(emu).elf64 && final(emu).dyn_link == old(emu).dyn_link
            && final(emu).flags == old(emu).flags,
{
    emu.maps.write_qword(prev_flink, 0);
    emu.maps.write_qword(next_flink.wrapping_add(4), prev_flink);
}

/// Takes the first entry named exactly `libname` off the load-order list the
/// way the emulator does: the forward link of the entry before it (address 0
/// when it is the first) is cleared, and that entry's address is stored 4 bytes
/// into the entry after it. Nothing changes when no entry has the name.
pub fn dynamic_unlink_module(libname: &str, emu: &mut Emu)
    requires
        old(emu).wf(),
        has_peb(old(emu).maps@),
        walk_ends(old(emu).maps@, list_head(old(emu).maps@)),
    ensures
        final(emu).wf(),
        final(emu).maps@ == unlink_spec(old(emu).maps@, libname@),
        final(emu).regs == old(emu).regs && final(emu).cfg == old(emu).cfg && final(emu).base == old(emu).base
            && final(emu).ldr_seq == old(emu).ldr_seq && final(emu).handles == old(emu).handles
            && final(emu).elf64 == old(emu).elf64 && final(emu).dyn_link == old(emu).dyn_link
            && final(emu).flags == old(emu).flags,
{
    let ghost ms = emu.maps@;
    let ghost first = list_head(ms);
    let ghost pred = same_name(ms, libname@);
    let ghost bound = lemma_walk_bound(ms, first);
    let mut prev_flink: u64 = 0;
    let mut flink = Flink::new(emu);
    flink.load(emu);
    let first_flink = flink.get_ptr();
    let ghost mut k: nat = 0;
    proof {
        lemma_load_spec(ms, fresh_flink(first));
        lemma_before_end(ms, first_flink, bound, 0);
    }
    loop
        invariant
            emu.wf(),
            ms == emu.maps@,
            first_flink == first,
            first == list_head(ms),
            pred == same_name(ms, libname@),
            chain(ms, first_flink, bound) is None,
            forall|j: nat| j < k ==> !hit(ms, first, pred, j),
            chain(ms, first_flink, k) == Some(flink@.flink_addr),
            k < bound,
            flink@.mod_name == mod_name_at(ms, flink@.flink_addr),
            prev_flink == (if k == 0 { 0 } else { chain(ms, first, (k - 1) as nat)->0 }),
            ms == old(emu).maps@,
            emu.regs == old(emu).regs && emu.cfg == old(emu).cfg && emu.base == old(emu).base
                && emu.ldr_seq == old(emu).ldr_seq && emu.handles == old(emu).handles
                && emu.elf64 == old(emu).elf64 && emu.dyn_link == old(emu).dyn_link
                && emu.flags == old(emu).flags,
        ensures
            flink@.mod_name == libname@,
        decreases bound - k,
    {
        if str_eq(flink.mod_name.as_str(), libname) {
            break;
        }
        assert(!hit(ms, first, pred, k));
        prev_flink = flink.get_ptr();
        let ghost p = flink@.flink_addr;
        let ghost fv = flink@;
        if !flink.next(emu) {
            proof {
                assert(chain(ms, first_flink, k + 1) is None);
                lemma_first_hit_none(ms, first, pred, k + 1);
            }
            return;
        }
        proof {
            lemma_load_spec(ms, FlinkView { flink_addr: next_of(ms, p)->0, ..fv });
        }
        if flink.get_ptr() == first_flink {
            proof {
                assert(chain(ms, first_flink, k + 1) is None);
                lemma_first_hit_none(ms, first, pred, k + 1);
            }
            return;
        }
        proof {
            lemma_load_spec(ms, FlinkView { flink_addr: next_of(ms, p)->0, ..fv });
            lemma_before_end(ms, first_flink, bound, k + 1);
            k = k + 1;
        }
    }
    proof {
        assert(hit(ms, first, pred, k));
        lemma_first_hit_is(ms, first, pred, k);
    }
    let here = flink.get_ptr();
    let nxt = flink.get_next_flink(emu);
    let next_flink: u64 = if nxt == 0 || nxt == here {
        here
    } else {
        nxt
    };
    unlink_writes(emu, prev_flink, next_flink);
}


fn ldr_region_name_exec(emu: &mut Emu, libname: &str) -> (r: String)
    ensures
        r@ == ldr_region_name(old(emu).maps@, libname@, old(emu).ldr_seq),
        final(emu).ldr_seq == (if exists|i: int|
            0 <= i < old(emu).maps@.len() && #[trigger] old(emu).maps@[i].name == libname@ + ".ldr"@ {
            vstd::wrapping::u32_specs::wrapping_add(old(emu).ldr_seq, 1)
        } else {
            old(emu).ldr_seq
        }),
        final(emu).maps == old(emu).maps,
        final(emu).regs == old(emu).regs && final(emu).cfg == old(emu).cfg && final(emu).base == old(emu).base
            && final(emu).handles == old(emu).handles && final(emu).elf64 == old(emu).elf64
            && final(emu).dyn_link == old(emu).dyn_link && final(emu).flags == old(emu).flags,
{
    let mut lib = libname.to_owned();
    lib.append(".ldr");
    if emu.maps.exists_mapname(lib.as_str()) {
        let seq = emu.ldr_seq;
        emu.ldr_seq = seq.wrapping_add(1);
        let mut renamed = libname.to_owned();
        renamed.append(".ldr.");
        let digits = decimal_string(seq);
        renamed.append(digits.as_str());
        lib = renamed;
    }
    lib
}

fn image_size(emu: &Emu, base: u64) -> (r: u32)
    requires
        emu.wf(),
        image_header_readable(emu.maps@, base),
    ensures
        r == image_size_of(emu.maps@, base),
{
    let ghost ms = emu.maps@;
    if base > 0 {
        proof {
            lemma_region_for_holds(ms, base + 0x3c, 4);
        }
        let pe_hdr = match emu.maps.read_dword(base + 0x3c) {
            Some(v) => v as u64,
            None => 0,
        };
        proof {
            lemma_region_for_holds(ms, base + pe_hdr + 0x50, 4);
        }
        match emu.maps.read_dword(base + pe_hdr + 0x50) {
            Some(v) => v,
            None => 0,
        }
    } else {
        0
    }
}

fn build_ldr_entry(
    space_addr: u64,
    base: u64,
    entry_point: u64,
    image_sz: u32,
    full_len: usize,
    lib_len: usize,
    next_flink: u64,
    prev_flink: u64,
) -> (r: LdrDataTableEntry64)
    requires
        space_addr + LDR_REGION_SIZE <= crate::maps::addr_space(),
    ensures
        forall|ms: Seq<MapView>, libname: Seq<char>|
            image_size_of(ms, base) == image_sz && utf8_len(system32_dir() + libname) == full_len
                && utf8_len(libname) == lib_len ==> r == ldr_entry_spec(
                ms,
                space_addr,
                base,
                entry_point,
                libname,
                next_flink,
                prev_flink,
            ),
{
    let mut ldr = LdrDataTableEntry64::new();
    if next_flink != 0 {
        ldr.in_load_order_links.flink = next_flink;
        ldr.in_load_order_links.blink = prev_flink;
        ldr.in_memory_order_links.flink = next_flink.wrapping_add(0x10);
        ldr.in_memory_order_links.blink = prev_flink.wrapping_add(0x10);
        ldr.in_initialization_order_links.flink = next_flink.wrapping_add(0x20);
        ldr.in_initialization_order_links.blink = prev_flink.wrapping_add(0x20);
    } else {
        ldr.in_load_order_links.flink = space_addr;
        ldr.in_load_order_links.blink = space_addr;
        ldr.in_memory_order_links.flink = space_addr + 0x10;
        ldr.in_memory_order_links.blink = space_addr + 0x10;
        ldr.in_initialization_order_links.flink = space_addr + 0x20;
        ldr.in_initialization_order_links.blink = space_addr + 0x20;
    }
    ldr.dll_base = if base > 0 {
        base
    } else {
        space_addr
    };
    ldr.entry_point = entry_point;
    ldr.size_of_image = image_sz;
    let full_units = (full_len as u16).wrapping_mul(2);
    ldr.full_dll_name.length = full_units;
    ldr.full_dll_name.maximum_length = full_units.wrapping_add(4);
    ldr.full_dll_name.buffer = space_addr + LdrDataTableEntry64::size();
    let lib_units = (lib_len as u16).wrapping_mul(2);
    ldr.base_dll_name.length = lib_units;
    ldr.base_dll_name.maximum_length = lib_units.wrapping_add(2);
    ldr.base_dll_name.buffer = (space_addr + LdrDataTableEntry64::size()).wrapping_add(
        (full_len as u64).wrapping_mul(2),
    ).wrapping_add(10);
    ldr.flags = 0;
    ldr.load_count = 0;
    ldr.tls_index = 0;
    ldr.hash_links.flink = next_flink;
    ldr.hash_links.blink = prev_flink;
    ldr
}

/// Places a new loader entry for `libname` (module at `base`, entry point
/// `entry_point`) in a freshly allocated region and answers its address. With
/// `next_flink` non-zero the entry's links point at `next_flink`/`prev_flink`;
/// otherwise at the entry itself.
pub fn create_ldr_entry(
    emu: &mut Emu,
    base: u64,
    entry_point: u64,
    libname: &str,
    next_flink: u64,
    prev_flink: u64,
) -> (r: u64)
    requires
        old(emu).wf(),
        alloc_spec(old(emu).maps@, LDR_REGION_SIZE) is Some,
        image_header_readable(old(emu).maps@, base),
    ensures
        final(emu).wf(),
        r == alloc_spec(old(emu).maps@, LDR_REGION_SIZE)->0,
        final(emu).maps@ == create_entry_maps(
            old(emu).maps@,
            r,
            base,
            entry_point,
            libname@,
            next_flink,
            prev_flink,
            old(emu).ldr_seq,
        ),
        final(emu).ldr_seq == (if exists|i: int|
            0 <= i < old(emu).maps@.len() && #[trigger] old(emu).maps@[i].name == libname@ + ".ldr"@ {
            vstd::wrapping::u32_specs::wrapping_add(old(emu).ldr_seq, 1)
        } else {
            old(emu).ldr_seq
        }),
        final(emu).regs == old(emu).regs && final(emu).cfg == old(emu).cfg && final(emu).base == old(emu).base
            && final(emu).handles == old(emu).handles && final(emu).elf64 == old(emu).elf64
            && final(emu).dyn_link == old(emu).dyn_link && final(emu).flags == old(emu).flags,
{
    let ghost ms = emu.maps@;
    let sz = LDR_REGION_SIZE;
    let space_addr = match emu.maps.alloc_addr(sz) {
        Some(a) => a,
        None => {
            assert(false);
            0
        },
    };
    let lib = ldr_region_name_exec(emu, libname);
    let image_sz = image_size(emu, base);
    proof {
        lemma_alloc_fresh(ms, lib@, sz, Permission::ReadWrite);
    }
    match emu.maps.create_map(lib.as_str(), space_addr, sz, Permission::ReadWrite) {
        Ok(()) => {},
        Err(_) => {
            assert(false);
        },
    }
    let ghost m0 = emu.maps@;
    emu.maps.write_byte(space_addr + (sz - 1), 0x61);
    let ghost m1 = emu.maps@;
    let mut full_libname = "C:\\Windows\\System32\\".to_owned();
    full_libname.append(libname);
    let full_len = full_libname.as_str().len();
    let lib_len = libname.len();
    let ldr = build_ldr_entry(space_addr, base, entry_point, image_sz, full_len, lib_len, next_flink, prev_flink);
    assert(ldr == ldr_entry_spec(ms, space_addr, base, entry_point, libname@, next_flink, prev_flink));
    let mut full_terminated = full_libname.clone();
    full_terminated.append("\0\0");
    emu.maps.write_wide_string(space_addr + LdrDataTableEntry64::size(), full_terminated.as_str());
    let ghost m2 = emu.maps@;
    let mut lib_terminated = libname.to_owned();
    lib_terminated.append("\0");
    emu.maps.write_wide_string(ldr.base_dll_name.buffer, lib_terminated.as_str());
    let ghost m3 = emu.maps@;
    ldr.save(space_addr, &mut emu.maps);
    proof {
        let full = system32_dir() + libname@;
        assert(m0 == ms.push(fresh_map(ldr_region_name(ms, libname@, old(emu).ldr_seq), space_addr, sz as nat, Permission::ReadWrite)));
        assert(m1 == write_spec(m0, space_addr + LDR_REGION_SIZE - 1, seq![0x61u8]));
        assert(m2 == write_wide_spec(m1, space_addr + LDR_ENTRY_SIZE, full + "\0\0"@));
        assert(m3 == write_wide_spec(m2, base_name_addr(space_addr, utf8_len(full)) as int, libname@ + "\0"@));
        assert(m3 == entry_region_maps(ms, space_addr, libname@, old(emu).ldr_seq));
        reveal(create_entry_maps);
    }
    space_addr
}


fn hook_entry(emu: &mut Emu, first_flink: u64, next_flink: u64, space_addr: u64)
    requires
        old(emu).wf(),
        space_addr + LDR_REGION_SIZE <= crate::maps::addr_space(),
    ensures
        final(emu).wf(),
        final(emu).maps@ == hook_entry_maps(old(emu).maps@, first_flink, next_flink, space_addr),
        final(emu).regs == old(emu).regs && final(emu).cfg == old(emu).cfg && final(emu).base == old(emu).base
            && final(emu).ldr_seq == old(emu).ldr_seq && final(emu).handles == old(emu).handles
            && final(emu).elf64 == old(emu).elf64 && final(emu).dyn_link == old(emu).dyn_link
            && final(emu).flags == old(emu).flags,
{
    reveal(hook_entry_maps);
    emu.maps.write_qword(next_flink, space_addr);
    emu.maps.write_qword(next_flink.wrapping_add(0x10), space_addr + 0x10);
    emu.maps.write_qword(next_flink.wrapping_add(0x20), space_addr + 0x20);
    emu.maps.write_qword(first_flink.wrapping_add(8), space_addr);
    emu.maps.write_qword(first_flink.wrapping_add(0x10 + 8), space_addr + 0x10);
    emu.maps.write_qword(first_flink.wrapping_add(0x20 + 8), space_addr + 0x20);
}

fn append_entry(emu: &mut Emu, base: u64, pe_off: u32, libname: &str, first_flink: u64, next_flink: u64)
    requires
        old(emu).wf(),
        alloc_spec(old(emu).maps@, LDR_REGION_SIZE) is Some,
        image_header_readable(old(emu).maps@, base),
    ensures
        final(emu).wf(),
        final(emu).maps@ == hook_entry_maps(
            create_entry_maps(
                old(emu).maps@,
                alloc_spec(old(emu).maps@, LDR_REGION_SIZE)->0,
                base,
                pe_off as u64,
                libname@,
                first_flink,
                next_flink,
                old(emu).ldr_seq,
            ),
            first_flink,
            next_flink,
            alloc_spec(old(emu).maps@, LDR_REGION_SIZE)->0,
        ),
        final(emu).regs == old(emu).regs && final(emu).cfg == old(emu).cfg && final(emu).base == old(emu).base
            && final(emu).handles == old(emu).handles && final(emu).elf64 == old(emu).elf64
            && final(emu).dyn_link == old(emu).dyn_link && final(emu).flags == old(emu).flags,
{
    let space_addr = create_ldr_entry(emu, base, pe_off as u64, libname, first_flink, next_flink);
    hook_entry(emu, first_flink, next_flink, space_addr);
}

/// Appends a loader entry for `libname` (module at `base`, entry point
/// `pe_off`) at the end of the guest's load-order list: after the last entry
/// found by walking at most 4096 links from the head, and before the head.
pub fn dynamic_link_module(base: u64, pe_off: u32, libname: &str, emu: &mut Emu)
    requires
        old(emu).wf(),
        has_peb(old(emu).maps@),
        alloc_spec(old(emu).maps@, LDR_REGION_SIZE) is Some,
        image_header_readable(old(emu).maps@, base),
    ensures
        final(emu).wf(),
        final(emu).maps@ == hook_entry_maps(
            create_entry_maps(
                old(emu).maps@,
                alloc_spec(old(emu).maps@, LDR_REGION_SIZE)->0,
                base,
                pe_off as u64,
                libname@,
                list_head(old(emu).maps@),
                link_tail_from(old(emu).maps@, list_head(old(emu).maps@), list_head(old(emu).maps@), 0),
                old(emu).ldr_seq,
            ),
            list_head(old(emu).maps@),
            link_tail_from(old(emu).maps@, list_head(old(emu).maps@), list_head(old(emu).maps@), 0),
            alloc_spec(old(emu).maps@, LDR_REGION_SIZE)->0,
        ),
        final(emu).regs == old(emu).regs && final(emu).cfg == old(emu).cfg && final(emu).base == old(emu).base
            && final(emu).handles == old(emu).handles && final(emu).elf64 == old(emu).elf64
            && final(emu).dyn_link == old(emu).dyn_link && final(emu).flags == old(emu).flags,
{
    let ghost ms = emu.maps@;
    let mut flink = Flink::new(emu);
    flink.load(emu);
    let first_flink = flink.get_ptr();
    proof {
        lemma_load_spec(ms, fresh_flink(list_head(ms)));
    }
    let mut iters: usize = 0;
    loop
        invariant_except_break
            iters <= 4096,
            link_tail_from(ms, first_flink, flink@.flink_addr, iters as nat) == link_tail_from(
                ms,
                first_flink,
                first_flink,
                0,
            ),
        invariant
            emu.wf(),
            ms == emu.maps@,
            first_flink == list_head(ms),
            ms == old(emu).maps@,
            emu.regs == old(emu).regs && emu.cfg == old(emu).cfg && emu.base == old(emu).base
                && emu.ldr_seq == old(emu).ldr_seq && emu.handles == old(emu).handles
                && emu.elf64 == old(emu).elf64 && emu.dyn_link == old(emu).dyn_link
                && emu.flags == old(emu).flags,
        ensures
            flink@.flink_addr == link_tail_from(ms, first_flink, first_flink, 0),
        decreases 4096 - iters,
    {
        let ghost p = flink@.flink_addr;
        let ghost fv = flink@;
        let next_addr = flink.get_next_flink(emu);
        if next_addr == first_flink {
            break;
        }
        if !flink.next(emu) {
            break;
        }
        proof {
            lemma_load_spec(ms, FlinkView { flink_addr: next_addr, ..fv });
        }
        assert(flink@.flink_addr == next_addr);
        iters = iters + 1;
        if flink.get_next_flink(emu) == first_flink || iters > 4096 {
            break;
        }
    }
    let next_flink: u64 = flink.get_ptr();
    append_entry(emu, base, pe_off, libname, first_flink, next_flink);
}

} // verus!
