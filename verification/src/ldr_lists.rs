//! Rebuilding the guest's loader lists from the module images that are
//! mapped: one loader entry per module, linked into a ring, the loader hash
//! table of ntdll, and ntdll's loader globals.
use vstd::prelude::*;
use crate::bytes::le_bytes64;
use crate::maps::{Maps, MapView, write_spec, map_named, lemma_map_named_props};
use crate::text::{utf16_units, encode_utf16, has_suffix, trim_suffix_all, eq_ascii_nocase, lowercase, before_first, after_last, ends_with, trim_end_matches, eq_ignore_ascii_case, to_lowercase, str_eq, after_last_char, before_first_char};
use crate::emu::Emu;
use crate::ldr::{wadd, rq, rd, peb_base, create_ldr_entry, create_entry_maps, image_header_readable, LDR_REGION_SIZE};
use crate::maps::{alloc_spec, qword_at};
use crate::structures::LDR_HASH_LINKS_OFFSET64;

verus! {

/// Offset of `LdrpHashTable` in ntdll.
pub const NTDLL_LDRP_HASH_TABLE_RVA64: u64 = 0x1d30e0;

/// Number of buckets of `LdrpHashTable`.
pub const NTDLL_LDRP_HASH_BUCKETS64: u64 = 32;

/// Offset in ntdll of a loader list head that is reset to empty.
pub const NTDLL_LDRP_GLOBAL_2680_RVA64: u64 = 0x1d2680;

/// Offset in ntdll of a loader state word that is set to all ones.
pub const NTDLL_LDRP_GLOBAL_26C0_RVA64: u64 = 0x1d26c0;

/// Offset in ntdll of a second loader list head that is reset to empty.
pub const NTDLL_LDRP_GLOBAL_26F0_RVA64: u64 = 0x1d26f0;

/// A UTF-16 unit with ASCII lower-case letters folded to upper case.
pub open spec fn fold_upper(ch: u16) -> u16 {
    if 0x61 <= ch && ch <= 0x7a {
        (ch - 0x20) as u16
    } else {
        ch
    }
}

/// The loader's name hash: h = h * 0x1003f + fold(unit), modulo 2^32, over the UTF-16 units.
pub open spec fn ldr_hash(units: Seq<u16>) -> u32
    decreases units.len(),
{
    if units.len() == 0 {
        0
    } else {
        vstd::wrapping::u32_specs::wrapping_add(
            vstd::wrapping::u32_specs::wrapping_mul(ldr_hash(units.drop_last()), 0x1003f),
            fold_upper(units.last()) as u32,
        )
    }
}

/// The hash bucket of a module name.
pub open spec fn bucket_of(name: Seq<char>) -> u64 {
    (ldr_hash(utf16_units(name)) & 0x1f) as u64
}

/// Hash bucket (0 to 31) of the loader hash table that a module named `libname` goes in.
pub fn ldr_hash_bucket_index(libname: &str) -> (r: u64)
    ensures
        r == bucket_of(libname@),
        r < 32,
{
    let units = encode_utf16(libname);
    let mut hash: u32 = 0;
    let mut i: usize = 0;
    while i < units.len()
        invariant
            i <= units@.len(),
            units@ == utf16_units(libname@),
            hash == ldr_hash(units@.subrange(0, i as int)),
        decreases units@.len() - i,
    {
        let ch = units[i];
        let folded = if ch >= 0x61u16 && ch <= 0x7au16 {
            ch - 0x20
        } else {
            ch
        };
        hash = hash.wrapping_mul(0x1003f).wrapping_add(folded as u32);
        proof {
            let t = units@.subrange(0, i + 1);
            assert(t.drop_last() =~= units@.subrange(0, i as int));
        }
        i = i + 1;
    }
    assert(units@.subrange(0, units@.len() as int) =~= units@);
    let r = (hash & 0x1f) as u64;
    assert(hash & 0x1f < 32) by (bit_vector);
    r
}


/// A module to give a loader entry: its name and image base.
pub struct ModInfo {
    pub name: String,
    pub base: u64,
}

impl View for ModInfo {
    type V = (Seq<char>, u64);

    open spec fn view(&self) -> (Seq<char>, u64) {
        (self.name@, self.base)
    }
}

/// Address of `LdrpHashTable` given ntdll's base.
pub open spec fn hash_table_at(ntdll_base: u64) -> u64 {
    wadd(ntdll_base, NTDLL_LDRP_HASH_TABLE_RVA64)
}

/// The list head of bucket `b`.
pub open spec fn bucket_head(table: u64, b: u64) -> u64 {
    wadd(table, (b * 0x10) as u64)
}

/// Memory after the first `i` buckets were made empty (each head points at itself).
pub open spec fn clear_buckets(ms: Seq<MapView>, table: u64, i: nat) -> Seq<MapView>
    decreases i,
{
    if i == 0 {
        ms
    } else {
        let m = clear_buckets(ms, table, (i - 1) as nat);
        let head = bucket_head(table, (i - 1) as u64);
        write_spec(write_spec(m, head as int, le_bytes64(head)), wadd(head, 8) as int, le_bytes64(head))
    }
}

/// Memory after the first `i` modules were appended to their hash buckets.
pub open spec fn insert_hashes(
    ms: Seq<MapView>,
    table: u64,
    mods: Seq<(Seq<char>, u64)>,
    entries: Seq<u64>,
    i: nat,
) -> Seq<MapView>
    decreases i,
{
    if i == 0 {
        ms
    } else {
        insert_one(insert_hashes(ms, table, mods, entries, (i - 1) as nat), table, mods, entries, i - 1)
    }
}

/// Memory after module `k` was appended to its hash bucket: its hash links point
/// at the bucket head and the old tail, and the old tail and the head point at it.
pub open spec fn insert_one(
    m: Seq<MapView>,
    table: u64,
    mods: Seq<(Seq<char>, u64)>,
    entries: Seq<u64>,
    k: int,
) -> Seq<MapView> {
    let head = bucket_head(table, bucket_of(mods[k].0));
    let hl = wadd(entries[k], LDR_HASH_LINKS_OFFSET64);
    let tail = match crate::maps::qword_at(m, wadd(head, 8) as int) {
        Some(v) => v,
        None => head,
    };
    let m1 = write_spec(m, hl as int, le_bytes64(head));
    let m2 = write_spec(m1, wadd(hl, 8) as int, le_bytes64(tail));
    let m3 = write_spec(m2, tail as int, le_bytes64(hl));
    write_spec(m3, wadd(head, 8) as int, le_bytes64(hl))
}

/// Memory after `rebuild_ldr_hash_table`: unchanged without a region named
/// "ntdll.pe"; otherwise all 32 buckets emptied, then the modules appended.
pub open spec fn rebuild_hash_spec(
    ms: Seq<MapView>,
    mods: Seq<(Seq<char>, u64)>,
    entries: Seq<u64>,
) -> Seq<MapView> {
    match map_named(ms, "ntdll.pe"@) {
        None => ms,
        Some(i) => {
            let table = hash_table_at(ms[i].base);
            let n = if mods.len() < entries.len() {
                mods.len()
            } else {
                entries.len()
            };
            insert_hashes(clear_buckets(ms, table, 32), table, mods, entries, n)
        },
    }
}

/// Memory after `ensure_ntdll_loader_globals`: two empty list heads and one
/// all-ones word in ntdll's data (nothing without a region named "ntdll.pe").
pub open spec fn globals_spec(ms: Seq<MapView>) -> Seq<MapView> {
    match map_named(ms, "ntdll.pe"@) {
        None => ms,
        Some(i) => {
            let base = ms[i].base;
            let l1 = wadd(base, NTDLL_LDRP_GLOBAL_2680_RVA64);
            let st = wadd(base, NTDLL_LDRP_GLOBAL_26C0_RVA64);
            let l3 = wadd(base, NTDLL_LDRP_GLOBAL_26F0_RVA64);
            let m1 = write_spec(ms, l1 as int, le_bytes64(l1));
            let m2 = write_spec(m1, wadd(l1, 8) as int, le_bytes64(l1));
            let m3 = write_spec(m2, st as int, le_bytes64(u64::MAX));
            let m4 = write_spec(m3, l3 as int, le_bytes64(l3));
            write_spec(m4, wadd(l3, 8) as int, le_bytes64(l3))
        },
    }
}

/// Rebuilds ntdll's loader hash table from `modules` and their loader entries.
pub fn rebuild_ldr_hash_table(emu: &mut Emu, modules: &[ModInfo], entries: &[u64])
    requires
        old(emu).wf(),
    ensures
        final(emu).wf(),
        final(emu).maps@ == rebuild_hash_spec(
            old(emu).maps@,
            modules@.map_values(|m: ModInfo| m@),
            entries@,
        ),
        final(emu).regs == old(emu).regs && final(emu).cfg == old(emu).cfg && final(emu).base == old(emu).base
            && final(emu).ldr_seq == old(emu).ldr_seq && final(emu).handles == old(emu).handles
            && final(emu).elf64 == old(emu).elf64 && final(emu).dyn_link == old(emu).dyn_link
            && final(emu).flags == old(emu).flags,
{
    let ghost ms = emu.maps@;
    let ghost mods = modules@.map_values(|m: ModInfo| m@);
    let table = match emu.maps.get_map_by_name("ntdll.pe") {
        Some(m) => hash_table_at_exec(m.get_base()),
        None => {
            return;
        },
    };
    proof {
        crate::maps::lemma_map_named_props(ms, "ntdll.pe"@);
    }
    let mut i: u64 = 0;
    while i < NTDLL_LDRP_HASH_BUCKETS64
        invariant
            emu.wf(),
            i <= 32,
            emu.maps@ == clear_buckets(ms, table, i as nat),
            emu.regs == old(emu).regs && emu.cfg == old(emu).cfg && emu.base == old(emu).base
                && emu.ldr_seq == old(emu).ldr_seq && emu.handles == old(emu).handles
                && emu.elf64 == old(emu).elf64 && emu.dyn_link == old(emu).dyn_link
                && emu.flags == old(emu).flags,
        decreases 32 - i,
    {
        let head = table.wrapping_add(i * 0x10);
        emu.maps.write_qword(head, head);
        emu.maps.write_qword(head.wrapping_add(8), head);
        i = i + 1;
    }
    let n = if modules.len() < entries.len() {
        modules.len()
    } else {
        entries.len()
    };
    let ghost cleared = emu.maps@;
    let mut k: usize = 0;
    while k < n
        invariant
            emu.wf(),
            k <= n,
            n <= modules@.len(),
            n <= entries@.len(),
            mods == modules@.map_values(|m: ModInfo| m@),
            emu.maps@ == insert_hashes(cleared, table, mods, entries@, k as nat),
            emu.regs == old(emu).regs && emu.cfg == old(emu).cfg && emu.base == old(emu).base
                && emu.ldr_seq == old(emu).ldr_seq && emu.handles == old(emu).handles
                && emu.elf64 == old(emu).elf64 && emu.dyn_link == old(emu).dyn_link
                && emu.flags == old(emu).flags,
        decreases n - k,
    {
        let bucket = ldr_hash_bucket_index(modules[k].name.as_str());
        assert(mods[k as int].0 == modules@[k as int].name@);
        let head = table.wrapping_add(bucket * 0x10);
        let hash_links = entries[k].wrapping_add(LDR_HASH_LINKS_OFFSET64);
        let tail = match emu.maps.read_qword(head.wrapping_add(8)) {
            Some(v) => v,
            None => head,
        };
        emu.maps.write_qword(hash_links, head);
        emu.maps.write_qword(hash_links.wrapping_add(8), tail);
        emu.maps.write_qword(tail, hash_links);
        emu.maps.write_qword(head.wrapping_add(8), hash_links);
        k = k + 1;
    }
}

fn hash_table_at_exec(ntdll_base: u64) -> (r: u64)
    ensures
        r == hash_table_at(ntdll_base),
{
    ntdll_base.wrapping_add(NTDLL_LDRP_HASH_TABLE_RVA64)
}

/// Resets three loader globals in ntdll's data: two list heads made empty
/// and one word set to all ones.
pub fn ensure_ntdll_loader_globals(emu: &mut Emu)
    requires
        old(emu).wf(),
    ensures
        final(emu).wf(),
        final(emu).maps@ == globals_spec(old(emu).maps@),
        final(emu).regs == old(emu).regs && final(emu).cfg == old(emu).cfg && final(emu).base == old(emu).base
            && final(emu).ldr_seq == old(emu).ldr_seq && final(emu).handles == old(emu).handles
            && final(emu).elf64 == old(emu).elf64 && final(emu).dyn_link == old(emu).dyn_link
            && final(emu).flags == old(emu).flags,
{
    let base = match emu.maps.get_map_by_name("ntdll.pe") {
        Some(m) => m.get_base(),
        None => {
            return;
        },
    };
    let list_2680 = base.wrapping_add(NTDLL_LDRP_GLOBAL_2680_RVA64);
    emu.maps.write_qword(list_2680, list_2680);
    emu.maps.write_qword(list_2680.wrapping_add(8), list_2680);
    let state_26c0 = base.wrapping_add(NTDLL_LDRP_GLOBAL_26C0_RVA64);
    emu.maps.write_qword(state_26c0, u64::MAX);
    let list_26f0 = base.wrapping_add(NTDLL_LDRP_GLOBAL_26F0_RVA64);
    emu.maps.write_qword(list_26f0, list_26f0);
    emu.maps.write_qword(list_26f0.wrapping_add(8), list_26f0);
}


/// Names of the regions ending in ".pe", each once, in the order they first occur.
pub open spec fn pe_names(ms: Seq<MapView>) -> Seq<Seq<char>>
    decreases ms.len(),
{
    if ms.len() == 0 {
        Seq::empty()
    } else {
        let prev = pe_names(ms.drop_last());
        let n = ms.last().name;
        if has_suffix(n, ".pe"@) && !prev.contains(n) {
            prev.push(n)
        } else {
            prev
        }
    }
}

/// A region name without its trailing ".pe" suffixes.
pub open spec fn stem_of(name: Seq<char>) -> Seq<char> {
    trim_suffix_all(name, ".pe"@)
}

/// Base of the first region named `name`.
#[verifier::opaque]
pub open spec fn base_named(ms: Seq<MapView>, name: Seq<char>) -> u64 {
    ms[map_named(ms, name)->0].base
}

/// The executable's file name without directories and without anything from its first dot.
pub open spec fn exe_stem(filename: Seq<char>) -> Seq<char> {
    before_first(after_last(filename, '/'), '.')
}

/// The "ntdll" images among `names` (by ASCII case-insensitive stem).
#[verifier::opaque]
pub open spec fn ntdll_mods(ms: Seq<MapView>, names: Seq<Seq<char>>) -> Seq<(Seq<char>, u64)>
    decreases names.len(),
{
    if names.len() == 0 {
        Seq::empty()
    } else {
        let prev = ntdll_mods(ms, names.drop_last());
        let n = names.last();
        if eq_ascii_nocase(stem_of(n), "ntdll"@) {
            prev.push(("ntdll.dll"@, base_named(ms, n)))
        } else {
            prev
        }
    }
}

/// The "kernel32" images among `names` (by ASCII case-insensitive stem).
#[verifier::opaque]
pub open spec fn kernel32_mods(ms: Seq<MapView>, names: Seq<Seq<char>>) -> Seq<(Seq<char>, u64)>
    decreases names.len(),
{
    if names.len() == 0 {
        Seq::empty()
    } else {
        let prev = kernel32_mods(ms, names.drop_last());
        let n = names.last();
        if eq_ascii_nocase(stem_of(n), "kernel32"@) {
            prev.push(("kernel32.dll"@, base_named(ms, n)))
        } else {
            prev
        }
    }
}

/// The other images among `names`: stem not lower-casing to "ntdll" or
/// "kernel32", and not the executable's stem (ASCII case-insensitively).
#[verifier::opaque]
pub open spec fn other_mods(ms: Seq<MapView>, names: Seq<Seq<char>>, exe: Seq<char>) -> Seq<(Seq<char>, u64)>
    decreases names.len(),
{
    if names.len() == 0 {
        Seq::empty()
    } else {
        let prev = other_mods(ms, names.drop_last(), exe);
        let n = names.last();
        let st = stem_of(n);
        let sl = lowercase(st);
        if sl == "ntdll"@ || sl == "kernel32"@ || eq_ascii_nocase(st, exe) {
            prev
        } else {
            prev.push((st + ".dll"@, base_named(ms, n)))
        }
    }
}

/// The modules that get loader entries, in list order: the executable, ntdll, kernel32, then the rest.
pub open spec fn module_list(ms: Seq<MapView>, exe_name: Seq<char>, exe_base: u64, filename: Seq<char>) -> Seq<(Seq<char>, u64)> {
    let names = pe_names(ms);
    seq![(exe_name, exe_base)] + ntdll_mods(ms, names) + kernel32_mods(ms, names) + other_mods(
        ms,
        names,
        exe_stem(filename),
    )
}

fn collect_pe_names(maps: &Maps) -> (r: Vec<String>)
    requires
        maps.wf(),
    ensures
        r@.map_values(|s: String| s@) == pe_names(maps@),
{
    let mut out: Vec<String> = Vec::new();
    let mut i: usize = 0;
    while i < maps.len()
        invariant
            i <= maps@.len(),
            out@.map_values(|s: String| s@) == pe_names(maps@.subrange(0, i as int)),
        decreases maps@.len() - i,
    {
        let name = maps.get(i).get_name();
        let ghost prev = out@.map_values(|s: String| s@);
        let mut seen = false;
        let mut j: usize = 0;
        while j < out.len()
            invariant
                j <= out@.len(),
                prev == out@.map_values(|s: String| s@),
                seen == exists|k: int| 0 <= k < j && prev[k] == name@,
            decreases out@.len() - j,
        {
            assert(prev[j as int] == out@[j as int]@);
            if str_eq(out[j].as_str(), name) {
                seen = true;
            }
            j = j + 1;
            assert(seen == exists|k: int| 0 <= k < j && prev[k] == name@) by {
                if exists|k: int| 0 <= k < j && prev[k] == name@ {
                    let k = choose|k: int| 0 <= k < j && prev[k] == name@;
                    if k < j - 1 {
                        assert(exists|k2: int| 0 <= k2 < j - 1 && prev[k2] == name@);
                    }
                }
            }
        }
        assert(seen == prev.contains(name@)) by {
            if prev.contains(name@) {
                let k = choose|k: int| 0 <= k < prev.len() && prev[k] == name@;
            }
        }
        proof {
            let t = maps@.subrange(0, i + 1);
            assert(t.drop_last() =~= maps@.subrange(0, i as int));
            assert(t.last() == maps@[i as int]);
        }
        if ends_with(name, ".pe") && !seen {
            out.push(name.to_owned());
            assert(out@.map_values(|s: String| s@) =~= prev.push(name@));
        }
        i = i + 1;
    }
    assert(maps@.subrange(0, maps@.len() as int) =~= maps@);
    out
}


fn base_of_named(maps: &Maps, name: &str) -> (r: u64)
    requires
        maps.wf(),
        map_named(maps@, name@) is Some,
    ensures
        r == base_named(maps@, name@),
{
    reveal(base_named);
    maps.get_mem(name).get_base()
}

proof fn lemma_pe_names_exist(ms: Seq<MapView>)
    ensures
        forall|k: int| 0 <= k < pe_names(ms).len() ==> map_named(ms, #[trigger] pe_names(ms)[k]) is Some,
    decreases ms.len(),
{
    if ms.len() > 0 {
        let pre = ms.drop_last();
        lemma_pe_names_exist(pre);
        assert forall|k: int| 0 <= k < pe_names(ms).len() implies map_named(ms, #[trigger] pe_names(ms)[k]) is Some by {
            let n = pe_names(ms)[k];
            if k < pe_names(pre).len() {
                assert(pe_names(ms)[k] == pe_names(pre)[k]);
                assert(map_named(pre, n) is Some);
                lemma_map_named_props(pre, n);
                let i = map_named(pre, n)->0;
                assert(ms[i] == pre[i]);
                assert(exists|j: int| 0 <= j < ms.len() && #[trigger] ms[j].name == n);
            } else {
                assert(ms[ms.len() - 1].name == n);
                assert(exists|j: int| 0 <= j < ms.len() && #[trigger] ms[j].name == n);
            }
        }
    }
}

#[verifier::rlimit(40)]
fn collect_ntdll(maps: &Maps, names: &Vec<String>) -> (r: Vec<ModInfo>)
    requires
        maps.wf(),
        forall|k: int| 0 <= k < names@.len() ==> map_named(maps@, #[trigger] names@[k]@) is Some,
    ensures
        r@.map_values(|m: ModInfo| m@) == ntdll_mods(maps@, names@.map_values(|s: String| s@)),
{
    let ghost nv = names@.map_values(|s: String| s@);
    let mut out: Vec<ModInfo> = Vec::new();
    assert(nv.subrange(0, 0) =~= Seq::<Seq<char>>::empty());
    assert(out@.map_values(|m: ModInfo| m@) =~= Seq::<(Seq<char>, u64)>::empty());
    assert(ntdll_mods(maps@, nv.subrange(0, 0)) == Seq::<(Seq<char>, u64)>::empty()) by {
        reveal(ntdll_mods);
    }
    let mut i: usize = 0;
    while i < names.len()
        invariant
            maps.wf(),
            nv == names@.map_values(|s: String| s@),
            forall|k: int| 0 <= k < names@.len() ==> map_named(maps@, #[trigger] names@[k]@) is Some,
            i <= names@.len(),
            out@.map_values(|m: ModInfo| m@) == ntdll_mods(maps@, nv.subrange(0, i as int)),
        decreases names@.len() - i,
    {
        let stem = trim_end_matches(names[i].as_str(), ".pe");
        let ghost t = nv.subrange(0, i + 1);
        assert(t.drop_last() =~= nv.subrange(0, i as int));
        assert(t.last() == names@[i as int]@);
        proof {
            reveal(ntdll_mods);
        }
        if eq_ignore_ascii_case(stem, "ntdll") {
            let b = base_of_named(maps, names[i].as_str());
            let ghost before = out@.map_values(|m: ModInfo| m@);
            out.push(ModInfo { name: "ntdll.dll".to_owned(), base: b });
            assert(out@.map_values(|m: ModInfo| m@) =~= before.push(("ntdll.dll"@, b)));
        }
        i = i + 1;
    }
    assert(nv.subrange(0, nv.len() as int) =~= nv);
    out
}

#[verifier::rlimit(40)]
fn collect_kernel32(maps: &Maps, names: &Vec<String>) -> (r: Vec<ModInfo>)
    requires
        maps.wf(),
        forall|k: int| 0 <= k < names@.len() ==> map_named(maps@, #[trigger] names@[k]@) is Some,
    ensures
        r@.map_values(|m: ModInfo| m@) == kernel32_mods(maps@, names@.map_values(|s: String| s@)),
{
    let ghost nv = names@.map_values(|s: String| s@);
    let mut out: Vec<ModInfo> = Vec::new();
    assert(nv.subrange(0, 0) =~= Seq::<Seq<char>>::empty());
    assert(out@.map_values(|m: ModInfo| m@) =~= Seq::<(Seq<char>, u64)>::empty());
    assert(kernel32_mods(maps@, nv.subrange(0, 0)) == Seq::<(Seq<char>, u64)>::empty()) by {
        reveal(kernel32_mods);
    }
    let mut i: usize = 0;
    while i < names.len()
        invariant
            maps.wf(),
            nv == names@.map_values(|s: String| s@),
            forall|k: int| 0 <= k < names@.len() ==> map_named(maps@, #[trigger] names@[k]@) is Some,
            i <= names@.len(),
            out@.map_values(|m: ModInfo| m@) == kernel32_mods(maps@, nv.subrange(0, i as int)),
        decreases names@.len() - i,
    {
        let stem = trim_end_matches(names[i].as_str(), ".pe");
        let ghost t = nv.subrange(0, i + 1);
        assert(t.drop_last() =~= nv.subrange(0, i as int));
        assert(t.last() == names@[i as int]@);
        proof {
            reveal(kernel32_mods);
        }
        if eq_ignore_ascii_case(stem, "kernel32") {
            let b = base_of_named(maps, names[i].as_str());
            let ghost before = out@.map_values(|m: ModInfo| m@);
            out.push(ModInfo { name: "kernel32.dll".to_owned(), base: b });
            assert(out@.map_values(|m: ModInfo| m@) =~= before.push(("kernel32.dll"@, b)));
        }
        i = i + 1;
    }
    assert(nv.subrange(0, nv.len() as int) =~= nv);
    out
}

#[verifier::rlimit(40)]
fn collect_others(maps: &Maps, names: &Vec<String>, exe: &str) -> (r: Vec<ModInfo>)
    requires
        maps.wf(),
        forall|k: int| 0 <= k < names@.len() ==> map_named(maps@, #[trigger] names@[k]@) is Some,
    ensures
        r@.map_values(|m: ModInfo| m@) == other_mods(maps@, names@.map_values(|s: String| s@), exe@),
{
    let ghost nv = names@.map_values(|s: String| s@);
    let mut out: Vec<ModInfo> = Vec::new();
    assert(nv.subrange(0, 0) =~= Seq::<Seq<char>>::empty());
    assert(out@.map_values(|m: ModInfo| m@) =~= Seq::<(Seq<char>, u64)>::empty());
    assert(other_mods(maps@, nv.subrange(0, 0), exe@) == Seq::<(Seq<char>, u64)>::empty()) by {
        reveal(other_mods);
    }
    let mut i: usize = 0;
    while i < names.len()
        invariant
            maps.wf(),
            nv == names@.map_values(|s: String| s@),
            forall|k: int| 0 <= k < names@.len() ==> map_named(maps@, #[trigger] names@[k]@) is Some,
            i <= names@.len(),
            out@.map_values(|m: ModInfo| m@) == other_mods(maps@, nv.subrange(0, i as int), exe@),
        decreases names@.len() - i,
    {
        let stem = trim_end_matches(names[i].as_str(), ".pe");
        let sl = to_lowercase(stem);
        let ghost t = nv.subrange(0, i + 1);
        assert(t.drop_last() =~= nv.subrange(0, i as int));
        assert(t.last() == names@[i as int]@);
        proof {
            reveal(other_mods);
        }
        let skip = str_eq(sl.as_str(), "ntdll") || str_eq(sl.as_str(), "kernel32") || eq_ignore_ascii_case(stem, exe);
        if !skip {
            let b = base_of_named(maps, names[i].as_str());
            let mut n = stem.to_owned();
            n.append(".dll");
            let ghost before = out@.map_values(|m: ModInfo| m@);
            out.push(ModInfo { name: n, base: b });
            assert(out@.map_values(|m: ModInfo| m@) =~= before.push((stem@ + ".dll"@, b)));
        }
        i = i + 1;
    }
    assert(nv.subrange(0, nv.len() as int) =~= nv);
    out
}

/// The modules that get loader entries: the executable, then the mapped
/// ".pe" images of ntdll, of kernel32, and the rest (not the executable's own image).
pub fn collect_modules(emu: &Emu) -> (r: Vec<ModInfo>)
    requires
        emu.wf(),
    ensures
        r@.map_values(|m: ModInfo| m@) == module_list(emu.maps@, emu.cfg.exe_name@, emu.base, emu.cfg.filename@),
{
    let ghost ms = emu.maps@;
    let names = collect_pe_names(&emu.maps);
    proof {
        lemma_pe_names_exist(ms);
        assert forall|k: int| 0 <= k < names@.len() implies map_named(ms, #[trigger] names@[k]@) is Some by {
            assert(names@[k]@ == names@.map_values(|s: String| s@)[k]);
        }
    }
    let mut modules: Vec<ModInfo> = Vec::new();
    modules.push(ModInfo { name: emu.cfg.exe_name.clone(), base: emu.base });
    let ghost head = modules@.map_values(|m: ModInfo| m@);
    assert(head =~= seq![(emu.cfg.exe_name@, emu.base)]);
    let mut a = collect_ntdll(&emu.maps, &names);
    let ghost va = a@.map_values(|m: ModInfo| m@);
    modules.append(&mut a);
    assert(modules@.map_values(|m: ModInfo| m@) =~= head + va);
    let ghost h2 = modules@.map_values(|m: ModInfo| m@);
    let mut b = collect_kernel32(&emu.maps, &names);
    let ghost vb = b@.map_values(|m: ModInfo| m@);
    modules.append(&mut b);
    assert(modules@.map_values(|m: ModInfo| m@) =~= h2 + vb);
    let ghost h3 = modules@.map_values(|m: ModInfo| m@);
    let exe = before_first_char(after_last_char(emu.cfg.filename.as_str(), '/'), '.');
    let mut c = collect_others(&emu.maps, &names, exe);
    let ghost vc = c@.map_values(|m: ModInfo| m@);
    modules.append(&mut c);
    assert(modules@.map_values(|m: ModInfo| m@) =~= h3 + vc);
    modules
}


/// Entry point of the image at `base`: base plus `AddressOfEntryPoint`, or 0
/// when the base or the PE header offset is 0.
pub open spec fn entry_point_of(ms: Seq<MapView>, base: u64) -> u64 {
    if base > 0 {
        let pe = rd(ms, wadd(base, 0x3c));
        if pe > 0 {
            wadd(base, rd(ms, wadd(wadd(base, pe), 0x28)))
        } else {
            0
        }
    } else {
        0
    }
}

/// The region-name counter after creating an entry for `name`.
pub open spec fn next_seq(ms: Seq<MapView>, name: Seq<char>, seq: u32) -> u32 {
    if exists|i: int| 0 <= i < ms.len() && #[trigger] ms[i].name == name + ".ldr"@ {
        vstd::wrapping::u32_specs::wrapping_add(seq, 1)
    } else {
        seq
    }
}

/// Memory, entry addresses and name counter after creating a self-linked entry for each of `mods`, in order.
pub open spec fn create_all(ms: Seq<MapView>, mods: Seq<(Seq<char>, u64)>, seq: u32) -> (Seq<MapView>, Seq<u64>, u32)
    decreases mods.len(),
{
    if mods.len() == 0 {
        (ms, Seq::empty(), seq)
    } else {
        let prev = create_all(ms, mods.drop_last(), seq);
        let m = mods.last();
        let space = alloc_spec(prev.0, LDR_REGION_SIZE)->0;
        (
            create_entry_maps(prev.0, space, m.1, entry_point_of(prev.0, m.1), m.0, 0, 0, prev.2),
            prev.1.push(space),
            next_seq(prev.0, m.0, prev.2),
        )
    }
}

/// Every entry creation of `create_all` finds room and a readable image header.
pub open spec fn create_all_ok(ms: Seq<MapView>, mods: Seq<(Seq<char>, u64)>, seq: u32) -> bool
    decreases mods.len(),
{
    if mods.len() == 0 {
        true
    } else {
        let prev = create_all(ms, mods.drop_last(), seq);
        create_all_ok(ms, mods.drop_last(), seq) && alloc_spec(prev.0, LDR_REGION_SIZE) is Some
            && image_header_readable(prev.0, mods.last().1)
    }
}

/// The ring position after `k` among `n` entries.
pub open spec fn ring_next(k: int, n: int) -> int {
    (k + 1) % n
}

/// The ring position before `k` among `n` entries.
pub open spec fn ring_prev(k: int, n: int) -> int {
    (k + n - 1) % n
}

/// Ring neighbours stay in range and the one before is found without wrapping arithmetic.
pub proof fn lemma_ring_positions(k: int, n: int)
    requires
        0 <= k < n,
    ensures
        0 <= ring_next(k, n) < n,
        ring_prev(k, n) == (if k == 0 {
            n - 1
        } else {
            k - 1
        }),
        ring_next(k, n) == (if k == n - 1 {
            0
        } else {
            k + 1
        }),
{
    if k == 0 {
        vstd::arithmetic::div_mod::lemma_small_mod((n - 1) as nat, n as nat);
    } else {
        vstd::arithmetic::div_mod::lemma_mod_add_multiples_vanish(k - 1, n);
        vstd::arithmetic::div_mod::lemma_small_mod((k - 1) as nat, n as nat);
    }
    if k == n - 1 {
        assert((k + 1) % n == 0) by {
            vstd::arithmetic::div_mod::lemma_mod_self_0(n);
        }
    } else {
        vstd::arithmetic::div_mod::lemma_small_mod((k + 1) as nat, n as nat);
    }
}

/// Memory after the three link pairs of entry `k` were pointed at its ring neighbours.
pub open spec fn link_one(ms: Seq<MapView>, es: Seq<u64>, k: int) -> Seq<MapView> {
    let n = es.len() as int;
    let e = es[k];
    let next = es[ring_next(k, n)];
    let prev = es[ring_prev(k, n)];
    let m1 = write_spec(ms, e as int, le_bytes64(next));
    let m2 = write_spec(m1, wadd(e, 8) as int, le_bytes64(prev));
    let m3 = write_spec(m2, wadd(e, 0x10) as int, le_bytes64(wadd(next, 0x10)));
    let m4 = write_spec(m3, wadd(e, 0x18) as int, le_bytes64(wadd(prev, 0x10)));
    let m5 = write_spec(m4, wadd(e, 0x20) as int, le_bytes64(wadd(next, 0x20)));
    write_spec(m5, wadd(e, 0x28) as int, le_bytes64(wadd(prev, 0x20)))
}

/// Memory after the first `i` entries were linked into the ring.
pub open spec fn link_ring(ms: Seq<MapView>, es: Seq<u64>, i: nat) -> Seq<MapView>
    decreases i,
{
    if i == 0 {
        ms
    } else {
        link_one(link_ring(ms, es, (i - 1) as nat), es, i - 1)
    }
}

/// Memory after the loader data at `ldr` was pointed at the first and last entry
/// of its three lists, and its `Initialized` word set.
pub open spec fn ldr_head_writes(ms: Seq<MapView>, ldr: u64, first: u64, last: u64) -> Seq<MapView> {
    let m1 = write_spec(ms, wadd(ldr, 0x10) as int, le_bytes64(first));
    let m2 = write_spec(m1, wadd(ldr, 0x18) as int, le_bytes64(last));
    let m3 = write_spec(m2, wadd(ldr, 0x20) as int, le_bytes64(wadd(first, 0x10)));
    let m4 = write_spec(m3, wadd(ldr, 0x28) as int, le_bytes64(wadd(last, 0x10)));
    let m5 = write_spec(m4, wadd(ldr, 0x30) as int, le_bytes64(wadd(first, 0x20)));
    let m6 = write_spec(m5, wadd(ldr, 0x38) as int, le_bytes64(wadd(last, 0x20)));
    write_spec(m6, wadd(ldr, 4) as int, crate::bytes::le_bytes32(1))
}

/// `PEB.Ldr` read through memory (0 when unreadable).
pub open spec fn ldr_of(ms: Seq<MapView>) -> u64 {
    rq(ms, (peb_base(ms) + 0x18) as u64)
}

/// Memory and name counter after `rebuild_ldr_lists`.
#[verifier::opaque]
pub open spec fn rebuild_spec(
    ms: Seq<MapView>,
    seq: u32,
    exe_name: Seq<char>,
    exe_base: u64,
    filename: Seq<char>,
) -> (Seq<MapView>, u32) {
    let ldr = ldr_of(ms);
    if ldr == 0 {
        (ms, seq)
    } else {
        let mods = module_list(ms, exe_name, exe_base, filename);
        let created = create_all(ms, mods, seq);
        let es = created.1;
        let m2 = link_ring(created.0, es, es.len());
        let m3 = ldr_head_writes(m2, ldr, es[0], es[es.len() - 1]);
        let m4 = rebuild_hash_spec(m3, mods, es);
        let m5 = globals_spec(m4);
        let m6 = if exe_base != 0 {
            write_spec(m5, peb_base(ms) + 0x10, le_bytes64(exe_base))
        } else {
            m5
        };
        (m6, created.2)
    }
}

/// A creation sequence that succeeds succeeds on every prefix.
pub proof fn lemma_create_all_ok_prefix(ms: Seq<MapView>, mods: Seq<(Seq<char>, u64)>, seq: u32, k: int)
    requires
        create_all_ok(ms, mods, seq),
        0 <= k <= mods.len(),
    ensures
        create_all_ok(ms, mods.subrange(0, k), seq),
    decreases mods.len(),
{
    if k < mods.len() {
        assert(mods.drop_last().subrange(0, k) =~= mods.subrange(0, k));
        lemma_create_all_ok_prefix(ms, mods.drop_last(), seq, k);
    } else {
        assert(mods.subrange(0, k) =~= mods);
    }
}

/// Creation keeps the number of entries equal to the number of modules.
pub proof fn lemma_create_all_len(ms: Seq<MapView>, mods: Seq<(Seq<char>, u64)>, seq: u32)
    ensures
        create_all(ms, mods, seq).1.len() == mods.len(),
    decreases mods.len(),
{
    if mods.len() > 0 {
        lemma_create_all_len(ms, mods.drop_last(), seq);
    }
}

fn entry_point_exec(emu: &Emu, base: u64) -> (r: u64)
    requires
        emu.wf(),
    ensures
        r == entry_point_of(emu.maps@, base),
{
    reveal(rd);
    if base > 0 {
        let pe_hdr = match emu.maps.read_dword(base.wrapping_add(0x3c)) {
            Some(v) => v as u64,
            None => 0,
        };
        if pe_hdr > 0 {
            let ep_rva = match emu.maps.read_dword(base.wrapping_add(pe_hdr).wrapping_add(0x28)) {
                Some(v) => v as u64,
                None => 0,
            };
            base.wrapping_add(ep_rva)
        } else {
            0
        }
    } else {
        0
    }
}

fn create_entries(emu: &mut Emu, modules: &Vec<ModInfo>) -> (r: Vec<u64>)
    requires
        old(emu).wf(),
        create_all_ok(old(emu).maps@, modules@.map_values(|m: ModInfo| m@), old(emu).ldr_seq),
    ensures
        final(emu).wf(),
        (final(emu).maps@, r@, final(emu).ldr_seq) == create_all(
            old(emu).maps@,
            modules@.map_values(|m: ModInfo| m@),
            old(emu).ldr_seq,
        ),
        final(emu).regs == old(emu).regs && final(emu).cfg == old(emu).cfg && final(emu).base == old(emu).base
            && final(emu).handles == old(emu).handles && final(emu).elf64 == old(emu).elf64
            && final(emu).dyn_link == old(emu).dyn_link && final(emu).flags == old(emu).flags,
{
    let ghost ms = emu.maps@;
    let ghost seq0 = emu.ldr_seq;
    let ghost mods = modules@.map_values(|m: ModInfo| m@);
    let mut entries: Vec<u64> = Vec::new();
    let mut i: usize = 0;
    assert(mods.subrange(0, 0) =~= Seq::<(Seq<char>, u64)>::empty());
    while i < modules.len()
        invariant
            emu.wf(),
            i <= modules@.len(),
            mods == modules@.map_values(|m: ModInfo| m@),
            create_all_ok(ms, mods, seq0),
            (emu.maps@, entries@, emu.ldr_seq) == create_all(ms, mods.subrange(0, i as int), seq0),
            emu.regs == old(emu).regs && emu.cfg == old(emu).cfg && emu.base == old(emu).base
                && emu.handles == old(emu).handles && emu.elf64 == old(emu).elf64
                && emu.dyn_link == old(emu).dyn_link && emu.flags == old(emu).flags,
        decreases modules@.len() - i,
    {
        let ghost t = mods.subrange(0, i + 1);
        proof {
            assert(t.drop_last() =~= mods.subrange(0, i as int));
            assert(t.last() == modules@[i as int]@);
            lemma_create_all_ok_prefix(ms, mods, seq0, i + 1);
        }
        let base = modules[i].base;
        let ep = entry_point_exec(emu, base);
        let addr = create_ldr_entry(emu, base, ep, modules[i].name.as_str(), 0, 0);
        entries.push(addr);
        i = i + 1;
    }
    assert(mods.subrange(0, mods.len() as int) =~= mods);
    entries
}

fn link_entries(emu: &mut Emu, entries: &Vec<u64>)
    requires
        old(emu).wf(),
        entries@.len() > 0,
    ensures
        final(emu).wf(),
        final(emu).maps@ == link_ring(old(emu).maps@, entries@, entries@.len()),
        final(emu).regs == old(emu).regs && final(emu).cfg == old(emu).cfg && final(emu).base == old(emu).base
            && final(emu).ldr_seq == old(emu).ldr_seq && final(emu).handles == old(emu).handles
            && final(emu).elf64 == old(emu).elf64 && final(emu).dyn_link == old(emu).dyn_link
            && final(emu).flags == old(emu).flags,
{
    let ghost ms = emu.maps@;
    let n = entries.len();
    let mut i: usize = 0;
    while i < n
        invariant
            emu.wf(),
            i <= n,
            n == entries@.len(),
            n > 0,
            emu.maps@ == link_ring(ms, entries@, i as nat),
            emu.regs == old(emu).regs && emu.cfg == old(emu).cfg && emu.base == old(emu).base
                && emu.ldr_seq == old(emu).ldr_seq && emu.handles == old(emu).handles
                && emu.elf64 == old(emu).elf64 && emu.dyn_link == old(emu).dyn_link
                && emu.flags == old(emu).flags,
        decreases n - i,
    {
        proof {
            lemma_ring_positions(i as int, n as int);
        }
        let next = entries[(i + 1) % n];
        let pi = if i == 0 {
            n - 1
        } else {
            i - 1
        };
        let prev = entries[pi];
        let e = entries[i];
        emu.maps.write_qword(e, next);
        emu.maps.write_qword(e.wrapping_add(8), prev);
        emu.maps.write_qword(e.wrapping_add(0x10), next.wrapping_add(0x10));
        emu.maps.write_qword(e.wrapping_add(0x18), prev.wrapping_add(0x10));
        emu.maps.write_qword(e.wrapping_add(0x20), next.wrapping_add(0x20));
        emu.maps.write_qword(e.wrapping_add(0x28), prev.wrapping_add(0x20));
        i = i + 1;
    }
}

fn write_ldr_heads(emu: &mut Emu, ldr_addr: u64, first: u64, last: u64)
    requires
        old(emu).wf(),
    ensures
        final(emu).wf(),
        final(emu).maps@ == ldr_head_writes(old(emu).maps@, ldr_addr, first, last),
        final(emu).regs == old(emu).regs && final(emu).cfg == old(emu).cfg && final(emu).base == old(emu).base
            && final(emu).ldr_seq == old(emu).ldr_seq && final(emu).handles == old(emu).handles
            && final(emu).elf64 == old(emu).elf64 && final(emu).dyn_link == old(emu).dyn_link
            && final(emu).flags == old(emu).flags,
{
    emu.maps.write_qword(ldr_addr.wrapping_add(0x10), first);
    emu.maps.write_qword(ldr_addr.wrapping_add(0x18), last);
    emu.maps.write_qword(ldr_addr.wrapping_add(0x20), first.wrapping_add(0x10));
    emu.maps.write_qword(ldr_addr.wrapping_add(0x28), last.wrapping_add(0x10));
    emu.maps.write_qword(ldr_addr.wrapping_add(0x30), first.wrapping_add(0x20));
    emu.maps.write_qword(ldr_addr.wrapping_add(0x38), last.wrapping_add(0x20));
    emu.maps.write_dword(ldr_addr.wrapping_add(4), 1);
}

/// Rebuilds the guest's loader lists: one loader entry per module (the
/// executable, ntdll, kernel32, then every other mapped ".pe" image), linked
/// into a ring in that order and hooked to `PEB.Ldr`; then the loader hash
/// table and loader globals of ntdll, and `PEB.ImageBaseAddress`. Nothing is
/// done when `PEB.Ldr` reads 0 or cannot be read. The PEB's other fields are
/// taken as they are: this function does not first bring them into shape the
/// way the emulator's PEB set-up does.
pub fn rebuild_ldr_lists(emu: &mut Emu)
    requires
        old(emu).wf(),
        map_named(old(emu).maps@, "peb"@) is Some,
        peb_base(old(emu).maps@) + 0x18 <= u64::MAX,
        ldr_of(old(emu).maps@) != 0 ==> create_all_ok(
            old(emu).maps@,
            module_list(old(emu).maps@, old(emu).cfg.exe_name@, old(emu).base, old(emu).cfg.filename@),
            old(emu).ldr_seq,
        ),
    ensures
        final(emu).wf(),
        (final(emu).maps@, final(emu).ldr_seq) == rebuild_spec(
            old(emu).maps@,
            old(emu).ldr_seq,
            old(emu).cfg.exe_name@,
            old(emu).base,
            old(emu).cfg.filename@,
        ),
        final(emu).regs == old(emu).regs && final(emu).cfg == old(emu).cfg && final(emu).base == old(emu).base
            && final(emu).handles == old(emu).handles && final(emu).elf64 == old(emu).elf64
            && final(emu).dyn_link == old(emu).dyn_link && final(emu).flags == old(emu).flags,
{
    let ghost ms = emu.maps@;
    proof {
        lemma_map_named_props(ms, "peb"@);
        reveal(rebuild_spec);
    }
    let peb_addr = emu.maps.get_mem("peb").get_base();
    let ldr_addr = match emu.maps.read_qword(peb_addr + 0x18) {
        Some(v) => v,
        None => 0,
    };
    assert(ldr_addr == ldr_of(ms)) by {
        reveal(rq);
    }
    if ldr_addr == 0 {
        return;
    }
    let exe_base = emu.base;
    let modules = collect_modules(emu);
    let ghost mods = modules@.map_values(|m: ModInfo| m@);
    let entries = create_entries(emu, &modules);
    proof {
        lemma_create_all_len(ms, mods, old(emu).ldr_seq);
    }
    let n = entries.len();
    link_entries(emu, &entries);
    let first = entries[0];
    let last = entries[n - 1];
    write_ldr_heads(emu, ldr_addr, first, last);
    rebuild_ldr_hash_table(emu, modules.as_slice(), entries.as_slice());
    ensure_ntdll_loader_globals(emu);
    if exe_base != 0 {
        emu.maps.write_qword(peb_addr + 0x10, exe_base);
    }
}

} // verus!
