//! What the loader-list operations guarantee about guest memory as a whole.
use vstd::prelude::*;
use crate::bytes::{le_bytes64, lemma_le64_roundtrip, lemma_le_bytes16_len, lemma_le_bytes32_len, lemma_le_bytes64_len};
use crate::maps::{
    MapView, Permission, maps_wf, holds, region_for, bytes_at, qword_at, write_spec, write_wide_spec,
    wide_bytes, fresh_map, alloc_spec, lemma_region_unique, lemma_region_for_holds, lemma_write_shape,
    lemma_alloc_fresh,
};
use crate::structures::{LdrDataTableEntry64, ldr_entry_bytes, list_entry_bytes, unicode_string_bytes};
use crate::ldr::{
    update_base_spec, first_hit, chain, list_head, same_name_nocase,
    create_entry_maps, entry_region_maps, ldr_entry_spec, ldr_region_name, base_name_addr, system32_dir, utf8_len,
    LDR_REGION_SIZE, wadd, wmul,
};

verus! {

/// The stored form of an entry is 0x8f bytes with `DllBase` at 0x30.
pub proof fn lemma_entry_bytes_fields(e: LdrDataTableEntry64)
    ensures
        ldr_entry_bytes(e).len() == 0x8f,
        ldr_entry_bytes(e).subrange(0x30, 0x38) == le_bytes64(e.dll_base),
        ldr_entry_bytes(e).subrange(0x60, 0x68) == le_bytes64(e.base_dll_name.buffer),
        ldr_entry_bytes(e).subrange(0x50, 0x58) == le_bytes64(e.full_dll_name.buffer),
{
    broadcast use lemma_le_bytes16_len, lemma_le_bytes32_len, lemma_le_bytes64_len;
    let b = ldr_entry_bytes(e);
    assert(list_entry_bytes(e.in_load_order_links).len() == 16);
    assert(unicode_string_bytes(e.full_dll_name).len() == 16);
    assert(b.len() == 0x8f);
    assert(b.subrange(0x30, 0x38) =~= le_bytes64(e.dll_base));
    assert(b.subrange(0x60, 0x68) =~= le_bytes64(e.base_dll_name.buffer));
    assert(b.subrange(0x50, 0x58) =~= le_bytes64(e.full_dll_name.buffer));
}

/// A write that starts inside region `k` changes no other region and keeps the layout.
pub proof fn lemma_write_stays(ms: Seq<MapView>, k: int, a: int, b: Seq<u8>)
    requires
        maps_wf(ms),
        0 <= k < ms.len(),
        holds(ms[k], a, 1),
        b.len() >= 1,
    ensures
        write_spec(ms, a, b).len() == ms.len(),
        forall|j: int| 0 <= j < ms.len() && j != k ==> #[trigger] write_spec(ms, a, b)[j] == ms[j],
        write_spec(ms, a, b)[k].base == ms[k].base,
        write_spec(ms, a, b)[k].data.len() == ms[k].data.len(),
        write_spec(ms, a, b)[k].name == ms[k].name,
        maps_wf(write_spec(ms, a, b)),
{
    reveal(write_spec);
    lemma_write_shape(ms, a, b);
    lemma_region_for_holds(ms, a, b.len() as int);
    if region_for(ms, a, b.len() as int) is Some {
        let i = region_for(ms, a, b.len() as int)->0;
        assert(holds(ms[i], a, 1));
        lemma_region_unique(ms, a, 1, k);
        lemma_region_unique(ms, a, 1, i);
    }
}


/// The full name of `lib` is short enough for its entry region.
pub open spec fn name_fits(lib: Seq<char>) -> bool {
    vstd::utf8::encode_utf8(system32_dir() + lib).len() <= 0x220
}

/// A write whose text starts inside region `k` changes no other region and keeps the layout.
pub proof fn lemma_wide_write_stays(ms: Seq<MapView>, k: int, a: int, t: Seq<char>)
    requires
        maps_wf(ms),
        0 <= k < ms.len(),
        holds(ms[k], a, 1),
    ensures
        write_wide_spec(ms, a, t).len() == ms.len(),
        forall|j: int| 0 <= j < ms.len() && j != k ==> #[trigger] write_wide_spec(ms, a, t)[j] == ms[j],
        write_wide_spec(ms, a, t)[k].base == ms[k].base,
        write_wide_spec(ms, a, t)[k].data.len() == ms[k].data.len(),
        write_wide_spec(ms, a, t)[k].name == ms[k].name,
        maps_wf(write_wide_spec(ms, a, t)),
{
    if wide_bytes(t).len() > 0 {
        lemma_write_stays(ms, k, a, wide_bytes(t));
    }
}

/// Making the region of a new entry appends one region at the allocated address
/// and leaves every other region as it was.
pub proof fn lemma_entry_region(m: Seq<MapView>, lib: Seq<char>, seq: u32)
    requires
        maps_wf(m),
        alloc_spec(m, LDR_REGION_SIZE) is Some,
        name_fits(lib),
    ensures
        ({
            let space = alloc_spec(m, LDR_REGION_SIZE)->0;
            let r = entry_region_maps(m, space, lib, seq);
            &&& maps_wf(r)
            &&& r.len() == m.len() + 1
            &&& forall|j: int| 0 <= j < m.len() ==> #[trigger] r[j] == m[j]
            &&& r[m.len() as int].base == space
            &&& r[m.len() as int].data.len() == LDR_REGION_SIZE
            &&& r[m.len() as int].name == ldr_region_name(m, lib, seq)
        }),
{
    let space = alloc_spec(m, LDR_REGION_SIZE)->0;
    let k = m.len() as int;
    let full = system32_dir() + lib;
    let name = ldr_region_name(m, lib, seq);
    let m0 = m.push(fresh_map(name, space, LDR_REGION_SIZE as nat, Permission::ReadWrite));
    lemma_alloc_fresh(m, name, LDR_REGION_SIZE, Permission::ReadWrite);
    assert(m0[k].data.len() == LDR_REGION_SIZE);
    assert(forall|j: int| 0 <= j < m.len() ==> #[trigger] m0[j] == m[j]);
    let m1 = write_spec(m0, space + LDR_REGION_SIZE - 1, seq![0x61u8]);
    lemma_write_stays(m0, k, space + LDR_REGION_SIZE - 1, seq![0x61u8]);
    let m2 = write_wide_spec(m1, space + 0x100, full + "\0\0"@);
    lemma_wide_write_stays(m1, k, space + 0x100, full + "\0\0"@);
    let l = utf8_len(full);
    assert(wmul(l as u64, 2) == 2 * l);
    let bb = base_name_addr(space, l);
    assert(bb == space + 0x100 + 2 * l + 10);
    lemma_wide_write_stays(m2, k, bb as int, lib + "\0"@);
}

/// Writing the entry bytes at the start of the fresh region stores its `DllBase`.
pub proof fn lemma_entry_write(r: Seq<MapView>, k: int, space: u64, e: LdrDataTableEntry64)
    requires
        maps_wf(r),
        0 <= k < r.len(),
        r[k].base == space,
        r[k].data.len() == LDR_REGION_SIZE,
    ensures
        ({
            let w = write_spec(r, space as int, ldr_entry_bytes(e));
            &&& maps_wf(w)
            &&& w.len() == r.len()
            &&& forall|j: int| 0 <= j < r.len() && j != k ==> #[trigger] w[j] == r[j]
            &&& w[k].base == space
            &&& w[k].data.len() == LDR_REGION_SIZE
            &&& w[k].name == r[k].name
            &&& qword_at(w, space + 0x30) == Some(e.dll_base)
        }),
{
    let eb = ldr_entry_bytes(e);
    lemma_entry_bytes_fields(e);
    let w = write_spec(r, space as int, eb);
    assert(holds(r[k], space as int, 1));
    lemma_write_stays(r, k, space as int, eb);
    assert(holds(r[k], space as int, 0x8f));
    lemma_region_unique(r, space as int, 0x8f, k);
    assert(w[k].data == crate::maps::splice(r[k].data, 0, eb)) by {
        reveal(write_spec);
    }
    assert(w[k].data.subrange(0x30, 0x38) =~= eb.subrange(0x30, 0x38));
    assert(holds(w[k], space + 0x30, 8));
    lemma_region_unique(w, space + 0x30, 8, k);
    lemma_le64_roundtrip(e.dll_base);
    assert(bytes_at(w, space + 0x30, 8) == Some(le_bytes64(e.dll_base)));
}

/// Creating one loader entry appends one region at the allocated address, leaves
/// every other region as it was, and stores the entry's `DllBase`: the module's
/// base, or the entry's own address when the base is 0.
pub proof fn law_create_entry_step(
    m: Seq<MapView>,
    base: u64,
    entry_point: u64,
    lib: Seq<char>,
    next_flink: u64,
    prev_flink: u64,
    seq: u32,
)
    requires
        maps_wf(m),
        alloc_spec(m, LDR_REGION_SIZE) is Some,
        name_fits(lib),
    ensures
        ({
            let space = alloc_spec(m, LDR_REGION_SIZE)->0;
            let r = create_entry_maps(m, space, base, entry_point, lib, next_flink, prev_flink, seq);
            &&& maps_wf(r)
            &&& r.len() == m.len() + 1
            &&& forall|j: int| 0 <= j < m.len() ==> #[trigger] r[j] == m[j]
            &&& r[m.len() as int].base == space
            &&& r[m.len() as int].data.len() == LDR_REGION_SIZE
            &&& r[m.len() as int].name == ldr_region_name(m, lib, seq)
            &&& qword_at(r, space + 0x30) == Some(if base > 0 { base } else { space })
        }),
{
    reveal(create_entry_maps);
    let space = alloc_spec(m, LDR_REGION_SIZE)->0;
    let k = m.len() as int;
    lemma_entry_region(m, lib, seq);
    let m3 = entry_region_maps(m, space, lib, seq);
    let e = ldr_entry_spec(m, space, base, entry_point, lib, next_flink, prev_flink);
    lemma_entry_write(m3, k, space, e);
}

/// The stored form of an entry starts with its three link pairs.
pub proof fn lemma_entry_link_bytes(e: LdrDataTableEntry64)
    ensures
        ldr_entry_bytes(e).subrange(0, 8) == le_bytes64(e.in_load_order_links.flink),
        ldr_entry_bytes(e).subrange(8, 0x10) == le_bytes64(e.in_load_order_links.blink),
        ldr_entry_bytes(e).subrange(0x10, 0x18) == le_bytes64(e.in_memory_order_links.flink),
        ldr_entry_bytes(e).subrange(0x18, 0x20) == le_bytes64(e.in_memory_order_links.blink),
        ldr_entry_bytes(e).subrange(0x20, 0x28) == le_bytes64(e.in_initialization_order_links.flink),
        ldr_entry_bytes(e).subrange(0x28, 0x30) == le_bytes64(e.in_initialization_order_links.blink),
{
    broadcast use lemma_le_bytes16_len, lemma_le_bytes32_len, lemma_le_bytes64_len;
    let b = ldr_entry_bytes(e);
    lemma_entry_bytes_fields(e);
    assert(b.subrange(0, 8) =~= le_bytes64(e.in_load_order_links.flink));
    assert(b.subrange(8, 0x10) =~= le_bytes64(e.in_load_order_links.blink));
    assert(b.subrange(0x10, 0x18) =~= le_bytes64(e.in_memory_order_links.flink));
    assert(b.subrange(0x18, 0x20) =~= le_bytes64(e.in_memory_order_links.blink));
    assert(b.subrange(0x20, 0x28) =~= le_bytes64(e.in_initialization_order_links.flink));
    assert(b.subrange(0x28, 0x30) =~= le_bytes64(e.in_initialization_order_links.blink));
}

/// A word of the stored entry can be read back from the entry region.
pub proof fn lemma_entry_word(r: Seq<MapView>, k: int, space: u64, e: LdrDataTableEntry64, o: int, v: u64)
    requires
        maps_wf(r),
        0 <= k < r.len(),
        r[k].base == space,
        r[k].data.len() == LDR_REGION_SIZE,
        0 <= o,
        o + 8 <= 0x8f,
        ldr_entry_bytes(e).subrange(o, o + 8) == le_bytes64(v),
    ensures
        qword_at(write_spec(r, space as int, ldr_entry_bytes(e)), space + o) == Some(v),
{
    let eb = ldr_entry_bytes(e);
    lemma_entry_bytes_fields(e);
    let w = write_spec(r, space as int, eb);
    assert(holds(r[k], space as int, 1));
    lemma_write_stays(r, k, space as int, eb);
    assert(holds(r[k], space as int, 0x8f));
    lemma_region_unique(r, space as int, 0x8f, k);
    assert(w[k].data == crate::maps::splice(r[k].data, 0, eb)) by {
        reveal(write_spec);
    }
    assert(w[k].data.subrange(o, o + 8) =~= eb.subrange(o, o + 8));
    assert(holds(w[k], space + o, 8));
    lemma_region_unique(w, space + o, 8, k);
    lemma_le64_roundtrip(v);
    assert(bytes_at(w, space + o, 8) == Some(le_bytes64(v)));
}

/// An entry created with a non-zero `next_flink` links forward to it and back to
/// `prev_flink` in each of its three lists.
#[verifier::spinoff_prover]
#[verifier::rlimit(40)]
pub proof fn law_create_entry_links(
    m: Seq<MapView>,
    base: u64,
    entry_point: u64,
    lib: Seq<char>,
    next_flink: u64,
    prev_flink: u64,
    seq: u32,
)
    requires
        maps_wf(m),
        alloc_spec(m, LDR_REGION_SIZE) is Some,
        name_fits(lib),
        next_flink != 0,
    ensures
        ({
            let space = alloc_spec(m, LDR_REGION_SIZE)->0;
            let r = create_entry_maps(m, space, base, entry_point, lib, next_flink, prev_flink, seq);
            &&& qword_at(r, space as int) == Some(next_flink)
            &&& qword_at(r, space + 8) == Some(prev_flink)
            &&& qword_at(r, space + 0x10) == Some(wadd(next_flink, 0x10))
            &&& qword_at(r, space + 0x18) == Some(wadd(prev_flink, 0x10))
            &&& qword_at(r, space + 0x20) == Some(wadd(next_flink, 0x20))
            &&& qword_at(r, space + 0x28) == Some(wadd(prev_flink, 0x20))
        }),
{
    reveal(create_entry_maps);
    let space = alloc_spec(m, LDR_REGION_SIZE)->0;
    let k = m.len() as int;
    lemma_entry_region(m, lib, seq);
    let m3 = entry_region_maps(m, space, lib, seq);
    let e = ldr_entry_spec(m, space, base, entry_point, lib, next_flink, prev_flink);
    lemma_entry_link_bytes(e);
    lemma_entry_word(m3, k, space, e, 0, next_flink);
    lemma_entry_word(m3, k, space, e, 8, prev_flink);
    lemma_entry_word(m3, k, space, e, 0x10, wadd(next_flink, 0x10));
    lemma_entry_word(m3, k, space, e, 0x18, wadd(prev_flink, 0x10));
    lemma_entry_word(m3, k, space, e, 0x20, wadd(next_flink, 0x20));
    lemma_entry_word(m3, k, space, e, 0x28, wadd(prev_flink, 0x20));
}

/// After `update_ldr_entry_base(name, base)` found an entry, its `DllBase` reads
/// back as `base`; when no entry has the name, memory is unchanged.
pub proof fn law_update_base_reads(ms: Seq<MapView>, name: Seq<char>, base: u64)
    requires
        maps_wf(ms),
    ensures
        match first_hit(ms, list_head(ms), same_name_nocase(ms, name)) {
            Some(k) => {
                let a = wadd(chain(ms, list_head(ms), k)->0, 0x30) as int;
                region_for(ms, a, 8) is Some ==> qword_at(update_base_spec(ms, name, base), a) == Some(base)
            },
            None => update_base_spec(ms, name, base) == ms,
        },
{
    match first_hit(ms, list_head(ms), same_name_nocase(ms, name)) {
        Some(k) => {
            let a = wadd(chain(ms, list_head(ms), k)->0, 0x30) as int;
            if region_for(ms, a, 8) is Some {
                crate::maps::law_qword_write_read(ms, a, base);
            }
        },
        None => {},
    }
}

} // verus!
