//! What a rebuild leaves of the modules that the next rebuild lists.
use vstd::prelude::*;
use crate::maps::{
    MapView, maps_wf, map_named, lemma_map_named_props, write_spec, write_wide_spec, alloc_spec, fresh_map,
    lemma_write_shape, lemma_alloc_fresh, Permission,
};
use crate::ldr_lists::{
    pe_names, base_named, ntdll_mods, kernel32_mods, other_mods, module_list, rebuild_spec, create_all_ok, ldr_of,
    create_all, link_one, link_ring, ldr_head_writes, clear_buckets, insert_one, insert_hashes, rebuild_hash_spec,
    globals_spec,
};
use crate::ldr::{wadd, create_entry_maps, entry_region_maps, ldr_region_name, LDR_REGION_SIZE};
use crate::ring_laws::{lemma_map_named_stable, entry_region_named, lemma_ldr_name_ends};
use crate::text::has_suffix;
use crate::bytes::{le_bytes64, le_bytes32};

verus! {

/// `w` keeps the names and places of the regions of `ms`, and every region it
/// adds is an entry region.
pub open spec fn names_extended(ms: Seq<MapView>, w: Seq<MapView>) -> bool {
    &&& ms.len() <= w.len()
    &&& forall|j: int| 0 <= j < ms.len() ==> (#[trigger] w[j]).name == ms[j].name && w[j].base == ms[j].base
    &&& forall|j: int| ms.len() <= j < w.len() ==> entry_region_named(#[trigger] w[j].name)
}

/// An image region's name, ending in ".pe", is no entry region's name.
proof fn lemma_pe_not_entry(n: Seq<char>)
    requires
        has_suffix(n, ".pe"@),
    ensures
        !entry_region_named(n),
{
    reveal_strlit(".pe");
    assert(n.last() == n.subrange(n.len() - 3, n.len() as int)[2]);
}

/// The image names depend on the regions' names alone.
proof fn lemma_pe_names_by_names(ms: Seq<MapView>, w: Seq<MapView>)
    requires
        w.len() == ms.len(),
        forall|j: int| 0 <= j < ms.len() ==> (#[trigger] w[j]).name == ms[j].name,
    ensures
        pe_names(w) == pe_names(ms),
    decreases ms.len(),
{
    if ms.len() > 0 {
        assert forall|j: int| 0 <= j < ms.len() - 1 implies (#[trigger] w.drop_last()[j]).name == ms.drop_last()[j].name by {
            assert(w[j].name == ms[j].name);
        }
        lemma_pe_names_by_names(ms.drop_last(), w.drop_last());
        assert(w.last().name == ms[ms.len() - 1].name);
    }
}

/// Adding entry regions adds no image name.
proof fn lemma_pe_names_same(ms: Seq<MapView>, w: Seq<MapView>)
    requires
        names_extended(ms, w),
    ensures
        pe_names(w) == pe_names(ms),
    decreases w.len(),
{
    if w.len() > ms.len() {
        let p = w.drop_last();
        assert forall|j: int| 0 <= j < ms.len() implies (#[trigger] p[j]).name == ms[j].name && p[j].base == ms[j].base by {
            assert(p[j] == w[j]);
        }
        assert forall|j: int| ms.len() <= j < p.len() implies entry_region_named(#[trigger] p[j].name) by {
            assert(p[j] == w[j]);
        }
        lemma_pe_names_same(ms, p);
        assert(entry_region_named(w[w.len() - 1].name));
        if has_suffix(w.last().name, ".pe"@) {
            lemma_pe_not_entry(w.last().name);
        }
    } else {
        lemma_pe_names_by_names(ms, w);
    }
}

/// Every image name is the name of a region, and ends in ".pe".
proof fn lemma_pe_names_named(ms: Seq<MapView>, n: Seq<char>)
    requires
        pe_names(ms).contains(n),
    ensures
        map_named(ms, n) is Some,
        has_suffix(n, ".pe"@),
    decreases ms.len(),
{
    if ms.len() > 0 {
        let prev = pe_names(ms.drop_last());
        if prev.contains(n) {
            lemma_pe_names_named(ms.drop_last(), n);
            lemma_map_named_props(ms.drop_last(), n);
            let i = map_named(ms.drop_last(), n)->0;
            assert(ms[i].name == n);
        } else {
            assert(ms.last().name == n);
            assert(ms[ms.len() - 1].name == n);
        }
    }
}

/// An image keeps its base when only entry regions are added.
proof fn lemma_base_named_same(ms: Seq<MapView>, w: Seq<MapView>, n: Seq<char>)
    requires
        names_extended(ms, w),
        pe_names(ms).contains(n),
    ensures
        base_named(w, n) == base_named(ms, n),
{
    reveal(base_named);
    lemma_pe_names_named(ms, n);
    lemma_pe_not_entry(n);
    assert forall|j: int| 0 <= j < ms.len() implies (#[trigger] w[j]).name == ms[j].name by {}
    assert forall|j: int| ms.len() <= j < w.len() implies (#[trigger] w[j]).name != n by {
        assert(entry_region_named(w[j].name));
    }
    lemma_map_named_stable(ms, w, n);
    lemma_map_named_props(ms, n);
}

/// The modules picked from `names` depend on the bases of those names alone.
proof fn lemma_picks_same(ms: Seq<MapView>, w: Seq<MapView>, names: Seq<Seq<char>>, exe: Seq<char>)
    requires
        forall|i: int| 0 <= i < names.len() ==> base_named(w, #[trigger] names[i]) == base_named(ms, names[i]),
    ensures
        ntdll_mods(w, names) == ntdll_mods(ms, names),
        kernel32_mods(w, names) == kernel32_mods(ms, names),
        other_mods(w, names, exe) == other_mods(ms, names, exe),
    decreases names.len(),
{
    reveal(ntdll_mods);
    reveal(kernel32_mods);
    reveal(other_mods);
    if names.len() > 0 {
        let p = names.drop_last();
        assert forall|i: int| 0 <= i < p.len() implies base_named(w, #[trigger] p[i]) == base_named(ms, p[i]) by {
            assert(p[i] == names[i]);
        }
        lemma_picks_same(ms, w, p, exe);
        assert(base_named(w, names[names.len() - 1]) == base_named(ms, names[names.len() - 1]));
    }
}

/// A write keeps the regions' names and places.
proof fn lemma_write_extends(ms: Seq<MapView>, w: Seq<MapView>, a: int, b: Seq<u8>)
    requires
        names_extended(ms, w),
        maps_wf(w),
    ensures
        names_extended(ms, write_spec(w, a, b)),
        maps_wf(write_spec(w, a, b)),
{
    lemma_write_shape(w, a, b);
    let x = write_spec(w, a, b);
    assert forall|j: int| 0 <= j < ms.len() implies (#[trigger] x[j]).name == ms[j].name && x[j].base == ms[j].base by {
        assert(x[j].name == w[j].name && x[j].base == w[j].base);
    }
    assert forall|j: int| ms.len() <= j < x.len() implies entry_region_named(#[trigger] x[j].name) by {
        assert(x[j].name == w[j].name);
    }
}

/// Linking entries into a ring keeps the regions' names and places.
proof fn lemma_link_ring_extends(ms: Seq<MapView>, w: Seq<MapView>, es: Seq<u64>, i: nat)
    requires
        names_extended(ms, w),
        maps_wf(w),
        i <= es.len(),
    ensures
        names_extended(ms, link_ring(w, es, i)),
        maps_wf(link_ring(w, es, i)),
    decreases i,
{
    if i > 0 {
        lemma_link_ring_extends(ms, w, es, (i - 1) as nat);
        let m0 = link_ring(w, es, (i - 1) as nat);
        let k = i - 1;
        let n = es.len() as int;
        let e = es[k];
        let next = es[crate::ldr_lists::ring_next(k, n)];
        let prev = es[crate::ldr_lists::ring_prev(k, n)];
        let m1 = write_spec(m0, e as int, le_bytes64(next));
        let m2 = write_spec(m1, wadd(e, 8) as int, le_bytes64(prev));
        let m3 = write_spec(m2, wadd(e, 0x10) as int, le_bytes64(wadd(next, 0x10)));
        let m4 = write_spec(m3, wadd(e, 0x18) as int, le_bytes64(wadd(prev, 0x10)));
        let m5 = write_spec(m4, wadd(e, 0x20) as int, le_bytes64(wadd(next, 0x20)));
        lemma_write_extends(ms, m0, e as int, le_bytes64(next));
        lemma_write_extends(ms, m1, wadd(e, 8) as int, le_bytes64(prev));
        lemma_write_extends(ms, m2, wadd(e, 0x10) as int, le_bytes64(wadd(next, 0x10)));
        lemma_write_extends(ms, m3, wadd(e, 0x18) as int, le_bytes64(wadd(prev, 0x10)));
        lemma_write_extends(ms, m4, wadd(e, 0x20) as int, le_bytes64(wadd(next, 0x20)));
        lemma_write_extends(ms, m5, wadd(e, 0x28) as int, le_bytes64(wadd(prev, 0x20)));
        assert(link_ring(w, es, i) == link_one(m0, es, k));
    }
}

/// Pointing the loader data at the ring keeps the regions' names and places.
proof fn lemma_heads_extends(ms: Seq<MapView>, w: Seq<MapView>, ldr: u64, first: u64, last: u64)
    requires
        names_extended(ms, w),
        maps_wf(w),
    ensures
        names_extended(ms, ldr_head_writes(w, ldr, first, last)),
        maps_wf(ldr_head_writes(w, ldr, first, last)),
{
    let m1 = write_spec(w, wadd(ldr, 0x10) as int, le_bytes64(first));
    let m2 = write_spec(m1, wadd(ldr, 0x18) as int, le_bytes64(last));
    let m3 = write_spec(m2, wadd(ldr, 0x20) as int, le_bytes64(wadd(first, 0x10)));
    let m4 = write_spec(m3, wadd(ldr, 0x28) as int, le_bytes64(wadd(last, 0x10)));
    let m5 = write_spec(m4, wadd(ldr, 0x30) as int, le_bytes64(wadd(first, 0x20)));
    let m6 = write_spec(m5, wadd(ldr, 0x38) as int, le_bytes64(wadd(last, 0x20)));
    lemma_write_extends(ms, w, wadd(ldr, 0x10) as int, le_bytes64(first));
    lemma_write_extends(ms, m1, wadd(ldr, 0x18) as int, le_bytes64(last));
    lemma_write_extends(ms, m2, wadd(ldr, 0x20) as int, le_bytes64(wadd(first, 0x10)));
    lemma_write_extends(ms, m3, wadd(ldr, 0x28) as int, le_bytes64(wadd(last, 0x10)));
    lemma_write_extends(ms, m4, wadd(ldr, 0x30) as int, le_bytes64(wadd(first, 0x20)));
    lemma_write_extends(ms, m5, wadd(ldr, 0x38) as int, le_bytes64(wadd(last, 0x20)));
    lemma_write_extends(ms, m6, wadd(ldr, 4) as int, le_bytes32(1));
}

/// Emptying hash buckets keeps the regions' names and places.
proof fn lemma_clear_extends(ms: Seq<MapView>, w: Seq<MapView>, table: u64, i: nat)
    requires
        names_extended(ms, w),
        maps_wf(w),
    ensures
        names_extended(ms, clear_buckets(w, table, i)),
        maps_wf(clear_buckets(w, table, i)),
    decreases i,
{
    if i > 0 {
        lemma_clear_extends(ms, w, table, (i - 1) as nat);
        let m = clear_buckets(w, table, (i - 1) as nat);
        let head = crate::ldr_lists::bucket_head(table, (i - 1) as u64);
        lemma_write_extends(ms, m, head as int, le_bytes64(head));
        lemma_write_extends(ms, write_spec(m, head as int, le_bytes64(head)), wadd(head, 8) as int, le_bytes64(head));
    }
}

/// Filling hash buckets keeps the regions' names and places.
proof fn lemma_insert_extends(
    ms: Seq<MapView>,
    w: Seq<MapView>,
    table: u64,
    mods: Seq<(Seq<char>, u64)>,
    entries: Seq<u64>,
    i: nat,
)
    requires
        names_extended(ms, w),
        maps_wf(w),
    ensures
        names_extended(ms, insert_hashes(w, table, mods, entries, i)),
        maps_wf(insert_hashes(w, table, mods, entries, i)),
    decreases i,
{
    if i > 0 {
        lemma_insert_extends(ms, w, table, mods, entries, (i - 1) as nat);
        let m = insert_hashes(w, table, mods, entries, (i - 1) as nat);
        let k = i - 1;
        let head = crate::ldr_lists::bucket_head(table, crate::ldr_lists::bucket_of(mods[k].0));
        let hl = wadd(entries[k], crate::structures::LDR_HASH_LINKS_OFFSET64);
        let tail = match crate::maps::qword_at(m, wadd(head, 8) as int) {
            Some(v) => v,
            None => head,
        };
        let m1 = write_spec(m, hl as int, le_bytes64(head));
        let m2 = write_spec(m1, wadd(hl, 8) as int, le_bytes64(tail));
        let m3 = write_spec(m2, tail as int, le_bytes64(hl));
        lemma_write_extends(ms, m, hl as int, le_bytes64(head));
        lemma_write_extends(ms, m1, wadd(hl, 8) as int, le_bytes64(tail));
        lemma_write_extends(ms, m2, tail as int, le_bytes64(hl));
        lemma_write_extends(ms, m3, wadd(head, 8) as int, le_bytes64(hl));
        assert(insert_hashes(w, table, mods, entries, i) == insert_one(m, table, mods, entries, k));
    }
}

/// Rebuilding ntdll's hash table and resetting its globals keeps the regions' names and places.
proof fn lemma_ntdll_extends(ms: Seq<MapView>, w: Seq<MapView>, mods: Seq<(Seq<char>, u64)>, entries: Seq<u64>)
    requires
        names_extended(ms, w),
        maps_wf(w),
    ensures
        names_extended(ms, globals_spec(rebuild_hash_spec(w, mods, entries))),
        maps_wf(globals_spec(rebuild_hash_spec(w, mods, entries))),
{
    let h = rebuild_hash_spec(w, mods, entries);
    match map_named(w, "ntdll.pe"@) {
        None => {},
        Some(i) => {
            let table = crate::ldr_lists::hash_table_at(w[i].base);
            let n = if mods.len() < entries.len() {
                mods.len()
            } else {
                entries.len()
            };
            lemma_clear_extends(ms, w, table, 32);
            lemma_insert_extends(ms, clear_buckets(w, table, 32), table, mods, entries, n);
        },
    }
    match map_named(h, "ntdll.pe"@) {
        None => {},
        Some(i) => {
            let base = h[i].base;
            let l1 = wadd(base, crate::ldr_lists::NTDLL_LDRP_GLOBAL_2680_RVA64);
            let st = wadd(base, crate::ldr_lists::NTDLL_LDRP_GLOBAL_26C0_RVA64);
            let l3 = wadd(base, crate::ldr_lists::NTDLL_LDRP_GLOBAL_26F0_RVA64);
            let m1 = write_spec(h, l1 as int, le_bytes64(l1));
            let m2 = write_spec(m1, wadd(l1, 8) as int, le_bytes64(l1));
            let m3 = write_spec(m2, st as int, le_bytes64(u64::MAX));
            let m4 = write_spec(m3, l3 as int, le_bytes64(l3));
            lemma_write_extends(ms, h, l1 as int, le_bytes64(l1));
            lemma_write_extends(ms, m1, wadd(l1, 8) as int, le_bytes64(l1));
            lemma_write_extends(ms, m2, st as int, le_bytes64(u64::MAX));
            lemma_write_extends(ms, m3, l3 as int, le_bytes64(l3));
            lemma_write_extends(ms, m4, wadd(l3, 8) as int, le_bytes64(l3));
        },
    }
}

/// Creating the entries of `mods` adds entry regions and keeps every other
/// region's name and place.
proof fn lemma_create_extends(ms: Seq<MapView>, mods: Seq<(Seq<char>, u64)>, seq: u32)
    requires
        maps_wf(ms),
        create_all_ok(ms, mods, seq),
    ensures
        names_extended(ms, create_all(ms, mods, seq).0),
        maps_wf(create_all(ms, mods, seq).0),
    decreases mods.len(),
{
    if mods.len() == 0 {
        assert(names_extended(ms, ms));
    } else {
        let pm = mods.drop_last();
        lemma_create_extends(ms, pm, seq);
        let prev = create_all(ms, pm, seq);
        let w = prev.0;
        let md = mods.last();
        let space = alloc_spec(w, LDR_REGION_SIZE)->0;
        let name = ldr_region_name(w, md.0, prev.2);
        let full = crate::ldr::system32_dir() + md.0;
        let m0 = w.push(fresh_map(name, space, LDR_REGION_SIZE as nat, Permission::ReadWrite));
        lemma_alloc_fresh(w, name, LDR_REGION_SIZE, Permission::ReadWrite);
        lemma_ldr_name_ends(w, md.0, prev.2);
        assert(names_extended(ms, m0)) by {
            assert forall|j: int| 0 <= j < ms.len() implies (#[trigger] m0[j]).name == ms[j].name && m0[j].base
                == ms[j].base by {
                assert(m0[j] == w[j]);
            }
            assert forall|j: int| ms.len() <= j < m0.len() implies entry_region_named(#[trigger] m0[j].name) by {
                if j < w.len() {
                    assert(m0[j] == w[j]);
                }
            }
        }
        let m1 = write_spec(m0, space + LDR_REGION_SIZE - 1, seq![0x61u8]);
        lemma_write_extends(ms, m0, space + LDR_REGION_SIZE - 1, seq![0x61u8]);
        let t1 = full + "\0\0"@;
        let m2 = write_wide_spec(m1, space + crate::structures::LDR_ENTRY_SIZE, t1);
        lemma_write_extends(ms, m1, space + crate::structures::LDR_ENTRY_SIZE, crate::maps::wide_bytes(t1));
        let t2 = md.0 + "\0"@;
        let a2 = crate::ldr::base_name_addr(space, crate::ldr::utf8_len(full)) as int;
        let m3 = write_wide_spec(m2, a2, t2);
        lemma_write_extends(ms, m2, a2, crate::maps::wide_bytes(t2));
        assert(m3 == entry_region_maps(w, space, md.0, prev.2));
        let e = crate::ldr::ldr_entry_spec(w, space, md.1, crate::ldr_lists::entry_point_of(w, md.1), md.0, 0, 0);
        lemma_write_extends(ms, m3, space as int, crate::structures::ldr_entry_bytes(e));
        reveal(create_entry_maps);
    }
}

/// `rebuild_ldr_lists` keeps every region's name and place, and names every
/// region it adds as an entry region.
proof fn lemma_rebuild_extends(ms: Seq<MapView>, seq: u32, exe_name: Seq<char>, exe_base: u64, filename: Seq<char>)
    requires
        maps_wf(ms),
        ldr_of(ms) != 0 ==> create_all_ok(ms, module_list(ms, exe_name, exe_base, filename), seq),
    ensures
        names_extended(ms, rebuild_spec(ms, seq, exe_name, exe_base, filename).0),
{
    reveal(rebuild_spec);
    let ldr = ldr_of(ms);
    if ldr == 0 {
        assert(names_extended(ms, ms));
    } else {
        let mods = module_list(ms, exe_name, exe_base, filename);
        let created = create_all(ms, mods, seq);
        let es = created.1;
        lemma_create_extends(ms, mods, seq);
        let m2 = link_ring(created.0, es, es.len());
        lemma_link_ring_extends(ms, created.0, es, es.len());
        let m3 = ldr_head_writes(m2, ldr, es[0], es[es.len() - 1]);
        lemma_heads_extends(ms, m2, ldr, es[0], es[es.len() - 1]);
        lemma_ntdll_extends(ms, m3, mods, es);
        let m5 = globals_spec(rebuild_hash_spec(m3, mods, es));
        if exe_base != 0 {
            lemma_write_extends(ms, m5, crate::ldr::peb_base(ms) + 0x10, le_bytes64(exe_base));
        }
    }
}

/// Rebuilding keeps the modules it lists: the regions a rebuild adds are entry
/// regions, never ".pe" images, and it moves no region, so a second
/// `rebuild_ldr_lists` (whose configuration and executable base the first
/// leaves as they were) makes entries for the same modules, with the same
/// bases, in the same order.
pub proof fn law_rebuild_keeps_modules(
    ms: Seq<MapView>,
    seq: u32,
    exe_name: Seq<char>,
    exe_base: u64,
    filename: Seq<char>,
)
    requires
        maps_wf(ms),
        ldr_of(ms) != 0 ==> create_all_ok(ms, module_list(ms, exe_name, exe_base, filename), seq),
    ensures
        module_list(rebuild_spec(ms, seq, exe_name, exe_base, filename).0, exe_name, exe_base, filename)
            == module_list(ms, exe_name, exe_base, filename),
{
    let w = rebuild_spec(ms, seq, exe_name, exe_base, filename).0;
    lemma_rebuild_extends(ms, seq, exe_name, exe_base, filename);
    lemma_modules_same(ms, w, exe_name, exe_base, filename);
}

/// Regions that add only entry regions list the same modules.
proof fn lemma_modules_same(ms: Seq<MapView>, w: Seq<MapView>, exe_name: Seq<char>, exe_base: u64, filename: Seq<char>)
    requires
        names_extended(ms, w),
    ensures
        module_list(w, exe_name, exe_base, filename) == module_list(ms, exe_name, exe_base, filename),
{
    lemma_pe_names_same(ms, w);
    let names = pe_names(ms);
    assert forall|i: int| 0 <= i < names.len() implies base_named(w, #[trigger] names[i]) == base_named(ms, names[i]) by {
        assert(names.contains(names[i]));
        lemma_base_named_same(ms, w, names[i]);
    }
    lemma_picks_same(ms, w, names, crate::ldr_lists::exe_stem(filename));
}

} // verus!
