//! The ring that `rebuild_ldr_lists` links its loader entries into.
use vstd::prelude::*;
use crate::bytes::{le_bytes32, le_bytes64, lemma_le_bytes32_len, lemma_le_bytes64_len};
use crate::maps::{
    MapView, maps_wf, holds, map_end, qword_at, bytes_at, write_spec, region_for, map_named, top_of, alloc_spec,
    lemma_region_unique, lemma_region_for_holds, lemma_write_shape, lemma_write_frame, lemma_map_named,
    lemma_map_named_props, lemma_top_of, law_qword_write_read, law_qword_write_frame,
};
use crate::ldr::{wadd, ldr_region_name, has_peb, peb_base, peb_ldr, list_head, rq, chain, next_of, walk_ends, LDR_REGION_SIZE};
use crate::ldr_lists::{
    link_one, link_ring, ring_next, ring_prev, lemma_ring_positions, create_all, create_all_ok, entry_point_of, ldr_head_writes,
    clear_buckets, insert_hashes, insert_one, bucket_head, bucket_of, ldr_hash, rebuild_hash_spec, globals_spec,
    hash_table_at, ldr_of, module_list, rebuild_spec, NTDLL_LDRP_GLOBAL_2680_RVA64, NTDLL_LDRP_GLOBAL_26C0_RVA64,
    NTDLL_LDRP_GLOBAL_26F0_RVA64,
};
use crate::ldr_laws::{name_fits, law_create_entry_step};
use crate::text::decimal_chars;
use crate::name_laws::{name_words, base_name_at, no_nul, base_name_fits, law_create_entry_base_name};

verus! {

/// Address `o` bytes into the entry `es[k]`.
pub open spec fn slot(es: Seq<u64>, k: int, o: int) -> int {
    es[k] + o
}

/// Regions `l`, `l + 1`, ... of `m` are entry regions that start at the entries `es`.
pub open spec fn entry_regions(m: Seq<MapView>, es: Seq<u64>, l: int) -> bool {
    &&& maps_wf(m)
    &&& 0 <= l && l + es.len() <= m.len()
    &&& forall|k: int|
        0 <= k < es.len() ==> m[l + k].base == #[trigger] es[k] && m[l + k].data.len() == LDR_REGION_SIZE
}

/// `w` has the regions of `m`, with the same names, places and sizes.
pub open spec fn same_shape(m: Seq<MapView>, w: Seq<MapView>) -> bool {
    &&& w.len() == m.len()
    &&& forall|j: int|
        0 <= j < m.len() ==> (#[trigger] w[j]).base == m[j].base && w[j].data.len() == m[j].data.len()
            && w[j].name == m[j].name
}

/// The three link pairs of entry `k` point at its ring neighbours.
pub open spec fn linked_at(m: Seq<MapView>, es: Seq<u64>, k: int) -> bool {
    let n = es.len() as int;
    let nx = es[ring_next(k, n)];
    let pv = es[ring_prev(k, n)];
    &&& qword_at(m, slot(es, k, 0)) == Some(nx)
    &&& qword_at(m, slot(es, k, 8)) == Some(pv)
    &&& qword_at(m, slot(es, k, 0x10)) == Some(wadd(nx, 0x10))
    &&& qword_at(m, slot(es, k, 0x18)) == Some(wadd(pv, 0x10))
    &&& qword_at(m, slot(es, k, 0x20)) == Some(wadd(nx, 0x20))
    &&& qword_at(m, slot(es, k, 0x28)) == Some(wadd(pv, 0x20))
}

/// Keeping the shape is transitive.
pub proof fn lemma_same_shape_trans(a: Seq<MapView>, b: Seq<MapView>, c: Seq<MapView>)
    requires
        same_shape(a, b),
        same_shape(b, c),
    ensures
        same_shape(a, c),
{
    assert forall|j: int| 0 <= j < a.len() implies (#[trigger] c[j]).base == a[j].base && c[j].data.len()
        == a[j].data.len() && c[j].name == a[j].name by {
        assert(b[j].base == a[j].base);
    }
}

proof fn lemma_shape_keeps_regions(m: Seq<MapView>, w: Seq<MapView>, es: Seq<u64>, l: int)
    requires
        entry_regions(m, es, l),
        same_shape(m, w),
        maps_wf(w),
    ensures
        entry_regions(w, es, l),
{
    assert forall|k: int| 0 <= k < es.len() implies w[l + k].base == #[trigger] es[k] && w[l + k].data.len()
        == LDR_REGION_SIZE by {
        assert(m[l + k].base == es[k]);
    }
}

/// One 64-bit write into the link area of entry `i` lands, and changes no other
/// word of the first 0x38 bytes of any entry.
proof fn lemma_one_write(m: Seq<MapView>, es: Seq<u64>, l: int, i: int, off: int, v: u64)
    requires
        entry_regions(m, es, l),
        0 <= i < es.len(),
        0 <= off <= 0x28,
    ensures
        ({
            let w = write_spec(m, slot(es, i, off), le_bytes64(v));
            &&& same_shape(m, w)
            &&& entry_regions(w, es, l)
            &&& qword_at(w, slot(es, i, off)) == Some(v)
            &&& forall|k: int, o: int|
                0 <= k < es.len() && 0 <= o <= 0x30 && (k != i || o + 8 <= off || off + 8 <= o)
                    ==> qword_at(w, #[trigger] slot(es, k, o)) == qword_at(m, slot(es, k, o))
            &&& zone_kept(m, w, es)
        }),
{
    let a = slot(es, i, off);
    let w = write_spec(m, a, le_bytes64(v));
    assert(m[l + i].base == es[i]);
    assert(holds(m[l + i], a, 8));
    lemma_region_unique(m, a, 8, l + i);
    law_qword_write_read(m, a, v);
    lemma_write_shape(m, a, le_bytes64(v));
    lemma_shape_keeps_regions(m, w, es, l);
    assert forall|k: int, o: int|
        0 <= k < es.len() && 0 <= o <= 0x30 && (k != i || o + 8 <= off || off + 8 <= o) implies qword_at(
        w,
        #[trigger] slot(es, k, o),
    ) == qword_at(m, slot(es, k, o)) by {
        let c = slot(es, k, o);
        if k != i {
            assert(m[l + k].base == es[k]);
            assert(map_end(m[l + k]) <= m[l + i].base || map_end(m[l + i]) <= m[l + k].base);
        }
        assert(c + 8 <= a || a + 8 <= c);
        law_qword_write_frame(m, a, v, c);
    }
    assert forall|k: int, c: int, n: nat|
        #![trigger in_zone(es, k, c, n as int), bytes_at(w, c, n)]
        0 <= k < es.len() && n >= 1 && in_zone(es, k, c, n as int) implies bytes_at(w, c, n) == bytes_at(m, c, n) by {
        if k != i {
            assert(m[l + k].base == es[k]);
            assert(map_end(m[l + k]) <= m[l + i].base || map_end(m[l + i]) <= m[l + k].base);
        }
        crate::bytes::lemma_le64_roundtrip(v);
        lemma_write_frame(m, a, le_bytes64(v), c, n);
    }
}

/// Linking entry `i` sets its three link pairs and changes no other word of the
/// link areas and `DllBase` fields of the entries.
proof fn lemma_link_one(m: Seq<MapView>, es: Seq<u64>, l: int, i: int)
    requires
        entry_regions(m, es, l),
        0 <= i < es.len(),
    ensures
        same_shape(m, link_one(m, es, i)),
        entry_regions(link_one(m, es, i), es, l),
        linked_at(link_one(m, es, i), es, i),
        zone_kept(m, link_one(m, es, i), es),
        forall|k: int, o: int|
            0 <= k < es.len() && 0 <= o <= 0x30 && (k != i || o == 0x30) ==> qword_at(
                link_one(m, es, i),
                #[trigger] slot(es, k, o),
            ) == qword_at(m, slot(es, k, o)),
{
    let n = es.len() as int;
    let e = es[i];
    let nx = es[ring_next(i, n)];
    let pv = es[ring_prev(i, n)];
    assert(m[l + i].base == es[i]);
    assert(e + LDR_REGION_SIZE <= crate::maps::addr_space());
    assert(wadd(e, 8) == slot(es, i, 8));
    assert(wadd(e, 0x10) == slot(es, i, 0x10));
    assert(wadd(e, 0x18) == slot(es, i, 0x18));
    assert(wadd(e, 0x20) == slot(es, i, 0x20));
    assert(wadd(e, 0x28) == slot(es, i, 0x28));
    assert(e as int == slot(es, i, 0));
    let m1 = write_spec(m, slot(es, i, 0), le_bytes64(nx));
    lemma_one_write(m, es, l, i, 0, nx);
    let m2 = write_spec(m1, slot(es, i, 8), le_bytes64(pv));
    lemma_one_write(m1, es, l, i, 8, pv);
    let m3 = write_spec(m2, slot(es, i, 0x10), le_bytes64(wadd(nx, 0x10)));
    lemma_one_write(m2, es, l, i, 0x10, wadd(nx, 0x10));
    let m4 = write_spec(m3, slot(es, i, 0x18), le_bytes64(wadd(pv, 0x10)));
    lemma_one_write(m3, es, l, i, 0x18, wadd(pv, 0x10));
    let m5 = write_spec(m4, slot(es, i, 0x20), le_bytes64(wadd(nx, 0x20)));
    lemma_one_write(m4, es, l, i, 0x20, wadd(nx, 0x20));
    let m6 = write_spec(m5, slot(es, i, 0x28), le_bytes64(wadd(pv, 0x20)));
    lemma_one_write(m5, es, l, i, 0x28, wadd(pv, 0x20));
    assert(m6 == link_one(m, es, i));
    lemma_same_shape_trans(m, m1, m2);
    lemma_same_shape_trans(m, m2, m3);
    lemma_same_shape_trans(m, m3, m4);
    lemma_same_shape_trans(m, m4, m5);
    lemma_same_shape_trans(m, m5, m6);
    lemma_zone_trans(m, m1, m2, es);
    lemma_zone_trans(m, m2, m3, es);
    lemma_zone_trans(m, m3, m4, es);
    lemma_zone_trans(m, m4, m5, es);
    lemma_zone_trans(m, m5, m6, es);
    assert(qword_at(m6, slot(es, i, 0)) == Some(nx)) by {
        assert(qword_at(m2, slot(es, i, 0)) == qword_at(m1, slot(es, i, 0)));
        assert(qword_at(m3, slot(es, i, 0)) == qword_at(m2, slot(es, i, 0)));
        assert(qword_at(m4, slot(es, i, 0)) == qword_at(m3, slot(es, i, 0)));
        assert(qword_at(m5, slot(es, i, 0)) == qword_at(m4, slot(es, i, 0)));
        assert(qword_at(m6, slot(es, i, 0)) == qword_at(m5, slot(es, i, 0)));
    }
    assert(qword_at(m6, slot(es, i, 8)) == Some(pv)) by {
        assert(qword_at(m3, slot(es, i, 8)) == qword_at(m2, slot(es, i, 8)));
        assert(qword_at(m4, slot(es, i, 8)) == qword_at(m3, slot(es, i, 8)));
        assert(qword_at(m5, slot(es, i, 8)) == qword_at(m4, slot(es, i, 8)));
        assert(qword_at(m6, slot(es, i, 8)) == qword_at(m5, slot(es, i, 8)));
    }
    assert(qword_at(m6, slot(es, i, 0x10)) == Some(wadd(nx, 0x10))) by {
        assert(qword_at(m4, slot(es, i, 0x10)) == qword_at(m3, slot(es, i, 0x10)));
        assert(qword_at(m5, slot(es, i, 0x10)) == qword_at(m4, slot(es, i, 0x10)));
        assert(qword_at(m6, slot(es, i, 0x10)) == qword_at(m5, slot(es, i, 0x10)));
    }
    assert(qword_at(m6, slot(es, i, 0x18)) == Some(wadd(pv, 0x10))) by {
        assert(qword_at(m5, slot(es, i, 0x18)) == qword_at(m4, slot(es, i, 0x18)));
        assert(qword_at(m6, slot(es, i, 0x18)) == qword_at(m5, slot(es, i, 0x18)));
    }
    assert(qword_at(m6, slot(es, i, 0x20)) == Some(wadd(nx, 0x20))) by {
        assert(qword_at(m6, slot(es, i, 0x20)) == qword_at(m5, slot(es, i, 0x20)));
    }
    assert forall|k: int, o: int|
        0 <= k < es.len() && 0 <= o <= 0x30 && (k != i || o == 0x30) implies qword_at(
        m6,
        #[trigger] slot(es, k, o),
    ) == qword_at(m, slot(es, k, o)) by {
        assert(qword_at(m1, slot(es, k, o)) == qword_at(m, slot(es, k, o)));
        assert(qword_at(m2, slot(es, k, o)) == qword_at(m1, slot(es, k, o)));
        assert(qword_at(m3, slot(es, k, o)) == qword_at(m2, slot(es, k, o)));
        assert(qword_at(m4, slot(es, k, o)) == qword_at(m3, slot(es, k, o)));
        assert(qword_at(m5, slot(es, k, o)) == qword_at(m4, slot(es, k, o)));
    }
}

/// After linking the first `i` entries, each of them points at its ring
/// neighbours, and the `DllBase` fields are as before.
pub proof fn lemma_link_ring(m: Seq<MapView>, es: Seq<u64>, l: int, i: nat)
    requires
        entry_regions(m, es, l),
        i <= es.len(),
    ensures
        same_shape(m, link_ring(m, es, i)),
        entry_regions(link_ring(m, es, i), es, l),
        forall|k: int| 0 <= k < i ==> #[trigger] linked_at(link_ring(m, es, i), es, k),
        forall|k: int|
            0 <= k < es.len() ==> qword_at(link_ring(m, es, i), #[trigger] slot(es, k, 0x30)) == qword_at(
                m,
                slot(es, k, 0x30),
            ),
        zone_kept(m, link_ring(m, es, i), es),
    decreases i,
{
    if i > 0 {
        let j = (i - 1) as nat;
        lemma_link_ring(m, es, l, j);
        let p = link_ring(m, es, j);
        lemma_link_one(p, es, l, j as int);
        let q = link_ring(m, es, i);
        assert(q == link_one(p, es, j as int));
        lemma_same_shape_trans(m, p, q);
        lemma_zone_trans(m, p, q, es);
        assert forall|k: int| 0 <= k < i implies #[trigger] linked_at(q, es, k) by {
            if k < j {
                assert(linked_at(p, es, k));
                assert(qword_at(q, slot(es, k, 0)) == qword_at(p, slot(es, k, 0)));
                assert(qword_at(q, slot(es, k, 8)) == qword_at(p, slot(es, k, 8)));
                assert(qword_at(q, slot(es, k, 0x10)) == qword_at(p, slot(es, k, 0x10)));
                assert(qword_at(q, slot(es, k, 0x18)) == qword_at(p, slot(es, k, 0x18)));
                assert(qword_at(q, slot(es, k, 0x20)) == qword_at(p, slot(es, k, 0x20)));
                assert(qword_at(q, slot(es, k, 0x28)) == qword_at(p, slot(es, k, 0x28)));
            }
        }
        assert forall|k: int| 0 <= k < es.len() implies qword_at(q, #[trigger] slot(es, k, 0x30)) == qword_at(
            m,
            slot(es, k, 0x30),
        ) by {
            assert(qword_at(q, slot(es, k, 0x30)) == qword_at(p, slot(es, k, 0x30)));
        }
    }
}

/// The base an entry records for a module at `base`: the base, or the entry's
/// own address when the base is 0.
pub open spec fn recorded_base(base: u64, entry: u64) -> u64 {
    if base > 0 {
        base
    } else {
        entry
    }
}

/// Every name of `mods` fits an entry region.
pub open spec fn names_fit(mods: Seq<(Seq<char>, u64)>) -> bool {
    forall|k: int| 0 <= k < mods.len() ==> name_fits(#[trigger] mods[k].0)
}

proof fn lemma_top_grows(m: Seq<MapView>, r: Seq<MapView>)
    requires
        m.len() <= r.len(),
        forall|j: int| 0 <= j < m.len() ==> #[trigger] r[j] == m[j],
    ensures
        top_of(m) <= top_of(r),
    decreases r.len(),
{
    if r.len() > m.len() {
        let d = r.drop_last();
        assert forall|j: int| 0 <= j < m.len() implies #[trigger] d[j] == m[j] by {
            assert(r[j] == m[j]);
        }
        lemma_top_grows(m, d);
    } else {
        assert(r =~= m);
    }
}

proof fn lemma_old_read_kept(m: Seq<MapView>, r: Seq<MapView>, j: int, c: int, n: nat)
    requires
        maps_wf(m),
        maps_wf(r),
        n >= 1,
        0 <= j < m.len(),
        j < r.len(),
        r[j] == m[j],
        holds(m[j], c, n as int),
    ensures
        bytes_at(r, c, n) == bytes_at(m, c, n),
{
    lemma_region_unique(m, c, n as int, j);
    lemma_region_unique(r, c, n as int, j);
}

/// The name of an entry region ends in "r" (of ".ldr") or in a decimal digit.
pub open spec fn entry_region_named(name: Seq<char>) -> bool {
    name.len() > 0 && (name.last() == 'r' || ('0' <= name.last() && name.last() <= '9'))
}

/// Entry region names end in "r" or in a decimal digit.
pub proof fn lemma_ldr_name_ends(ms: Seq<MapView>, lib: Seq<char>, seq: u32)
    ensures
        entry_region_named(ldr_region_name(ms, lib, seq)),
{
    reveal_strlit(".ldr");
    reveal_strlit(".ldr.");
    let n = seq as nat;
    let d = decimal_chars(n);
    assert(d.len() > 0 && '0' <= d.last() && d.last() <= '9') by {
        if n >= 10 {
            assert(n % 10 < 10);
        }
    }
    let a = lib + ".ldr."@;
    assert((a + d).last() == d.last());
    assert((lib + ".ldr"@).last() == 'r');
}

/// Creating the entries of `mods` one after the other appends one entry region
/// per module, above every region there was, keeps the old regions, and
/// records each module's base in its entry.
#[verifier::spinoff_prover]
pub proof fn lemma_create_all(ms: Seq<MapView>, mods: Seq<(Seq<char>, u64)>, seq: u32)
    requires
        maps_wf(ms),
        create_all_ok(ms, mods, seq),
        names_fit(mods),
    ensures
        ({
            let c = create_all(ms, mods, seq);
            &&& entry_regions(c.0, c.1, ms.len() as int)
            &&& c.1.len() == mods.len()
            &&& c.0.len() == ms.len() + mods.len()
            &&& forall|j: int| 0 <= j < ms.len() ==> #[trigger] c.0[j] == ms[j]
            &&& forall|k: int| 0 <= k < c.1.len() ==> top_of(ms) <= #[trigger] c.1[k]
            &&& forall|k: int|
                0 <= k < c.1.len() ==> qword_at(c.0, #[trigger] slot(c.1, k, 0x30)) == Some(
                    recorded_base(mods[k].1, c.1[k]),
                )
            &&& forall|j: int| ms.len() <= j < c.0.len() ==> entry_region_named(#[trigger] c.0[j].name)
        }),
    decreases mods.len(),
{
    if mods.len() > 0 {
        let pm = mods.drop_last();
        assert forall|k: int| 0 <= k < pm.len() implies name_fits(#[trigger] pm[k].0) by {
            assert(pm[k] == mods[k]);
        }
        lemma_create_all(ms, pm, seq);
        let prev = create_all(ms, pm, seq);
        let md = mods.last();
        assert(name_fits(mods[mods.len() - 1].0));
        let space = alloc_spec(prev.0, LDR_REGION_SIZE)->0;
        law_create_entry_step(prev.0, md.1, entry_point_of(prev.0, md.1), md.0, 0, 0, prev.2);
        let c = create_all(ms, mods, seq);
        let r = c.0;
        let es = c.1;
        assert(es == prev.1.push(space));
        let l = ms.len() as int;
        lemma_top_grows(ms, prev.0);
        assert forall|k: int| 0 <= k < es.len() implies r[l + k].base == #[trigger] es[k] && r[l + k].data.len()
            == LDR_REGION_SIZE by {
            if k < prev.1.len() {
                assert(prev.1[k] == es[k]);
                assert(r[l + k] == prev.0[l + k]);
            }
        }
        assert forall|j: int| 0 <= j < ms.len() implies #[trigger] r[j] == ms[j] by {
            assert(r[j] == prev.0[j]);
        }
        lemma_ldr_name_ends(prev.0, md.0, prev.2);
        assert forall|j: int| ms.len() <= j < r.len() implies entry_region_named(#[trigger] r[j].name) by {
            if j < prev.0.len() {
                assert(r[j] == prev.0[j]);
            }
        }
        assert forall|k: int| 0 <= k < es.len() implies top_of(ms) <= #[trigger] es[k] by {
            if k < prev.1.len() {
                assert(prev.1[k] == es[k]);
            }
        }
        assert forall|k: int| 0 <= k < es.len() implies qword_at(r, #[trigger] slot(es, k, 0x30)) == Some(
            recorded_base(mods[k].1, es[k]),
        ) by {
            if k < prev.1.len() {
                assert(prev.1[k] == es[k]);
                assert(pm[k] == mods[k]);
                assert(slot(prev.1, k, 0x30) == slot(es, k, 0x30));
                assert(qword_at(prev.0, slot(prev.1, k, 0x30)) == Some(recorded_base(pm[k].1, prev.1[k])));
                assert(prev.0[l + k].base == prev.1[k]);
                assert(holds(prev.0[l + k], slot(es, k, 0x30), 8));
                lemma_old_read_kept(prev.0, r, l + k, slot(es, k, 0x30), 8);
            }
        }
    }
}

/// Address `o` bytes into the loader data at `ldr`.
pub open spec fn ldr_slot(ldr: int, o: int) -> int {
    ldr + o
}

/// `[a, a + len)` meets, in no entry region, the first 0x38 bytes, the
/// `BaseDllName` buffer pointer or the name strings from offset 0x100 on.
pub open spec fn far(es: Seq<u64>, a: int, len: int) -> bool {
    forall|k: int|
        0 <= k < es.len() ==> a + len <= #[trigger] es[k] || (es[k] + 0x38 <= a && a + len <= es[k] + 0x60) || (es[k]
            + 0x68 <= a && a + len <= es[k] + 0x100) || es[k] + LDR_REGION_SIZE <= a
}

/// `w` has the bytes of `m` in the `BaseDllName` buffer pointers and name strings of the entries.
pub open spec fn zone_kept(m: Seq<MapView>, w: Seq<MapView>, es: Seq<u64>) -> bool {
    forall|k: int, c: int, n: nat|
        #![trigger in_zone(es, k, c, n as int), bytes_at(w, c, n)]
        0 <= k < es.len() && n >= 1 && in_zone(es, k, c, n as int) ==> bytes_at(w, c, n) == bytes_at(m, c, n)
}

proof fn lemma_zone_trans(a: Seq<MapView>, b: Seq<MapView>, c: Seq<MapView>, es: Seq<u64>)
    requires
        zone_kept(a, b, es),
        zone_kept(b, c, es),
    ensures
        zone_kept(a, c, es),
{
    assert forall|k: int, x: int, n: nat|
        #![trigger in_zone(es, k, x, n as int), bytes_at(c, x, n)]
        0 <= k < es.len() && n >= 1 && in_zone(es, k, x, n as int) implies bytes_at(c, x, n) == bytes_at(a, x, n) by {
        assert(bytes_at(b, x, n) == bytes_at(a, x, n));
    }
}

/// `[c, c + n)` lies in the `BaseDllName` buffer pointer of entry `k`, or in its
/// name strings.
pub open spec fn in_zone(es: Seq<u64>, k: int, c: int, n: int) -> bool {
    ||| (es[k] + 0x60 <= c && c + n <= es[k] + 0x68)
    ||| (es[k] + 0x100 <= c && c + n <= es[k] + LDR_REGION_SIZE)
}

/// `[a, a + len)` and `[lo, hi)` do not meet.
pub open spec fn apart(a: int, len: int, lo: int, hi: int) -> bool {
    a + len <= lo || hi <= a
}

/// `w` has the shape of `m`, and the same link areas and `DllBase` words of the
/// entries, and the same word at `pq`.
pub open spec fn kept0(m: Seq<MapView>, w: Seq<MapView>, es: Seq<u64>, pq: int) -> bool {
    &&& same_shape(m, w)
    &&& forall|k: int, o: int|
        0 <= k < es.len() && 0 <= o <= 0x30 ==> qword_at(w, #[trigger] slot(es, k, o)) == qword_at(
            m,
            slot(es, k, o),
        )
    &&& qword_at(w, pq) == qword_at(m, pq)
    &&& forall|k: int, c: int, n: nat|
        #![trigger in_zone(es, k, c, n as int), bytes_at(w, c, n)]
        0 <= k < es.len() && n >= 1 && in_zone(es, k, c, n as int) ==> bytes_at(w, c, n) == bytes_at(m, c, n)
}

/// `kept0`, and the same list heads in the loader data at `ldr`.
pub open spec fn kept(m: Seq<MapView>, w: Seq<MapView>, es: Seq<u64>, ldr: int, pq: int) -> bool {
    &&& kept0(m, w, es, pq)
    &&& forall|o: int| 0x10 <= o <= 0x38 ==> qword_at(w, #[trigger] ldr_slot(ldr, o)) == qword_at(m, ldr_slot(ldr, o))
}

proof fn lemma_kept0_trans(a: Seq<MapView>, b: Seq<MapView>, c: Seq<MapView>, es: Seq<u64>, pq: int)
    requires
        kept0(a, b, es, pq),
        kept0(b, c, es, pq),
    ensures
        kept0(a, c, es, pq),
{
    lemma_same_shape_trans(a, b, c);
    assert forall|k: int, o: int| 0 <= k < es.len() && 0 <= o <= 0x30 implies qword_at(
        c,
        #[trigger] slot(es, k, o),
    ) == qword_at(a, slot(es, k, o)) by {
        assert(qword_at(b, slot(es, k, o)) == qword_at(a, slot(es, k, o)));
    }
    assert forall|k: int, x: int, n: nat|
        #![trigger in_zone(es, k, x, n as int), bytes_at(c, x, n)]
        0 <= k < es.len() && n >= 1 && in_zone(es, k, x, n as int) implies bytes_at(c, x, n) == bytes_at(a, x, n) by {
        assert(bytes_at(b, x, n) == bytes_at(a, x, n));
    }
}

proof fn lemma_kept_trans(a: Seq<MapView>, b: Seq<MapView>, c: Seq<MapView>, es: Seq<u64>, ldr: int, pq: int)
    requires
        kept(a, b, es, ldr, pq),
        kept(b, c, es, ldr, pq),
    ensures
        kept(a, c, es, ldr, pq),
{
    lemma_kept0_trans(a, b, c, es, pq);
    assert forall|o: int| 0x10 <= o <= 0x38 implies qword_at(c, #[trigger] ldr_slot(ldr, o)) == qword_at(
        a,
        ldr_slot(ldr, o),
    ) by {
        assert(qword_at(b, ldr_slot(ldr, o)) == qword_at(a, ldr_slot(ldr, o)));
    }
}

/// A write away from the entries' first 0x38 bytes and from `pq` keeps them.
proof fn lemma_write_kept0(m: Seq<MapView>, es: Seq<u64>, l: int, a: int, b: Seq<u8>, pq: int)
    requires
        entry_regions(m, es, l),
        b.len() >= 1,
        far(es, a, b.len() as int),
        apart(a, b.len() as int, pq, pq + 8),
    ensures
        kept0(m, write_spec(m, a, b), es, pq),
        entry_regions(write_spec(m, a, b), es, l),
{
    let w = write_spec(m, a, b);
    lemma_write_shape(m, a, b);
    lemma_shape_keeps_regions(m, w, es, l);
    assert forall|k: int, o: int| 0 <= k < es.len() && 0 <= o <= 0x30 implies qword_at(
        w,
        #[trigger] slot(es, k, o),
    ) == qword_at(m, slot(es, k, o)) by {
        assert(a + b.len() <= es[k] || es[k] + 0x38 <= a);
        lemma_write_frame(m, a, b, slot(es, k, o), 8);
    }
    lemma_write_frame(m, a, b, pq, 8);
    assert forall|k: int, c: int, n: nat|
        #![trigger in_zone(es, k, c, n as int), bytes_at(w, c, n)]
        0 <= k < es.len() && n >= 1 && in_zone(es, k, c, n as int) implies bytes_at(w, c, n) == bytes_at(m, c, n) by {
        assert(a + b.len() <= es[k] || (es[k] + 0x38 <= a && a + b.len() <= es[k] + 0x60) || (es[k] + 0x68 <= a && a
            + b.len() <= es[k] + 0x100) || es[k] + LDR_REGION_SIZE <= a);
        lemma_write_frame(m, a, b, c, n);
    }
}

/// A write away from the entries' first 0x38 bytes, from `pq` and from the list
/// heads at `ldr` keeps them.
proof fn lemma_write_kept(m: Seq<MapView>, es: Seq<u64>, l: int, a: int, b: Seq<u8>, ldr: int, pq: int)
    requires
        entry_regions(m, es, l),
        b.len() >= 1,
        far(es, a, b.len() as int),
        apart(a, b.len() as int, pq, pq + 8),
        apart(a, b.len() as int, ldr + 0x10, ldr + 0x40),
    ensures
        kept(m, write_spec(m, a, b), es, ldr, pq),
        entry_regions(write_spec(m, a, b), es, l),
{
    lemma_write_kept0(m, es, l, a, b, pq);
    assert forall|o: int| 0x10 <= o <= 0x38 implies qword_at(write_spec(m, a, b), #[trigger] ldr_slot(ldr, o))
        == qword_at(m, ldr_slot(ldr, o)) by {
        lemma_write_frame(m, a, b, ldr_slot(ldr, o), 8);
    }
}

/// Memory below `top` is far from entries placed at or above it.
proof fn lemma_below_is_far(es: Seq<u64>, top: int, a: int, len: int)
    requires
        forall|k: int| 0 <= k < es.len() ==> top <= #[trigger] es[k],
        a + len <= top,
    ensures
        far(es, a, len),
{
    assert forall|k: int| 0 <= k < es.len() implies a + len <= #[trigger] es[k] || (es[k] + 0x38 <= a && a + len
        <= es[k] + 0x60) || (es[k] + 0x68 <= a && a + len <= es[k] + 0x100) || es[k] + LDR_REGION_SIZE <= a by {
        assert(top <= es[k]);
    }
}

/// `o` is the offset of one of the six list-head words of the loader data.
pub open spec fn is_head_word(o: int) -> bool {
    o == 0x10 || o == 0x18 || o == 0x20 || o == 0x28 || o == 0x30 || o == 0x38
}

/// The value each list-head word of the loader data gets from `ldr_head_writes`.
pub open spec fn head_value(first: u64, last: u64, o: int) -> u64 {
    if o == 0x10 {
        first
    } else if o == 0x18 {
        last
    } else if o == 0x20 {
        wadd(first, 0x10)
    } else if o == 0x28 {
        wadd(last, 0x10)
    } else if o == 0x30 {
        wadd(first, 0x20)
    } else {
        wadd(last, 0x20)
    }
}

/// Pointing the loader data at the first and last entries keeps the entries and
/// the word at `pq`.
proof fn lemma_head_writes_kept(m: Seq<MapView>, es: Seq<u64>, l: int, ldr: u64, first: u64, last: u64, pq: int)
    requires
        entry_regions(m, es, l),
        forall|k: int| 0 <= k < es.len() ==> ldr + 0x40 <= #[trigger] es[k],
        ldr + 0x40 <= crate::maps::addr_space(),
        apart(ldr + 4, 4, pq, pq + 8),
        apart(ldr + 0x10, 0x30, pq, pq + 8),
    ensures
        kept0(m, ldr_head_writes(m, ldr, first, last), es, pq),
        entry_regions(ldr_head_writes(m, ldr, first, last), es, l),
{
    broadcast use lemma_le_bytes32_len, lemma_le_bytes64_len;
    let li = ldr as int;
    let w1 = write_spec(m, wadd(ldr, 0x10) as int, le_bytes64(first));
    assert(wadd(ldr, 0x10) == li + 0x10);
    lemma_below_is_far(es, li + 0x40, li + 0x10, 8);
    lemma_write_kept0(m, es, l, li + 0x10, le_bytes64(first), pq);
    let w2 = write_spec(w1, wadd(ldr, 0x18) as int, le_bytes64(last));
    assert(wadd(ldr, 0x18) == li + 0x18);
    lemma_below_is_far(es, li + 0x40, li + 0x18, 8);
    lemma_write_kept0(w1, es, l, li + 0x18, le_bytes64(last), pq);
    lemma_kept0_trans(m, w1, w2, es, pq);
    let w3 = write_spec(w2, wadd(ldr, 0x20) as int, le_bytes64(wadd(first, 0x10)));
    assert(wadd(ldr, 0x20) == li + 0x20);
    lemma_below_is_far(es, li + 0x40, li + 0x20, 8);
    lemma_write_kept0(w2, es, l, li + 0x20, le_bytes64(wadd(first, 0x10)), pq);
    lemma_kept0_trans(m, w2, w3, es, pq);
    let w4 = write_spec(w3, wadd(ldr, 0x28) as int, le_bytes64(wadd(last, 0x10)));
    assert(wadd(ldr, 0x28) == li + 0x28);
    lemma_below_is_far(es, li + 0x40, li + 0x28, 8);
    lemma_write_kept0(w3, es, l, li + 0x28, le_bytes64(wadd(last, 0x10)), pq);
    lemma_kept0_trans(m, w3, w4, es, pq);
    let w5 = write_spec(w4, wadd(ldr, 0x30) as int, le_bytes64(wadd(first, 0x20)));
    assert(wadd(ldr, 0x30) == li + 0x30);
    lemma_below_is_far(es, li + 0x40, li + 0x30, 8);
    lemma_write_kept0(w4, es, l, li + 0x30, le_bytes64(wadd(first, 0x20)), pq);
    lemma_kept0_trans(m, w4, w5, es, pq);
    let w6 = write_spec(w5, wadd(ldr, 0x38) as int, le_bytes64(wadd(last, 0x20)));
    assert(wadd(ldr, 0x38) == li + 0x38);
    lemma_below_is_far(es, li + 0x40, li + 0x38, 8);
    lemma_write_kept0(w5, es, l, li + 0x38, le_bytes64(wadd(last, 0x20)), pq);
    lemma_kept0_trans(m, w5, w6, es, pq);
    let w7 = write_spec(w6, wadd(ldr, 4) as int, le_bytes32(1));
    assert(wadd(ldr, 4) == li + 4);
    lemma_below_is_far(es, li + 0x40, li + 4, 4);
    lemma_write_kept0(w6, es, l, li + 4, le_bytes32(1), pq);
    lemma_kept0_trans(m, w6, w7, es, pq);
    assert(w7 == ldr_head_writes(m, ldr, first, last));
}

/// Pointing the loader data at the first and last entries sets its six list-head words.
proof fn lemma_head_writes_values(m: Seq<MapView>, ldr: u64, first: u64, last: u64)
    requires
        maps_wf(m),
        region_for(m, ldr as int, 0x40) is Some,
    ensures
        forall|o: int|
            is_head_word(o) ==> qword_at(ldr_head_writes(m, ldr, first, last), #[trigger] ldr_slot(ldr as int, o))
                == Some(head_value(first, last, o)),
{
    broadcast use lemma_le_bytes32_len, lemma_le_bytes64_len;
    let li = ldr as int;
    lemma_region_for_holds(m, li, 0x40);
    let ri = region_for(m, li, 0x40)->0;
    assert(li + 0x40 <= crate::maps::addr_space());
    assert(wadd(ldr, 0x10) == li + 0x10);
    assert(wadd(ldr, 0x18) == li + 0x18);
    assert(wadd(ldr, 0x20) == li + 0x20);
    assert(wadd(ldr, 0x28) == li + 0x28);
    assert(wadd(ldr, 0x30) == li + 0x30);
    assert(wadd(ldr, 0x38) == li + 0x38);
    assert(wadd(ldr, 4) == li + 4);
    let w1 = write_spec(m, li + 0x10, le_bytes64(first));
    let w2 = write_spec(w1, li + 0x18, le_bytes64(last));
    let w3 = write_spec(w2, li + 0x20, le_bytes64(wadd(first, 0x10)));
    let w4 = write_spec(w3, li + 0x28, le_bytes64(wadd(last, 0x10)));
    let w5 = write_spec(w4, li + 0x30, le_bytes64(wadd(first, 0x20)));
    let w6 = write_spec(w5, li + 0x38, le_bytes64(wadd(last, 0x20)));
    let w7 = write_spec(w6, li + 4, le_bytes32(1));
    assert(w7 == ldr_head_writes(m, ldr, first, last));
    lemma_region_ok_start(m, ri, li);
    lemma_region_ok_step(m, ri, li, li + 0x10, le_bytes64(first));
    lemma_region_ok_step(w1, ri, li, li + 0x18, le_bytes64(last));
    lemma_region_ok_step(w2, ri, li, li + 0x20, le_bytes64(wadd(first, 0x10)));
    lemma_region_ok_step(w3, ri, li, li + 0x28, le_bytes64(wadd(last, 0x10)));
    lemma_region_ok_step(w4, ri, li, li + 0x30, le_bytes64(wadd(first, 0x20)));
    lemma_region_ok_step(w5, ri, li, li + 0x38, le_bytes64(wadd(last, 0x20)));
    assert(qword_at(w7, ldr_slot(li, 16)) == Some(first)) by {
        lemma_land(m, ri, li, li + 16, first);
        lemma_region_ok_frame(w1, ri, li, li + 24, last, li + 16);
        lemma_region_ok_frame(w2, ri, li, li + 32, wadd(first, 0x10), li + 16);
        lemma_region_ok_frame(w3, ri, li, li + 40, wadd(last, 0x10), li + 16);
        lemma_region_ok_frame(w4, ri, li, li + 48, wadd(first, 0x20), li + 16);
        lemma_region_ok_frame(w5, ri, li, li + 56, wadd(last, 0x20), li + 16);
        lemma_region_ok_wf(w6, ri, li);
        lemma_write_frame(w6, li + 4, le_bytes32(1), li + 16, 8);
    }
    assert(qword_at(w7, ldr_slot(li, 24)) == Some(last)) by {
        lemma_land(w1, ri, li, li + 24, last);
        lemma_region_ok_frame(w2, ri, li, li + 32, wadd(first, 0x10), li + 24);
        lemma_region_ok_frame(w3, ri, li, li + 40, wadd(last, 0x10), li + 24);
        lemma_region_ok_frame(w4, ri, li, li + 48, wadd(first, 0x20), li + 24);
        lemma_region_ok_frame(w5, ri, li, li + 56, wadd(last, 0x20), li + 24);
        lemma_region_ok_wf(w6, ri, li);
        lemma_write_frame(w6, li + 4, le_bytes32(1), li + 24, 8);
    }
    assert(qword_at(w7, ldr_slot(li, 32)) == Some(wadd(first, 0x10))) by {
        lemma_land(w2, ri, li, li + 32, wadd(first, 0x10));
        lemma_region_ok_frame(w3, ri, li, li + 40, wadd(last, 0x10), li + 32);
        lemma_region_ok_frame(w4, ri, li, li + 48, wadd(first, 0x20), li + 32);
        lemma_region_ok_frame(w5, ri, li, li + 56, wadd(last, 0x20), li + 32);
        lemma_region_ok_wf(w6, ri, li);
        lemma_write_frame(w6, li + 4, le_bytes32(1), li + 32, 8);
    }
    assert(qword_at(w7, ldr_slot(li, 40)) == Some(wadd(last, 0x10))) by {
        lemma_land(w3, ri, li, li + 40, wadd(last, 0x10));
        lemma_region_ok_frame(w4, ri, li, li + 48, wadd(first, 0x20), li + 40);
        lemma_region_ok_frame(w5, ri, li, li + 56, wadd(last, 0x20), li + 40);
        lemma_region_ok_wf(w6, ri, li);
        lemma_write_frame(w6, li + 4, le_bytes32(1), li + 40, 8);
    }
    assert(qword_at(w7, ldr_slot(li, 48)) == Some(wadd(first, 0x20))) by {
        lemma_land(w4, ri, li, li + 48, wadd(first, 0x20));
        lemma_region_ok_frame(w5, ri, li, li + 56, wadd(last, 0x20), li + 48);
        lemma_region_ok_wf(w6, ri, li);
        lemma_write_frame(w6, li + 4, le_bytes32(1), li + 48, 8);
    }
    assert(qword_at(w7, ldr_slot(li, 56)) == Some(wadd(last, 0x20))) by {
        lemma_land(w5, ri, li, li + 56, wadd(last, 0x20));
        lemma_region_ok_wf(w6, ri, li);
        lemma_write_frame(w6, li + 4, le_bytes32(1), li + 56, 8);
    }
    assert forall|o: int| is_head_word(o) implies qword_at(w7, #[trigger] ldr_slot(li, o))
        == Some(head_value(first, last, o)) by {
    }
}

/// Region `ri` of a well-formed `w` holds `[li, li + 0x40)`.
#[verifier::opaque]
spec fn region_ok(w: Seq<MapView>, ri: int, li: int) -> bool {
    maps_wf(w) && 0 <= ri < w.len() && holds(w[ri], li, 0x40)
}

proof fn lemma_region_ok_start(w: Seq<MapView>, ri: int, li: int)
    requires
        maps_wf(w),
        0 <= ri < w.len(),
        holds(w[ri], li, 0x40),
    ensures
        region_ok(w, ri, li),
{
    reveal(region_ok);
}

proof fn lemma_region_ok_wf(w: Seq<MapView>, ri: int, li: int)
    requires
        region_ok(w, ri, li),
    ensures
        maps_wf(w),
{
    reveal(region_ok);
}

proof fn lemma_region_ok_step(w: Seq<MapView>, ri: int, li: int, a: int, b: Seq<u8>)
    requires
        region_ok(w, ri, li),
    ensures
        region_ok(write_spec(w, a, b), ri, li),
{
    reveal(region_ok);
    lemma_write_shape(w, a, b);
}

proof fn lemma_region_ok_frame(w: Seq<MapView>, ri: int, li: int, a: int, v: u64, c: int)
    requires
        region_ok(w, ri, li),
        c + 8 <= a || a + 8 <= c,
    ensures
        qword_at(write_spec(w, a, le_bytes64(v)), c) == qword_at(w, c),
{
    reveal(region_ok);
    law_qword_write_frame(w, a, v, c);
}

/// A 64-bit write inside a region lands.
proof fn lemma_land(w: Seq<MapView>, ri: int, li: int, a: int, v: u64)
    requires
        region_ok(w, ri, li),
        li <= a,
        a + 8 <= li + 0x40,
    ensures
        qword_at(write_spec(w, a, le_bytes64(v)), a) == Some(v),
{
    reveal(region_ok);
    assert(holds(w[ri], a, 8));
    lemma_region_unique(w, a, 8, ri);
    law_qword_write_read(w, a, v);
}

/// The tail word of hash bucket `b` of the table at `t` is unreadable, or points
/// at the bucket's own head or at the hash links of one of the entries.
pub open spec fn tame(w: Seq<MapView>, t: int, es: Seq<u64>, b: int) -> bool {
    match qword_at(w, t + 16 * b + 8) {
        None => true,
        Some(v) => v == t + 16 * b || exists|j: int| 0 <= j < es.len() && v == #[trigger] slot(es, j, 0x7f),
    }
}

/// What the hash-table proof may rely on: the entries sit above every old region,
/// and the table, the loader data and `pq` lie below them, the table apart from the other two.
pub open spec fn hash_ctx(es: Seq<u64>, top: int, t: int, ldr: int, pq: int) -> bool {
    &&& forall|k: int| 0 <= k < es.len() ==> top <= #[trigger] es[k]
    &&& t + 0x200 <= top
    &&& top <= crate::maps::addr_space()
    &&& ldr + 0x40 <= top
    &&& pq + 8 <= top
    &&& 0 <= t
    &&& apart(t, 0x200, ldr + 0x10, ldr + 0x40)
    &&& apart(t, 0x200, pq, pq + 8)
}

/// A write inside the table is harmless.
proof fn lemma_table_write(m: Seq<MapView>, es: Seq<u64>, l: int, a: int, v: u64, top: int, t: int, ldr: int, pq: int)
    requires
        entry_regions(m, es, l),
        hash_ctx(es, top, t, ldr, pq),
        t <= a,
        a + 8 <= t + 0x200,
    ensures
        kept(m, write_spec(m, a, le_bytes64(v)), es, ldr, pq),
        entry_regions(write_spec(m, a, le_bytes64(v)), es, l),
{
    broadcast use lemma_le_bytes64_len;
    lemma_below_is_far(es, top, a, 8);
    lemma_write_kept(m, es, l, a, le_bytes64(v), ldr, pq);
}

/// A write into the hash links of entry `j` is harmless.
proof fn lemma_links_write(m: Seq<MapView>, es: Seq<u64>, l: int, j: int, o: int, v: u64, top: int, t: int, ldr: int, pq: int)
    requires
        entry_regions(m, es, l),
        hash_ctx(es, top, t, ldr, pq),
        0 <= j < es.len(),
        o == 0x7f || o == 0x87,
    ensures
        kept(m, write_spec(m, slot(es, j, o), le_bytes64(v)), es, ldr, pq),
        entry_regions(write_spec(m, slot(es, j, o), le_bytes64(v)), es, l),
{
    broadcast use lemma_le_bytes64_len;
    let a = slot(es, j, o);
    assert(m[l + j].base == es[j]);
    assert forall|k: int| 0 <= k < es.len() implies a + 8 <= #[trigger] es[k] || (es[k] + 0x38 <= a && a + 8
        <= es[k] + 0x60) || (es[k] + 0x68 <= a && a + 8 <= es[k] + 0x100) || es[k] + LDR_REGION_SIZE <= a by {
        assert(m[l + k].base == es[k]);
        if k != j {
            assert(map_end(m[l + k]) <= m[l + j].base || map_end(m[l + j]) <= m[l + k].base);
        }
    }
    assert(top <= es[j]);
    lemma_write_kept(m, es, l, a, le_bytes64(v), ldr, pq);
}

/// Hash-table invariant after `i` buckets: everything kept, and each of the
/// first `i` bucket tails tame.
pub open spec fn hash_inv(m0: Seq<MapView>, w: Seq<MapView>, es: Seq<u64>, l: int, t: int, ldr: int, pq: int, i: int) -> bool {
    &&& kept(m0, w, es, ldr, pq)
    &&& entry_regions(w, es, l)
    &&& forall|b: int| 0 <= b < i ==> #[trigger] tame(w, t, es, b)
}

proof fn lemma_kept_refl(m: Seq<MapView>, es: Seq<u64>, ldr: int, pq: int)
    ensures
        kept(m, m, es, ldr, pq),
{
}

/// A write that meets no bucket tail word keeps every bucket tail.
proof fn lemma_tails_kept(w: Seq<MapView>, a: int, v: u64, t: int, es: Seq<u64>, i: int, skip: int)
    requires
        maps_wf(w),
        forall|b: int| 0 <= b < i && b != skip ==> #[trigger] tame(w, t, es, b),
        forall|b: int| 0 <= b < 32 && b != skip ==> apart(a, 8, #[trigger] (t + 16 * b + 8), t + 16 * b + 16),
        i <= 32,
    ensures
        forall|b: int| 0 <= b < i && b != skip ==> #[trigger] tame(write_spec(w, a, le_bytes64(v)), t, es, b),
{
    assert forall|b: int| 0 <= b < i && b != skip implies #[trigger] tame(write_spec(w, a, le_bytes64(v)), t, es, b) by {
        assert(tame(w, t, es, b));
        assert(apart(a, 8, t + 16 * b + 8, t + 16 * b + 16));
        law_qword_write_frame(w, a, v, t + 16 * b + 8);
    }
}

/// Emptying the first `i` buckets keeps everything and leaves their tails tame.
proof fn lemma_clear(m0: Seq<MapView>, es: Seq<u64>, l: int, t: u64, top: int, ldr: int, pq: int, i: nat)
    requires
        entry_regions(m0, es, l),
        hash_ctx(es, top, t as int, ldr, pq),
        i <= 32,
    ensures
        hash_inv(m0, clear_buckets(m0, t, i), es, l, t as int, ldr, pq, i as int),
    decreases i,
{
    if i == 0 {
        lemma_kept_refl(m0, es, ldr, pq);
    } else {
        let j = (i - 1) as nat;
        lemma_clear(m0, es, l, t, top, ldr, pq, j);
        let m = clear_buckets(m0, t, j);
        let ti = t as int;
        let head = bucket_head(t, j as u64);
        assert((j as u64) * 0x10 == 16 * j);
        assert(head == ti + 16 * j);
        assert(wadd(head, 8) == ti + 16 * j + 8);
        let w1 = write_spec(m, head as int, le_bytes64(head));
        let w2 = write_spec(w1, wadd(head, 8) as int, le_bytes64(head));
        assert(w2 == clear_buckets(m0, t, i));
        lemma_table_write(m, es, l, head as int, head, top, ti, ldr, pq);
        lemma_kept_trans(m0, m, w1, es, ldr, pq);
        lemma_table_write(w1, es, l, head + 8, head, top, ti, ldr, pq);
        lemma_kept_trans(m0, w1, w2, es, ldr, pq);
        assert forall|b: int| 0 <= b < 32 && b != j implies apart(head as int, 8, #[trigger] (ti + 16 * b + 8), ti + 16 * b + 16) by {}
        lemma_tails_kept(m, head as int, head, ti, es, j as int, j as int);
        assert forall|b: int| 0 <= b < 32 && b != j implies apart(head + 8, 8, #[trigger] (ti + 16 * b + 8), ti + 16 * b + 16) by {}
        lemma_tails_kept(w1, head + 8, head, ti, es, j as int, j as int);
        assert(tame(w2, ti, es, j as int)) by {
            if region_for(w1, head + 8, 8) is Some {
                law_qword_write_read(w1, head + 8, head);
            } else {
                assert(qword_at(w2, head + 8) == qword_at(w1, head + 8));
            }
        }
        assert forall|b: int| 0 <= b < i implies #[trigger] tame(w2, ti, es, b) by {
            if b != j {
                assert(tame(w2, ti, es, b));
            }
        }
    }
}

/// Hash buckets are numbered below 32.
pub proof fn lemma_bucket_small(name: Seq<char>)
    ensures
        bucket_of(name) < 32,
{
    let h = ldr_hash(crate::text::utf16_units(name));
    assert(h & 0x1f < 32) by (bit_vector);
}

/// Appending module `k` to its bucket keeps everything and every bucket tail tame.
proof fn lemma_insert_step(
    m0: Seq<MapView>,
    m: Seq<MapView>,
    es: Seq<u64>,
    l: int,
    t: u64,
    top: int,
    ldr: int,
    pq: int,
    mods: Seq<(Seq<char>, u64)>,
    k: int,
)
    requires
        hash_inv(m0, m, es, l, t as int, ldr, pq, 32),
        hash_ctx(es, top, t as int, ldr, pq),
        0 <= k < es.len(),
        k < mods.len(),
    ensures
        hash_inv(m0, insert_one(m, t, mods, es, k), es, l, t as int, ldr, pq, 32),
{
    let ti = t as int;
    let b = bucket_of(mods[k].0);
    lemma_bucket_small(mods[k].0);
    let head = bucket_head(t, b);
    assert(b * 0x10 == 16 * b);
    assert(head == ti + 16 * b);
    assert(wadd(head, 8) == ti + 16 * b + 8);
    assert(m[l + k].base == es[k]);
    let hl = wadd(es[k], 0x7f);
    assert(hl == slot(es, k, 0x7f));
    assert(wadd(hl, 8) == slot(es, k, 0x87));
    let tail = match qword_at(m, wadd(head, 8) as int) {
        Some(v) => v,
        None => head,
    };
    assert(tame(m, ti, es, b as int));
    let w1 = write_spec(m, hl as int, le_bytes64(head));
    let w2 = write_spec(w1, wadd(hl, 8) as int, le_bytes64(tail));
    let w3 = write_spec(w2, tail as int, le_bytes64(hl));
    let w4 = write_spec(w3, wadd(head, 8) as int, le_bytes64(hl));
    assert(w4 == insert_one(m, t, mods, es, k));
    lemma_insert_core(m0, m, w1, w2, w3, w4, es, l, ti, top, ldr, pq, k, b as int, head as int, hl as int, tail);
}

proof fn lemma_insert_core(
    m0: Seq<MapView>,
    m: Seq<MapView>,
    w1: Seq<MapView>,
    w2: Seq<MapView>,
    w3: Seq<MapView>,
    w4: Seq<MapView>,
    es: Seq<u64>,
    l: int,
    ti: int,
    top: int,
    ldr: int,
    pq: int,
    k: int,
    b: int,
    head: int,
    hl: int,
    tail: u64,
)
    requires
        hash_inv(m0, m, es, l, ti, ldr, pq, 32),
        hash_ctx(es, top, ti, ldr, pq),
        0 <= k < es.len(),
        0 <= b < 32,
        head == ti + 16 * b,
        hl == slot(es, k, 0x7f),
        tail == head || exists|j: int| 0 <= j < es.len() && tail == #[trigger] slot(es, j, 0x7f),
        0 <= head < 0x1_0000_0000_0000_0000,
        w1 == write_spec(m, hl, le_bytes64(head as u64)),
        w2 == write_spec(w1, hl + 8, le_bytes64(tail)),
        w3 == write_spec(w2, tail as int, le_bytes64(hl as u64)),
        w4 == write_spec(w3, head + 8, le_bytes64(hl as u64)),
    ensures
        hash_inv(m0, w4, es, l, ti, ldr, pq, 32),
{
    assert(top <= es[k]);
    assert(hl + 8 == slot(es, k, 0x87));
    lemma_links_write(m, es, l, k, 0x7f, head as u64, top, ti, ldr, pq);
    lemma_kept_trans(m0, m, w1, es, ldr, pq);
    assert forall|c: int| 0 <= c < 32 && c != -1 implies apart(hl, 8, #[trigger] (ti + 16 * c + 8), ti + 16 * c + 16) by {}
    lemma_tails_kept(m, hl, head as u64, ti, es, 32, -1);
    lemma_links_write(w1, es, l, k, 0x87, tail, top, ti, ldr, pq);
    lemma_kept_trans(m0, w1, w2, es, ldr, pq);
    assert forall|c: int| 0 <= c < 32 && c != -1 implies apart(hl + 8, 8, #[trigger] (ti + 16 * c + 8), ti + 16 * c + 16) by {}
    lemma_tails_kept(w1, hl + 8, tail, ti, es, 32, -1);
    if tail == head {
        lemma_table_write(w2, es, l, head, hl as u64, top, ti, ldr, pq);
        assert forall|c: int| 0 <= c < 32 && c != -1 implies apart(head, 8, #[trigger] (ti + 16 * c + 8), ti + 16 * c + 16) by {}
    } else {
        let j = choose|j: int| 0 <= j < es.len() && tail == #[trigger] slot(es, j, 0x7f);
        lemma_links_write(w2, es, l, j, 0x7f, hl as u64, top, ti, ldr, pq);
        assert(top <= es[j]);
        assert forall|c: int| 0 <= c < 32 && c != -1 implies apart(tail as int, 8, #[trigger] (ti + 16 * c + 8), ti + 16 * c + 16) by {}
    }
    lemma_kept_trans(m0, w2, w3, es, ldr, pq);
    lemma_tails_kept(w2, tail as int, hl as u64, ti, es, 32, -1);
    lemma_table_write(w3, es, l, head + 8, hl as u64, top, ti, ldr, pq);
    lemma_kept_trans(m0, w3, w4, es, ldr, pq);
    assert forall|c: int| 0 <= c < 32 && c != b implies apart(head + 8, 8, #[trigger] (ti + 16 * c + 8), ti + 16 * c + 16) by {}
    lemma_tails_kept(w3, head + 8, hl as u64, ti, es, 32, b);
    assert(tame(w4, ti, es, b)) by {
        if region_for(w3, head + 8, 8) is Some {
            law_qword_write_read(w3, head + 8, hl as u64);
            assert(hl == slot(es, k, 0x7f));
        } else {
            assert(qword_at(w4, head + 8) == qword_at(w3, head + 8));
        }
    }
    assert forall|c: int| 0 <= c < 32 implies #[trigger] tame(w4, ti, es, c) by {
        if c != b {
            assert(tame(w4, ti, es, c));
        }
    }
}

/// Appending the first `i` modules to their buckets keeps everything and every
/// bucket tail tame.
proof fn lemma_insert(
    m0: Seq<MapView>,
    c: Seq<MapView>,
    es: Seq<u64>,
    l: int,
    t: u64,
    top: int,
    ldr: int,
    pq: int,
    mods: Seq<(Seq<char>, u64)>,
    i: nat,
)
    requires
        hash_inv(m0, c, es, l, t as int, ldr, pq, 32),
        hash_ctx(es, top, t as int, ldr, pq),
        i <= es.len(),
        i <= mods.len(),
    ensures
        hash_inv(m0, insert_hashes(c, t, mods, es, i), es, l, t as int, ldr, pq, 32),
    decreases i,
{
    if i > 0 {
        lemma_insert(m0, c, es, l, t, top, ldr, pq, mods, (i - 1) as nat);
        lemma_insert_step(m0, insert_hashes(c, t, mods, es, (i - 1) as nat), es, l, t, top, ldr, pq, mods, i - 1);
    }
}

/// A name that no region added after the first `ms.len()` can have keeps the
/// region `map_named` finds.
pub proof fn lemma_map_named_stable(ms: Seq<MapView>, w: Seq<MapView>, name: Seq<char>)
    requires
        ms.len() <= w.len(),
        forall|j: int| 0 <= j < ms.len() ==> (#[trigger] w[j]).name == ms[j].name,
        forall|j: int| ms.len() <= j < w.len() ==> (#[trigger] w[j]).name != name,
    ensures
        map_named(w, name) == map_named(ms, name),
{
    lemma_map_named_props(ms, name);
    match map_named(ms, name) {
        Some(i) => {
            assert forall|j: int| 0 <= j < i implies w[j].name != name by {
                assert(w[j].name == ms[j].name);
            }
            assert(w[i].name == ms[i].name);
            lemma_map_named(w, name, i);
        },
        None => {
            if exists|j: int| 0 <= j < w.len() && #[trigger] w[j].name == name {
                let j = choose|j: int| 0 <= j < w.len() && #[trigger] w[j].name == name;
                if j < ms.len() {
                    assert(ms[j].name == name);
                }
            }
        },
    }
}

/// Linking the entries changes nothing below them.
proof fn lemma_link_ring_keeps_low(m: Seq<MapView>, es: Seq<u64>, l: int, i: nat, c: int)
    requires
        entry_regions(m, es, l),
        i <= es.len(),
        forall|k: int| 0 <= k < es.len() ==> c + 8 <= #[trigger] es[k],
    ensures
        qword_at(link_ring(m, es, i), c) == qword_at(m, c),
    decreases i,
{
    if i > 0 {
        let j = (i - 1) as nat;
        lemma_link_ring_keeps_low(m, es, l, j, c);
        lemma_link_ring(m, es, l, j);
        let p = link_ring(m, es, j);
        lemma_link_one_keeps_low(p, es, l, j as int, c);
    }
}

proof fn lemma_link_one_keeps_low(m: Seq<MapView>, es: Seq<u64>, l: int, i: int, c: int)
    requires
        entry_regions(m, es, l),
        0 <= i < es.len(),
        c + 8 <= es[i],
    ensures
        qword_at(link_one(m, es, i), c) == qword_at(m, c),
{
    let n = es.len() as int;
    let e = es[i];
    let nx = es[ring_next(i, n)];
    let pv = es[ring_prev(i, n)];
    assert(m[l + i].base == es[i]);
    assert(e + LDR_REGION_SIZE <= crate::maps::addr_space());
    let m1 = write_spec(m, e as int, le_bytes64(nx));
    lemma_write_shape(m, e as int, le_bytes64(nx));
    law_qword_write_frame(m, e as int, nx, c);
    let m2 = write_spec(m1, wadd(e, 8) as int, le_bytes64(pv));
    lemma_write_shape(m1, wadd(e, 8) as int, le_bytes64(pv));
    law_qword_write_frame(m1, e + 8, pv, c);
    let m3 = write_spec(m2, wadd(e, 0x10) as int, le_bytes64(wadd(nx, 0x10)));
    lemma_write_shape(m2, wadd(e, 0x10) as int, le_bytes64(wadd(nx, 0x10)));
    law_qword_write_frame(m2, e + 0x10, wadd(nx, 0x10), c);
    let m4 = write_spec(m3, wadd(e, 0x18) as int, le_bytes64(wadd(pv, 0x10)));
    lemma_write_shape(m3, wadd(e, 0x18) as int, le_bytes64(wadd(pv, 0x10)));
    law_qword_write_frame(m3, e + 0x18, wadd(pv, 0x10), c);
    let m5 = write_spec(m4, wadd(e, 0x20) as int, le_bytes64(wadd(nx, 0x20)));
    lemma_write_shape(m4, wadd(e, 0x20) as int, le_bytes64(wadd(nx, 0x20)));
    law_qword_write_frame(m4, e + 0x20, wadd(nx, 0x20), c);
    law_qword_write_frame(m5, e + 0x28, wadd(pv, 0x20), c);
}

/// What is kept of the entries keeps them linked.
proof fn lemma_kept_linked(a: Seq<MapView>, b: Seq<MapView>, es: Seq<u64>, pq: int, k: int)
    requires
        kept0(a, b, es, pq),
        0 <= k < es.len(),
        linked_at(a, es, k),
    ensures
        linked_at(b, es, k),
{
    assert(qword_at(b, slot(es, k, 0)) == qword_at(a, slot(es, k, 0)));
    assert(qword_at(b, slot(es, k, 8)) == qword_at(a, slot(es, k, 8)));
    assert(qword_at(b, slot(es, k, 0x10)) == qword_at(a, slot(es, k, 0x10)));
    assert(qword_at(b, slot(es, k, 0x18)) == qword_at(a, slot(es, k, 0x18)));
    assert(qword_at(b, slot(es, k, 0x20)) == qword_at(a, slot(es, k, 0x20)));
    assert(qword_at(b, slot(es, k, 0x28)) == qword_at(a, slot(es, k, 0x28)));
}

/// The loader globals of ntdll at `base` lie below `top` and apart from the loader
/// data's list heads and from `pq`.
pub open spec fn globals_apart(base: u64, top: int, ldr: int, pq: int) -> bool {
    let l1 = wadd(base, NTDLL_LDRP_GLOBAL_2680_RVA64) as int;
    let st = wadd(base, NTDLL_LDRP_GLOBAL_26C0_RVA64) as int;
    let l3 = wadd(base, NTDLL_LDRP_GLOBAL_26F0_RVA64) as int;
    &&& l1 + 16 <= top && apart(l1, 16, ldr + 0x10, ldr + 0x40) && apart(l1, 16, pq, pq + 8)
    &&& st + 8 <= top && apart(st, 8, ldr + 0x10, ldr + 0x40) && apart(st, 8, pq, pq + 8)
    &&& l3 + 16 <= top && apart(l3, 16, ldr + 0x10, ldr + 0x40) && apart(l3, 16, pq, pq + 8)
}

/// A 64-bit write below the entries and apart from the list heads and `pq` keeps them.
proof fn lemma_low_write(m: Seq<MapView>, es: Seq<u64>, l: int, a: int, v: u64, top: int, ldr: int, pq: int)
    requires
        entry_regions(m, es, l),
        forall|k: int| 0 <= k < es.len() ==> top <= #[trigger] es[k],
        a + 8 <= top,
        apart(a, 8, ldr + 0x10, ldr + 0x40),
        apart(a, 8, pq, pq + 8),
    ensures
        kept(m, write_spec(m, a, le_bytes64(v)), es, ldr, pq),
        entry_regions(write_spec(m, a, le_bytes64(v)), es, l),
{
    broadcast use lemma_le_bytes64_len;
    lemma_below_is_far(es, top, a, 8);
    lemma_write_kept(m, es, l, a, le_bytes64(v), ldr, pq);
}

/// Resetting ntdll's loader globals keeps the entries, the list heads and `pq`.
proof fn lemma_globals(m: Seq<MapView>, es: Seq<u64>, l: int, top: int, ldr: int, pq: int)
    requires
        entry_regions(m, es, l),
        forall|k: int| 0 <= k < es.len() ==> top <= #[trigger] es[k],
        top <= crate::maps::addr_space(),
        map_named(m, "ntdll.pe"@) matches Some(i) ==> globals_apart(m[i].base, top, ldr, pq),
    ensures
        kept(m, globals_spec(m), es, ldr, pq),
        entry_regions(globals_spec(m), es, l),
{
    match map_named(m, "ntdll.pe"@) {
        None => {
            lemma_kept_refl(m, es, ldr, pq);
        },
        Some(i) => {
            let base = m[i].base;
            let l1 = wadd(base, NTDLL_LDRP_GLOBAL_2680_RVA64);
            let st = wadd(base, NTDLL_LDRP_GLOBAL_26C0_RVA64);
            let l3 = wadd(base, NTDLL_LDRP_GLOBAL_26F0_RVA64);
            assert(wadd(l1, 8) == l1 + 8);
            assert(wadd(l3, 8) == l3 + 8);
            let m1 = write_spec(m, l1 as int, le_bytes64(l1));
            let m2 = write_spec(m1, l1 + 8, le_bytes64(l1));
            let m3 = write_spec(m2, st as int, le_bytes64(u64::MAX));
            let m4 = write_spec(m3, l3 as int, le_bytes64(l3));
            let m5 = write_spec(m4, l3 + 8, le_bytes64(l3));
            lemma_globals_core(m, m1, m2, m3, m4, m5, es, l, top, ldr, pq, l1 as int, st as int, l3 as int);
            assert(m5 == globals_spec(m));
        },
    }
}

proof fn lemma_globals_core(
    m: Seq<MapView>,
    m1: Seq<MapView>,
    m2: Seq<MapView>,
    m3: Seq<MapView>,
    m4: Seq<MapView>,
    m5: Seq<MapView>,
    es: Seq<u64>,
    l: int,
    top: int,
    ldr: int,
    pq: int,
    l1: int,
    st: int,
    l3: int,
)
    requires
        entry_regions(m, es, l),
        forall|k: int| 0 <= k < es.len() ==> top <= #[trigger] es[k],
        0 <= l1 && 0 <= l3 && l1 + 16 <= top && apart(l1, 16, ldr + 0x10, ldr + 0x40) && apart(l1, 16, pq, pq + 8),
        0 <= st && st + 8 <= top && apart(st, 8, ldr + 0x10, ldr + 0x40) && apart(st, 8, pq, pq + 8),
        l3 + 16 <= top && apart(l3, 16, ldr + 0x10, ldr + 0x40) && apart(l3, 16, pq, pq + 8),
        top <= crate::maps::addr_space(),
        m1 == write_spec(m, l1, le_bytes64(l1 as u64)),
        m2 == write_spec(m1, l1 + 8, le_bytes64(l1 as u64)),
        m3 == write_spec(m2, st, le_bytes64(u64::MAX)),
        m4 == write_spec(m3, l3, le_bytes64(l3 as u64)),
        m5 == write_spec(m4, l3 + 8, le_bytes64(l3 as u64)),
    ensures
        kept(m, m5, es, ldr, pq),
        entry_regions(m5, es, l),
{
    lemma_low_write(m, es, l, l1, l1 as u64, top, ldr, pq);
    lemma_low_write(m1, es, l, l1 + 8, l1 as u64, top, ldr, pq);
    lemma_kept_trans(m, m1, m2, es, ldr, pq);
    lemma_low_write(m2, es, l, st, u64::MAX, top, ldr, pq);
    lemma_kept_trans(m, m2, m3, es, ldr, pq);
    lemma_low_write(m3, es, l, l3, l3 as u64, top, ldr, pq);
    lemma_kept_trans(m, m3, m4, es, ldr, pq);
    lemma_low_write(m4, es, l, l3 + 8, l3 as u64, top, ldr, pq);
    lemma_kept_trans(m, m4, m5, es, ldr, pq);
}

/// Rebuilding ntdll's hash table keeps the entries, the list heads and `pq`.
proof fn lemma_hash_phase(m: Seq<MapView>, es: Seq<u64>, l: int, top: int, ldr: int, pq: int, mods: Seq<(Seq<char>, u64)>)
    requires
        entry_regions(m, es, l),
        forall|k: int| 0 <= k < es.len() ==> top <= #[trigger] es[k],
        top <= crate::maps::addr_space(),
        ldr + 0x40 <= top,
        pq + 8 <= top,
        mods.len() == es.len(),
        map_named(m, "ntdll.pe"@) matches Some(i) ==> ({
            let t = hash_table_at(m[i].base) as int;
            t + 0x200 <= top && apart(t, 0x200, ldr + 0x10, ldr + 0x40) && apart(t, 0x200, pq, pq + 8)
        }),
    ensures
        kept(m, rebuild_hash_spec(m, mods, es), es, ldr, pq),
        entry_regions(rebuild_hash_spec(m, mods, es), es, l),
{
    match map_named(m, "ntdll.pe"@) {
        None => {
            lemma_kept_refl(m, es, ldr, pq);
        },
        Some(i) => {
            let t = hash_table_at(m[i].base);
            assert(hash_ctx(es, top, t as int, ldr, pq));
            lemma_clear(m, es, l, t, top, ldr, pq, 32);
            let c = clear_buckets(m, t, 32);
            lemma_insert(m, c, es, l, t, top, ldr, pq, mods, mods.len());
        },
    }
}

/// The hash table and the loader globals of ntdll at `base` lie below `top` and
/// apart from the loader data's list heads and from `pq`.
pub open spec fn ntdll_apart(base: u64, top: int, ldr: int, pq: int) -> bool {
    let t = hash_table_at(base) as int;
    &&& t + 0x200 <= top && apart(t, 0x200, ldr + 0x10, ldr + 0x40) && apart(t, 0x200, pq, pq + 8)
    &&& globals_apart(base, top, ldr, pq)
}

/// The guest's loader data, `PEB.Ldr` and ntdll's loader data do not overlap:
/// the loader data is readable; its list heads and `Initialized` word lie apart
/// from `PEB.Ldr`, and from `PEB.ImageBaseAddress` when that gets written; ntdll's
/// hash table and loader globals lie in memory that exists and apart from both.
pub open spec fn rebuild_layout(ms: Seq<MapView>, exe_base: u64) -> bool {
    let ldr = ldr_of(ms) as int;
    let pb = peb_base(ms) as int;
    let pq = pb + 0x18;
    &&& region_for(ms, ldr, 0x40) is Some
    &&& apart(ldr + 4, 4, pq, pq + 8)
    &&& apart(ldr + 0x10, 0x30, pq, pq + 8)
    &&& exe_base != 0 ==> apart(pb + 0x10, 8, ldr + 0x10, ldr + 0x40)
    &&& map_named(ms, "ntdll.pe"@) matches Some(i) ==> ntdll_apart(ms[i].base, top_of(ms), ldr, pq)
}

/// Regions added after the first `ms.len()` are entry regions, so the regions
/// named "ntdll.pe" and "peb" and every old region stay where they were.
pub proof fn lemma_names_stable(ms: Seq<MapView>, w: Seq<MapView>, c: Seq<MapView>)
    requires
        same_shape(c, w),
        ms.len() <= c.len(),
        forall|j: int| 0 <= j < ms.len() ==> #[trigger] c[j] == ms[j],
        forall|j: int| ms.len() <= j < c.len() ==> entry_region_named(#[trigger] c[j].name),
    ensures
        map_named(w, "ntdll.pe"@) == map_named(ms, "ntdll.pe"@),
        map_named(w, "peb"@) == map_named(ms, "peb"@),
        forall|j: int| 0 <= j < ms.len() ==> (#[trigger] w[j]).base == ms[j].base && w[j].data.len() == ms[j].data.len(),
{
    reveal_strlit("ntdll.pe");
    reveal_strlit("peb");
    assert forall|j: int| 0 <= j < ms.len() implies (#[trigger] w[j]).name == ms[j].name by {
        assert(c[j] == ms[j]);
    }
    assert forall|j: int| ms.len() <= j < w.len() implies (#[trigger] w[j]).name != "ntdll.pe"@ by {
        assert(entry_region_named(c[j].name));
        assert(w[j].name == c[j].name);
    }
    assert forall|j: int| ms.len() <= j < w.len() implies (#[trigger] w[j]).name != "peb"@ by {
        assert(entry_region_named(c[j].name));
        assert(w[j].name == c[j].name);
    }
    lemma_map_named_stable(ms, w, "ntdll.pe"@);
    lemma_map_named_stable(ms, w, "peb"@);
    assert forall|j: int| 0 <= j < ms.len() implies (#[trigger] w[j]).base == ms[j].base && w[j].data.len()
        == ms[j].data.len() by {
        assert(c[j] == ms[j]);
    }
}

/// The entries `es` in `m` are linked into a ring, in order, in all three lists.
pub open spec fn ring_linked(m: Seq<MapView>, es: Seq<u64>) -> bool {
    forall|k: int| 0 <= k < es.len() ==> #[trigger] linked_at(m, es, k)
}

/// What holds of the entries `es` in `m`: linked into a ring, each recording its module's base.
pub open spec fn ring_facts(m: Seq<MapView>, es: Seq<u64>, mods: Seq<(Seq<char>, u64)>) -> bool {
    &&& ring_linked(m, es)
    &&& forall|k: int| 0 <= k < es.len() ==> qword_at(m, #[trigger] slot(es, k, 0x30)) == Some(recorded_base(mods[k].1, es[k]))
}

/// The list heads of the loader data at `li` point at `first` and `last`.
pub open spec fn heads_facts(m: Seq<MapView>, li: int, first: u64, last: u64) -> bool {
    forall|o: int| is_head_word(o) ==> qword_at(m, #[trigger] ldr_slot(li, o)) == Some(head_value(first, last, o))
}

/// What the creation of the entries leaves: entry regions above every old region,
/// the old regions unchanged, the new ones named as entry regions, and the bases recorded.
pub open spec fn created_facts(ms: Seq<MapView>, m1: Seq<MapView>, es: Seq<u64>, mods: Seq<(Seq<char>, u64)>) -> bool {
    &&& entry_regions(m1, es, ms.len() as int)
    &&& es.len() == mods.len()
    &&& m1.len() == ms.len() + mods.len()
    &&& forall|j: int| 0 <= j < ms.len() ==> #[trigger] m1[j] == ms[j]
    &&& forall|k: int| 0 <= k < es.len() ==> top_of(ms) <= #[trigger] es[k]
    &&& forall|k: int|
        0 <= k < es.len() ==> qword_at(m1, #[trigger] slot(es, k, 0x30)) == Some(recorded_base(mods[k].1, es[k]))
    &&& forall|j: int| ms.len() <= j < m1.len() ==> entry_region_named(#[trigger] m1[j].name)
}

/// Linking the entries and pointing the loader data at them.
proof fn lemma_phase_link(
    ms: Seq<MapView>,
    m1: Seq<MapView>,
    m3: Seq<MapView>,
    es: Seq<u64>,
    mods: Seq<(Seq<char>, u64)>,
    ldr: u64,
    pq: int,
)
    requires
        maps_wf(ms),
        created_facts(ms, m1, es, mods),
        es.len() >= 1,
        region_for(ms, ldr as int, 0x40) is Some,
        ldr + 0x40 <= top_of(ms),
        pq + 8 <= top_of(ms),
        apart(ldr + 4, 4, pq, pq + 8),
        apart(ldr + 0x10, 0x30, pq, pq + 8),
        exists|j: int| 0 <= j < ms.len() && holds(#[trigger] ms[j], pq, 8),
        m3 == ldr_head_writes(link_ring(m1, es, es.len()), ldr, es[0], es[es.len() - 1]),
    ensures
        entry_regions(m3, es, ms.len() as int),
        same_shape(m1, m3),
        ring_facts(m3, es, mods),
        heads_facts(m3, ldr as int, es[0], es[es.len() - 1]),
        qword_at(m3, pq) == qword_at(ms, pq),
        zone_kept(m1, m3, es),
{
    let l = ms.len() as int;
    let n = es.len();
    let li = ldr as int;
    let jp = choose|j: int| 0 <= j < ms.len() && holds(#[trigger] ms[j], pq, 8);
    assert(m1[jp] == ms[jp]);
    lemma_old_read_kept(ms, m1, jp, pq, 8);
    let m2 = link_ring(m1, es, n);
    lemma_link_ring(m1, es, l, n);
    lemma_link_ring_keeps_low(m1, es, l, n, pq);
    lemma_head_writes_kept(m2, es, l, ldr, es[0], es[n - 1], pq);
    lemma_region_for_holds(ms, li, 0x40);
    let ri = region_for(ms, li, 0x40)->0;
    assert(m2[ri].base == ms[ri].base && m2[ri].data.len() == ms[ri].data.len()) by {
        assert(m1[ri] == ms[ri]);
    }
    lemma_region_unique(m2, li, 0x40, ri);
    lemma_head_writes_values(m2, ldr, es[0], es[n - 1]);
    lemma_same_shape_trans(m1, m2, m3);
    assert(zone_kept(m2, m3, es));
    lemma_zone_trans(m1, m2, m3, es);
    assert forall|k: int| 0 <= k < n implies #[trigger] linked_at(m3, es, k) by {
        assert(linked_at(m2, es, k));
        lemma_kept_linked(m2, m3, es, pq, k);
    }
    assert forall|k: int| 0 <= k < n implies qword_at(m3, #[trigger] slot(es, k, 0x30)) == Some(
        recorded_base(mods[k].1, es[k]),
    ) by {
        assert(qword_at(m2, slot(es, k, 0x30)) == qword_at(m1, slot(es, k, 0x30)));
        assert(qword_at(m3, slot(es, k, 0x30)) == qword_at(m2, slot(es, k, 0x30)));
    }
}

/// The hash table, the loader globals and the image base keep what linking set up.
#[verifier::rlimit(40)]
proof fn lemma_phase_ntdll(
    ms: Seq<MapView>,
    m1: Seq<MapView>,
    m3: Seq<MapView>,
    m6: Seq<MapView>,
    es: Seq<u64>,
    mods: Seq<(Seq<char>, u64)>,
    li: int,
    pq: int,
    exe_base: u64,
    pb: int,
)
    requires
        created_facts(ms, m1, es, mods),
        entry_regions(m3, es, ms.len() as int),
        same_shape(m1, m3),
        li + 0x40 <= top_of(ms),
        pq + 8 <= top_of(ms),
        pq == pb + 0x18,
        0 <= pb,
        top_of(ms) <= crate::maps::addr_space(),
        exe_base != 0 ==> apart(pb + 0x10, 8, li + 0x10, li + 0x40),
        map_named(ms, "ntdll.pe"@) matches Some(i) ==> ntdll_apart(ms[i].base, top_of(ms), li, pq),
        m6 == ({
            let m5 = globals_spec(rebuild_hash_spec(m3, mods, es));
            if exe_base != 0 {
                write_spec(m5, pb + 0x10, le_bytes64(exe_base))
            } else {
                m5
            }
        }),
    ensures
        kept(m3, m6, es, li, pq),
        same_shape(m1, m6),
{
    let l = ms.len() as int;
    let top = top_of(ms);
    lemma_names_stable(ms, m3, m1);
    let m4 = rebuild_hash_spec(m3, mods, es);
    if map_named(ms, "ntdll.pe"@) is Some {
        let i = map_named(ms, "ntdll.pe"@)->0;
        lemma_map_named_props(ms, "ntdll.pe"@);
        assert(m3[i].base == ms[i].base);
        assert(ntdll_apart(ms[i].base, top, li, pq));
    }
    lemma_hash_phase(m3, es, l, top, li, pq, mods);
    lemma_same_shape_trans(m1, m3, m4);
    lemma_names_stable(ms, m4, m1);
    let m5 = globals_spec(m4);
    if map_named(ms, "ntdll.pe"@) is Some {
        let i = map_named(ms, "ntdll.pe"@)->0;
        lemma_map_named_props(ms, "ntdll.pe"@);
        assert(m4[i].base == ms[i].base);
        assert(ntdll_apart(ms[i].base, top, li, pq));
    }
    lemma_globals(m4, es, l, top, li, pq);
    lemma_kept_trans(m3, m4, m5, es, li, pq);
    lemma_same_shape_trans(m1, m4, m5);
    if exe_base != 0 {
        lemma_low_write(m5, es, l, pb + 0x10, exe_base, top, li, pq);
        lemma_kept_trans(m3, m5, m6, es, li, pq);
    } else {
        lemma_kept_refl(m5, es, li, pq);
    }
    lemma_same_shape_trans(m1, m5, m6);
}

/// From the PEB, the walk over the loader list starts where the loader data's first head points.
proof fn lemma_walk_start(ms: Seq<MapView>, m1: Seq<MapView>, m6: Seq<MapView>, es: Seq<u64>, mods: Seq<(Seq<char>, u64)>, ldr: u64, first: u64)
    requires
        maps_wf(ms),
        maps_wf(m6),
        has_peb(ms),
        ldr == ldr_of(ms),
        ldr + 0x40 <= crate::maps::addr_space(),
        created_facts(ms, m1, es, mods),
        same_shape(m1, m6),
        qword_at(m6, peb_base(ms) + 0x18) == qword_at(ms, peb_base(ms) + 0x18),
        qword_at(m6, ldr + 0x10) == Some(first),
        ldr != 0,
    ensures
        list_head(m6) == first,
{
    lemma_names_stable(ms, m6, m1);
    lemma_map_named_props(ms, "peb"@);
    let ip = map_named(ms, "peb"@)->0;
    let pq = peb_base(ms) + 0x18;
    assert(holds(ms[ip], pq, 8));
    assert(qword_at(ms, pq) == Some(ldr)) by {
        reveal(rq);
        assert(wadd(peb_base(ms), 0x18) == pq);
    }
    assert(m6[ip].base == ms[ip].base && m6[ip].data.len() == ms[ip].data.len());
    assert(holds(m6[ip], pq, 8));
    lemma_region_unique(m6, pq, 8, ip);
    assert(m6[ip].data.subrange(0x18, 0x20) == m6[ip].data.subrange(pq - m6[ip].base, pq - m6[ip].base + 8));
    assert(peb_ldr(m6) == ldr);
    assert(wadd(ldr, 0x10) == ldr + 0x10);
    reveal(rq);
}

/// What is kept keeps the ring and the list heads.
proof fn lemma_transfer(
    m3: Seq<MapView>,
    m6: Seq<MapView>,
    es: Seq<u64>,
    mods: Seq<(Seq<char>, u64)>,
    li: int,
    pq: int,
    first: u64,
    last: u64,
)
    requires
        kept(m3, m6, es, li, pq),
        ring_facts(m3, es, mods),
        heads_facts(m3, li, first, last),
    ensures
        ring_facts(m6, es, mods),
        heads_facts(m6, li, first, last),
{
    assert forall|k: int| 0 <= k < es.len() implies #[trigger] linked_at(m6, es, k) by {
        lemma_kept_linked(m3, m6, es, pq, k);
    }
    assert forall|k: int| 0 <= k < es.len() implies qword_at(m6, #[trigger] slot(es, k, 0x30)) == Some(
        recorded_base(mods[k].1, es[k]),
    ) by {
        assert(qword_at(m6, slot(es, k, 0x30)) == qword_at(m3, slot(es, k, 0x30)));
    }
    assert forall|o: int| is_head_word(o) implies qword_at(m6, #[trigger] ldr_slot(li, o)) == Some(
        head_value(first, last, o),
    ) by {
        assert(qword_at(m6, ldr_slot(li, o)) == qword_at(m3, ldr_slot(li, o)));
    }
}

/// `rebuild_spec` step by step, for a non-zero `PEB.Ldr`.
proof fn lemma_rebuild_unfold(ms: Seq<MapView>, seq: u32, exe_name: Seq<char>, exe_base: u64, filename: Seq<char>)
    requires
        ldr_of(ms) != 0,
    ensures
        ({
            let mods = module_list(ms, exe_name, exe_base, filename);
            let c = create_all(ms, mods, seq);
            let es = c.1;
            let m3 = ldr_head_writes(link_ring(c.0, es, es.len()), ldr_of(ms), es[0], es[es.len() - 1]);
            let m5 = globals_spec(rebuild_hash_spec(m3, mods, es));
            rebuild_spec(ms, seq, exe_name, exe_base, filename).0 == if exe_base != 0 {
                write_spec(m5, peb_base(ms) + 0x10, le_bytes64(exe_base))
            } else {
                m5
            }
        }),
{
    reveal(rebuild_spec);
}

/// After `rebuild_ldr_lists`, the loader entries it made (one per module, in list
/// order) form a ring: each entry's three forward links point at the next entry
/// (the last at the first) and its three back links at the previous one (the
/// first at the last); each entry's `DllBase` is its module's base (the entry's
/// own address for base 0); the loader data's list heads point at the first and
/// last entry; and the walk from `PEB.Ldr` starts at the first entry.
pub proof fn law_rebuild_ring(ms: Seq<MapView>, seq: u32, exe_name: Seq<char>, exe_base: u64, filename: Seq<char>)
    requires
        maps_wf(ms),
        has_peb(ms),
        ldr_of(ms) != 0,
        create_all_ok(ms, module_list(ms, exe_name, exe_base, filename), seq),
        names_fit(module_list(ms, exe_name, exe_base, filename)),
        rebuild_layout(ms, exe_base),
    ensures
        ({
            let mods = module_list(ms, exe_name, exe_base, filename);
            let es = create_all(ms, mods, seq).1;
            let m = rebuild_spec(ms, seq, exe_name, exe_base, filename).0;
            let n = es.len() as int;
            &&& n == mods.len() && n >= 1
            &&& ring_facts(m, es, mods)
            &&& heads_facts(m, ldr_of(ms) as int, es[0], es[n - 1])
            &&& list_head(m) == es[0]
        }),
{
    let mods = module_list(ms, exe_name, exe_base, filename);
    let ldr = ldr_of(ms);
    let li = ldr as int;
    let pb = peb_base(ms) as int;
    let pq = pb + 0x18;
    let top = top_of(ms);
    lemma_top_of(ms);
    lemma_map_named_props(ms, "peb"@);
    let ip = map_named(ms, "peb"@)->0;
    assert(holds(ms[ip], pq, 8));
    lemma_region_for_holds(ms, li, 0x40);
    let ri = region_for(ms, li, 0x40)->0;
    assert(map_end(ms[ri]) <= top);
    lemma_create_all(ms, mods, seq);
    let c = create_all(ms, mods, seq);
    let m1 = c.0;
    let es = c.1;
    let n = es.len();
    assert(mods.len() >= 1);
    assert(created_facts(ms, m1, es, mods));
    let m3 = ldr_head_writes(link_ring(m1, es, n), ldr, es[0], es[n - 1]);
    lemma_phase_link(ms, m1, m3, es, mods, ldr, pq);
    let m6 = rebuild_spec(ms, seq, exe_name, exe_base, filename).0;
    lemma_rebuild_unfold(ms, seq, exe_name, exe_base, filename);
    lemma_phase_ntdll(ms, m1, m3, m6, es, mods, li, pq, exe_base, pb);
    lemma_transfer(m3, m6, es, mods, li, pq, es[0], es[n - 1]);
    assert(is_head_word(0x10));
    assert(qword_at(m6, ldr_slot(li, 0x10)) == Some(head_value(es[0], es[n - 1], 0x10)));
    assert(ldr_slot(li, 0x10) == ldr + 0x10);
    lemma_walk_start(ms, m1, m6, es, mods, ldr, es[0]);
}

/// Walking the loader list of `m` from its head visits `es` in order and then
/// stops; in particular the walk ends.
pub open spec fn walks_in_order(m: Seq<MapView>, es: Seq<u64>) -> bool {
    &&& forall|k: nat| k < es.len() ==> #[trigger] chain(m, list_head(m), k) == Some(es[k as int])
    &&& chain(m, list_head(m), es.len()) is None
    &&& walk_ends(m, list_head(m))
}

/// Entries placed in distinct regions at or above `ALLOC_BASE` are distinct and non-zero.
proof fn lemma_entries_distinct(m: Seq<MapView>, es: Seq<u64>, l: int, top: int)
    requires
        entry_regions(m, es, l),
        forall|k: int| 0 <= k < es.len() ==> top <= #[trigger] es[k],
        top > 0,
    ensures
        forall|i: int, j: int| 0 <= i < es.len() && 0 <= j < es.len() && i != j ==> #[trigger] es[i] != #[trigger] es[j],
        forall|k: int| 0 <= k < es.len() ==> #[trigger] es[k] != 0,
{
    assert forall|i: int, j: int| 0 <= i < es.len() && 0 <= j < es.len() && i != j implies #[trigger] es[i] != #[trigger] es[j] by {
        assert(m[l + i].base == es[i]);
        assert(m[l + j].base == es[j]);
        assert(map_end(m[l + i]) <= m[l + j].base || map_end(m[l + j]) <= m[l + i].base);
    }
    assert forall|k: int| 0 <= k < es.len() implies #[trigger] es[k] != 0 by {
        assert(top <= es[k]);
    }
}

/// The walk from the first of entries linked into a ring visits them in order
/// and stops after the last.
pub proof fn lemma_chain_ring(m: Seq<MapView>, es: Seq<u64>, k: nat)
    requires
        es.len() >= 1,
        ring_linked(m, es),
        forall|i: int, j: int| 0 <= i < es.len() && 0 <= j < es.len() && i != j ==> #[trigger] es[i] != #[trigger] es[j],
        forall|i: int| 0 <= i < es.len() ==> #[trigger] es[i] != 0,
        k <= es.len(),
    ensures
        k < es.len() ==> chain(m, es[0], k) == Some(es[k as int]),
        k == es.len() ==> chain(m, es[0], k) is None,
    decreases k,
{
    let n = es.len() as int;
    if k > 0 {
        let j = (k - 1) as int;
        lemma_chain_ring(m, es, (k - 1) as nat);
        assert(chain(m, es[0], (k - 1) as nat) == Some(es[j]));
        assert(linked_at(m, es, j));
        lemma_ring_positions(j, n);
        let nx = es[ring_next(j, n)];
        assert(rq(m, es[j]) == nx) by {
            reveal(rq);
            assert(qword_at(m, slot(es, j, 0)) == Some(nx));
        }
        if k < n {
            assert(ring_next(j, n) == k);
            assert(next_of(m, es[j]) == Some(es[k as int]));
            assert(es[k as int] != es[0]);
        } else {
            assert(ring_next(j, n) == 0);
            if j == 0 {
                assert(next_of(m, es[j]) is None);
            } else {
                assert(next_of(m, es[j]) == Some(es[0]));
            }
        }
    }
}

/// After `rebuild_ldr_lists`, walking the loader list from `PEB.Ldr` (as
/// `Flink::next` does) visits the entries it made, one per module in list
/// order, and stops after the last of them.
pub proof fn law_rebuild_walk(ms: Seq<MapView>, seq: u32, exe_name: Seq<char>, exe_base: u64, filename: Seq<char>)
    requires
        maps_wf(ms),
        has_peb(ms),
        ldr_of(ms) != 0,
        create_all_ok(ms, module_list(ms, exe_name, exe_base, filename), seq),
        names_fit(module_list(ms, exe_name, exe_base, filename)),
        rebuild_layout(ms, exe_base),
    ensures
        ({
            let mods = module_list(ms, exe_name, exe_base, filename);
            walks_in_order(rebuild_spec(ms, seq, exe_name, exe_base, filename).0, create_all(ms, mods, seq).1)
        }),
{
    let mods = module_list(ms, exe_name, exe_base, filename);
    let m = rebuild_spec(ms, seq, exe_name, exe_base, filename).0;
    law_rebuild_ring(ms, seq, exe_name, exe_base, filename);
    lemma_walk_general(ms, mods, seq, m);
}

proof fn lemma_walk_general(ms: Seq<MapView>, mods: Seq<(Seq<char>, u64)>, seq: u32, m: Seq<MapView>)
    requires
        maps_wf(ms),
        create_all_ok(ms, mods, seq),
        names_fit(mods),
        create_all(ms, mods, seq).1.len() >= 1,
        ring_facts(m, create_all(ms, mods, seq).1, mods),
        list_head(m) == create_all(ms, mods, seq).1[0],
    ensures
        walks_in_order(m, create_all(ms, mods, seq).1),
{
    lemma_distinct_entries_created(ms, mods, seq);
    lemma_walk_core(m, create_all(ms, mods, seq).1);
}

/// The entries that creation makes are distinct and non-zero.
proof fn lemma_distinct_entries_created(ms: Seq<MapView>, mods: Seq<(Seq<char>, u64)>, seq: u32)
    requires
        maps_wf(ms),
        create_all_ok(ms, mods, seq),
        names_fit(mods),
    ensures
        ({
            let es = create_all(ms, mods, seq).1;
            &&& forall|i: int, j: int| 0 <= i < es.len() && 0 <= j < es.len() && i != j ==> #[trigger] es[i] != #[trigger] es[j]
            &&& forall|k: int| 0 <= k < es.len() ==> #[trigger] es[k] != 0
        }),
{
    lemma_create_all(ms, mods, seq);
    lemma_top_of(ms);
    lemma_entries_distinct(create_all(ms, mods, seq).0, create_all(ms, mods, seq).1, ms.len() as int, top_of(ms));
}

/// A ring of distinct, non-zero entries whose first is the list head is walked in order.
pub proof fn lemma_walk_core(m: Seq<MapView>, es: Seq<u64>)
    requires
        es.len() >= 1,
        ring_linked(m, es),
        list_head(m) == es[0],
        forall|i: int, j: int| 0 <= i < es.len() && 0 <= j < es.len() && i != j ==> #[trigger] es[i] != #[trigger] es[j],
        forall|i: int| 0 <= i < es.len() ==> #[trigger] es[i] != 0,
    ensures
        walks_in_order(m, es),
{
    assert forall|k: nat| k < es.len() implies #[trigger] chain(m, list_head(m), k) == Some(es[k as int]) by {
        lemma_chain_ring(m, es, k);
    }
    lemma_chain_ring(m, es, es.len());
}

/// Every module name of `mods` has no NUL character and its base name fits an entry region.
pub open spec fn names_storable(mods: Seq<(Seq<char>, u64)>) -> bool {
    forall|k: int| 0 <= k < mods.len() ==> no_nul(#[trigger] mods[k].0) && base_name_fits(mods[k].0)
}

/// The base name of an entry lies after its fixed part and inside its region.
proof fn lemma_name_bounds(e: u64, lib: Seq<char>)
    requires
        base_name_fits(lib),
        e + LDR_REGION_SIZE <= crate::maps::addr_space(),
    ensures
        e + 0x100 <= base_name_at(e, lib),
        base_name_at(e, lib) + 2 * crate::text::utf16_units(lib).len() + 2 <= e + LDR_REGION_SIZE,
{
    let l = crate::ldr::utf8_len(crate::ldr::system32_dir() + lib);
    assert(crate::ldr::wmul(l as u64, 2) == 2 * l);
}

/// Name words stored in a region that stays as it was are still read.
proof fn lemma_name_words_kept(m: Seq<MapView>, r: Seq<MapView>, j: int, e: u64, lib: Seq<char>)
    requires
        maps_wf(m),
        maps_wf(r),
        0 <= j < m.len(),
        j < r.len(),
        r[j] == m[j],
        m[j].base == e,
        m[j].data.len() == LDR_REGION_SIZE,
        base_name_fits(lib),
        name_words(m, e, base_name_at(e, lib), lib),
    ensures
        name_words(r, e, base_name_at(e, lib), lib),
{
    let a = base_name_at(e, lib);
    let u = crate::text::utf16_units(lib);
    lemma_name_bounds(e, lib);
    lemma_old_read_kept(m, r, j, e + 0x60, 8);
    assert forall|i: int| 0 <= i < u.len() implies #[trigger] crate::maps::word_at(r, a + 2 * i) == Some(u[i]) by {
        assert(crate::maps::word_at(m, a + 2 * i) == Some(u[i]));
        lemma_old_read_kept(m, r, j, a + 2 * i, 2);
    }
    lemma_old_read_kept(m, r, j, a + 2 * u.len(), 2);
}

/// Creating the entries of `mods` one after the other stores each module's base
/// name in its entry.
pub proof fn lemma_create_all_names(ms: Seq<MapView>, mods: Seq<(Seq<char>, u64)>, seq: u32)
    requires
        maps_wf(ms),
        create_all_ok(ms, mods, seq),
        names_fit(mods),
        names_storable(mods),
    ensures
        ({
            let c = create_all(ms, mods, seq);
            forall|k: int| 0 <= k < c.1.len() ==> name_words(c.0, #[trigger] c.1[k], base_name_at(c.1[k], mods[k].0), mods[k].0)
        }),
    decreases mods.len(),
{
    if mods.len() > 0 {
        let pm = mods.drop_last();
        assert forall|k: int| 0 <= k < pm.len() implies name_fits(#[trigger] pm[k].0) by {
            assert(pm[k] == mods[k]);
        }
        assert forall|k: int| 0 <= k < pm.len() implies no_nul(#[trigger] pm[k].0) && base_name_fits(pm[k].0) by {
            assert(pm[k] == mods[k]);
        }
        lemma_create_all_names(ms, pm, seq);
        lemma_create_all(ms, pm, seq);
        lemma_create_all(ms, mods, seq);
        let prev = create_all(ms, pm, seq);
        let md = mods.last();
        assert(name_fits(mods[mods.len() - 1].0));
        assert(no_nul(mods[mods.len() - 1].0) && base_name_fits(mods[mods.len() - 1].0));
        let space = alloc_spec(prev.0, LDR_REGION_SIZE)->0;
        law_create_entry_step(prev.0, md.1, entry_point_of(prev.0, md.1), md.0, 0, 0, prev.2);
        law_create_entry_base_name(prev.0, md.1, entry_point_of(prev.0, md.1), md.0, 0, 0, prev.2);
        let c = create_all(ms, mods, seq);
        let r = c.0;
        let es = c.1;
        assert(es == prev.1.push(space));
        let l = ms.len() as int;
        assert forall|k: int| 0 <= k < es.len() implies name_words(r, #[trigger] es[k], base_name_at(es[k], mods[k].0), mods[k].0) by {
            if k < prev.1.len() {
                assert(prev.1[k] == es[k]);
                assert(pm[k] == mods[k]);
                assert(prev.0[l + k].base == prev.1[k]);
                assert(r[l + k] == prev.0[l + k]);
                assert(name_words(prev.0, prev.1[k], base_name_at(prev.1[k], pm[k].0), pm[k].0));
                lemma_name_words_kept(prev.0, r, l + k, es[k], mods[k].0);
            } else {
                assert(es[k] == space);
                assert(mods[k] == md);
            }
        }
    }
}

/// Name words survive memory changes that keep the entries' name zones.
proof fn lemma_name_words_zone(m: Seq<MapView>, w: Seq<MapView>, es: Seq<u64>, k: int, lib: Seq<char>)
    requires
        zone_kept(m, w, es),
        0 <= k < es.len(),
        base_name_fits(lib),
        es[k] + LDR_REGION_SIZE <= crate::maps::addr_space(),
        name_words(m, es[k], base_name_at(es[k], lib), lib),
    ensures
        name_words(w, es[k], base_name_at(es[k], lib), lib),
{
    let a = base_name_at(es[k], lib);
    let u = crate::text::utf16_units(lib);
    lemma_name_bounds(es[k], lib);
    assert(in_zone(es, k, es[k] + 0x60, 8));
    assert(bytes_at(w, es[k] + 0x60, 8) == bytes_at(m, es[k] + 0x60, 8));
    assert forall|i: int| 0 <= i < u.len() implies #[trigger] crate::maps::word_at(w, a + 2 * i) == Some(u[i]) by {
        assert(crate::maps::word_at(m, a + 2 * i) == Some(u[i]));
        assert(in_zone(es, k, a + 2 * i, 2));
        assert(bytes_at(w, a + 2 * i, 2) == bytes_at(m, a + 2 * i, 2));
    }
    assert(in_zone(es, k, a + 2 * u.len(), 2));
    assert(bytes_at(w, a + 2 * u.len(), 2) == bytes_at(m, a + 2 * u.len(), 2));
}

/// After `rebuild_ldr_lists`, each entry it made records its module's name: its
/// `BaseDllName` buffer points at the UTF-16 units of the name followed by a zero
/// unit, which is what a walk over the list reads as the module name.
pub proof fn law_rebuild_names(ms: Seq<MapView>, seq: u32, exe_name: Seq<char>, exe_base: u64, filename: Seq<char>)
    requires
        maps_wf(ms),
        has_peb(ms),
        ldr_of(ms) != 0,
        create_all_ok(ms, module_list(ms, exe_name, exe_base, filename), seq),
        names_fit(module_list(ms, exe_name, exe_base, filename)),
        names_storable(module_list(ms, exe_name, exe_base, filename)),
        rebuild_layout(ms, exe_base),
    ensures
        ({
            let mods = module_list(ms, exe_name, exe_base, filename);
            let es = create_all(ms, mods, seq).1;
            let m = rebuild_spec(ms, seq, exe_name, exe_base, filename).0;
            forall|k: int|
                0 <= k < es.len() ==> name_words(m, #[trigger] es[k], base_name_at(es[k], mods[k].0), mods[k].0)
                    && crate::maps::wide_units(m, base_name_at(es[k], mods[k].0)) == crate::text::utf16_units(mods[k].0)
        }),
{
    let mods = module_list(ms, exe_name, exe_base, filename);
    let ldr = ldr_of(ms);
    let li = ldr as int;
    let pb = peb_base(ms) as int;
    let pq = pb + 0x18;
    let top = top_of(ms);
    lemma_top_of(ms);
    lemma_map_named_props(ms, "peb"@);
    let ip = map_named(ms, "peb"@)->0;
    assert(holds(ms[ip], pq, 8));
    lemma_region_for_holds(ms, li, 0x40);
    let ri = region_for(ms, li, 0x40)->0;
    assert(map_end(ms[ri]) <= top);
    lemma_create_all(ms, mods, seq);
    lemma_create_all_names(ms, mods, seq);
    let c = create_all(ms, mods, seq);
    let m1 = c.0;
    let es = c.1;
    let n = es.len();
    assert(mods.len() >= 1);
    assert(created_facts(ms, m1, es, mods));
    let m3 = ldr_head_writes(link_ring(m1, es, n), ldr, es[0], es[n - 1]);
    lemma_phase_link(ms, m1, m3, es, mods, ldr, pq);
    let m6 = rebuild_spec(ms, seq, exe_name, exe_base, filename).0;
    lemma_rebuild_unfold(ms, seq, exe_name, exe_base, filename);
    lemma_phase_ntdll(ms, m1, m3, m6, es, mods, li, pq, exe_base, pb);
    assert(zone_kept(m3, m6, es));
    lemma_zone_trans(m1, m3, m6, es);
    assert forall|k: int| 0 <= k < es.len() implies name_words(m6, #[trigger] es[k], base_name_at(es[k], mods[k].0), mods[k].0)
        && crate::maps::wide_units(m6, base_name_at(es[k], mods[k].0)) == crate::text::utf16_units(mods[k].0) by {
        let lib = mods[k].0;
        assert(no_nul(lib) && base_name_fits(lib));
        assert(m1[ms.len() + k].base == es[k]);
        assert(name_words(m1, es[k], base_name_at(es[k], lib), lib));
        lemma_name_entry_kept(m1, m6, es, k, lib);
    }
}

/// One entry's name, kept from the memory right after creation to the final memory,
/// reads back as the name's UTF-16 units.
proof fn lemma_name_entry_kept(m1: Seq<MapView>, m6: Seq<MapView>, es: Seq<u64>, k: int, lib: Seq<char>)
    requires
        zone_kept(m1, m6, es),
        0 <= k < es.len(),
        no_nul(lib),
        base_name_fits(lib),
        es[k] + LDR_REGION_SIZE <= crate::maps::addr_space(),
        name_words(m1, es[k], base_name_at(es[k], lib), lib),
    ensures
        name_words(m6, es[k], base_name_at(es[k], lib), lib),
        crate::maps::wide_units(m6, base_name_at(es[k], lib)) == crate::text::utf16_units(lib),
{
    lemma_name_words_zone(m1, m6, es, k, lib);
    lemma_name_bounds(es[k], lib);
    crate::name_laws::lemma_units_nonzero(lib);
    let u = crate::text::utf16_units(lib);
    let a = base_name_at(es[k], lib);
    assert forall|i: int| 0 <= i < u.len() implies #[trigger] crate::maps::word_at(m6, a + 2 * i) == Some(u[i]) && u[i] != 0 by {
        assert(crate::maps::word_at(m6, a + 2 * i) == Some(u[i]));
    }
    crate::name_laws::lemma_wide_units_read(m6, a, u);
}

} // verus!
