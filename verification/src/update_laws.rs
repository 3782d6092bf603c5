//! What lookups by name answer after `update_ldr_entry_base`.
use vstd::prelude::*;
use crate::bytes::{le_bytes64, lemma_le_bytes64_len};
use crate::maps::{
    MapView, maps_wf, bytes_at, word_at, write_spec, holds, region_for, wide_units, lemma_region_unique,
    lemma_write_frame, lemma_write_shape, lemma_map_named_props, law_qword_write_read,
};
use crate::ldr::{
    wadd, rq, wide_text, chain, walk_ends, list_head, peb_base, peb_ldr, has_peb, hit, same_name_nocase,
    update_base_spec, find_module_from, mod_name_at, name_matches, lemma_first_hit_is,
};
use crate::text::{lowercase, has_suffix};
use crate::ring_laws::{apart, walks_in_order, lemma_map_named_stable};
use crate::lookup_laws::{first_match, read_names, read_bases, reads_as, lemma_lookup_from, lemma_wide_units_same};
use crate::unlink_laws::{walk_entry, walk_prefix, lemma_walk_reaches};

verus! {

/// `[x, x + n)` lies apart from the word at `w`.
pub open spec fn clear_of_word(x: int, n: int, w: int) -> bool {
    apart(x, n, w, w + 8)
}

/// What a lookup reads of the name of the entry at `e` (its `BaseDllName`
/// buffer word and the name units up to their end) lies apart from `w`.
pub open spec fn name_clear(ms: Seq<MapView>, e: u64, w: int) -> bool {
    let a = rq(ms, wadd(e, 0x60)) as int;
    &&& clear_of_word(wadd(e, 0x60) as int, 8, w)
    &&& clear_of_word(a, (2 * wide_units(ms, a).len() + 2) as int, w)
}

/// The `DllBase` word of the `k`-th of the `n` entries of the walk lies apart
/// from `PEB.Ldr`, the first list head, every entry's forward link and name, and
/// the other entries' `DllBase` words.
#[verifier::opaque]
pub open spec fn update_clear(ms: Seq<MapView>, k: nat, n: nat) -> bool {
    let w = wadd(walk_entry(ms, k), 0x30) as int;
    &&& clear_of_word(peb_base(ms) + 0x18, 8, w)
    &&& clear_of_word(wadd(peb_ldr(ms), 0x10) as int, 8, w)
    &&& forall|j: nat| j < n ==> clear_of_word(#[trigger] walk_entry(ms, j) as int, 8, w)
    &&& forall|j: nat| j < n ==> #[trigger] name_clear(ms, walk_entry(ms, j), w)
    &&& forall|j: nat| j < n && j != k ==> clear_of_word(wadd(#[trigger] walk_entry(ms, j), 0x30) as int, 8, w)
}

/// A qword write keeps every byte range apart from it.
proof fn lemma_write_keeps(ms: Seq<MapView>, w: int, v: u64, x: int, n: nat)
    requires
        maps_wf(ms),
        n >= 1,
        clear_of_word(x, n as int, w),
    ensures
        bytes_at(write_spec(ms, w, le_bytes64(v)), x, n) == bytes_at(ms, x, n),
{
    broadcast use lemma_le_bytes64_len;
    lemma_write_frame(ms, w, le_bytes64(v), x, n);
}

/// An entry's name reads the same after a write apart from it.
proof fn lemma_name_kept(ms: Seq<MapView>, w: int, v: u64, e: u64)
    requires
        maps_wf(ms),
        name_clear(ms, e, w),
    ensures
        mod_name_at(write_spec(ms, w, le_bytes64(v)), e) == mod_name_at(ms, e),
{
    let m = write_spec(ms, w, le_bytes64(v));
    lemma_write_keeps(ms, w, v, wadd(e, 0x60) as int, 8);
    reveal(rq);
    let a = rq(ms, wadd(e, 0x60)) as int;
    let u = wide_units(ms, a);
    assert forall|i: int| 0 <= i <= u.len() implies #[trigger] word_at(m, a + 2 * i) == word_at(ms, a + 2 * i) by {
        lemma_write_keeps(ms, w, v, a + 2 * i, 2);
    }
    lemma_wide_units_same(ms, m, a);
    reveal(wide_text);
}

/// The list head reads the same after a write apart from `PEB.Ldr` and it.
proof fn lemma_head_kept(ms: Seq<MapView>, w: int, v: u64)
    requires
        maps_wf(ms),
        has_peb(ms),
        clear_of_word(peb_base(ms) + 0x18, 8, w),
        clear_of_word(wadd(peb_ldr(ms), 0x10) as int, 8, w),
    ensures
        list_head(write_spec(ms, w, le_bytes64(v))) == list_head(ms),
{
    let m = write_spec(ms, w, le_bytes64(v));
    lemma_write_shape(ms, w, le_bytes64(v));
    assert forall|j: int| 0 <= j < ms.len() implies (#[trigger] m[j]).name == ms[j].name by {}
    lemma_map_named_stable(ms, m, "peb"@);
    lemma_map_named_props(ms, "peb"@);
    let ip = crate::maps::map_named(ms, "peb"@)->0;
    let pq = peb_base(ms) + 0x18;
    assert(holds(m[ip], pq, 8));
    lemma_region_unique(ms, pq, 8, ip);
    lemma_region_unique(m, pq, 8, ip);
    lemma_write_keeps(ms, w, v, pq, 8);
    assert(ms[ip].data.subrange(0x18, 0x20) == ms[ip].data.subrange(pq - ms[ip].base, pq - ms[ip].base + 8));
    assert(m[ip].data.subrange(0x18, 0x20) == m[ip].data.subrange(pq - m[ip].base, pq - m[ip].base + 8));
    assert(peb_ldr(m) == peb_ldr(ms));
    lemma_write_keeps(ms, w, v, wadd(peb_ldr(ms), 0x10) as int, 8);
    reveal(rq);
}

/// After a write apart from every entry's forward link, the walk is the old one.
proof fn lemma_walk_kept(ms: Seq<MapView>, m: Seq<MapView>, first: u64, n: nat, j: nat)
    requires
        j <= n,
        chain(ms, first, n) is None,
        forall|i: nat| i < n ==> rq(m, #[trigger] walk_entry(ms, i)) == rq(ms, walk_entry(ms, i)),
        first == list_head(ms),
    ensures
        chain(m, first, j) == chain(ms, first, j),
    decreases j,
{
    if j > 0 {
        lemma_walk_kept(ms, m, first, n, (j - 1) as nat);
        if chain(ms, first, (j - 1) as nat) is Some {
            let p = chain(ms, first, (j - 1) as nat)->0;
            assert(walk_entry(ms, (j - 1) as nat) == p);
            assert(rq(m, p) == rq(ms, p));
        }
    }
}

/// The first match is found at the first index whose name matches.
proof fn lemma_first_match_at(names: Seq<Seq<char>>, bases: Seq<u64>, libname: Seq<char>, k: nat, i: nat)
    requires
        i <= k < names.len(),
        names.len() == bases.len(),
        name_matches(libname, names[k as int]),
        forall|j: nat| i <= j < k ==> !name_matches(libname, #[trigger] names[j as int]),
    ensures
        first_match(names, bases, libname, i) == Some(bases[k as int]),
    decreases k - i,
{
    if i < k {
        assert(!name_matches(libname, names[i as int]));
        lemma_first_match_at(names, bases, libname, k, i + 1);
    }
}

/// After `update_ldr_entry_base(name, base)` sets `DllBase` of the `k`-th entry
/// of the walk (the first whose name is `name` up to case), the walk and the
/// names it reads are unchanged, and lookups by name answer as over the old
/// entries with that one entry's base replaced by `base`; so looking `name` up,
/// when it ends with ".dll" up to case, answers `base`. This holds provided the
/// `DllBase` word lies in memory, apart from what the walk and the lookups read
/// otherwise, and the walk has at most 4097 entries.
pub proof fn law_update_lookup(ms: Seq<MapView>, name: Seq<char>, base: u64, k: nat, n: nat, libname: Seq<char>)
    requires
        maps_wf(ms),
        has_peb(ms),
        k < n <= 4097,
        chain(ms, list_head(ms), (n - 1) as nat) is Some,
        chain(ms, list_head(ms), n) is None,
        region_for(ms, wadd(walk_entry(ms, k), 0x30) as int, 8) is Some,
        hit(ms, list_head(ms), same_name_nocase(ms, name), k),
        forall|j: nat| j < k ==> !hit(ms, list_head(ms), same_name_nocase(ms, name), j),
        update_clear(ms, k, n),
    ensures
        walks_in_order(update_base_spec(ms, name, base), walk_prefix(ms, n)),
        find_module_from(update_base_spec(ms, name, base), list_head(update_base_spec(ms, name, base)), libname, 0)
            == first_match(
            read_names(ms, walk_prefix(ms, n)),
            read_bases(ms, walk_prefix(ms, n)).update(k as int, base),
            libname,
            0,
        ),
        has_suffix(lowercase(name), ".dll"@) ==> find_module_from(
            update_base_spec(ms, name, base),
            list_head(update_base_spec(ms, name, base)),
            name,
            0,
        ) == Some(base),
{
    let first = list_head(ms);
    let pred = same_name_nocase(ms, name);
    let w = wadd(walk_entry(ms, k), 0x30) as int;
    let m = write_spec(ms, w, le_bytes64(base));
    assert(update_base_spec(ms, name, base) == m) by {
        lemma_first_hit_is(ms, first, pred, k);
    }
    let es = walk_prefix(ms, n);
    let names = read_names(ms, es);
    let bases = read_bases(ms, es).update(k as int, base);
    assert(walks_in_order(m, es)) by {
        lemma_update_walk(ms, k, n, base);
    }
    lemma_update_finds(ms, k, n, base, libname);
    if has_suffix(lowercase(name), ".dll"@) {
        lemma_updated_is_first(ms, name, base, k, n);
        lemma_update_finds(ms, k, n, base, name);
    }
}

/// A name that ends with ".dll" matches, among the entries, those whose names
/// equal it up to case; the first of them is the updated one.
proof fn lemma_updated_is_first(ms: Seq<MapView>, name: Seq<char>, base: u64, k: nat, n: nat)
    requires
        k < n,
        chain(ms, list_head(ms), (n - 1) as nat) is Some,
        hit(ms, list_head(ms), same_name_nocase(ms, name), k),
        forall|j: nat| j < k ==> !hit(ms, list_head(ms), same_name_nocase(ms, name), j),
        has_suffix(lowercase(name), ".dll"@),
    ensures
        first_match(
            read_names(ms, walk_prefix(ms, n)),
            read_bases(ms, walk_prefix(ms, n)).update(k as int, base),
            name,
            0,
        ) == Some(base),
{
    let first = list_head(ms);
    let pred = same_name_nocase(ms, name);
    let names = read_names(ms, walk_prefix(ms, n));
    let bases = read_bases(ms, walk_prefix(ms, n)).update(k as int, base);
    assert forall|j: nat| 0 <= j < k implies !name_matches(name, #[trigger] names[j as int]) by {
        lemma_walk_reaches(ms, first, (n - 1) as nat, j);
        assert(!hit(ms, first, pred, j));
    }
    assert(hit(ms, first, pred, k));
    lemma_first_match_at(names, bases, name, k, 0);
}

/// After the update, a lookup answers as over the old entries with the updated
/// one's base replaced.
proof fn lemma_update_finds(ms: Seq<MapView>, k: nat, n: nat, base: u64, libname: Seq<char>)
    requires
        maps_wf(ms),
        has_peb(ms),
        k < n <= 4097,
        chain(ms, list_head(ms), (n - 1) as nat) is Some,
        chain(ms, list_head(ms), n) is None,
        region_for(ms, wadd(walk_entry(ms, k), 0x30) as int, 8) is Some,
        update_clear(ms, k, n),
    ensures
        ({
            let m = write_spec(ms, wadd(walk_entry(ms, k), 0x30) as int, le_bytes64(base));
            let es = walk_prefix(ms, n);
            find_module_from(m, list_head(m), libname, 0) == first_match(
                read_names(ms, es),
                read_bases(ms, es).update(k as int, base),
                libname,
                0,
            )
        }),
{
    let m = write_spec(ms, wadd(walk_entry(ms, k), 0x30) as int, le_bytes64(base));
    let es = walk_prefix(ms, n);
    let names = read_names(ms, es);
    let bases = read_bases(ms, es).update(k as int, base);
    assert(walks_in_order(m, es)) by {
        lemma_update_walk(ms, k, n, base);
    }
    assert(forall|j: int| 0 <= j < es.len() ==> #[trigger] reads_as(m, es, names, bases, j)) by {
        lemma_update_reads(ms, k, n, base);
    }
    assert(es.len() == n && names.len() == n && bases.len() == n);
    lemma_lookup_from(m, es, names, bases, libname, 0);
}

/// A write apart from `PEB.Ldr`, the list head and every entry's forward link
/// leaves the walk as it was.
proof fn lemma_update_walk(ms: Seq<MapView>, k: nat, n: nat, v: u64)
    requires
        maps_wf(ms),
        has_peb(ms),
        k < n,
        chain(ms, list_head(ms), (n - 1) as nat) is Some,
        chain(ms, list_head(ms), n) is None,
        update_clear(ms, k, n),
    ensures
        list_head(write_spec(ms, wadd(walk_entry(ms, k), 0x30) as int, le_bytes64(v))) == list_head(ms),
        walks_in_order(write_spec(ms, wadd(walk_entry(ms, k), 0x30) as int, le_bytes64(v)), walk_prefix(ms, n)),
{
    reveal(update_clear);
    let w = wadd(walk_entry(ms, k), 0x30) as int;
    let first = list_head(ms);
    let m = write_spec(ms, w, le_bytes64(v));
    lemma_head_kept(ms, w, v);
    assert forall|i: nat| i < n implies rq(m, #[trigger] walk_entry(ms, i)) == rq(ms, walk_entry(ms, i)) by {
        lemma_write_keeps(ms, w, v, walk_entry(ms, i) as int, 8);
        reveal(rq);
    }
    let es = walk_prefix(ms, n);
    assert forall|j: nat| j < es.len() implies #[trigger] chain(m, list_head(m), j) == Some(es[j as int]) by {
        lemma_walk_kept(ms, m, first, n, j);
        lemma_walk_reaches(ms, first, (n - 1) as nat, j);
    }
    lemma_walk_kept(ms, m, first, n, n);
    assert(walk_ends(m, list_head(m)));
}

/// After the update the entries read their old names, and their old bases but
/// for the updated one.
proof fn lemma_update_reads(ms: Seq<MapView>, k: nat, n: nat, base: u64)
    requires
        maps_wf(ms),
        k < n,
        region_for(ms, wadd(walk_entry(ms, k), 0x30) as int, 8) is Some,
        update_clear(ms, k, n),
    ensures
        ({
            let w = wadd(walk_entry(ms, k), 0x30) as int;
            let m = write_spec(ms, w, le_bytes64(base));
            let es = walk_prefix(ms, n);
            forall|j: int|
                0 <= j < es.len() ==> #[trigger] reads_as(m, es, read_names(ms, es), read_bases(ms, es).update(k as int, base), j)
        }),
{
    let w = wadd(walk_entry(ms, k), 0x30) as int;
    let m = write_spec(ms, w, le_bytes64(base));
    let es = walk_prefix(ms, n);
    let names = read_names(ms, es);
    let bases = read_bases(ms, es).update(k as int, base);
    reveal(update_clear);
    assert forall|j: int| 0 <= j < es.len() implies #[trigger] reads_as(m, es, names, bases, j) by {
        let e = es[j];
        assert(name_clear(ms, walk_entry(ms, j as nat), w));
        lemma_name_kept(ms, w, base, e);
        reveal(rq);
        if j == k {
            law_qword_write_read(ms, w, base);
        } else {
            assert(clear_of_word(wadd(walk_entry(ms, j as nat), 0x30) as int, 8, w));
            lemma_write_keeps(ms, w, base, wadd(e, 0x30) as int, 8);
        }
    }
}

} // verus!
