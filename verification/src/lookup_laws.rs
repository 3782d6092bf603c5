//! Looking modules up by name in the lists that `rebuild_ldr_lists` makes and
//! that `dynamic_link_module` appends to.
use vstd::prelude::*;
use crate::bytes::{le_bytes64, lemma_le_bytes64_len};
use crate::maps::{
    MapView, maps_wf, bytes_at, word_at, qword_at, write_spec, region_for, holds, map_end, addr_space, wide_units,
    alloc_spec, lemma_region_unique, lemma_region_for_holds, lemma_write_frame, lemma_write_shape, lemma_top_of,
};
use crate::ldr::{
    wadd, rq, wide_text, chain, list_head, find_module_from, name_matches, mod_base_at, mod_name_at, has_peb,
    create_entry_maps, hook_entry_maps, link_tail_from, LDR_REGION_SIZE,
};
use crate::ldr_lists::{create_all, create_all_ok, module_list, rebuild_spec, ldr_of};
use crate::ldr_laws::{name_fits, law_create_entry_step};
use crate::name_laws::{no_nul, base_name_fits, law_create_entry_base_name};
use crate::ring_laws::{
    law_rebuild_ring, law_rebuild_walk, law_rebuild_names, lemma_create_all, lemma_walk_core, recorded_base,
    names_fit, names_storable, rebuild_layout, walks_in_order, ring_facts, slot, apart,
};
use crate::link_laws::{ring_list, heads_apart, law_link_walk, law_link_appends, lemma_old_blocks_kept};
use crate::text::utf16_units;

verus! {

/// The base, in `bases`, of the first of the names `names[k..]` that matches `libname`.
pub open spec fn first_match(names: Seq<Seq<char>>, bases: Seq<u64>, libname: Seq<char>, k: nat) -> Option<u64>
    decreases names.len() - k,
{
    if k >= names.len() {
        None
    } else if name_matches(libname, names[k as int]) {
        Some(bases[k as int])
    } else {
        first_match(names, bases, libname, k + 1)
    }
}

/// The names of `mods`, which the entries made for them give back when read.
pub open spec fn rebuilt_names(mods: Seq<(Seq<char>, u64)>) -> Seq<Seq<char>> {
    Seq::new(mods.len(), |j: int| mods[j].0)
}

/// The bases that the entries `es` made for `mods` record.
pub open spec fn rebuilt_bases(mods: Seq<(Seq<char>, u64)>, es: Seq<u64>) -> Seq<u64> {
    Seq::new(mods.len(), |j: int| recorded_base(mods[j].1, es[j]))
}

/// The entries `es` are walked in order, and hold the bases of `mods`.
#[verifier::opaque]
pub open spec fn walked_with_bases(m: Seq<MapView>, es: Seq<u64>, mods: Seq<(Seq<char>, u64)>) -> bool {
    walks_in_order(m, es) && ring_facts(m, es, mods)
}

/// Each entry of `es` points its `BaseDllName` at the units of its module's name.
#[verifier::opaque]
pub open spec fn names_recorded(m: Seq<MapView>, es: Seq<u64>, mods: Seq<(Seq<char>, u64)>) -> bool {
    forall|k: int|
        0 <= k < es.len() ==> crate::name_laws::name_words(m, #[trigger] es[k], crate::name_laws::base_name_at(es[k], mods[k].0), mods[k].0)
            && crate::maps::wide_units(m, crate::name_laws::base_name_at(es[k], mods[k].0)) == utf16_units(mods[k].0)
}

/// Entry `es[j]` gives back `names[j]` and `bases[j]` when a walk reads it.
pub open spec fn reads_as(m: Seq<MapView>, es: Seq<u64>, names: Seq<Seq<char>>, bases: Seq<u64>, j: int) -> bool {
    &&& mod_name_at(m, es[j]) == names[j]
    &&& mod_base_at(m, es[j]) == bases[j]
}

/// The search from walk position `k` on finds what `first_match` names.
pub proof fn lemma_lookup_from(
    m: Seq<MapView>,
    es: Seq<u64>,
    names: Seq<Seq<char>>,
    bases: Seq<u64>,
    libname: Seq<char>,
    k: nat,
)
    requires
        walks_in_order(m, es),
        es.len() == names.len(),
        es.len() == bases.len(),
        es.len() <= 4097,
        k <= es.len(),
        forall|j: int| 0 <= j < es.len() ==> #[trigger] reads_as(m, es, names, bases, j),
    ensures
        find_module_from(m, list_head(m), libname, k) == first_match(names, bases, libname, k),
    decreases es.len() - k,
{
    if k < es.len() {
        lemma_lookup_from(m, es, names, bases, libname, k + 1);
        assert(chain(m, list_head(m), k) == Some(es[k as int]));
        assert(reads_as(m, es, names, bases, k as int));
    } else {
        assert(chain(m, list_head(m), es.len()) is None);
    }
}

/// An entry that lies in its own region and holds a module's name and base reads them back.
proof fn lemma_entry_reads(m1: Seq<MapView>, m: Seq<MapView>, es: Seq<u64>, mods: Seq<(Seq<char>, u64)>, l: int, j: int)
    requires
        crate::ring_laws::entry_regions(m1, es, l),
        0 <= j < es.len(),
        es.len() == mods.len(),
        crate::name_laws::name_words(m, es[j], crate::name_laws::base_name_at(es[j], mods[j].0), mods[j].0),
        crate::maps::wide_units(m, crate::name_laws::base_name_at(es[j], mods[j].0)) == utf16_units(mods[j].0),
        crate::maps::qword_at(m, slot(es, j, 0x30)) == Some(recorded_base(mods[j].1, es[j])),
    ensures
        reads_as(m, es, rebuilt_names(mods), rebuilt_bases(mods, es), j),
{
    let lib = mods[j].0;
    let e = es[j];
    assert(m1[l + j].base == e);
    assert(crate::maps::map_end(m1[l + j]) <= crate::maps::addr_space());
    let a = crate::name_laws::base_name_at(e, lib);
    assert(wadd(e, 0x60) == e + 0x60);
    assert(wadd(e, 0x30) == e + 0x30);
    reveal(rq);
    reveal(wide_text);
    assert(rq(m, wadd(e, 0x60)) == a as u64);
    assert(rq(m, wadd(e, 0x30)) == recorded_base(mods[j].1, e));
    assert(0 <= a);
    assert((a as u64) as int == a);
    crate::text::lemma_utf16_round_trip(lib);
    assert(rebuilt_names(mods)[j] == lib);
    assert(rebuilt_bases(mods, es)[j] == recorded_base(mods[j].1, e));
}

/// After `rebuild_ldr_lists`, looking a name up in the load-order list
/// (`get_module_base`) answers with the base recorded for the first rebuilt
/// module whose name matches it up to case, with or without a ".dll" suffix,
/// and with `None` when no module's does.
#[verifier::spinoff_prover]
pub proof fn law_rebuild_lookup(
    ms: Seq<MapView>,
    seq: u32,
    exe_name: Seq<char>,
    exe_base: u64,
    filename: Seq<char>,
    libname: Seq<char>,
)
    requires
        maps_wf(ms),
        has_peb(ms),
        ldr_of(ms) != 0,
        create_all_ok(ms, module_list(ms, exe_name, exe_base, filename), seq),
        names_fit(module_list(ms, exe_name, exe_base, filename)),
        names_storable(module_list(ms, exe_name, exe_base, filename)),
        rebuild_layout(ms, exe_base),
        module_list(ms, exe_name, exe_base, filename).len() <= 4097,
    ensures
        ({
            let mods = module_list(ms, exe_name, exe_base, filename);
            let es = create_all(ms, mods, seq).1;
            let m = rebuild_spec(ms, seq, exe_name, exe_base, filename).0;
            find_module_from(m, list_head(m), libname, 0) == first_match(rebuilt_names(mods), rebuilt_bases(mods, es), libname, 0)
        }),
{
    let mods = module_list(ms, exe_name, exe_base, filename);
    let c = create_all(ms, mods, seq);
    let m = rebuild_spec(ms, seq, exe_name, exe_base, filename).0;
    let es = c.1;
    assert(crate::ring_laws::entry_regions(c.0, es, ms.len() as int) && es.len() == mods.len()) by {
        lemma_create_all(ms, mods, seq);
    }
    assert(walked_with_bases(m, es, mods)) by {
        reveal(walked_with_bases);
        law_rebuild_ring(ms, seq, exe_name, exe_base, filename);
        law_rebuild_walk(ms, seq, exe_name, exe_base, filename);
    }
    assert(names_recorded(m, es, mods)) by {
        reveal(names_recorded);
        law_rebuild_names(ms, seq, exe_name, exe_base, filename);
    }
    lemma_lookup_entries(c.0, m, es, mods, ms.len() as int, libname);
}

/// After `rebuild_ldr_lists`, each entry it made gives back, as a walk with
/// `Flink` reads it, its module's name and recorded base.
#[verifier::spinoff_prover]
pub proof fn law_rebuild_entries_read(ms: Seq<MapView>, seq: u32, exe_name: Seq<char>, exe_base: u64, filename: Seq<char>)
    requires
        maps_wf(ms),
        has_peb(ms),
        ldr_of(ms) != 0,
        create_all_ok(ms, module_list(ms, exe_name, exe_base, filename), seq),
        names_fit(module_list(ms, exe_name, exe_base, filename)),
        names_storable(module_list(ms, exe_name, exe_base, filename)),
        rebuild_layout(ms, exe_base),
    ensures
        ({
            let mods = module_list(ms, exe_name, exe_base, filename);
            let es = create_all(ms, mods, seq).1;
            let m = rebuild_spec(ms, seq, exe_name, exe_base, filename).0;
            forall|k: int|
                0 <= k < es.len() ==> mod_name_at(m, #[trigger] es[k]) == mods[k].0 && mod_base_at(m, es[k])
                    == recorded_base(mods[k].1, es[k])
        }),
{
    let mods = module_list(ms, exe_name, exe_base, filename);
    let c = create_all(ms, mods, seq);
    let m = rebuild_spec(ms, seq, exe_name, exe_base, filename).0;
    let es = c.1;
    assert(walked_with_bases(m, es, mods)) by {
        reveal(walked_with_bases);
        law_rebuild_ring(ms, seq, exe_name, exe_base, filename);
        law_rebuild_walk(ms, seq, exe_name, exe_base, filename);
    }
    assert(names_recorded(m, es, mods)) by {
        reveal(names_recorded);
        law_rebuild_names(ms, seq, exe_name, exe_base, filename);
    }
    lemma_created_entries_read(ms, mods, seq, m);
}

/// The entries created for `mods`, once walked with their bases and names
/// recorded, give back their modules' names and bases.
proof fn lemma_created_entries_read(ms: Seq<MapView>, mods: Seq<(Seq<char>, u64)>, seq: u32, m: Seq<MapView>)
    requires
        maps_wf(ms),
        create_all_ok(ms, mods, seq),
        names_fit(mods),
        walked_with_bases(m, create_all(ms, mods, seq).1, mods),
        names_recorded(m, create_all(ms, mods, seq).1, mods),
    ensures
        ({
            let es = create_all(ms, mods, seq).1;
            forall|k: int|
                0 <= k < es.len() ==> mod_name_at(m, #[trigger] es[k]) == mods[k].0 && mod_base_at(m, es[k])
                    == recorded_base(mods[k].1, es[k])
        }),
{
    lemma_create_all(ms, mods, seq);
    let c = create_all(ms, mods, seq);
    lemma_entries_read(c.0, m, c.1, mods, ms.len() as int);
}

/// Entries that lie in regions of their own and record their modules' names
/// and bases give them back.
proof fn lemma_entries_read(m1: Seq<MapView>, m: Seq<MapView>, es: Seq<u64>, mods: Seq<(Seq<char>, u64)>, l: int)
    requires
        crate::ring_laws::entry_regions(m1, es, l),
        walked_with_bases(m, es, mods),
        names_recorded(m, es, mods),
        es.len() == mods.len(),
    ensures
        forall|k: int|
            0 <= k < es.len() ==> mod_name_at(m, #[trigger] es[k]) == mods[k].0 && mod_base_at(m, es[k]) == recorded_base(
                mods[k].1,
                es[k],
            ),
{
    reveal(walked_with_bases);
    reveal(names_recorded);
    assert forall|k: int| 0 <= k < es.len() implies mod_name_at(m, #[trigger] es[k]) == mods[k].0 && mod_base_at(m, es[k])
        == recorded_base(mods[k].1, es[k]) by {
        assert(crate::maps::qword_at(m, slot(es, k, 0x30)) == Some(recorded_base(mods[k].1, es[k])));
        lemma_entry_reads(m1, m, es, mods, l, k);
        assert(reads_as(m, es, rebuilt_names(mods), rebuilt_bases(mods, es), k));
    }
}

/// A search over entries that lie in regions of their own, are walked in order
/// and record their modules' names and bases finds what `first_match` names.
proof fn lemma_lookup_entries(
    m1: Seq<MapView>,
    m: Seq<MapView>,
    es: Seq<u64>,
    mods: Seq<(Seq<char>, u64)>,
    l: int,
    libname: Seq<char>,
)
    requires
        crate::ring_laws::entry_regions(m1, es, l),
        walked_with_bases(m, es, mods),
        names_recorded(m, es, mods),
        es.len() == mods.len(),
        es.len() <= 4097,
    ensures
        find_module_from(m, list_head(m), libname, 0) == first_match(rebuilt_names(mods), rebuilt_bases(mods, es), libname, 0),
{
    reveal(walked_with_bases);
    reveal(names_recorded);
    let names = rebuilt_names(mods);
    let bases = rebuilt_bases(mods, es);
    assert forall|j: int| 0 <= j < es.len() implies #[trigger] reads_as(m, es, names, bases, j) by {
        assert(crate::maps::qword_at(m, slot(es, j, 0x30)) == Some(recorded_base(mods[j].1, es[j])));
        lemma_entry_reads(m1, m, es, mods, l, j);
    }
    lemma_lookup_from(m, es, names, bases, libname, 0);
}

/// Appending one name and base after the others: the first match among the old
/// ones if any, else the new one if it matches.
proof fn lemma_first_match_push(
    names: Seq<Seq<char>>,
    bases: Seq<u64>,
    x: Seq<char>,
    y: u64,
    libname: Seq<char>,
    k: nat,
)
    requires
        names.len() == bases.len(),
        k <= names.len(),
    ensures
        first_match(names.push(x), bases.push(y), libname, k) == (match first_match(names, bases, libname, k) {
            Some(b) => Some(b),
            None => if name_matches(libname, x) {
                Some(y)
            } else {
                None
            },
        }),
    decreases names.len() - k,
{
    if k < names.len() {
        lemma_first_match_push(names, bases, x, y, libname, k + 1);
        assert(names.push(x)[k as int] == names[k as int]);
        assert(bases.push(y)[k as int] == bases[k as int]);
    } else {
        assert(names.push(x)[k as int] == x);
        assert(bases.push(y)[k as int] == y);
        assert(first_match(names.push(x), bases.push(y), libname, k + 1) is None);
    }
}

/// The units that `wide_units` reads from `a` are the words stored there.
proof fn lemma_wide_units_words(ms: Seq<MapView>, a: int)
    ensures
        forall|i: int|
            0 <= i < wide_units(ms, a).len() ==> #[trigger] word_at(ms, a + 2 * i) == Some(wide_units(ms, a)[i]),
    decreases addr_space() - a,
{
    let u = wide_units(ms, a);
    if u.len() > 0 {
        lemma_wide_units_words(ms, a + 2);
        let t = wide_units(ms, a + 2);
        assert(u == seq![word_at(ms, a)->0] + t);
        assert forall|i: int| 0 <= i < u.len() implies #[trigger] word_at(ms, a + 2 * i) == Some(u[i]) by {
            if i > 0 {
                assert(word_at(ms, (a + 2) + 2 * (i - 1)) == Some(t[i - 1]));
                assert((a + 2) + 2 * (i - 1) == a + 2 * i);
            }
        }
    }
}

/// Memory that has the same words from `a` on, up to and including the one that
/// ends the units read from `a`, reads the same units there.
pub proof fn lemma_wide_units_same(ms: Seq<MapView>, w: Seq<MapView>, a: int)
    requires
        forall|i: int| 0 <= i <= wide_units(ms, a).len() ==> #[trigger] word_at(w, a + 2 * i) == word_at(ms, a + 2 * i),
    ensures
        wide_units(w, a) == wide_units(ms, a),
    decreases addr_space() - a,
{
    let u = wide_units(ms, a);
    assert(word_at(w, a + 2 * 0) == word_at(ms, a + 2 * 0));
    if u.len() > 0 {
        let t = wide_units(ms, a + 2);
        assert forall|i: int| 0 <= i <= t.len() implies #[trigger] word_at(w, (a + 2) + 2 * i) == word_at(ms, (a + 2) + 2 * i) by {
            assert(word_at(w, a + 2 * (i + 1)) == word_at(ms, a + 2 * (i + 1)));
            assert(a + 2 * (i + 1) == (a + 2) + 2 * i);
        }
        lemma_wide_units_same(ms, w, a + 2);
    }
}

/// Hooking changes no byte that lies apart from the link blocks at `first` and `tail`.
proof fn lemma_hook_bytes(c: Seq<MapView>, first: u64, tail: u64, space: u64, x: int, n: nat)
    requires
        maps_wf(c),
        n >= 1,
        first + 0x30 <= addr_space(),
        tail + 0x30 <= addr_space(),
        apart(x, n as int, first as int, first + 0x30),
        apart(x, n as int, tail as int, tail + 0x30),
    ensures
        bytes_at(hook_entry_maps(c, first, tail, space), x, n) == bytes_at(c, x, n),
{
    reveal(hook_entry_maps);
    broadcast use lemma_le_bytes64_len;
    let f = first as int;
    let t = tail as int;
    assert(wadd(tail, 0x10) == t + 0x10);
    assert(wadd(tail, 0x20) == t + 0x20);
    assert(wadd(first, 8) == f + 8);
    assert(wadd(first, 0x18) == f + 0x18);
    assert(wadd(first, 0x28) == f + 0x28);
    let v0 = le_bytes64(space);
    let v1 = le_bytes64((space + 0x10) as u64);
    let v2 = le_bytes64((space + 0x20) as u64);
    let w1 = write_spec(c, t, v0);
    let w2 = write_spec(w1, t + 0x10, v1);
    let w3 = write_spec(w2, t + 0x20, v2);
    let w4 = write_spec(w3, f + 8, v0);
    let w5 = write_spec(w4, f + 0x18, v1);
    lemma_write_shape(c, t, v0);
    lemma_write_shape(w1, t + 0x10, v1);
    lemma_write_shape(w2, t + 0x20, v2);
    lemma_write_shape(w3, f + 8, v0);
    lemma_write_shape(w4, f + 0x18, v1);
    lemma_write_frame(c, t, v0, x, n);
    lemma_write_frame(w1, t + 0x10, v1, x, n);
    lemma_write_frame(w2, t + 0x20, v2, x, n);
    lemma_write_frame(w3, f + 8, v0, x, n);
    lemma_write_frame(w4, f + 0x18, v1, x, n);
    lemma_write_frame(w5, f + 0x28, v2, x, n);
}

/// Bytes of an old region that creation keeps and that lie apart from the link
/// blocks at `first` and `tail` read the same after the new entry is linked.
proof fn lemma_link_bytes(ms: Seq<MapView>, c: Seq<MapView>, first: u64, tail: u64, space: u64, x: int, n: nat, i: int)
    requires
        maps_wf(ms),
        maps_wf(c),
        n >= 1,
        0 <= i < ms.len(),
        i < c.len(),
        c[i] == ms[i],
        holds(ms[i], x, n as int),
        first + 0x30 <= addr_space(),
        tail + 0x30 <= addr_space(),
        apart(x, n as int, first as int, first + 0x30),
        apart(x, n as int, tail as int, tail + 0x30),
    ensures
        bytes_at(hook_entry_maps(c, first, tail, space), x, n) == bytes_at(ms, x, n),
        bytes_at(ms, x, n) is Some,
{
    lemma_region_unique(ms, x, n as int, i);
    lemma_region_unique(c, x, n as int, i);
    lemma_hook_bytes(c, first, tail, space, x, n);
}

/// What a lookup reads of the entry at `e` lies in memory, apart from the link
/// blocks at `f` and `t`: its `DllBase` and `BaseDllName` buffer words, and the
/// name units that buffer points at, which end with a zero unit.
pub open spec fn entry_apart(ms: Seq<MapView>, e: u64, f: int, t: int) -> bool {
    let a = rq(ms, wadd(e, 0x60)) as int;
    let z = (2 * wide_units(ms, a).len() + 2) as int;
    &&& region_for(ms, e as int, 0x68) is Some
    &&& word_at(ms, a + 2 * wide_units(ms, a).len()) == Some(0u16)
    &&& apart(e + 0x30, 8, f, f + 0x30) && apart(e + 0x30, 8, t, t + 0x30)
    &&& apart(e + 0x60, 8, f, f + 0x30) && apart(e + 0x60, 8, t, t + 0x30)
    &&& apart(a, z, f, f + 0x30) && apart(a, z, t, t + 0x30)
}

/// What a lookup reads of every entry of `es` lies apart from the link blocks of
/// the first and the last entry, which appending rewrites.
pub open spec fn lookup_apart(ms: Seq<MapView>, es: Seq<u64>) -> bool {
    forall|k: int| 0 <= k < es.len() ==> #[trigger] entry_apart(ms, es[k], es[0] as int, es[es.len() - 1] as int)
}

/// The names that the entries `es` give back when read.
pub open spec fn read_names(ms: Seq<MapView>, es: Seq<u64>) -> Seq<Seq<char>> {
    Seq::new(es.len(), |j: int| mod_name_at(ms, es[j]))
}

/// The bases that the entries `es` record.
pub open spec fn read_bases(ms: Seq<MapView>, es: Seq<u64>) -> Seq<u64> {
    Seq::new(es.len(), |j: int| mod_base_at(ms, es[j]))
}

/// An old entry reads the same name and base after the new one is linked.
proof fn lemma_old_entry_kept(ms: Seq<MapView>, c: Seq<MapView>, first: u64, tail: u64, space: u64, e: u64)
    requires
        maps_wf(ms),
        maps_wf(c),
        ms.len() <= c.len(),
        forall|j: int| 0 <= j < ms.len() ==> #[trigger] c[j] == ms[j],
        first + 0x30 <= addr_space(),
        tail + 0x30 <= addr_space(),
        entry_apart(ms, e, first as int, tail as int),
    ensures
        mod_name_at(hook_entry_maps(c, first, tail, space), e) == mod_name_at(ms, e),
        mod_base_at(hook_entry_maps(c, first, tail, space), e) == mod_base_at(ms, e),
{
    let r = hook_entry_maps(c, first, tail, space);
    lemma_region_for_holds(ms, e as int, 0x68);
    let i = region_for(ms, e as int, 0x68)->0;
    assert(map_end(ms[i]) <= addr_space());
    assert(wadd(e, 0x30) == e + 0x30);
    assert(wadd(e, 0x60) == e + 0x60);
    lemma_link_bytes(ms, c, first, tail, space, e + 0x30, 8, i);
    lemma_link_bytes(ms, c, first, tail, space, e + 0x60, 8, i);
    reveal(rq);
    assert(rq(r, wadd(e, 0x30)) == rq(ms, wadd(e, 0x30)));
    assert(rq(r, wadd(e, 0x60)) == rq(ms, wadd(e, 0x60)));
    let a = rq(ms, wadd(e, 0x60)) as int;
    let u = wide_units(ms, a);
    lemma_wide_units_words(ms, a);
    assert forall|k: int| 0 <= k <= u.len() implies #[trigger] word_at(r, a + 2 * k) == word_at(ms, a + 2 * k) by {
        assert(word_at(ms, a + 2 * k) is Some);
        lemma_region_for_holds(ms, a + 2 * k, 2);
        let j = region_for(ms, a + 2 * k, 2)->0;
        lemma_link_bytes(ms, c, first, tail, space, a + 2 * k, 2, j);
    }
    lemma_wide_units_same(ms, r, a);
    reveal(wide_text);
}

/// The new entry reads its module's name and recorded base after it is linked.
proof fn lemma_new_entry_reads(
    ms: Seq<MapView>,
    base: u64,
    entry_point: u64,
    lib: Seq<char>,
    first: u64,
    tail: u64,
    seq: u32,
)
    requires
        maps_wf(ms),
        alloc_spec(ms, LDR_REGION_SIZE) is Some,
        name_fits(lib),
        no_nul(lib),
        base_name_fits(lib),
        first + 0x30 <= alloc_spec(ms, LDR_REGION_SIZE)->0,
        tail + 0x30 <= alloc_spec(ms, LDR_REGION_SIZE)->0,
    ensures
        ({
            let space = alloc_spec(ms, LDR_REGION_SIZE)->0;
            let r = hook_entry_maps(create_entry_maps(ms, space, base, entry_point, lib, first, tail, seq), first, tail, space);
            &&& mod_name_at(r, space) == lib
            &&& mod_base_at(r, space) == recorded_base(base, space)
        }),
{
    let space = alloc_spec(ms, LDR_REGION_SIZE)->0;
    let c = create_entry_maps(ms, space, base, entry_point, lib, first, tail, seq);
    let r = hook_entry_maps(c, first, tail, space);
    law_create_entry_step(ms, base, entry_point, lib, first, tail, seq);
    law_create_entry_base_name(ms, base, entry_point, lib, first, tail, seq);
    let a = crate::ldr::base_name_addr(space, crate::ldr::utf8_len(crate::ldr::system32_dir() + lib));
    let u = utf16_units(lib);
    assert(map_end(c[ms.len() as int]) <= addr_space());
    assert(wadd(space, 0x30) == space + 0x30);
    assert(wadd(space, 0x60) == space + 0x60);
    lemma_hook_bytes(c, first, tail, space, space + 0x30, 8);
    lemma_hook_bytes(c, first, tail, space, space + 0x60, 8);
    assert forall|k: int| 0 <= k <= u.len() implies #[trigger] word_at(r, a + 2 * k) == word_at(c, a + 2 * k) by {
        lemma_hook_bytes(c, first, tail, space, a + 2 * k, 2);
    }
    lemma_wide_units_same(c, r, a as int);
    reveal(rq);
    reveal(wide_text);
    assert(rq(r, wadd(space, 0x60)) == a);
    crate::text::lemma_utf16_round_trip(lib);
}

/// After `dynamic_link_module` appends a module to a ring list that starts at
/// the list head, looking a name up (`get_module_base`) answers as before when
/// an old module's name matches it, and otherwise with the new module's
/// recorded base when the new module's name matches, else with `None`; provided
/// what the lookup reads of the old entries lies apart from the link words that
/// appending rewrites.
pub proof fn law_link_lookup(
    ms: Seq<MapView>,
    base: u64,
    entry_point: u64,
    lib: Seq<char>,
    es: Seq<u64>,
    seq: u32,
    libname: Seq<char>,
)
    requires
        maps_wf(ms),
        has_peb(ms),
        alloc_spec(ms, LDR_REGION_SIZE) is Some,
        name_fits(lib),
        no_nul(lib),
        base_name_fits(lib),
        ring_list(ms, es),
        list_head(ms) == es[0],
        heads_apart(ms, es),
        lookup_apart(ms, es),
    ensures
        ({
            let first = list_head(ms);
            let tail = link_tail_from(ms, first, first, 0);
            let space = alloc_spec(ms, LDR_REGION_SIZE)->0;
            let r = hook_entry_maps(create_entry_maps(ms, space, base, entry_point, lib, first, tail, seq), first, tail, space);
            find_module_from(r, list_head(r), libname, 0) == (match find_module_from(ms, list_head(ms), libname, 0) {
                Some(b) => Some(b),
                None => if name_matches(libname, lib) {
                    Some(recorded_base(base, space))
                } else {
                    None
                },
            })
        }),
{
    let n = es.len() as int;
    let first = es[0];
    let space = alloc_spec(ms, LDR_REGION_SIZE)->0;
    assert(link_tail_from(ms, first, first, 0) == es[n - 1]) by {
        law_link_appends(ms, base, entry_point, lib, es, seq);
    }
    let tail = es[n - 1];
    let r = hook_entry_maps(create_entry_maps(ms, space, base, entry_point, lib, first, tail, seq), first, tail, space);
    let names = read_names(ms, es);
    let bases = read_bases(ms, es);
    let x = lib;
    let y = recorded_base(base, space);
    lemma_ring_lookup(ms, es, libname);
    assert(find_module_from(r, list_head(r), libname, 0) == first_match(names.push(x), bases.push(y), libname, 0)) by {
        law_link_walk(ms, base, entry_point, lib, es, seq);
        lemma_link_reads(ms, base, entry_point, lib, es, seq);
        lemma_lookup_from(r, es.push(space), names.push(x), bases.push(y), libname, 0);
    }
    lemma_first_match_push(names, bases, x, y, libname, 0);
}

/// Looking a name up in a ring list that starts at the list head finds the
/// first of its entries whose name matches.
proof fn lemma_ring_lookup(ms: Seq<MapView>, es: Seq<u64>, libname: Seq<char>)
    requires
        ring_list(ms, es),
        list_head(ms) == es[0],
    ensures
        find_module_from(ms, list_head(ms), libname, 0) == first_match(read_names(ms, es), read_bases(ms, es), libname, 0),
{
    let names = read_names(ms, es);
    let bases = read_bases(ms, es);
    assert forall|i: int, j: int| 0 <= i < es.len() && 0 <= j < es.len() && i != j implies #[trigger] es[i] != #[trigger] es[j] by {
        assert(apart(es[i] as int, 0x30, es[j] as int, es[j] + 0x30));
    }
    lemma_walk_core(ms, es);
    assert forall|j: int| 0 <= j < es.len() implies #[trigger] reads_as(ms, es, names, bases, j) by {}
    lemma_lookup_from(ms, es, names, bases, libname, 0);
}

/// After linking, the old entries read as before and the new one reads its module.
proof fn lemma_link_reads(ms: Seq<MapView>, base: u64, entry_point: u64, lib: Seq<char>, es: Seq<u64>, seq: u32)
    requires
        maps_wf(ms),
        alloc_spec(ms, LDR_REGION_SIZE) is Some,
        name_fits(lib),
        no_nul(lib),
        base_name_fits(lib),
        ring_list(ms, es),
        lookup_apart(ms, es),
    ensures
        ({
            let first = es[0];
            let tail = es[es.len() - 1];
            let space = alloc_spec(ms, LDR_REGION_SIZE)->0;
            let r = hook_entry_maps(create_entry_maps(ms, space, base, entry_point, lib, first, tail, seq), first, tail, space);
            let e2 = es.push(space);
            let names = read_names(ms, es).push(lib);
            let bases = read_bases(ms, es).push(recorded_base(base, space));
            forall|j: int| 0 <= j < e2.len() ==> #[trigger] reads_as(r, e2, names, bases, j)
        }),
{
    let n = es.len() as int;
    let first = es[0];
    let tail = es[n - 1];
    let space = alloc_spec(ms, LDR_REGION_SIZE)->0;
    let c = create_entry_maps(ms, space, base, entry_point, lib, first, tail, seq);
    let r = hook_entry_maps(c, first, tail, space);
    law_create_entry_step(ms, base, entry_point, lib, first, tail, seq);
    lemma_top_of(ms);
    lemma_old_blocks_kept(ms, c, es, space);
    assert(first + 0x30 <= space && tail + 0x30 <= space);
    let names = read_names(ms, es);
    let bases = read_bases(ms, es);
    let x = lib;
    let y = recorded_base(base, space);
    let e2 = es.push(space);
    assert forall|j: int| 0 <= j < e2.len() implies #[trigger] reads_as(r, e2, names.push(x), bases.push(y), j) by {
        if j < n {
            assert(entry_apart(ms, es[j], first as int, tail as int));
            lemma_old_entry_kept(ms, c, first, tail, space, es[j]);
            assert(e2[j] == es[j]);
            assert(names.push(x)[j] == names[j]);
            assert(bases.push(y)[j] == bases[j]);
        } else {
            lemma_new_entry_reads(ms, base, entry_point, lib, first, tail, seq);
            assert(e2[j] == space);
        }
    }
}

} // verus!
