//! What appending a loader entry with `dynamic_link_module` does to the list.
use vstd::prelude::*;
use crate::bytes::le_bytes64;
use crate::maps::{
    MapView, maps_wf, holds, qword_at, write_spec, region_for, alloc_spec, top_of, lemma_region_unique,
    lemma_region_for_holds, lemma_write_shape, law_qword_write_read, law_qword_write_frame, lemma_top_of,
    map_end,
};
use crate::ldr::{wadd, create_entry_maps, hook_entry_maps, LDR_REGION_SIZE};
use crate::ldr_laws::{name_fits, law_create_entry_step, law_create_entry_links};
use crate::ring_laws::{
    apart, recorded_base, ring_linked, linked_at, slot, walks_in_order, lemma_walk_core, same_shape,
    entry_region_named, lemma_names_stable, lemma_ldr_name_ends, lemma_same_shape_trans,
};
use crate::ldr::{peb_base, peb_ldr};
use crate::maps::map_named;
use crate::ldr_lists::{ring_next, ring_prev, lemma_ring_positions};
use crate::ldr::{rq, link_tail_from, list_head, has_peb};
use crate::hash_laws::lemma_word_after;

verus! {

/// Region `ri` of a well-formed `w` holds `[a, a + 0x30)`.
#[verifier::opaque]
pub open spec fn held(w: Seq<MapView>, ri: int, a: int) -> bool {
    maps_wf(w) && 0 <= ri < w.len() && holds(w[ri], a, 0x30)
}

proof fn lemma_held_step(w: Seq<MapView>, ri: int, a: int, x: int, v: u64)
    requires
        held(w, ri, a),
    ensures
        held(write_spec(w, x, le_bytes64(v)), ri, a),
        maps_wf(write_spec(w, x, le_bytes64(v))),
{
    reveal(held);
    lemma_write_shape(w, x, le_bytes64(v));
}

proof fn lemma_held_land(w: Seq<MapView>, ri: int, a: int, o: int, v: u64)
    requires
        held(w, ri, a),
        0 <= o <= 0x28,
    ensures
        qword_at(write_spec(w, a + o, le_bytes64(v)), a + o) == Some(v),
{
    reveal(held);
    assert(holds(w[ri], a + o, 8));
    lemma_region_unique(w, a + o, 8, ri);
    law_qword_write_read(w, a + o, v);
}

proof fn lemma_held_frame(w: Seq<MapView>, ri: int, a: int, x: int, v: u64, c: int)
    requires
        held(w, ri, a),
        c + 8 <= x || x + 8 <= c,
    ensures
        qword_at(write_spec(w, x, le_bytes64(v)), c) == qword_at(w, c),
{
    reveal(held);
    law_qword_write_frame(w, x, v, c);
}

proof fn lemma_held_start(w: Seq<MapView>, a: int)
    requires
        maps_wf(w),
        region_for(w, a, 0x30) is Some,
    ensures
        held(w, region_for(w, a, 0x30)->0, a),
{
    reveal(held);
    lemma_region_for_holds(w, a, 0x30);
}

/// Appending the entry at `space` between the list's last entry `tail` and its
/// head `first` makes the three forward links of `tail` and the three back links
/// of `first` point at the new entry, and the new entry point forward at `first`
/// and back at `tail`, in each of the three lists; the new entry records the
/// module's base (its own address for base 0).
pub proof fn law_link_inserts(
    ms: Seq<MapView>,
    base: u64,
    entry_point: u64,
    lib: Seq<char>,
    first: u64,
    tail: u64,
    seq: u32,
)
    requires
        maps_wf(ms),
        alloc_spec(ms, LDR_REGION_SIZE) is Some,
        name_fits(lib),
        first != 0,
        region_for(ms, first as int, 0x30) is Some,
        region_for(ms, tail as int, 0x30) is Some,
        tail == first || apart(tail as int, 0x30, first as int, first + 0x30),
    ensures
        ({
            let space = alloc_spec(ms, LDR_REGION_SIZE)->0;
            let r = hook_entry_maps(
                create_entry_maps(ms, space, base, entry_point, lib, first, tail, seq),
                first,
                tail,
                space,
            );
            &&& qword_at(r, tail as int) == Some(space)
            &&& qword_at(r, tail + 0x10) == Some((space + 0x10) as u64)
            &&& qword_at(r, tail + 0x20) == Some((space + 0x20) as u64)
            &&& qword_at(r, first + 8) == Some(space)
            &&& qword_at(r, first + 0x18) == Some((space + 0x10) as u64)
            &&& qword_at(r, first + 0x28) == Some((space + 0x20) as u64)
            &&& qword_at(r, space as int) == Some(first)
            &&& qword_at(r, space + 8) == Some(tail)
            &&& qword_at(r, space + 0x10) == Some(wadd(first, 0x10))
            &&& qword_at(r, space + 0x18) == Some(wadd(tail, 0x10))
            &&& qword_at(r, space + 0x20) == Some(wadd(first, 0x20))
            &&& qword_at(r, space + 0x28) == Some(wadd(tail, 0x20))
            &&& qword_at(r, space + 0x30) == Some(recorded_base(base, space))
        }),
{
    let space = alloc_spec(ms, LDR_REGION_SIZE)->0;
    let c = create_entry_maps(ms, space, base, entry_point, lib, first, tail, seq);
    law_create_entry_step(ms, base, entry_point, lib, first, tail, seq);
    law_create_entry_links(ms, base, entry_point, lib, first, tail, seq);
    lemma_top_of(ms);
    lemma_region_for_holds(ms, first as int, 0x30);
    lemma_region_for_holds(ms, tail as int, 0x30);
    let rf = region_for(ms, first as int, 0x30)->0;
    let rt = region_for(ms, tail as int, 0x30)->0;
    assert(map_end(ms[rf]) <= top_of(ms));
    assert(map_end(ms[rt]) <= top_of(ms));
    assert(c[rf] == ms[rf] && c[rt] == ms[rt]);
    let f = first as int;
    let t = tail as int;
    let sp = space as int;
    assert(wadd(tail, 0x10) == t + 0x10);
    assert(wadd(tail, 0x20) == t + 0x20);
    assert(wadd(first, 8) == f + 8);
    assert(wadd(first, 0x18) == f + 0x18);
    assert(wadd(first, 0x28) == f + 0x28);
    lemma_region_unique(c, f, 0x30, rf);
    lemma_region_unique(c, t, 0x30, rt);
    lemma_held_start(c, f);
    lemma_held_start(c, t);
    let v0 = space;
    let v1 = (space + 0x10) as u64;
    let v2 = (space + 0x20) as u64;
    let w1 = write_spec(c, t, le_bytes64(v0));
    let w2 = write_spec(w1, t + 0x10, le_bytes64(v1));
    let w3 = write_spec(w2, t + 0x20, le_bytes64(v2));
    let w4 = write_spec(w3, f + 8, le_bytes64(v0));
    let w5 = write_spec(w4, f + 0x18, le_bytes64(v1));
    let w6 = write_spec(w5, f + 0x28, le_bytes64(v2));
    assert(w6 == hook_entry_maps(c, first, tail, space)) by {
        reveal(hook_entry_maps);
    }
    lemma_held_step(c, rt, t, t, v0);
    lemma_held_step(c, rf, f, t, v0);
    lemma_held_step(w1, rt, t, t + 0x10, v1);
    lemma_held_step(w1, rf, f, t + 0x10, v1);
    lemma_held_step(w2, rt, t, t + 0x20, v2);
    lemma_held_step(w2, rf, f, t + 0x20, v2);
    lemma_held_step(w3, rt, t, f + 8, v0);
    lemma_held_step(w3, rf, f, f + 8, v0);
    lemma_held_step(w4, rt, t, f + 0x18, v1);
    lemma_held_step(w4, rf, f, f + 0x18, v1);
    // the links of the list's own entries
    assert(qword_at(w6, t) == Some(v0)) by {
        lemma_held_land(c, rt, t, 0, v0);
        lemma_held_frame(w1, rt, t, t + 0x10, v1, t);
        lemma_held_frame(w2, rt, t, t + 0x20, v2, t);
        lemma_held_frame(w3, rt, t, f + 8, v0, t);
        lemma_held_frame(w4, rt, t, f + 0x18, v1, t);
        lemma_held_frame(w5, rt, t, f + 0x28, v2, t);
    }
    assert(qword_at(w6, t + 0x10) == Some(v1)) by {
        lemma_held_land(w1, rt, t, 0x10, v1);
        lemma_held_frame(w2, rt, t, t + 0x20, v2, t + 0x10);
        lemma_held_frame(w3, rt, t, f + 8, v0, t + 0x10);
        lemma_held_frame(w4, rt, t, f + 0x18, v1, t + 0x10);
        lemma_held_frame(w5, rt, t, f + 0x28, v2, t + 0x10);
    }
    assert(qword_at(w6, t + 0x20) == Some(v2)) by {
        lemma_held_land(w2, rt, t, 0x20, v2);
        lemma_held_frame(w3, rt, t, f + 8, v0, t + 0x20);
        lemma_held_frame(w4, rt, t, f + 0x18, v1, t + 0x20);
        lemma_held_frame(w5, rt, t, f + 0x28, v2, t + 0x20);
    }
    assert(qword_at(w6, f + 8) == Some(v0)) by {
        lemma_held_land(w3, rf, f, 8, v0);
        lemma_held_frame(w4, rf, f, f + 0x18, v1, f + 8);
        lemma_held_frame(w5, rf, f, f + 0x28, v2, f + 8);
    }
    assert(qword_at(w6, f + 0x18) == Some(v1)) by {
        lemma_held_land(w4, rf, f, 0x18, v1);
        lemma_held_frame(w5, rf, f, f + 0x28, v2, f + 0x18);
    }
    assert(qword_at(w6, f + 0x28) == Some(v2)) by {
        lemma_held_land(w5, rf, f, 0x28, v2);
    }
    // the new entry's words lie above every old region
    assert forall|o: int| 0 <= o <= 0x30 implies #[trigger] qword_at(w6, sp + o) == qword_at(c, sp + o) by {
        assert(t + 0x30 <= sp && f + 0x30 <= sp);
        lemma_held_frame(c, rt, t, t, v0, sp + o);
        lemma_held_frame(w1, rt, t, t + 0x10, v1, sp + o);
        lemma_held_frame(w2, rt, t, t + 0x20, v2, sp + o);
        lemma_held_frame(w3, rt, t, f + 8, v0, sp + o);
        lemma_held_frame(w4, rt, t, f + 0x18, v1, sp + o);
        lemma_held_frame(w5, rt, t, f + 0x28, v2, sp + o);
    }
    assert(qword_at(w6, sp + 0) == qword_at(c, sp + 0));
    assert(qword_at(w6, sp + 8) == qword_at(c, sp + 8));
    assert(qword_at(w6, sp + 0x10) == qword_at(c, sp + 0x10));
    assert(qword_at(w6, sp + 0x18) == qword_at(c, sp + 0x18));
    assert(qword_at(w6, sp + 0x20) == qword_at(c, sp + 0x20));
    assert(qword_at(w6, sp + 0x28) == qword_at(c, sp + 0x28));
    assert(qword_at(w6, sp + 0x30) == qword_at(c, sp + 0x30));
}

/// The blocks of the first 0x30 bytes of the entries do not overlap.
pub open spec fn blocks_apart(es: Seq<u64>) -> bool {
    forall|j: int, k: int| 0 <= j < es.len() && 0 <= k < es.len() && j != k ==> apart(#[trigger] es[j] as int, 0x30, #[trigger] es[k] as int, es[k] + 0x30)
}

/// The forward link of a ring entry leads to the next entry.
proof fn lemma_ring_rq(m: Seq<MapView>, es: Seq<u64>, k: int)
    requires
        ring_linked(m, es),
        0 <= k < es.len(),
    ensures
        rq(m, es[k]) == es[ring_next(k, es.len() as int)],
{
    assert(linked_at(m, es, k));
    assert(slot(es, k, 0) == es[k] as int);
    reveal(rq);
}

/// In a ring of at most 4096 distinct, non-zero entries, the walk that looks for
/// the last entry from entry `k` finds the last entry of the ring.
proof fn lemma_tail_of_ring(m: Seq<MapView>, es: Seq<u64>, k: int)
    requires
        ring_linked(m, es),
        blocks_apart(es),
        forall|j: int| 0 <= j < es.len() ==> #[trigger] es[j] != 0,
        1 <= es.len() <= 4096,
        0 <= k < es.len(),
    ensures
        link_tail_from(m, es[0], es[k], k as nat) == es[es.len() - 1],
    decreases es.len() - k,
{
    let n = es.len() as int;
    lemma_ring_positions(k, n);
    lemma_ring_rq(m, es, k);
    if k < n - 1 {
        let nx = es[k + 1];
        assert(nx != es[0]) by {
            assert(apart(es[k + 1] as int, 0x30, es[0] as int, es[0] + 0x30));
        }
        assert(nx != es[k]) by {
            assert(apart(es[k + 1] as int, 0x30, es[k] as int, es[k] + 0x30));
        }
        lemma_ring_positions(k + 1, n);
        lemma_ring_rq(m, es, k + 1);
        if k + 1 < n - 1 {
            assert(es[k + 2] != es[0]) by {
                assert(apart(es[k + 2] as int, 0x30, es[0] as int, es[0] + 0x30));
            }
            lemma_tail_of_ring(m, es, k + 1);
        }
    }
}

proof fn lemma_held_word(w: Seq<MapView>, ri: int, a: int, o: int)
    requires
        held(w, ri, a),
        0 <= o <= 0x28,
    ensures
        region_for(w, a + o, 8) is Some,
        maps_wf(w),
        a + 0x30 <= crate::maps::addr_space(),
{
    reveal(held);
    assert(holds(w[ri], a + o, 8));
    lemma_region_unique(w, a + o, 8, ri);
}

/// `x` is one of the six words that hooking writes, or lies apart from all of them.
pub open spec fn hook_compatible(first: int, tail: int, x: int) -> bool {
    &&& x == tail || apart(x, 8, tail, tail + 8)
    &&& x == tail + 0x10 || apart(x, 8, tail + 0x10, tail + 0x18)
    &&& x == tail + 0x20 || apart(x, 8, tail + 0x20, tail + 0x28)
    &&& x == first + 8 || apart(x, 8, first + 8, first + 0x10)
    &&& x == first + 0x18 || apart(x, 8, first + 0x18, first + 0x20)
    &&& x == first + 0x28 || apart(x, 8, first + 0x28, first + 0x30)
}

/// The word at `x` after hooking the entry at `space` between `tail` and `first`.
pub open spec fn hook_value(c: Seq<MapView>, first: int, tail: int, space: u64, x: int) -> Option<u64> {
    if x == tail || x == first + 8 {
        Some(space)
    } else if x == tail + 0x10 || x == first + 0x18 {
        Some((space + 0x10) as u64)
    } else if x == tail + 0x20 || x == first + 0x28 {
        Some((space + 0x20) as u64)
    } else {
        qword_at(c, x)
    }
}

/// Hooking writes its six words and changes no word apart from them.
proof fn lemma_hook_word(c: Seq<MapView>, rf: int, rt: int, first: u64, tail: u64, space: u64, x: int)
    requires
        held(c, rt, tail as int),
        held(c, rf, first as int),
        tail == first || apart(tail as int, 0x30, first as int, first + 0x30),
        hook_compatible(first as int, tail as int, x),
    ensures
        qword_at(hook_entry_maps(c, first, tail, space), x) == hook_value(c, first as int, tail as int, space, x),
{
    reveal(hook_entry_maps);
    let f = first as int;
    let t = tail as int;
    lemma_held_word(c, rt, t, 0);
    lemma_held_word(c, rf, f, 0);
    assert(wadd(tail, 0x10) == t + 0x10);
    assert(wadd(tail, 0x20) == t + 0x20);
    assert(wadd(first, 8) == f + 8);
    assert(wadd(first, 0x18) == f + 0x18);
    assert(wadd(first, 0x28) == f + 0x28);
    let v0 = space;
    let v1 = (space + 0x10) as u64;
    let v2 = (space + 0x20) as u64;
    let w1 = write_spec(c, t, le_bytes64(v0));
    let w2 = write_spec(w1, t + 0x10, le_bytes64(v1));
    let w3 = write_spec(w2, t + 0x20, le_bytes64(v2));
    let w4 = write_spec(w3, f + 8, le_bytes64(v0));
    let w5 = write_spec(w4, f + 0x18, le_bytes64(v1));
    let w6 = write_spec(w5, f + 0x28, le_bytes64(v2));
    assert(w6 == hook_entry_maps(c, first, tail, space));
    lemma_held_step(c, rt, t, t, v0);
    lemma_held_step(c, rf, f, t, v0);
    lemma_held_step(w1, rt, t, t + 0x10, v1);
    lemma_held_step(w1, rf, f, t + 0x10, v1);
    lemma_held_step(w2, rt, t, t + 0x20, v2);
    lemma_held_step(w2, rf, f, t + 0x20, v2);
    lemma_held_step(w3, rt, t, f + 8, v0);
    lemma_held_step(w3, rf, f, f + 8, v0);
    lemma_held_step(w4, rt, t, f + 0x18, v1);
    lemma_held_step(w4, rf, f, f + 0x18, v1);
    lemma_held_word(c, rt, t, 0);
    lemma_held_word(w1, rt, t, 0x10);
    lemma_held_word(w2, rt, t, 0x20);
    lemma_held_word(w3, rf, f, 8);
    lemma_held_word(w4, rf, f, 0x18);
    lemma_held_word(w5, rf, f, 0x28);
    lemma_word_after(c, t, v0, x);
    lemma_word_after(w1, t + 0x10, v1, x);
    lemma_word_after(w2, t + 0x20, v2, x);
    lemma_word_after(w3, f + 8, v0, x);
    lemma_word_after(w4, f + 0x18, v1, x);
    lemma_word_after(w5, f + 0x28, v2, x);
}

/// The entry at `space` appended to the ring `es` (between its last and first
/// entry) is linked into the ring `es.push(space)`: each old entry keeps its links
/// but for the two next to the new one.
proof fn lemma_appended_linked(
    c: Seq<MapView>,
    ms: Seq<MapView>,
    es: Seq<u64>,
    space: u64,
    rf: int,
    rt: int,
    k: int,
)
    requires
        ring_linked(ms, es),
        blocks_apart(es),
        1 <= es.len(),
        held(c, rt, es[es.len() - 1] as int),
        held(c, rf, es[0] as int),
        forall|j: int, o: int| 0 <= j < es.len() && 0 <= o <= 0x28 ==> qword_at(c, #[trigger] slot(es, j, o)) == qword_at(ms, slot(es, j, o)),
        forall|j: int| 0 <= j < es.len() ==> #[trigger] es[j] + 0x30 <= space,
        space + LDR_REGION_SIZE <= crate::maps::addr_space(),
        qword_at(c, space as int) == Some(es[0]),
        qword_at(c, space + 8) == Some(es[es.len() - 1]),
        qword_at(c, space + 0x10) == Some(wadd(es[0], 0x10)),
        qword_at(c, space + 0x18) == Some(wadd(es[es.len() - 1], 0x10)),
        qword_at(c, space + 0x20) == Some(wadd(es[0], 0x20)),
        qword_at(c, space + 0x28) == Some(wadd(es[es.len() - 1], 0x20)),
        0 <= k <= es.len(),
    ensures
        linked_at(hook_entry_maps(c, es[0], es[es.len() - 1], space), es.push(space), k),
{
    let n = es.len() as int;
    let e2 = es.push(space);
    let first = es[0];
    let tail = es[n - 1];
    let f = first as int;
    let t = tail as int;
    let r = hook_entry_maps(c, first, tail, space);
    lemma_ring_positions(k, n + 1);
    if n > 1 {
        assert(apart(t, 0x30, f, f + 0x30));
    }
    assert(t + 0x30 <= space && f + 0x30 <= space);
    if k == n {
        assert forall|o: int| 0 <= o <= 0x28 implies #[trigger] hook_compatible(f, t, space + o) by {}
        lemma_hook_word(c, rf, rt, first, tail, space, space as int);
        lemma_hook_word(c, rf, rt, first, tail, space, space + 8);
        lemma_hook_word(c, rf, rt, first, tail, space, space + 0x10);
        lemma_hook_word(c, rf, rt, first, tail, space, space + 0x18);
        lemma_hook_word(c, rf, rt, first, tail, space, space + 0x20);
        lemma_hook_word(c, rf, rt, first, tail, space, space + 0x28);
        assert(e2[k] == space);
        assert(e2[0] == first);
        assert(e2[n - 1] == tail);
    } else {
        let x = es[k] as int;
        assert(e2[k] == es[k]);
        assert(linked_at(ms, es, k));
        lemma_ring_positions(k, n);
        if k != 0 && k != n - 1 {
            assert(apart(x, 0x30, t, t + 0x30));
            assert(apart(x, 0x30, f, f + 0x30));
        }
        if k == n - 1 && k != 0 {
            assert(apart(x, 0x30, f, f + 0x30));
        }
        if k == 0 && k != n - 1 {
            assert(apart(x, 0x30, t, t + 0x30));
        }
        assert(x == slot(es, k, 0));
        assert forall|o: int| 0 <= o <= 0x28 implies qword_at(c, #[trigger] slot(es, k, o)) == qword_at(ms, slot(es, k, o)) by {}
        lemma_hook_word(c, rf, rt, first, tail, space, x);
        lemma_hook_word(c, rf, rt, first, tail, space, x + 8);
        lemma_hook_word(c, rf, rt, first, tail, space, x + 0x10);
        lemma_hook_word(c, rf, rt, first, tail, space, x + 0x18);
        lemma_hook_word(c, rf, rt, first, tail, space, x + 0x20);
        lemma_hook_word(c, rf, rt, first, tail, space, x + 0x28);
        assert(qword_at(c, slot(es, k, 8)) == qword_at(ms, slot(es, k, 8)));
        assert(qword_at(c, slot(es, k, 0x10)) == qword_at(ms, slot(es, k, 0x10)));
        assert(qword_at(c, slot(es, k, 0x18)) == qword_at(ms, slot(es, k, 0x18)));
        assert(qword_at(c, slot(es, k, 0x20)) == qword_at(ms, slot(es, k, 0x20)));
        assert(qword_at(c, slot(es, k, 0x28)) == qword_at(ms, slot(es, k, 0x28)));
        if k + 1 < n {
            assert(e2[k + 1] == es[k + 1]);
        }
        if k > 0 {
            assert(e2[k - 1] == es[k - 1]);
        }
        assert(e2[n] == space);
        assert(wadd(space, 0x10) == space + 0x10);
        assert(wadd(space, 0x20) == space + 0x20);
    }
}

/// What `dynamic_link_module` needs of the list it appends to: a ring of at most
/// 4096 entries, non-zero, whose link blocks lie in memory and do not overlap.
pub open spec fn ring_list(ms: Seq<MapView>, es: Seq<u64>) -> bool {
    &&& 1 <= es.len() <= 4096
    &&& ring_linked(ms, es)
    &&& blocks_apart(es)
    &&& forall|k: int| 0 <= k < es.len() ==> #[trigger] es[k] != 0
    &&& forall|k: int| 0 <= k < es.len() ==> region_for(ms, #[trigger] es[k] as int, 0x30) is Some
}

/// Creating the new entry keeps the link blocks of a ring list, which lie below it.
pub proof fn lemma_old_blocks_kept(ms: Seq<MapView>, c: Seq<MapView>, es: Seq<u64>, space: u64)
    requires
        maps_wf(ms),
        maps_wf(c),
        ring_list(ms, es),
        ms.len() <= c.len(),
        forall|j: int| 0 <= j < ms.len() ==> #[trigger] c[j] == ms[j],
        space == top_of(ms),
    ensures
        forall|j: int, o: int| 0 <= j < es.len() && 0 <= o <= 0x28 ==> qword_at(c, #[trigger] slot(es, j, o)) == qword_at(ms, slot(es, j, o)),
        forall|j: int| 0 <= j < es.len() ==> #[trigger] es[j] + 0x30 <= space,
        forall|j: int| 0 <= j < es.len() ==> held(c, region_for(ms, #[trigger] es[j] as int, 0x30)->0, es[j] as int),
{
    lemma_top_of(ms);
    assert forall|j: int| 0 <= j < es.len() implies #[trigger] es[j] + 0x30 <= space && held(c, region_for(ms, es[j] as int, 0x30)->0, es[j] as int) by {
        assert(region_for(ms, es[j] as int, 0x30) is Some);
        lemma_region_for_holds(ms, es[j] as int, 0x30);
        let rj = region_for(ms, es[j] as int, 0x30)->0;
        assert(map_end(ms[rj]) <= top_of(ms));
        assert(c[rj] == ms[rj]);
        reveal(held);
    }
    assert forall|j: int, o: int| 0 <= j < es.len() && 0 <= o <= 0x28 implies qword_at(c, #[trigger] slot(es, j, o)) == qword_at(ms, slot(es, j, o)) by {
        assert(region_for(ms, es[j] as int, 0x30) is Some);
        lemma_region_for_holds(ms, es[j] as int, 0x30);
        let rj = region_for(ms, es[j] as int, 0x30)->0;
        assert(c[rj] == ms[rj]);
        assert(holds(ms[rj], slot(es, j, o), 8));
        lemma_region_unique(ms, slot(es, j, o), 8, rj);
        lemma_region_unique(c, slot(es, j, o), 8, rj);
    }
}

/// Appending with `dynamic_link_module` to a ring list of entries `es` finds its
/// last entry as the tail, and links the new entry into the ring after it: the
/// entries `es` followed by the new one form a ring in all three lists.
pub proof fn law_link_appends(
    ms: Seq<MapView>,
    base: u64,
    entry_point: u64,
    lib: Seq<char>,
    es: Seq<u64>,
    seq: u32,
)
    requires
        maps_wf(ms),
        alloc_spec(ms, LDR_REGION_SIZE) is Some,
        name_fits(lib),
        ring_list(ms, es),
    ensures
        ({
            let first = es[0];
            let tail = link_tail_from(ms, first, first, 0);
            let space = alloc_spec(ms, LDR_REGION_SIZE)->0;
            let r = hook_entry_maps(
                create_entry_maps(ms, space, base, entry_point, lib, first, tail, seq),
                first,
                tail,
                space,
            );
            &&& tail == es[es.len() - 1]
            &&& ring_linked(r, es.push(space))
        }),
{
    let n = es.len() as int;
    let first = es[0];
    lemma_tail_of_ring(ms, es, 0);
    let tail = es[n - 1];
    let space = alloc_spec(ms, LDR_REGION_SIZE)->0;
    let c = create_entry_maps(ms, space, base, entry_point, lib, first, tail, seq);
    law_create_entry_step(ms, base, entry_point, lib, first, tail, seq);
    law_create_entry_links(ms, base, entry_point, lib, first, tail, seq);
    lemma_old_blocks_kept(ms, c, es, space);
    let rf = region_for(ms, es[0] as int, 0x30)->0;
    let rt = region_for(ms, es[n - 1] as int, 0x30)->0;
    assert(held(c, rf, es[0] as int));
    assert(held(c, rt, es[n - 1] as int));
    assert forall|k: int| 0 <= k < n + 1 implies #[trigger] linked_at(
        hook_entry_maps(c, first, tail, space),
        es.push(space),
        k,
    ) by {
        lemma_appended_linked(c, ms, es, space, rf, rt, k);
    }
    assert(es.push(space).len() == n + 1);
}

/// Hooking keeps every region's name, place and size.
proof fn lemma_hook_shape(c: Seq<MapView>, first: u64, tail: u64, space: u64)
    requires
        maps_wf(c),
    ensures
        same_shape(c, hook_entry_maps(c, first, tail, space)),
        maps_wf(hook_entry_maps(c, first, tail, space)),
{
    reveal(hook_entry_maps);
    let v0 = space;
    let v1 = (space + 0x10) as u64;
    let v2 = (space + 0x20) as u64;
    let w1 = write_spec(c, tail as int, le_bytes64(v0));
    let w2 = write_spec(w1, wadd(tail, 0x10) as int, le_bytes64(v1));
    let w3 = write_spec(w2, wadd(tail, 0x20) as int, le_bytes64(v2));
    let w4 = write_spec(w3, wadd(first, 8) as int, le_bytes64(v0));
    let w5 = write_spec(w4, wadd(first, 0x18) as int, le_bytes64(v1));
    let w6 = write_spec(w5, wadd(first, 0x28) as int, le_bytes64(v2));
    lemma_write_shape(c, tail as int, le_bytes64(v0));
    lemma_write_shape(w1, wadd(tail, 0x10) as int, le_bytes64(v1));
    lemma_write_shape(w2, wadd(tail, 0x20) as int, le_bytes64(v2));
    lemma_write_shape(w3, wadd(first, 8) as int, le_bytes64(v0));
    lemma_write_shape(w4, wadd(first, 0x18) as int, le_bytes64(v1));
    lemma_write_shape(w5, wadd(first, 0x28) as int, le_bytes64(v2));
    lemma_same_shape_trans(c, w1, w2);
    lemma_same_shape_trans(c, w2, w3);
    lemma_same_shape_trans(c, w3, w4);
    lemma_same_shape_trans(c, w4, w5);
    lemma_same_shape_trans(c, w5, w6);
}

/// `PEB.Ldr` and the loader data's first list head lie apart from the link blocks of `es`.
pub open spec fn heads_apart(ms: Seq<MapView>, es: Seq<u64>) -> bool {
    let pq = peb_base(ms) + 0x18;
    let lh = wadd(peb_ldr(ms), 0x10) as int;
    forall|k: int|
        0 <= k < es.len() ==> apart(pq, 8, #[trigger] es[k] as int, es[k] + 0x30) && apart(lh, 8, es[k] as int, es[k] + 0x30)
}

/// A word of an old region that lies apart from the link blocks keeps its value
/// through creating and hooking the new entry.
proof fn lemma_far_word_kept(
    ms: Seq<MapView>,
    c: Seq<MapView>,
    es: Seq<u64>,
    space: u64,
    rf: int,
    rt: int,
    x: int,
    j: int,
)
    requires
        maps_wf(ms),
        maps_wf(c),
        1 <= es.len(),
        0 <= j < ms.len(),
        j < c.len(),
        c[j] == ms[j],
        holds(ms[j], x, 8),
        held(c, rt, es[es.len() - 1] as int),
        held(c, rf, es[0] as int),
        es[0] == es[es.len() - 1] || apart(es[es.len() - 1] as int, 0x30, es[0] as int, es[0] + 0x30),
        apart(x, 8, es[0] as int, es[0] + 0x30),
        apart(x, 8, es[es.len() - 1] as int, es[es.len() - 1] + 0x30),
    ensures
        qword_at(hook_entry_maps(c, es[0], es[es.len() - 1], space), x) == qword_at(ms, x),
{
    lemma_region_unique(ms, x, 8, j);
    lemma_region_unique(c, x, 8, j);
    lemma_hook_word(c, rf, rt, es[0], es[es.len() - 1], space, x);
}

/// After `dynamic_link_module` appends to a ring list that starts at the list
/// head, the walk from `PEB.Ldr` visits the old entries in order, then the new
/// one, and stops.
pub proof fn law_link_walk(
    ms: Seq<MapView>,
    base: u64,
    entry_point: u64,
    lib: Seq<char>,
    es: Seq<u64>,
    seq: u32,
)
    requires
        maps_wf(ms),
        has_peb(ms),
        alloc_spec(ms, LDR_REGION_SIZE) is Some,
        name_fits(lib),
        ring_list(ms, es),
        list_head(ms) == es[0],
        heads_apart(ms, es),
    ensures
        ({
            let first = list_head(ms);
            let tail = link_tail_from(ms, first, first, 0);
            let space = alloc_spec(ms, LDR_REGION_SIZE)->0;
            let r = hook_entry_maps(
                create_entry_maps(ms, space, base, entry_point, lib, first, tail, seq),
                first,
                tail,
                space,
            );
            walks_in_order(r, es.push(space))
        }),
{
    let n = es.len() as int;
    let first = es[0];
    let tail = es[n - 1];
    let space = alloc_spec(ms, LDR_REGION_SIZE)->0;
    law_link_appends(ms, base, entry_point, lib, es, seq);
    let c = create_entry_maps(ms, space, base, entry_point, lib, first, tail, seq);
    let r = hook_entry_maps(c, first, tail, space);
    law_create_entry_step(ms, base, entry_point, lib, first, tail, seq);
    lemma_old_blocks_kept(ms, c, es, space);
    let rf = region_for(ms, es[0] as int, 0x30)->0;
    let rt = region_for(ms, es[n - 1] as int, 0x30)->0;
    if n > 1 {
        assert(apart(tail as int, 0x30, first as int, first + 0x30));
    }
    // names, hence the PEB region, stay where they were
    lemma_ldr_name_ends(ms, lib, seq);
    assert forall|j: int| ms.len() <= j < c.len() implies entry_region_named(#[trigger] c[j].name) by {
        assert(j == ms.len());
    }
    lemma_hook_shape(c, first, tail, space);
    lemma_names_stable(ms, r, c);
    crate::maps::lemma_map_named_props(ms, "peb"@);
    let ip = map_named(ms, "peb"@)->0;
    let pq = peb_base(ms) + 0x18;
    assert(holds(ms[ip], pq, 8));
    assert(c[ip] == ms[ip]);
    assert(apart(pq, 8, es[0] as int, es[0] + 0x30));
    assert(apart(pq, 8, es[n - 1] as int, es[n - 1] + 0x30));
    lemma_far_word_kept(ms, c, es, space, rf, rt, pq, ip);
    // PEB.Ldr reads the same
    assert(peb_ldr(r) == peb_ldr(ms)) by {
        assert(r[ip].base == ms[ip].base && r[ip].data.len() == ms[ip].data.len());
        lemma_region_unique(ms, pq, 8, ip);
        assert(holds(r[ip], pq, 8));
        lemma_region_unique(r, pq, 8, ip);
        assert(ms[ip].data.subrange(0x18, 0x20) == ms[ip].data.subrange(pq - ms[ip].base, pq - ms[ip].base + 8));
        assert(r[ip].data.subrange(0x18, 0x20) == r[ip].data.subrange(pq - r[ip].base, pq - r[ip].base + 8));
    }
    // the first list head reads the same
    let lh = wadd(peb_ldr(ms), 0x10) as int;
    assert(qword_at(ms, lh) is Some) by {
        reveal(rq);
    }
    crate::maps::lemma_region_for_holds(ms, lh, 8);
    let jh = region_for(ms, lh, 8)->0;
    assert(c[jh] == ms[jh]);
    assert(apart(lh, 8, es[0] as int, es[0] + 0x30));
    assert(apart(lh, 8, es[n - 1] as int, es[n - 1] + 0x30));
    lemma_far_word_kept(ms, c, es, space, rf, rt, lh, jh);
    assert(list_head(r) == es[0]) by {
        reveal(rq);
    }
    // the extended ring is walked in order
    let e2 = es.push(space);
    lemma_top_of(ms);
    assert forall|i: int, j: int| 0 <= i < e2.len() && 0 <= j < e2.len() && i != j implies #[trigger] e2[i] != #[trigger] e2[j] by {
        if i < n && j < n {
            assert(apart(es[i] as int, 0x30, es[j] as int, es[j] + 0x30));
        } else if i < n {
            assert(es[i] + 0x30 <= space);
        } else {
            assert(es[j] + 0x30 <= space);
        }
    }
    assert forall|i: int| 0 <= i < e2.len() implies #[trigger] e2[i] != 0 by {
        if i < n {
            assert(es[i] != 0);
        }
    }
    lemma_walk_core(r, e2);
}

} // verus!
