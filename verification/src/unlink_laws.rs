//! What `dynamic_unlink_module` leaves of the load-order list.
use vstd::prelude::*;
use crate::bytes::{le_bytes64, lemma_le_bytes64_len};
use crate::maps::{
    MapView, maps_wf, bytes_at, word_at, qword_at, write_spec, holds, wide_units, lemma_region_unique,
    lemma_write_frame, lemma_write_shape, lemma_map_named_props, law_qword_write_read, law_qword_write_frame,
};
use crate::ldr::{
    wadd, rq, wide_text, chain, next_of, walk_ends, list_head, peb_base, peb_ldr, has_peb, hit, same_name,
    unlink_spec, find_module_from, mod_name_at, mod_base_at, lemma_first_hit_is, lemma_chain_stops,
};
use crate::ring_laws::{apart, walks_in_order, lemma_map_named_stable};
use crate::lookup_laws::{first_match, read_names, read_bases, reads_as, lemma_lookup_from, lemma_wide_units_same};

verus! {

/// The `j`-th entry of the walk over the load-order list of `ms`.
pub open spec fn walk_entry(ms: Seq<MapView>, j: nat) -> u64 {
    chain(ms, list_head(ms), j)->0
}

/// The first `k` entries of the walk over the load-order list of `ms`.
pub open spec fn walk_prefix(ms: Seq<MapView>, k: nat) -> Seq<u64> {
    Seq::new(k, |j: int| walk_entry(ms, j as nat))
}

/// `[x, x + n)` lies apart from the two words at `w1` and `w2`.
pub open spec fn clear_of(x: int, n: int, w1: int, w2: int) -> bool {
    apart(x, n, w1, w1 + 8) && apart(x, n, w2, w2 + 8)
}

/// Where unlinking the `k`-th entry of the walk writes: the forward link of the
/// entry before it, and 4 bytes into the entry after it.
pub open spec fn unlink_words(ms: Seq<MapView>, k: nat) -> (int, int) {
    let p = walk_entry(ms, k);
    let nf = match next_of(ms, p) {
        Some(n) => n,
        None => p,
    };
    (walk_entry(ms, (k - 1) as nat) as int, wadd(nf, 4) as int)
}

/// What a lookup reads of the entry at `e` (its `DllBase` and `BaseDllName`
/// buffer words and the name units up to their end) lies apart from `w1` and `w2`.
pub open spec fn reads_clear(ms: Seq<MapView>, e: u64, w1: int, w2: int) -> bool {
    let a = rq(ms, wadd(e, 0x60)) as int;
    &&& clear_of(wadd(e, 0x30) as int, 8, w1, w2)
    &&& clear_of(wadd(e, 0x60) as int, 8, w1, w2)
    &&& clear_of(a, (2 * wide_units(ms, a).len() + 2) as int, w1, w2)
}

/// The two words that unlinking the `k`-th entry writes lie apart from each
/// other, from `PEB.Ldr` and the first list head, from the forward links of the
/// entries before the one they clear, and from what a lookup reads of the
/// entries before the unlinked one.
pub open spec fn unlink_clear(ms: Seq<MapView>, k: nat) -> bool {
    let w1 = unlink_words(ms, k).0;
    let w2 = unlink_words(ms, k).1;
    &&& apart(w2, 8, w1, w1 + 8)
    &&& clear_of(peb_base(ms) + 0x18, 8, w1, w2)
    &&& clear_of(wadd(peb_ldr(ms), 0x10) as int, 8, w1, w2)
    &&& forall|j: nat| j + 1 < k ==> clear_of(#[trigger] walk_entry(ms, j) as int, 8, w1, w2)
    &&& forall|j: nat| j < k ==> #[trigger] reads_clear(ms, walk_entry(ms, j), w1, w2)
}

/// Two qword writes keep every byte range that lies apart from both.
proof fn lemma_two_writes_keep(ms: Seq<MapView>, w1: int, v1: u64, w2: int, v2: u64, x: int, n: nat)
    requires
        maps_wf(ms),
        n >= 1,
        clear_of(x, n as int, w1, w2),
    ensures
        bytes_at(write_spec(write_spec(ms, w1, le_bytes64(v1)), w2, le_bytes64(v2)), x, n) == bytes_at(ms, x, n),
{
    broadcast use lemma_le_bytes64_len;
    let m1 = write_spec(ms, w1, le_bytes64(v1));
    lemma_write_shape(ms, w1, le_bytes64(v1));
    lemma_write_frame(ms, w1, le_bytes64(v1), x, n);
    lemma_write_frame(m1, w2, le_bytes64(v2), x, n);
}

/// An entry whose lookup reads lie apart from the two writes reads the same after them.
proof fn lemma_entry_unchanged(ms: Seq<MapView>, w1: int, v1: u64, w2: int, v2: u64, e: u64)
    requires
        maps_wf(ms),
        reads_clear(ms, e, w1, w2),
    ensures
        mod_name_at(write_spec(write_spec(ms, w1, le_bytes64(v1)), w2, le_bytes64(v2)), e) == mod_name_at(ms, e),
        mod_base_at(write_spec(write_spec(ms, w1, le_bytes64(v1)), w2, le_bytes64(v2)), e) == mod_base_at(ms, e),
{
    let m = write_spec(write_spec(ms, w1, le_bytes64(v1)), w2, le_bytes64(v2));
    lemma_two_writes_keep(ms, w1, v1, w2, v2, wadd(e, 0x30) as int, 8);
    lemma_two_writes_keep(ms, w1, v1, w2, v2, wadd(e, 0x60) as int, 8);
    reveal(rq);
    assert(rq(m, wadd(e, 0x60)) == rq(ms, wadd(e, 0x60)));
    let a = rq(ms, wadd(e, 0x60)) as int;
    let u = wide_units(ms, a);
    assert forall|i: int| 0 <= i <= u.len() implies #[trigger] word_at(m, a + 2 * i) == word_at(ms, a + 2 * i) by {
        lemma_two_writes_keep(ms, w1, v1, w2, v2, a + 2 * i, 2);
    }
    lemma_wide_units_same(ms, m, a);
    reveal(wide_text);
}

/// The entries before the `k`-th of a walk are reached.
pub proof fn lemma_walk_reaches(ms: Seq<MapView>, first: u64, k: nat, j: nat)
    requires
        chain(ms, first, k) is Some,
        j <= k,
    ensures
        chain(ms, first, j) is Some,
{
    if chain(ms, first, j) is None {
        lemma_chain_stops(ms, first, j, k);
    }
}

/// After the two writes, the walk follows the old one up to the entry before
/// the unlinked one.
proof fn lemma_prefix_walk(ms: Seq<MapView>, m: Seq<MapView>, first: u64, k: nat, j: nat)
    requires
        1 <= k,
        j < k,
        chain(ms, first, k) is Some,
        forall|i: nat| i + 1 < k ==> rq(m, #[trigger] walk_entry(ms, i)) == rq(ms, walk_entry(ms, i)),
        first == list_head(ms),
    ensures
        chain(m, first, j) == chain(ms, first, j),
    decreases j,
{
    if j > 0 {
        lemma_prefix_walk(ms, m, first, k, (j - 1) as nat);
        lemma_walk_reaches(ms, first, k, (j - 1) as nat);
        let p = chain(ms, first, (j - 1) as nat)->0;
        assert(walk_entry(ms, (j - 1) as nat) == p);
        assert(rq(m, p) == rq(ms, p));
    }
}

/// `PEB.Ldr` and the first list head read the same after two writes apart from them.
proof fn lemma_head_unchanged(ms: Seq<MapView>, w1: int, v1: u64, w2: int, v2: u64)
    requires
        maps_wf(ms),
        has_peb(ms),
        clear_of(peb_base(ms) + 0x18, 8, w1, w2),
        clear_of(wadd(peb_ldr(ms), 0x10) as int, 8, w1, w2),
    ensures
        list_head(write_spec(write_spec(ms, w1, le_bytes64(v1)), w2, le_bytes64(v2))) == list_head(ms),
{
    broadcast use lemma_le_bytes64_len;
    let m1 = write_spec(ms, w1, le_bytes64(v1));
    let m = write_spec(m1, w2, le_bytes64(v2));
    lemma_write_shape(ms, w1, le_bytes64(v1));
    lemma_write_shape(m1, w2, le_bytes64(v2));
    assert forall|j: int| 0 <= j < ms.len() implies (#[trigger] m[j]).name == ms[j].name by {
        assert(m1[j].name == ms[j].name);
    }
    lemma_map_named_stable(ms, m, "peb"@);
    lemma_map_named_props(ms, "peb"@);
    let ip = crate::maps::map_named(ms, "peb"@)->0;
    let pq = peb_base(ms) + 0x18;
    assert(holds(ms[ip], pq, 8));
    assert(holds(m[ip], pq, 8));
    lemma_region_unique(ms, pq, 8, ip);
    lemma_region_unique(m, pq, 8, ip);
    lemma_two_writes_keep(ms, w1, v1, w2, v2, pq, 8);
    assert(ms[ip].data.subrange(0x18, 0x20) == ms[ip].data.subrange(pq - ms[ip].base, pq - ms[ip].base + 8));
    assert(m[ip].data.subrange(0x18, 0x20) == m[ip].data.subrange(pq - m[ip].base, pq - m[ip].base + 8));
    assert(peb_ldr(m) == peb_ldr(ms));
    lemma_two_writes_keep(ms, w1, v1, w2, v2, wadd(peb_ldr(ms), 0x10) as int, 8);
    reveal(rq);
}

/// After `dynamic_unlink_module(name)` takes off the `k`-th entry of the walk
/// over the load-order list (the first one named `name`, and not the first
/// entry), the walk visits the `k` entries before it and stops there, so a
/// lookup by name answers as over those entries alone; provided the two words
/// that unlinking writes lie apart from what the walk and the lookup read of
/// them.
pub proof fn law_unlink_cuts(ms: Seq<MapView>, name: Seq<char>, k: nat, libname: Seq<char>)
    requires
        maps_wf(ms),
        has_peb(ms),
        1 <= k <= 4097,
        hit(ms, list_head(ms), same_name(ms, name), k),
        forall|j: nat| j < k ==> !hit(ms, list_head(ms), same_name(ms, name), j),
        unlink_clear(ms, k),
    ensures
        walks_in_order(unlink_spec(ms, name), walk_prefix(ms, k)),
        find_module_from(unlink_spec(ms, name), list_head(unlink_spec(ms, name)), libname, 0) == first_match(
            read_names(ms, walk_prefix(ms, k)),
            read_bases(ms, walk_prefix(ms, k)),
            libname,
            0,
        ),
{
    broadcast use lemma_le_bytes64_len;
    let first = list_head(ms);
    lemma_first_hit_is(ms, first, same_name(ms, name), k);
    let prev = walk_entry(ms, (k - 1) as nat);
    let w1 = unlink_words(ms, k).0;
    let w2 = unlink_words(ms, k).1;
    let m1 = write_spec(ms, prev as int, le_bytes64(0));
    let m = write_spec(m1, w2, le_bytes64(prev));
    assert(unlink_spec(ms, name) == m);
    lemma_write_shape(ms, w1, le_bytes64(0));
    lemma_write_shape(m1, w2, le_bytes64(prev));
    lemma_head_unchanged(ms, w1, 0, w2, prev);
    assert(list_head(m) == first);
    // the walk follows the old one up to the entry before the unlinked one
    assert forall|i: nat| i + 1 < k implies rq(m, #[trigger] walk_entry(ms, i)) == rq(ms, walk_entry(ms, i)) by {
        lemma_two_writes_keep(ms, w1, 0, w2, prev, walk_entry(ms, i) as int, 8);
        reveal(rq);
    }
    lemma_walk_reaches(ms, first, k, (k - 1) as nat);
    lemma_prefix_walk(ms, m, first, k, (k - 1) as nat);
    // and stops there, its forward link cleared
    assert(next_of(ms, prev) == chain(ms, first, k)) by {
        assert(chain(ms, first, (k - 1) as nat) == Some(prev));
    }
    assert(rq(m, prev) == 0) by {
        reveal(rq);
        assert(qword_at(ms, prev as int) is Some);
        law_qword_write_read(ms, prev as int, 0);
        law_qword_write_frame(m1, w2, prev, prev as int);
    }
    assert(chain(m, first, k) is None);
    let es = walk_prefix(ms, k);
    assert forall|j: nat| j < es.len() implies #[trigger] chain(m, list_head(m), j) == Some(es[j as int]) by {
        lemma_walk_reaches(ms, first, k, j);
        lemma_prefix_walk(ms, m, first, k, j);
    }
    assert(walk_ends(m, list_head(m)));
    assert(walks_in_order(m, es));
    // what the lookup reads of those entries is kept
    let names = read_names(ms, es);
    let bases = read_bases(ms, es);
    assert forall|j: int| 0 <= j < es.len() implies #[trigger] reads_as(m, es, names, bases, j) by {
        assert(reads_clear(ms, walk_entry(ms, j as nat), w1, w2));
        lemma_entry_unchanged(ms, w1, 0, w2, prev, es[j]);
    }
    lemma_lookup_from(m, es, names, bases, libname, 0);
}

} // verus!
