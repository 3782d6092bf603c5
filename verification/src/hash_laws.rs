//! The buckets of ntdll's loader hash table after `rebuild_ldr_hash_table`.
use vstd::prelude::*;
use crate::bytes::le_bytes64;
use crate::maps::{
    MapView, maps_wf, holds, qword_at, write_spec, region_for, map_named, addr_space, lemma_region_unique,
    lemma_region_for_holds, lemma_write_shape, law_qword_write_read, law_qword_write_frame,
};
use crate::ldr::wadd;
use crate::ldr_lists::{
    bucket_of, bucket_head, hash_table_at, clear_buckets, insert_hashes, insert_one, rebuild_hash_spec, ldr_hash,
    fold_upper,
};
use crate::text::{utf16_of, utf16_units, eq_ascii_nocase, ascii_fold};
use crate::ring_laws::{apart, lemma_bucket_small};

verus! {

/// The hash bucket of module `j`.
pub open spec fn bucket(mods: Seq<(Seq<char>, u64)>, j: int) -> int {
    bucket_of(mods[j].0) as int
}

/// The last module before `i` in bucket `b`.
pub open spec fn last_upto(mods: Seq<(Seq<char>, u64)>, b: int, i: int) -> Option<int>
    decreases i,
{
    if i <= 0 {
        None
    } else if bucket(mods, i - 1) == b {
        Some(i - 1)
    } else {
        last_upto(mods, b, i - 1)
    }
}

/// The first module before `i` in bucket `b`.
pub open spec fn first_upto(mods: Seq<(Seq<char>, u64)>, b: int, i: int) -> Option<int>
    decreases i,
{
    if i <= 0 {
        None
    } else {
        match first_upto(mods, b, i - 1) {
            Some(j) => Some(j),
            None => if bucket(mods, i - 1) == b {
                Some(i - 1)
            } else {
                None
            },
        }
    }
}

/// The first module after `k` and before `i` in the bucket of `k`.
pub open spec fn next_upto(mods: Seq<(Seq<char>, u64)>, k: int, i: int) -> Option<int>
    decreases i - k,
{
    if i <= k + 1 {
        None
    } else {
        match next_upto(mods, k, i - 1) {
            Some(j) => Some(j),
            None => if bucket(mods, i - 1) == bucket(mods, k) {
                Some(i - 1)
            } else {
                None
            },
        }
    }
}

/// The hash links of entry `j`.
pub open spec fn node(es: Seq<u64>, j: int) -> int {
    es[j] + 0x7f
}

/// The list head of bucket `c` of the table at `t`.
pub open spec fn head(t: int, c: int) -> int {
    t + 16 * c
}

/// A link to module `j`'s hash links, or to the head of bucket `c` when there is no `j`.
pub open spec fn link_to(es: Seq<u64>, t: int, c: int, j: Option<int>) -> u64 {
    match j {
        Some(x) => node(es, x) as u64,
        None => head(t, c) as u64,
    }
}

/// Bucket lists of the first `i` modules: each module's hash links point forward
/// at the next module of its bucket (or the head) and back at the previous one
/// (or the head); each head points at the first and last module of its bucket
/// (or at itself).
pub open spec fn buckets_linked(w: Seq<MapView>, t: int, es: Seq<u64>, mods: Seq<(Seq<char>, u64)>, i: int) -> bool {
    &&& forall|j: int|
        0 <= j < i ==> qword_at(w, #[trigger] node(es, j)) == Some(
            link_to(es, t, bucket(mods, j), next_upto(mods, j, i)),
        ) && qword_at(w, node(es, j) + 8) == Some(link_to(es, t, bucket(mods, j), last_upto(mods, bucket(mods, j), j)))
    &&& forall|c: int|
        0 <= c < 32 ==> qword_at(w, #[trigger] head(t, c)) == Some(link_to(es, t, c, first_upto(mods, c, i)))
            && qword_at(w, head(t, c) + 8) == Some(link_to(es, t, c, last_upto(mods, c, i)))
}

/// The table at `t` and the hash links of the first `n` entries are held by
/// regions and do not overlap each other.
pub open spec fn hash_layout(w: Seq<MapView>, t: int, es: Seq<u64>, n: int) -> bool {
    &&& maps_wf(w)
    &&& n <= es.len()
    &&& region_for(w, t, 0x200) is Some
    &&& forall|j: int| 0 <= j < n ==> region_for(w, #[trigger] node(es, j), 16) is Some
    &&& forall|j: int, k: int| 0 <= j < n && 0 <= k < n && j != k ==> apart(#[trigger] node(es, j), 16, #[trigger] node(es, k), node(es, k) + 16)
    &&& forall|j: int| 0 <= j < n ==> apart(#[trigger] node(es, j), 16, t, t + 0x200)
}

/// The last module of a bucket is in range, in the bucket, and has no successor.
proof fn lemma_last_props(mods: Seq<(Seq<char>, u64)>, b: int, i: int)
    ensures
        last_upto(mods, b, i) matches Some(j) ==> 0 <= j < i && bucket(mods, j) == b && next_upto(mods, j, i) is None,
    decreases i,
{
    if i > 0 {
        lemma_last_props(mods, b, i - 1);
        if bucket(mods, i - 1) != b {
            if last_upto(mods, b, i - 1) is Some {
                let j = last_upto(mods, b, i - 1)->0;
                assert(next_upto(mods, j, i - 1) is None);
                assert(i > j + 1);
                assert(next_upto(mods, j, i) is None);
            }
        }
    }
}

/// A module of the bucket with no successor is its last module.
proof fn lemma_no_next_is_last(mods: Seq<(Seq<char>, u64)>, j: int, i: int)
    requires
        0 <= j < i,
        next_upto(mods, j, i) is None,
    ensures
        last_upto(mods, bucket(mods, j), i) == Some(j),
    decreases i,
{
    if i > j + 1 {
        assert(next_upto(mods, j, i - 1) is None);
        assert(bucket(mods, i - 1) != bucket(mods, j));
        lemma_no_next_is_last(mods, j, i - 1);
    }
}

/// The first module of a bucket is in range.
proof fn lemma_first_range(mods: Seq<(Seq<char>, u64)>, b: int, i: int)
    ensures
        first_upto(mods, b, i) matches Some(j) ==> 0 <= j < i,
    decreases i,
{
    if i > 0 {
        lemma_first_range(mods, b, i - 1);
    }
}

/// A successor is in range.
proof fn lemma_next_range(mods: Seq<(Seq<char>, u64)>, k: int, i: int)
    ensures
        next_upto(mods, k, i) matches Some(j) ==> k < j < i,
    decreases i - k,
{
    if i > k + 1 {
        lemma_next_range(mods, k, i - 1);
    }
}

/// A range held by some region stays held after a write.
proof fn lemma_held_kept(w: Seq<MapView>, a: int, b: Seq<u8>, x: int, n: int)
    requires
        maps_wf(w),
        region_for(w, x, n) is Some,
    ensures
        region_for(write_spec(w, a, b), x, n) is Some,
{
    lemma_region_for_holds(w, x, n);
    let r = region_for(w, x, n)->0;
    lemma_write_shape(w, a, b);
    assert(holds(write_spec(w, a, b)[r], x, n));
}

/// Part of a held range is held.
proof fn lemma_held_part(w: Seq<MapView>, x: int, n: int, y: int, k: int)
    requires
        maps_wf(w),
        region_for(w, x, n) is Some,
        x <= y,
        y + k <= x + n,
        k >= 1,
    ensures
        region_for(w, y, k) is Some,
{
    lemma_region_for_holds(w, x, n);
    let r = region_for(w, x, n)->0;
    assert(holds(w[r], y, k));
    lemma_region_unique(w, y, k, r);
}

/// Writing keeps the layout of the table and the hash links.
proof fn lemma_layout_write(w: Seq<MapView>, t: int, es: Seq<u64>, n: int, a: int, v: u64)
    requires
        hash_layout(w, t, es, n),
    ensures
        hash_layout(write_spec(w, a, le_bytes64(v)), t, es, n),
{
    let b = le_bytes64(v);
    lemma_write_shape(w, a, b);
    lemma_held_kept(w, a, b, t, 0x200);
    assert forall|j: int| 0 <= j < n implies region_for(write_spec(w, a, b), #[trigger] node(es, j), 16) is Some by {
        lemma_held_kept(w, a, b, node(es, j), 16);
    }
}

/// A 64-bit write that lands is read back, and one beside a word keeps it.
pub proof fn lemma_word_after(w: Seq<MapView>, a: int, v: u64, x: int)
    requires
        maps_wf(w),
        x == a ==> region_for(w, a, 8) is Some,
        x != a ==> apart(a, 8, x, x + 8),
    ensures
        qword_at(write_spec(w, a, le_bytes64(v)), x) == if x == a {
            Some(v)
        } else {
            qword_at(w, x)
        },
{
    if x == a {
        law_qword_write_read(w, a, v);
    } else {
        law_qword_write_frame(w, a, v, x);
    }
}

/// The four writes that append module `i` (hash links at `node(es, i)`) to the
/// bucket with head `hd` and old tail `tl`.
pub open spec fn insert_writes(
    m: Seq<MapView>,
    w1: Seq<MapView>,
    w2: Seq<MapView>,
    w3: Seq<MapView>,
    w4: Seq<MapView>,
    es: Seq<u64>,
    i: int,
    hd: int,
    tl: u64,
) -> bool {
    &&& w1 == write_spec(m, node(es, i), le_bytes64(hd as u64))
    &&& w2 == write_spec(w1, node(es, i) + 8, le_bytes64(tl))
    &&& w3 == write_spec(w2, tl as int, le_bytes64(node(es, i) as u64))
    &&& w4 == write_spec(w3, hd + 8, le_bytes64(node(es, i) as u64))
}

/// What an insertion step may rely on.
pub open spec fn insert_ctx(
    m: Seq<MapView>,
    t: int,
    es: Seq<u64>,
    mods: Seq<(Seq<char>, u64)>,
    n: int,
    i: int,
    b: int,
    hd: int,
    tl: u64,
) -> bool {
    &&& hash_layout(m, t, es, n)
    &&& buckets_linked(m, t, es, mods, i)
    &&& 0 <= i < n
    &&& n <= mods.len()
    &&& 0 <= t
    &&& t + 0x200 <= addr_space()
    &&& b == bucket(mods, i)
    &&& 0 <= b < 32
    &&& hd == head(t, b)
    &&& tl == link_to(es, t, b, last_upto(mods, b, i))
}

proof fn lemma_node_word_held(w: Seq<MapView>, t: int, es: Seq<u64>, n: int, j: int)
    requires
        hash_layout(w, t, es, n),
        0 <= j < n,
    ensures
        region_for(w, node(es, j), 8) is Some,
        region_for(w, node(es, j) + 8, 8) is Some,
{
    assert(region_for(w, node(es, j), 16) is Some);
    lemma_held_part(w, node(es, j), 16, node(es, j), 8);
    lemma_held_part(w, node(es, j), 16, node(es, j) + 8, 8);
}

proof fn lemma_head_word_held(w: Seq<MapView>, t: int, es: Seq<u64>, n: int, c: int)
    requires
        hash_layout(w, t, es, n),
        0 <= c < 32,
    ensures
        region_for(w, head(t, c), 8) is Some,
        region_for(w, head(t, c) + 8, 8) is Some,
{
    lemma_held_part(w, t, 0x200, head(t, c), 8);
    lemma_held_part(w, t, 0x200, head(t, c) + 8, 8);
}

/// After appending module `i`, its own hash links point at the head (forward)
/// and at the old tail (back).
proof fn lemma_insert_new_node(
    m: Seq<MapView>,
    w1: Seq<MapView>,
    w2: Seq<MapView>,
    w3: Seq<MapView>,
    w4: Seq<MapView>,
    t: int,
    es: Seq<u64>,
    mods: Seq<(Seq<char>, u64)>,
    n: int,
    i: int,
    b: int,
    hd: int,
    tl: u64,
)
    requires
        insert_ctx(m, t, es, mods, n, i, b, hd, tl),
        insert_writes(m, w1, w2, w3, w4, es, i, hd, tl),
    ensures
        qword_at(w4, node(es, i)) == Some(hd as u64),
        qword_at(w4, node(es, i) + 8) == Some(tl),
{
    let x = node(es, i);
    lemma_last_props(mods, b, i);
    lemma_layout_write(m, t, es, n, x, hd as u64);
    lemma_layout_write(w1, t, es, n, x + 8, tl);
    lemma_layout_write(w2, t, es, n, tl as int, x as u64);
    lemma_node_word_held(m, t, es, n, i);
    lemma_node_word_held(w1, t, es, n, i);
    assert(apart(x, 16, t, t + 0x200));
    let a3 = tl as int;
    if last_upto(mods, b, i) is Some {
        let jl = last_upto(mods, b, i)->0;
        assert(apart(node(es, jl), 16, x, x + 16));
    }
    lemma_word_after(m, x, hd as u64, x);
    lemma_word_after(w1, x + 8, tl, x);
    lemma_word_after(w2, a3, x as u64, x);
    lemma_word_after(w3, hd + 8, x as u64, x);
    lemma_word_after(w1, x + 8, tl, x + 8);
    lemma_word_after(w2, a3, x as u64, x + 8);
    lemma_word_after(w3, hd + 8, x as u64, x + 8);
}

/// A bucket has a first module exactly when it has a last one.
proof fn lemma_first_iff_last(mods: Seq<(Seq<char>, u64)>, b: int, i: int)
    ensures
        (first_upto(mods, b, i) is None) == (last_upto(mods, b, i) is None),
    decreases i,
{
    if i > 0 {
        lemma_first_iff_last(mods, b, i - 1);
    }
}

/// The four writes of an insertion, seen from one bucket head.
proof fn lemma_writes_at_head(
    m: Seq<MapView>,
    w1: Seq<MapView>,
    w2: Seq<MapView>,
    w3: Seq<MapView>,
    w4: Seq<MapView>,
    es: Seq<u64>,
    i: int,
    hd: int,
    tl: u64,
    t: int,
    b: int,
    c: int,
)
    requires
        insert_writes(m, w1, w2, w3, w4, es, i, hd, tl),
        maps_wf(m),
        maps_wf(w1),
        maps_wf(w2),
        maps_wf(w3),
        region_for(w2, head(t, c), 8) is Some,
        region_for(w3, head(t, c) + 8, 8) is Some,
        apart(node(es, i), 16, t, t + 0x200),
        0 <= c < 32,
        0 <= b < 32,
        hd == head(t, b),
        tl == hd || apart(tl as int, 8, t, t + 0x200),
    ensures
        qword_at(w4, head(t, c)) == if tl == head(t, c) {
            Some(node(es, i) as u64)
        } else {
            qword_at(m, head(t, c))
        },
        qword_at(w4, head(t, c) + 8) == if c == b {
            Some(node(es, i) as u64)
        } else {
            qword_at(m, head(t, c) + 8)
        },
{
    let x = node(es, i);
    let h = head(t, c);
    let a3 = tl as int;
    lemma_word_after(m, x, hd as u64, h);
    lemma_word_after(w1, x + 8, tl, h);
    lemma_word_after(w2, a3, x as u64, h);
    lemma_word_after(w3, hd + 8, x as u64, h);
    lemma_word_after(m, x, hd as u64, h + 8);
    lemma_word_after(w1, x + 8, tl, h + 8);
    lemma_word_after(w2, a3, x as u64, h + 8);
    lemma_word_after(w3, hd + 8, x as u64, h + 8);
}

/// The four writes of an insertion, seen from the hash links of an earlier module.
proof fn lemma_writes_at_node(
    m: Seq<MapView>,
    w1: Seq<MapView>,
    w2: Seq<MapView>,
    w3: Seq<MapView>,
    w4: Seq<MapView>,
    es: Seq<u64>,
    i: int,
    hd: int,
    tl: u64,
    t: int,
    y: int,
)
    requires
        insert_writes(m, w1, w2, w3, w4, es, i, hd, tl),
        maps_wf(m),
        maps_wf(w1),
        maps_wf(w2),
        maps_wf(w3),
        region_for(w2, y, 8) is Some,
        apart(y, 16, node(es, i), node(es, i) + 16),
        apart(y, 16, t, t + 0x200),
        t <= hd,
        hd + 16 <= t + 0x200,
        tl == hd || tl == y || apart(tl as int, 8, y, y + 16),
    ensures
        qword_at(w4, y) == if tl == y {
            Some(node(es, i) as u64)
        } else {
            qword_at(m, y)
        },
        qword_at(w4, y + 8) == qword_at(m, y + 8),
{
    let x = node(es, i);
    let a3 = tl as int;
    lemma_word_after(m, x, hd as u64, y);
    lemma_word_after(w1, x + 8, tl, y);
    lemma_word_after(w2, a3, x as u64, y);
    lemma_word_after(w3, hd + 8, x as u64, y);
    lemma_word_after(m, x, hd as u64, y + 8);
    lemma_word_after(w1, x + 8, tl, y + 8);
    lemma_word_after(w2, a3, x as u64, y + 8);
    lemma_word_after(w3, hd + 8, x as u64, y + 8);
}

/// After appending module `i`, bucket head `c` points at the bucket's first and last module.
#[verifier::spinoff_prover]
#[verifier::rlimit(40)]
proof fn lemma_head_case(
    m: Seq<MapView>,
    w1: Seq<MapView>,
    w2: Seq<MapView>,
    w3: Seq<MapView>,
    w4: Seq<MapView>,
    t: int,
    es: Seq<u64>,
    mods: Seq<(Seq<char>, u64)>,
    n: int,
    i: int,
    b: int,
    hd: int,
    tl: u64,
    c: int,
)
    requires
        insert_ctx(m, t, es, mods, n, i, b, hd, tl),
        insert_writes(m, w1, w2, w3, w4, es, i, hd, tl),
        hash_layout(w1, t, es, n),
        hash_layout(w2, t, es, n),
        hash_layout(w3, t, es, n),
        0 <= c < 32,
    ensures
        qword_at(w4, head(t, c)) == Some(link_to(es, t, c, first_upto(mods, c, i + 1))),
        qword_at(w4, head(t, c) + 8) == Some(link_to(es, t, c, last_upto(mods, c, i + 1))),
{
    lemma_last_props(mods, b, i);
    lemma_first_iff_last(mods, b, i);
    assert(apart(node(es, i), 16, t, t + 0x200));
    if last_upto(mods, b, i) is Some {
        let jl = last_upto(mods, b, i)->0;
        assert(apart(node(es, jl), 16, t, t + 0x200));
    }
    lemma_head_word_held(w2, t, es, n, c);
    lemma_head_word_held(w3, t, es, n, c);
    lemma_writes_at_head(m, w1, w2, w3, w4, es, i, hd, tl, t, b, c);
    assert(buckets_linked(m, t, es, mods, i));
    assert(qword_at(m, head(t, c)) == Some(link_to(es, t, c, first_upto(mods, c, i))));
    assert(qword_at(m, head(t, c) + 8) == Some(link_to(es, t, c, last_upto(mods, c, i))));
}

/// After appending module `i`, the hash links of an earlier module `j` point at
/// its neighbours in its bucket.
#[verifier::spinoff_prover]
#[verifier::rlimit(40)]
proof fn lemma_node_case(
    m: Seq<MapView>,
    w1: Seq<MapView>,
    w2: Seq<MapView>,
    w3: Seq<MapView>,
    w4: Seq<MapView>,
    t: int,
    es: Seq<u64>,
    mods: Seq<(Seq<char>, u64)>,
    n: int,
    i: int,
    b: int,
    hd: int,
    tl: u64,
    j: int,
)
    requires
        insert_ctx(m, t, es, mods, n, i, b, hd, tl),
        insert_writes(m, w1, w2, w3, w4, es, i, hd, tl),
        hash_layout(w1, t, es, n),
        hash_layout(w2, t, es, n),
        hash_layout(w3, t, es, n),
        0 <= j < i,
    ensures
        qword_at(w4, node(es, j)) == Some(link_to(es, t, bucket(mods, j), next_upto(mods, j, i + 1))),
        qword_at(w4, node(es, j) + 8) == Some(link_to(es, t, bucket(mods, j), last_upto(mods, bucket(mods, j), j))),
{
    let y = node(es, j);
    lemma_last_props(mods, b, i);
    assert(apart(y, 16, node(es, i), node(es, i) + 16));
    assert(apart(y, 16, t, t + 0x200));
    if last_upto(mods, b, i) is Some {
        let jl = last_upto(mods, b, i)->0;
        if jl != j {
            assert(apart(node(es, jl), 16, y, y + 16));
        }
    }
    if next_upto(mods, j, i) is None && bucket(mods, i) == bucket(mods, j) {
        lemma_no_next_is_last(mods, j, i);
    }
    lemma_node_word_held(w2, t, es, n, j);
    lemma_writes_at_node(m, w1, w2, w3, w4, es, i, hd, tl, t, y);
    assert(buckets_linked(m, t, es, mods, i));
    assert(qword_at(m, node(es, j)) == Some(link_to(es, t, bucket(mods, j), next_upto(mods, j, i))));
    assert(qword_at(m, node(es, j) + 8) == Some(link_to(es, t, bucket(mods, j), last_upto(mods, bucket(mods, j), j))));
}

/// Appending module `i` to its bucket keeps every bucket a linked list in module order.
proof fn lemma_insert_step_lists(
    m: Seq<MapView>,
    w1: Seq<MapView>,
    w2: Seq<MapView>,
    w3: Seq<MapView>,
    w4: Seq<MapView>,
    t: int,
    es: Seq<u64>,
    mods: Seq<(Seq<char>, u64)>,
    n: int,
    i: int,
    b: int,
    hd: int,
    tl: u64,
)
    requires
        insert_ctx(m, t, es, mods, n, i, b, hd, tl),
        insert_writes(m, w1, w2, w3, w4, es, i, hd, tl),
    ensures
        hash_layout(w4, t, es, n),
        buckets_linked(w4, t, es, mods, i + 1),
{
    let x = node(es, i);
    lemma_layout_write(m, t, es, n, x, hd as u64);
    lemma_layout_write(w1, t, es, n, x + 8, tl);
    lemma_layout_write(w2, t, es, n, tl as int, x as u64);
    lemma_layout_write(w3, t, es, n, hd + 8, x as u64);
    lemma_insert_new_node(m, w1, w2, w3, w4, t, es, mods, n, i, b, hd, tl);
    assert forall|c: int| 0 <= c < 32 implies qword_at(w4, #[trigger] head(t, c)) == Some(
        link_to(es, t, c, first_upto(mods, c, i + 1)),
    ) && qword_at(w4, head(t, c) + 8) == Some(link_to(es, t, c, last_upto(mods, c, i + 1))) by {
        lemma_head_case(m, w1, w2, w3, w4, t, es, mods, n, i, b, hd, tl, c);
    }
    assert forall|j: int| 0 <= j < i + 1 implies qword_at(w4, #[trigger] node(es, j)) == Some(
        link_to(es, t, bucket(mods, j), next_upto(mods, j, i + 1)),
    ) && qword_at(w4, node(es, j) + 8) == Some(
        link_to(es, t, bucket(mods, j), last_upto(mods, bucket(mods, j), j)),
    ) by {
        if j < i {
            lemma_node_case(m, w1, w2, w3, w4, t, es, mods, n, i, b, hd, tl, j);
        } else {
            assert(j == i);
        }
    }
}

/// The first `i` bucket heads point at themselves.
pub open spec fn heads_empty(w: Seq<MapView>, t: int, i: int) -> bool {
    forall|c: int|
        0 <= c < i ==> qword_at(w, #[trigger] head(t, c)) == Some(head(t, c) as u64) && qword_at(w, head(t, c) + 8)
            == Some(head(t, c) as u64)
}

/// Emptying the first `i` buckets keeps the layout and leaves their heads pointing at themselves.
proof fn lemma_clear_lists(ms: Seq<MapView>, t: u64, es: Seq<u64>, n: int, i: nat)
    requires
        hash_layout(ms, t as int, es, n),
        t + 0x200 <= addr_space(),
        i <= 32,
    ensures
        hash_layout(clear_buckets(ms, t, i), t as int, es, n),
        heads_empty(clear_buckets(ms, t, i), t as int, i as int),
    decreases i,
{
    if i > 0 {
        let k = (i - 1) as nat;
        lemma_clear_lists(ms, t, es, n, k);
        let m = clear_buckets(ms, t, k);
        let ti = t as int;
        let hb = bucket_head(t, k as u64);
        assert((k as u64) * 0x10 == 16 * k);
        assert(hb == head(ti, k as int));
        assert(wadd(hb, 8) == head(ti, k as int) + 8);
        let w1 = write_spec(m, hb as int, le_bytes64(hb));
        let w2 = write_spec(w1, wadd(hb, 8) as int, le_bytes64(hb));
        assert(w2 == clear_buckets(ms, t, i));
        lemma_layout_write(m, ti, es, n, hb as int, hb);
        lemma_layout_write(w1, ti, es, n, hb + 8, hb);
        lemma_head_word_held(m, ti, es, n, k as int);
        lemma_head_word_held(w1, ti, es, n, k as int);
        assert forall|c: int| 0 <= c < i implies qword_at(w2, #[trigger] head(ti, c)) == Some(head(ti, c) as u64)
            && qword_at(w2, head(ti, c) + 8) == Some(head(ti, c) as u64) by {
            let h = head(ti, c);
            lemma_word_after(m, hb as int, hb, h);
            lemma_word_after(w1, hb + 8, hb, h);
            lemma_word_after(m, hb as int, hb, h + 8);
            lemma_word_after(w1, hb + 8, hb, h + 8);
        }
    }
}

/// Appending the first `i` modules makes every bucket the list of its modules in order.
proof fn lemma_insert_lists(c0: Seq<MapView>, t: u64, es: Seq<u64>, mods: Seq<(Seq<char>, u64)>, n: int, i: nat)
    requires
        hash_layout(c0, t as int, es, n),
        buckets_linked(c0, t as int, es, mods, 0),
        t + 0x200 <= addr_space(),
        i <= n,
        n <= mods.len(),
    ensures
        hash_layout(insert_hashes(c0, t, mods, es, i), t as int, es, n),
        buckets_linked(insert_hashes(c0, t, mods, es, i), t as int, es, mods, i as int),
    decreases i,
{
    if i > 0 {
        let k = (i - 1) as int;
        lemma_insert_lists(c0, t, es, mods, n, (i - 1) as nat);
        let m = insert_hashes(c0, t, mods, es, (i - 1) as nat);
        let ti = t as int;
        let b = bucket(mods, k);
        lemma_bucket_small(mods[k].0);
        let hb = bucket_head(t, bucket_of(mods[k].0));
        assert(bucket_of(mods[k].0) * 0x10 == 16 * b);
        assert(hb == head(ti, b));
        assert(wadd(hb, 8) == head(ti, b) + 8);
        assert(region_for(m, node(es, k), 16) is Some);
        lemma_region_for_holds(m, node(es, k), 16);
        assert(node(es, k) + 16 <= addr_space());
        let hl = wadd(es[k], crate::structures::LDR_HASH_LINKS_OFFSET64);
        assert(hl == node(es, k));
        assert(wadd(hl, 8) == node(es, k) + 8);
        let tl = match qword_at(m, wadd(hb, 8) as int) {
            Some(v) => v,
            None => hb,
        };
        assert(qword_at(m, head(ti, b) + 8) == Some(link_to(es, ti, b, last_upto(mods, b, k))));
        assert(tl == link_to(es, ti, b, last_upto(mods, b, k)));
        let w1 = write_spec(m, hl as int, le_bytes64(hb));
        let w2 = write_spec(w1, wadd(hl, 8) as int, le_bytes64(tl));
        let w3 = write_spec(w2, tl as int, le_bytes64(hl));
        let w4 = write_spec(w3, wadd(hb, 8) as int, le_bytes64(hl));
        assert(w4 == insert_one(m, t, mods, es, k));
        assert(insert_hashes(c0, t, mods, es, i) == w4);
        lemma_insert_step_lists(m, w1, w2, w3, w4, ti, es, mods, n, k, b, hb as int, tl);
    }
}

/// The address of ntdll's `LdrpHashTable`, for the first region named "ntdll.pe".
pub open spec fn ntdll_table(ms: Seq<MapView>) -> int {
    hash_table_at(ms[map_named(ms, "ntdll.pe"@)->0].base) as int
}

/// The number of modules `rebuild_ldr_hash_table` appends.
pub open spec fn hashed_count(mods: Seq<(Seq<char>, u64)>, es: Seq<u64>) -> int {
    if mods.len() < es.len() {
        mods.len() as int
    } else {
        es.len() as int
    }
}

proof fn lemma_hash_unfold(ms: Seq<MapView>, mods: Seq<(Seq<char>, u64)>, es: Seq<u64>)
    requires
        map_named(ms, "ntdll.pe"@) is Some,
    ensures
        ({
            let t = hash_table_at(ms[map_named(ms, "ntdll.pe"@)->0].base);
            rebuild_hash_spec(ms, mods, es) == insert_hashes(
                clear_buckets(ms, t, 32),
                t,
                mods,
                es,
                hashed_count(mods, es) as nat,
            )
        }),
{
}

proof fn lemma_empty_lists(c0: Seq<MapView>, t: int, es: Seq<u64>, mods: Seq<(Seq<char>, u64)>)
    requires
        heads_empty(c0, t, 32),
    ensures
        buckets_linked(c0, t, es, mods, 0),
{
    assert forall|c: int| 0 <= c < 32 implies qword_at(c0, #[trigger] head(t, c)) == Some(
        link_to(es, t, c, first_upto(mods, c, 0)),
    ) && qword_at(c0, head(t, c) + 8) == Some(link_to(es, t, c, last_upto(mods, c, 0))) by {
        assert(qword_at(c0, head(t, c)) == Some(head(t, c) as u64));
    }
}

/// After `rebuild_ldr_hash_table`, each of ntdll's 32 hash buckets is a doubly
/// linked list, through the entries' hash links, of the modules that hash to it,
/// in module order: each module links forward to the next module of its bucket
/// (the last one to the bucket head) and back to the previous one (the first one
/// to the head), and each head links to the first and last module of its bucket
/// (to itself when it has none). This holds when the table and the hash links
/// lie in memory and do not overlap.
pub proof fn law_hash_buckets(ms: Seq<MapView>, mods: Seq<(Seq<char>, u64)>, es: Seq<u64>)
    requires
        maps_wf(ms),
        map_named(ms, "ntdll.pe"@) is Some,
        hash_layout(ms, ntdll_table(ms), es, hashed_count(mods, es)),
    ensures
        buckets_linked(rebuild_hash_spec(ms, mods, es), ntdll_table(ms), es, mods, hashed_count(mods, es)),
{
    let t = hash_table_at(ms[map_named(ms, "ntdll.pe"@)->0].base);
    let ti = t as int;
    let n = hashed_count(mods, es);
    lemma_region_for_holds(ms, ti, 0x200);
    assert(ti + 0x200 <= addr_space());
    lemma_clear_lists(ms, t, es, n, 32);
    let c0 = clear_buckets(ms, t, 32);
    lemma_empty_lists(c0, ti, es, mods);
    assert(n <= mods.len());
    lemma_insert_lists(c0, t, es, mods, n, n as nat);
    lemma_hash_unfold(ms, mods, es);
}

/// Hashes that agree stay in agreement when the same units follow.
proof fn lemma_hash_extend(u1: Seq<u16>, u2: Seq<u16>, w: Seq<u16>)
    requires
        ldr_hash(u1) == ldr_hash(u2),
    ensures
        ldr_hash(u1 + w) == ldr_hash(u2 + w),
    decreases w.len(),
{
    if w.len() > 0 {
        let p = w.drop_last();
        lemma_hash_extend(u1, u2, p);
        assert((u1 + w).drop_last() =~= u1 + p);
        assert((u2 + w).drop_last() =~= u2 + p);
        assert((u1 + w).last() == w.last());
        assert((u2 + w).last() == w.last());
    }
}

/// The UTF-16 units of text equal up to ASCII case hash alike.
proof fn lemma_hash_ascii_case(s: Seq<char>, t: Seq<char>)
    requires
        eq_ascii_nocase(s, t),
    ensures
        ldr_hash(utf16_units(s)) == ldr_hash(utf16_units(t)),
    decreases s.len(),
{
    if s.len() > 0 {
        let s1 = s.drop_last();
        let t1 = t.drop_last();
        assert(eq_ascii_nocase(s1, t1)) by {
            assert forall|i: int| 0 <= i < s1.len() implies ascii_fold(s1[i]) == ascii_fold(t1[i]) by {
                assert(ascii_fold(s[i]) == ascii_fold(t[i]));
            }
        }
        lemma_hash_ascii_case(s1, t1);
        let a = s.last();
        let b = t.last();
        assert(ascii_fold(a) == ascii_fold(b)) by {
            assert(ascii_fold(s[s.len() - 1]) == ascii_fold(t[t.len() - 1]));
        }
        let u1 = utf16_units(s1);
        let u2 = utf16_units(t1);
        if a == b {
            lemma_hash_extend(u1, u2, utf16_of(a));
        } else {
            let va = a as u32;
            let vb = b as u32;
            vstd::utf8::char_u32_cast(a, va);
            vstd::utf8::char_u32_cast(b, vb);
            assert(va != vb);
            assert(utf16_of(a) =~= seq![va as u16]);
            assert(utf16_of(b) =~= seq![vb as u16]);
            let x = va as u16;
            let y = vb as u16;
            assert(fold_upper(x) == fold_upper(y));
            let ua = u1 + utf16_of(a);
            let ub = u2 + utf16_of(b);
            assert(ua.drop_last() =~= u1);
            assert(ub.drop_last() =~= u2);
            assert(ua.last() == x);
            assert(ub.last() == y);
        }
    }
}

/// Module names that are equal up to ASCII case land in the same hash bucket.
pub proof fn law_bucket_ignores_ascii_case(s: Seq<char>, t: Seq<char>)
    requires
        eq_ascii_nocase(s, t),
    ensures
        bucket_of(s) == bucket_of(t),
{
    lemma_hash_ascii_case(s, t);
}

} // verus!
