//! What a loader entry records of its module's name.
use vstd::prelude::*;
use crate::bytes::{le_bytes16, le_u16, lemma_le16_roundtrip};
use crate::maps::{
    MapView, maps_wf, holds, bytes_at, word_at, write_spec, region_for, wide_units, addr_space, splice,
    lemma_region_unique, lemma_write_shape, lemma_write_frame,
};
use crate::text::{utf16_of, utf16_units, units_le_bytes};
use crate::maps::{qword_at, wide_bytes, write_wide_spec, alloc_spec, fresh_map, lemma_alloc_fresh, Permission};
use crate::ldr::{
    create_entry_maps, entry_region_maps, ldr_entry_spec, ldr_region_name, base_name_addr, system32_dir,
    utf8_len, wmul, LDR_REGION_SIZE,
};
use crate::ldr_laws::{
    name_fits, lemma_write_stays, lemma_wide_write_stays, lemma_entry_region, lemma_entry_word,
    lemma_entry_bytes_fields,
};
use crate::structures::ldr_entry_bytes;

verus! {

/// The little-endian bytes of a unit sequence hold unit `i` at offset `2 * i`.
pub proof fn lemma_units_bytes(u: Seq<u16>)
    ensures
        units_le_bytes(u).len() == 2 * u.len(),
        forall|i: int| 0 <= i < u.len() ==> #[trigger] units_le_bytes(u).subrange(2 * i, 2 * i + 2) == le_bytes16(u[i]),
    decreases u.len(),
{
    if u.len() > 0 {
        let p = u.drop_last();
        lemma_units_bytes(p);
        let b = units_le_bytes(u);
        assert forall|i: int| 0 <= i < u.len() implies #[trigger] b.subrange(2 * i, 2 * i + 2) == le_bytes16(u[i]) by {
            if i < p.len() {
                assert(b.subrange(2 * i, 2 * i + 2) =~= units_le_bytes(p).subrange(2 * i, 2 * i + 2));
                assert(p[i] == u[i]);
            } else {
                assert(b.subrange(2 * i, 2 * i + 2) =~= le_bytes16(u[i]));
            }
        }
    }
}

/// A text without NUL characters has no zero UTF-16 unit.
pub proof fn lemma_units_nonzero(s: Seq<char>)
    requires
        forall|i: int| 0 <= i < s.len() ==> s[i] != '\0',
    ensures
        forall|i: int| 0 <= i < utf16_units(s).len() ==> #[trigger] utf16_units(s)[i] != 0,
    decreases s.len(),
{
    if s.len() > 0 {
        let p = s.drop_last();
        assert forall|i: int| 0 <= i < p.len() implies p[i] != '\0' by {
            assert(p[i] == s[i]);
        }
        lemma_units_nonzero(p);
        let c = s.last();
        assert(c != '\0');
        let u = utf16_units(s);
        let q = utf16_units(p);
        assert forall|i: int| 0 <= i < u.len() implies #[trigger] u[i] != 0 by {
            if i < q.len() {
                assert(u[i] == q[i]);
            } else {
                let v = c as u32;
                vstd::utf8::char_is_scalar(c);
                vstd::utf8::char_u32_cast(c, v);
                vstd::utf8::char_u32_cast('\0', '\0' as u32);
                assert(v != 0) by {
                    if v == 0 {
                        assert(('\0' as u32) == 0u32);
                        assert(c == '\0');
                    }
                }
                assert(u[i] == utf16_of(c)[i - q.len()]);
                if v >= 0x10000 {
                    let w = (v - 0x10000) as int;
                    assert(w < 0x100000);
                    assert(w / 0x400 < 0x400) by (nonlinear_arith)
                        requires
                            0 <= w < 0x100000,
                    ;
                    assert(0 <= w % 0x400 < 0x400) by (nonlinear_arith)
                        requires
                            0 <= w,
                    ;
                }
            }
        }
    }
}

/// Reading back a write that landed gives the written bytes at every offset.
pub proof fn lemma_written_bytes(m: Seq<MapView>, a: int, b: Seq<u8>, off: int, n: nat)
    requires
        maps_wf(m),
        b.len() >= 1,
        region_for(m, a, b.len() as int) is Some,
        0 <= off,
        off + n <= b.len(),
        n >= 1,
    ensures
        bytes_at(write_spec(m, a, b), a + off, n) == Some(b.subrange(off, off + n)),
{
    let k = region_for(m, a, b.len() as int)->0;
    crate::maps::lemma_region_for_holds(m, a, b.len() as int);
    lemma_write_shape(m, a, b);
    let w = write_spec(m, a, b);
    assert(w[k].data == splice(m[k].data, a - m[k].base, b)) by {
        reveal(write_spec);
    }
    assert(holds(w[k], a + off, n as int));
    lemma_region_unique(w, a + off, n as int, k);
    let d = a - m[k].base;
    assert(w[k].data.subrange(d + off, d + off + n) =~= b.subrange(off, off + n));
}

/// Units stored one per word from `a` on, none zero, followed by a zero word,
/// are read back by `wide_units`.
pub proof fn lemma_wide_units_read(ms: Seq<MapView>, a: int, u: Seq<u16>)
    requires
        0 <= a,
        a + 2 * u.len() + 2 <= addr_space(),
        forall|i: int| 0 <= i < u.len() ==> #[trigger] word_at(ms, a + 2 * i) == Some(u[i]) && u[i] != 0,
        word_at(ms, a + 2 * u.len()) == Some(0u16),
    ensures
        wide_units(ms, a) == u,
    decreases u.len(),
{
    if u.len() == 0 {
        assert(wide_units(ms, a) =~= u);
    } else {
        let t = u.drop_first();
        assert forall|i: int| 0 <= i < t.len() implies #[trigger] word_at(ms, (a + 2) + 2 * i) == Some(t[i]) && t[i] != 0 by {
            assert(word_at(ms, a + 2 * (i + 1)) == Some(u[i + 1]));
            assert(a + 2 * (i + 1) == (a + 2) + 2 * i);
        }
        assert(a + 2 * u.len() == (a + 2) + 2 * t.len());
        lemma_wide_units_read(ms, a + 2, t);
        assert(word_at(ms, a + 2 * 0) == Some(u[0]));
        assert(wide_units(ms, a) =~= seq![u[0]] + t);
    }
}

/// `lib` has no NUL character.
pub open spec fn no_nul(lib: Seq<char>) -> bool {
    forall|i: int| 0 <= i < lib.len() ==> lib[i] != '\0'
}

/// The base name of `lib`, with its terminating zero unit, fits in the entry
/// region after the full name.
pub open spec fn base_name_fits(lib: Seq<char>) -> bool {
    0x100 + 2 * utf8_len(system32_dir() + lib) + 10 + 2 * (utf16_units(lib).len() + 1) <= LDR_REGION_SIZE
}

/// The units stored for `lib + "\0"` are those of `lib` and a zero unit.
proof fn lemma_terminated_units(lib: Seq<char>)
    ensures
        utf16_units(lib + "\0"@) == utf16_units(lib).push(0u16),
{
    reveal_strlit("\0");
    let t = lib + "\0"@;
    assert(t.drop_last() =~= lib);
    assert(t.last() == '\0');
    assert(('\0' as u32) == 0u32);
    assert(utf16_of('\0') =~= seq![0u16]);
}

/// The words written for `lib + "\0"` at `a` read back as its units.
proof fn lemma_name_words(m: Seq<MapView>, a: int, lib: Seq<char>)
    requires
        maps_wf(m),
        region_for(m, a, wide_bytes(lib + "\0"@).len() as int) is Some,
    ensures
        ({
            let u = utf16_units(lib).push(0u16);
            let w = write_wide_spec(m, a, lib + "\0"@);
            forall|i: int| 0 <= i < u.len() ==> #[trigger] word_at(w, a + 2 * i) == Some(u[i])
        }),
{
    lemma_terminated_units(lib);
    let u = utf16_units(lib).push(0u16);
    let b = wide_bytes(lib + "\0"@);
    lemma_units_bytes(u);
    assert(b == units_le_bytes(u));
    assert(b.len() >= 2);
    let w = write_wide_spec(m, a, lib + "\0"@);
    assert(w == write_spec(m, a, b));
    assert forall|i: int| 0 <= i < u.len() implies #[trigger] word_at(w, a + 2 * i) == Some(u[i]) by {
        lemma_written_bytes(m, a, b, 2 * i, 2);
        assert(b.subrange(2 * i, 2 * i + 2) == le_bytes16(u[i]));
        lemma_le16_roundtrip(u[i]);
    }
}

/// The `BaseDllName` buffer pointer of the entry at `e` is `a`, and the units of
/// `lib` and a zero unit are stored from `a` on.
pub open spec fn name_words(m: Seq<MapView>, e: u64, a: int, lib: Seq<char>) -> bool {
    let u = utf16_units(lib);
    &&& qword_at(m, e + 0x60) == Some(a as u64)
    &&& forall|i: int| 0 <= i < u.len() ==> #[trigger] word_at(m, a + 2 * i) == Some(u[i])
    &&& word_at(m, a + 2 * u.len()) == Some(0u16)
}

/// Where the base name of an entry at `space` for `lib` is stored.
pub open spec fn base_name_at(space: u64, lib: Seq<char>) -> int {
    base_name_addr(space, utf8_len(system32_dir() + lib)) as int
}

/// A loader entry created for `lib` (a name without NUL characters whose base
/// name fits its region) points its `BaseDllName` buffer at the units of `lib`,
/// followed by a zero unit: the name that `Flink::get_mod_name` reads back.
pub proof fn law_create_entry_base_name(
    m: Seq<MapView>,
    base: u64,
    entry_point: u64,
    lib: Seq<char>,
    next_flink: u64,
    prev_flink: u64,
    seq: u32,
)
    requires
        maps_wf(m),
        alloc_spec(m, LDR_REGION_SIZE) is Some,
        name_fits(lib),
        no_nul(lib),
        base_name_fits(lib),
    ensures
        ({
            let space = alloc_spec(m, LDR_REGION_SIZE)->0;
            let r = create_entry_maps(m, space, base, entry_point, lib, next_flink, prev_flink, seq);
            let a = base_name_addr(space, utf8_len(system32_dir() + lib));
            &&& qword_at(r, space + 0x60) == Some(a)
            &&& wide_units(r, a as int) == utf16_units(lib)
            &&& name_words(r, space, a as int, lib)
            &&& space + 0x100 <= a
            &&& a + 2 * utf16_units(lib).len() + 2 <= space + LDR_REGION_SIZE
            &&& crate::ldr::mod_name_at(r, space) == lib
        }),
{
    reveal(create_entry_maps);
    let space = alloc_spec(m, LDR_REGION_SIZE)->0;
    let k = m.len() as int;
    let full = system32_dir() + lib;
    let name = ldr_region_name(m, lib, seq);
    let m0 = m.push(fresh_map(name, space, LDR_REGION_SIZE as nat, Permission::ReadWrite));
    lemma_alloc_fresh(m, name, LDR_REGION_SIZE, Permission::ReadWrite);
    assert(m0[k].data.len() == LDR_REGION_SIZE);
    let m1 = write_spec(m0, space + LDR_REGION_SIZE - 1, seq![0x61u8]);
    lemma_write_stays(m0, k, space + LDR_REGION_SIZE - 1, seq![0x61u8]);
    let m2 = write_wide_spec(m1, space + 0x100, full + "\0\0"@);
    lemma_wide_write_stays(m1, k, space + 0x100, full + "\0\0"@);
    let l = utf8_len(full);
    assert(wmul(l as u64, 2) == 2 * l);
    let bb = base_name_addr(space, l);
    assert(bb == space + 0x100 + 2 * l + 10);
    let u = utf16_units(lib);
    lemma_terminated_units(lib);
    lemma_units_bytes(u.push(0u16));
    let nb = wide_bytes(lib + "\0"@);
    assert(nb.len() == 2 * (u.len() + 1));
    assert(holds(m2[k], bb as int, nb.len() as int));
    lemma_region_unique(m2, bb as int, nb.len() as int, k);
    let m3 = write_wide_spec(m2, bb as int, lib + "\0"@);
    assert(m3 == entry_region_maps(m, space, lib, seq));
    lemma_name_words(m2, bb as int, lib);
    lemma_entry_region(m, lib, seq);
    let e = ldr_entry_spec(m, space, base, entry_point, lib, next_flink, prev_flink);
    let eb = ldr_entry_bytes(e);
    lemma_entry_bytes_fields(e);
    lemma_entry_word(m3, k, space, e, 0x60, e.base_dll_name.buffer);
    let r = write_spec(m3, space as int, eb);
    let up = u.push(0u16);
    assert forall|i: int| 0 <= i < up.len() implies #[trigger] word_at(r, bb + 2 * i) == Some(up[i]) by {
        assert(word_at(m3, bb + 2 * i) == Some(up[i]));
        lemma_write_frame(m3, space as int, eb, bb + 2 * i, 2);
    }
    lemma_units_nonzero(lib);
    assert forall|i: int| 0 <= i < u.len() implies #[trigger] word_at(r, bb + 2 * i) == Some(u[i]) && u[i] != 0 by {
        assert(up[i] == u[i]);
        assert(word_at(r, bb + 2 * i) == Some(up[i]));
    }
    assert(word_at(r, bb + 2 * u.len()) == Some(0u16)) by {
        assert(up[u.len() as int] == 0u16);
        assert(word_at(r, bb + 2 * (u.len() as int)) == Some(up[u.len() as int]));
    }
    lemma_wide_units_read(r, bb as int, u);
    assert(crate::ldr::wadd(space, 0x60) == space + 0x60);
    reveal(crate::ldr::rq);
    reveal(crate::ldr::wide_text);
    crate::text::lemma_utf16_round_trip(lib);
}

/// A loader entry created for `lib` (a name without NUL characters whose base
/// name fits its region) points its `FullDllName` buffer just past the entry, at
/// the units of "C:\\Windows\\System32\\" followed by `lib` and a zero unit: the
/// full path that a reader of that buffer gets back.
pub proof fn law_create_entry_full_name(
    m: Seq<MapView>,
    base: u64,
    entry_point: u64,
    lib: Seq<char>,
    next_flink: u64,
    prev_flink: u64,
    seq: u32,
)
    requires
        maps_wf(m),
        alloc_spec(m, LDR_REGION_SIZE) is Some,
        name_fits(lib),
        no_nul(lib),
        base_name_fits(lib),
    ensures
        ({
            let space = alloc_spec(m, LDR_REGION_SIZE)->0;
            let r = create_entry_maps(m, space, base, entry_point, lib, next_flink, prev_flink, seq);
            let a = (space + 0x100) as u64;
            &&& qword_at(r, space + 0x50) == Some(a)
            &&& wide_units(r, a as int) == utf16_units(system32_dir() + lib)
            &&& crate::ldr::wide_text(r, a) == system32_dir() + lib
        }),
{
    reveal(create_entry_maps);
    let space = alloc_spec(m, LDR_REGION_SIZE)->0;
    let k = m.len() as int;
    let full = system32_dir() + lib;
    let a = space + 0x100;
    let name = ldr_region_name(m, lib, seq);
    let m0 = m.push(fresh_map(name, space, LDR_REGION_SIZE as nat, Permission::ReadWrite));
    lemma_alloc_fresh(m, name, LDR_REGION_SIZE, Permission::ReadWrite);
    let m1 = write_spec(m0, space + LDR_REGION_SIZE - 1, seq![0x61u8]);
    lemma_write_stays(m0, k, space + LDR_REGION_SIZE - 1, seq![0x61u8]);
    // the full name and its two zero units
    reveal_strlit("C:\\Windows\\System32\\");
    reveal_strlit("\0\0");
    reveal_strlit("\0");
    let f0 = full + "\0"@;
    assert(full + "\0\0"@ =~= f0 + "\0"@);
    assert forall|i: int| 0 <= i < full.len() implies full[i] != '\0' by {
        if i >= system32_dir().len() {
            assert(full[i] == lib[i - system32_dir().len()]);
        }
    }
    let u = utf16_units(full);
    let l = utf8_len(full);
    crate::text::lemma_units_within_utf8(full);
    assert(u.len() <= l);
    lemma_terminated_units(full);
    lemma_terminated_units(f0);
    lemma_units_bytes(utf16_units(f0).push(0u16));
    assert(wide_bytes(f0 + "\0"@).len() == 2 * (u.len() + 2));
    assert(holds(m1[k], a, wide_bytes(f0 + "\0"@).len() as int));
    lemma_region_unique(m1, a, wide_bytes(f0 + "\0"@).len() as int, k);
    lemma_name_words(m1, a, f0);
    let m2 = write_wide_spec(m1, a, full + "\0\0"@);
    lemma_wide_write_stays(m1, k, a, full + "\0\0"@);
    let up = utf16_units(f0).push(0u16);
    assert forall|i: int| 0 <= i <= u.len() implies #[trigger] word_at(m2, a + 2 * i) == Some(if i < u.len() { u[i] } else { 0u16 }) by {
        assert(word_at(m2, a + 2 * i) == Some(up[i]));
    }
    // the base name lies after it
    assert(wmul(l as u64, 2) == 2 * l);
    let bb = base_name_addr(space, l);
    assert(bb == space + 0x100 + 2 * l + 10);
    let nb = wide_bytes(lib + "\0"@);
    let m3 = write_wide_spec(m2, bb as int, lib + "\0"@);
    assert(m3 == entry_region_maps(m, space, lib, seq));
    lemma_entry_region(m, lib, seq);
    assert(m3 == write_spec(m2, bb as int, nb));
    assert(maps_wf(m2));
    // the entry itself lies before it
    let e = ldr_entry_spec(m, space, base, entry_point, lib, next_flink, prev_flink);
    let eb = ldr_entry_bytes(e);
    lemma_entry_bytes_fields(e);
    lemma_entry_word(m3, k, space, e, 0x50, e.full_dll_name.buffer);
    let r = write_spec(m3, space as int, eb);
    lemma_terminated_units(lib);
    lemma_units_bytes(utf16_units(lib).push(0u16));
    assert forall|i: int| 0 <= i <= u.len() implies #[trigger] word_at(r, a + 2 * i) == Some(if i < u.len() { u[i] } else { 0u16 }) by {
        assert(word_at(m2, a + 2 * i) == Some(if i < u.len() { u[i] } else { 0u16 }));
        if nb.len() > 0 {
            lemma_write_frame(m2, bb as int, nb, a + 2 * i, 2);
        } else {
            crate::maps::law_write_missed(m2, bb as int, nb);
        }
        lemma_write_frame(m3, space as int, eb, a + 2 * i, 2);
    }
    lemma_units_nonzero(full);
    assert forall|i: int| 0 <= i < u.len() implies #[trigger] word_at(r, a + 2 * i) == Some(u[i]) && u[i] != 0 by {
        assert(word_at(r, a + 2 * i) == Some(if i < u.len() { u[i] } else { 0u16 }));
    }
    assert(word_at(r, a + 2 * u.len()) == Some(0u16)) by {
        assert(word_at(r, a + 2 * (u.len() as int)) == Some(if u.len() < u.len() { u[0] } else { 0u16 }));
    }
    lemma_wide_units_read(r, a, u);
    reveal(crate::ldr::wide_text);
    crate::text::lemma_utf16_round_trip(full);
}

} // verus!
