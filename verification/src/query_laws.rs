//! What the export lookup, the lookup by name and the base update give, stated
//! against what guest memory holds.
use vstd::prelude::*;
use crate::maps::{MapView, maps_wf, bytes_at, word_at, dword_at, qword_at, region_for, map_end, addr_space, lemma_region_for_holds};
use crate::ldr::{
    wadd, wmul, rd, rw, FlinkView, ordinal_spec, chain, list_head, find_module_from, mod_name_at, mod_base_at,
    update_base_spec, same_name_nocase, hit, lemma_first_hit_is, lemma_chain_stops,
};
use crate::text::{lowercase, has_suffix};

verus! {

/// A range that a region holds ends inside the address space.
proof fn lemma_readable_in_space(ms: Seq<MapView>, a: int, n: nat)
    requires
        maps_wf(ms),
        bytes_at(ms, a, n) is Some,
    ensures
        0 <= a,
        a + n <= addr_space(),
{
    lemma_region_for_holds(ms, a, n as int);
    let i = region_for(ms, a, n as int)->0;
    assert(map_end(ms[i]) <= addr_space());
}

/// Export `id` of the module a cursor is on: the ordinal is the 16-bit word
/// stored at `AddressOfNameOrdinals + 2 * id` (that table's RVA is the dword at
/// offset 0x24 of the export directory, taken from the module base), and the
/// function's RVA is the dword stored at `AddressOfFunctions + 4 * ordinal`
/// (that table's RVA is the dword at offset 0x1c); its address is that RVA
/// from the module base.
pub proof fn law_export_lookup(
    ms: Seq<MapView>,
    f: FlinkView,
    id: u64,
    depth: u32,
    ord_rva: u32,
    ordinal: u16,
    fat_rva: u32,
    func_rva: u32,
)
    requires
        maps_wf(ms),
        dword_at(ms, f.export_table + 0x24) == Some(ord_rva),
        word_at(ms, f.mod_base + ord_rva + 2 * id) == Some(ordinal),
        dword_at(ms, f.export_table + 0x1c) == Some(fat_rva),
        dword_at(ms, f.mod_base + fat_rva + 4 * ordinal) == Some(func_rva),
    ensures
        ordinal_spec(ms, f, id, depth).ordinal == ordinal,
        ordinal_spec(ms, f, id, depth).ordinal_tbl == f.mod_base + ord_rva,
        ordinal_spec(ms, f, id, depth).func_addr_tbl == f.mod_base + fat_rva,
        ordinal_spec(ms, f, id, depth).func_rva == func_rva,
        ordinal_spec(ms, f, id, depth).func_va as int == (f.mod_base + func_rva) % 0x1_0000_0000_0000_0000,
{
    lemma_readable_in_space(ms, f.export_table + 0x24, 4);
    lemma_readable_in_space(ms, f.mod_base + ord_rva + 2 * id, 2);
    lemma_readable_in_space(ms, f.export_table + 0x1c, 4);
    lemma_readable_in_space(ms, f.mod_base + fat_rva + 4 * ordinal, 4);
    reveal(rd);
    reveal(rw);
    assert(wadd(f.export_table, 0x24) == f.export_table + 0x24);
    assert(wadd(f.export_table, 0x1c) == f.export_table + 0x1c);
    let o = rd(ms, wadd(f.export_table, 0x24));
    assert(o == ord_rva);
    assert(wadd(o, f.mod_base) == f.mod_base + ord_rva);
    assert(wmul(2, id) == 2 * id);
    assert(wadd(wadd(o, f.mod_base), wmul(2, id)) == f.mod_base + ord_rva + 2 * id);
    let fr = rd(ms, wadd(f.export_table, 0x1c));
    assert(fr == fat_rva);
    assert(wadd(fr, f.mod_base) == f.mod_base + fat_rva);
    let w = rw(ms, wadd(wadd(o, f.mod_base), wmul(2, id)));
    assert(w == ordinal);
    assert(wmul(4, w) == 4 * ordinal);
    assert(wadd(wadd(fr, f.mod_base), wmul(4, w)) == f.mod_base + fat_rva + 4 * ordinal);
}

/// The entry `chain(ms, first, k)` is reached, so are the ones before it.
proof fn lemma_reached_before(ms: Seq<MapView>, first: u64, k: nat, j: nat)
    requires
        chain(ms, first, k) is Some,
        j <= k,
    ensures
        chain(ms, first, j) is Some,
{
    if chain(ms, first, j) is None {
        lemma_chain_stops(ms, first, j, k);
    }
}

/// `libname` up to case, with ".dll" added when it lacks that suffix.
pub open spec fn with_dll(libname: Seq<char>) -> Seq<char> {
    if has_suffix(lowercase(libname), ".dll"@) {
        lowercase(libname)
    } else {
        lowercase(libname) + ".dll"@
    }
}

/// The entry at `p` has the name `libname` up to case, or that name with ".dll" added.
pub open spec fn named_as(ms: Seq<MapView>, p: u64, libname: Seq<char>) -> bool {
    lowercase(mod_name_at(ms, p)) == lowercase(libname) || lowercase(mod_name_at(ms, p)) == with_dll(libname)
}

/// The search from walk position `i` on, when the `k`-th entry is named as
/// `libname`, answers the base of the first entry from `i` on that is.
proof fn lemma_found_from(ms: Seq<MapView>, libname: Seq<char>, i: nat, k: nat)
    requires
        i <= k <= 4096,
        chain(ms, list_head(ms), k) is Some,
        named_as(ms, chain(ms, list_head(ms), k)->0, libname),
    ensures
        exists|j: nat|
            #![trigger chain(ms, list_head(ms), j)]
            i <= j <= k && chain(ms, list_head(ms), j) is Some && named_as(ms, chain(ms, list_head(ms), j)->0, libname)
                && find_module_from(ms, list_head(ms), libname, i) == Some(
                mod_base_at(ms, chain(ms, list_head(ms), j)->0),
            ) && forall|t: nat|
                i <= t < j ==> !named_as(ms, #[trigger] chain(ms, list_head(ms), t)->0, libname),
    decreases k - i,
{
    let first = list_head(ms);
    lemma_reached_before(ms, first, k, i);
    let p = chain(ms, first, i)->0;
    if named_as(ms, p, libname) {
        assert(find_module_from(ms, first, libname, i) == Some(mod_base_at(ms, p)));
    } else {
        lemma_found_from(ms, libname, i + 1, k);
        let j = choose|j: nat|
            #![trigger chain(ms, list_head(ms), j)]
            i + 1 <= j <= k && chain(ms, list_head(ms), j) is Some && named_as(ms, chain(ms, list_head(ms), j)->0, libname)
                && find_module_from(ms, list_head(ms), libname, i + 1) == Some(
                mod_base_at(ms, chain(ms, list_head(ms), j)->0),
            ) && forall|t: nat|
                i + 1 <= t < j ==> !named_as(ms, #[trigger] chain(ms, list_head(ms), t)->0, libname);
        assert(find_module_from(ms, first, libname, i) == find_module_from(ms, first, libname, i + 1));
        assert forall|t: nat| i <= t < j implies !named_as(ms, #[trigger] chain(ms, list_head(ms), t)->0, libname) by {
            if t == i {
                assert(chain(ms, first, t)->0 == p);
            }
        }
    }
}

/// When an entry among the first 4097 of the walk has the name `libname` up to
/// case (or that name with ".dll" added), looking `libname` up answers the
/// `DllBase` of the first entry of the walk that has it, and no entry before
/// that one has it.
pub proof fn law_lookup_finds_name(ms: Seq<MapView>, libname: Seq<char>, k: nat)
    requires
        k <= 4096,
        chain(ms, list_head(ms), k) is Some,
        lowercase(mod_name_at(ms, chain(ms, list_head(ms), k)->0)) == lowercase(libname)
            || lowercase(mod_name_at(ms, chain(ms, list_head(ms), k)->0)) == with_dll(libname),
    ensures
        exists|j: nat|
            #![trigger chain(ms, list_head(ms), j)]
            j <= k && chain(ms, list_head(ms), j) is Some && named_as(ms, chain(ms, list_head(ms), j)->0, libname)
                && find_module_from(ms, list_head(ms), libname, 0) == Some(
                mod_base_at(ms, chain(ms, list_head(ms), j)->0),
            ) && forall|t: nat| t < j ==> !named_as(ms, #[trigger] chain(ms, list_head(ms), t)->0, libname),
{
    lemma_found_from(ms, libname, 0, k);
}

/// When the `k`-th entry of the walk is the first whose name is `name` up to
/// case, and its `DllBase` word lies in memory, updating the base of `name` to
/// `base` makes that word read back as `base`.
pub proof fn law_update_sets_base(ms: Seq<MapView>, name: Seq<char>, base: u64, k: nat)
    requires
        maps_wf(ms),
        chain(ms, list_head(ms), k) is Some,
        lowercase(mod_name_at(ms, chain(ms, list_head(ms), k)->0)) == lowercase(name),
        forall|j: nat|
            j < k ==> !(#[trigger] chain(ms, list_head(ms), j) matches Some(q) && lowercase(mod_name_at(ms, q))
                == lowercase(name)),
        region_for(ms, wadd(chain(ms, list_head(ms), k)->0, 0x30) as int, 8) is Some,
    ensures
        qword_at(update_base_spec(ms, name, base), wadd(chain(ms, list_head(ms), k)->0, 0x30) as int) == Some(base),
{
    let first = list_head(ms);
    let pred = same_name_nocase(ms, name);
    assert forall|j: nat| j < k implies !hit(ms, first, pred, j) by {
        assert(!(chain(ms, first, j) matches Some(q) && lowercase(mod_name_at(ms, q)) == lowercase(name)));
    }
    assert(hit(ms, first, pred, k));
    lemma_first_hit_is(ms, first, pred, k);
    crate::maps::law_qword_write_read(ms, wadd(chain(ms, first, k)->0, 0x30) as int, base);
}

} // verus!
