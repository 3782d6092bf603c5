//! Guest memory of the emulator: a set of named, pairwise disjoint regions,
//! each holding its bytes. Multi-byte values are little endian; an access
//! succeeds only when one region holds every byte it touches.
use vstd::prelude::*;
use crate::text::{utf16_units, units_le_bytes, utf16_lossy, utf8_lossy, encode_utf16, units_to_le_bytes, string_from_utf16_lossy, string_from_utf8_lossy, str_eq};
use crate::bytes::{le_bytes16, le_bytes32, le_bytes64, le_u16, le_u32, le_u64, encode_u16, encode_u32, encode_u64, decode_u16, decode_u32, decode_u64};

verus! {

/// Size of the guest address space.
pub open spec fn addr_space() -> int {
    0x1_0000_0000_0000_0000
}

/// The lowest address that `Maps::alloc` hands out.
pub const ALLOC_BASE: u64 = 0x1000_0000;

/// Access rights recorded on a region.
#[derive(Clone, Copy, Debug, PartialEq, Eq, Structural)]
pub enum Permission {
    Read,
    ReadWrite,
    ReadWriteExecute,
}

/// Why a region could not be created.
#[derive(Clone, Copy, Debug, PartialEq, Eq, Structural)]
pub enum MapError {
    /// The requested size is zero or does not fit the host.
    BadSize,
    /// The region would run past the end of the address space.
    OutOfRange,
    /// The region would overlap an existing one.
    Overlap,
}

/// What a region is, as a mathematical value.
pub struct MapView {
    pub name: Seq<char>,
    pub base: u64,
    pub data: Seq<u8>,
    pub perm: Permission,
}

/// One region of guest memory.
pub struct Mem64 {
    pub name: String,
    pub base: u64,
    pub mem: Vec<u8>,
    pub permission: Permission,
}

impl View for Mem64 {
    type V = MapView;

    open spec fn view(&self) -> MapView {
        MapView { name: self.name@, base: self.base, data: self.mem@, perm: self.permission }
    }
}

/// One past the last address of `m`.
pub open spec fn map_end(m: MapView) -> int {
    m.base + m.data.len()
}

/// `m` holds every byte of `[a, a + n)`.
pub open spec fn holds(m: MapView, a: int, n: int) -> bool {
    m.base <= a && a + n <= map_end(m)
}

/// Regions are non-empty, end inside the address space and do not overlap.
pub open spec fn maps_wf(ms: Seq<MapView>) -> bool {
    &&& forall|i: int|
        0 <= i < ms.len() ==> #[trigger] ms[i].data.len() > 0 && map_end(ms[i]) <= addr_space()
    &&& forall|i: int, j: int|
        0 <= i < ms.len() && 0 <= j < ms.len() && i != j ==> map_end(#[trigger] ms[i]) <= #[trigger] ms[j].base
            || map_end(ms[j]) <= ms[i].base
}

/// The region that holds all of `[a, a + n)`, if any.
pub open spec fn region_for(ms: Seq<MapView>, a: int, n: int) -> Option<int> {
    if exists|i: int| 0 <= i < ms.len() && holds(#[trigger] ms[i], a, n) {
        Some(choose|i: int| 0 <= i < ms.len() && holds(#[trigger] ms[i], a, n))
    } else {
        None
    }
}

/// The `n` bytes at `a`, when one region holds them all.
pub open spec fn bytes_at(ms: Seq<MapView>, a: int, n: nat) -> Option<Seq<u8>> {
    match region_for(ms, a, n as int) {
        Some(i) => Some(ms[i].data.subrange(a - ms[i].base, a - ms[i].base + n)),
        None => None,
    }
}

/// The byte at `a`, when a region holds it.
pub open spec fn byte_at(ms: Seq<MapView>, a: int) -> Option<u8> {
    match bytes_at(ms, a, 1) {
        Some(b) => Some(b[0]),
        None => None,
    }
}

/// The little-endian 16-bit value at `a`, when one region holds both bytes.
pub open spec fn word_at(ms: Seq<MapView>, a: int) -> Option<u16> {
    match bytes_at(ms, a, 2) {
        Some(b) => Some(le_u16(b)),
        None => None,
    }
}

/// The little-endian 32-bit value at `a`, when one region holds all four bytes.
pub open spec fn dword_at(ms: Seq<MapView>, a: int) -> Option<u32> {
    match bytes_at(ms, a, 4) {
        Some(b) => Some(le_u32(b)),
        None => None,
    }
}

/// The little-endian 64-bit value at `a`, when one region holds all eight bytes.
pub open spec fn qword_at(ms: Seq<MapView>, a: int) -> Option<u64> {
    match bytes_at(ms, a, 8) {
        Some(b) => Some(le_u64(b)),
        None => None,
    }
}

/// `d` with `b` written over it from offset `off`.
pub open spec fn splice(d: Seq<u8>, off: int, b: Seq<u8>) -> Seq<u8> {
    d.take(off) + b + d.skip(off + b.len())
}

/// Memory after writing `b` at `a`: unchanged when no region holds the whole range.
#[verifier::opaque]
pub open spec fn write_spec(ms: Seq<MapView>, a: int, b: Seq<u8>) -> Seq<MapView> {
    match region_for(ms, a, b.len() as int) {
        Some(i) => ms.update(
            i,
            MapView {
                name: ms[i].name,
                base: ms[i].base,
                data: splice(ms[i].data, a - ms[i].base, b),
                perm: ms[i].perm,
            },
        ),
        None => ms,
    }
}

/// The highest end of any region, and at least `ALLOC_BASE`.
pub open spec fn top_of(ms: Seq<MapView>) -> int
    decreases ms.len(),
{
    if ms.len() == 0 {
        ALLOC_BASE as int
    } else {
        let t = top_of(ms.drop_last());
        if map_end(ms.last()) > t {
            map_end(ms.last())
        } else {
            t
        }
    }
}

/// Where `alloc` places `size` bytes: just above every region.
pub open spec fn alloc_spec(ms: Seq<MapView>, size: u64) -> Option<u64> {
    if size > 0 && top_of(ms) + size <= addr_space() {
        Some(top_of(ms) as u64)
    } else {
        None
    }
}

/// The first region named `name`.
pub open spec fn map_named(ms: Seq<MapView>, name: Seq<char>) -> Option<int> {
    if exists|i: int| 0 <= i < ms.len() && #[trigger] ms[i].name == name {
        Some(
            choose|i: int|
                0 <= i < ms.len() && #[trigger] ms[i].name == name && forall|j: int|
                    0 <= j < i ==> ms[j].name != name,
        )
    } else {
        None
    }
}

/// A fresh zero-filled region.
pub open spec fn fresh_map(name: Seq<char>, base: u64, size: nat, perm: Permission) -> MapView {
    MapView { name, base, data: Seq::new(size, |k: int| 0u8), perm }
}

/// The region `region_for` picks holds the range.
pub proof fn lemma_region_for_holds(ms: Seq<MapView>, a: int, n: int)
    ensures
        region_for(ms, a, n) matches Some(i) ==> 0 <= i < ms.len() && holds(ms[i], a, n),
{
}

/// The region `map_named` picks has that name.
pub proof fn lemma_map_named_props(ms: Seq<MapView>, name: Seq<char>)
    ensures
        map_named(ms, name) matches Some(i) ==> 0 <= i < ms.len() && ms[i].name == name && forall|j: int|
            0 <= j < i ==> ms[j].name != name,
{
    if exists|i: int| 0 <= i < ms.len() && #[trigger] ms[i].name == name {
        let i0 = choose|i: int| 0 <= i < ms.len() && #[trigger] ms[i].name == name;
        lemma_first_named(ms, name, i0);
    }
}

proof fn lemma_first_named(ms: Seq<MapView>, name: Seq<char>, i0: int)
    requires
        0 <= i0 < ms.len(),
        ms[i0].name == name,
    ensures
        exists|i: int|
            0 <= i < ms.len() && #[trigger] ms[i].name == name && forall|j: int|
                0 <= j < i ==> ms[j].name != name,
    decreases i0,
{
    if exists|j: int| 0 <= j < i0 && ms[j].name == name {
        let j = choose|j: int| 0 <= j < i0 && ms[j].name == name;
        lemma_first_named(ms, name, j);
    } else {
        assert(forall|j: int| 0 <= j < i0 ==> ms[j].name != name);
    }
}

/// With regions well formed, at most one region holds a non-empty range.
pub proof fn lemma_region_unique(ms: Seq<MapView>, a: int, n: int, i: int)
    requires
        maps_wf(ms),
        n >= 1,
        0 <= i < ms.len(),
        holds(ms[i], a, n),
    ensures
        region_for(ms, a, n) == Some(i),
{
    let w = choose|j: int| 0 <= j < ms.len() && holds(#[trigger] ms[j], a, n);
    assert(holds(ms[i], a, n));
    if w != i {
        assert(map_end(ms[w]) <= ms[i].base || map_end(ms[i]) <= ms[w].base);
    }
}

/// The minimal witness of `map_named` is the one it picks.
pub proof fn lemma_map_named(ms: Seq<MapView>, name: Seq<char>, i: int)
    requires
        0 <= i < ms.len(),
        ms[i].name == name,
        forall|j: int| 0 <= j < i ==> ms[j].name != name,
    ensures
        map_named(ms, name) == Some(i),
{
    let w = choose|k: int|
        0 <= k < ms.len() && #[trigger] ms[k].name == name && forall|j: int|
            0 <= j < k ==> ms[j].name != name;
    assert(0 <= i < ms.len() && ms[i].name == name && forall|j: int| 0 <= j < i ==> ms[j].name != name);
    if w < i {
        assert(ms[w].name != name);
    } else if w > i {
        assert(ms[i].name != name);
    }
}

/// Writing keeps every region's name, base, size and rights, so the layout stays well formed.
pub proof fn lemma_write_shape(ms: Seq<MapView>, a: int, b: Seq<u8>)
    requires
        maps_wf(ms),
    ensures
        write_spec(ms, a, b).len() == ms.len(),
        forall|k: int|
            0 <= k < ms.len() ==> (#[trigger] write_spec(ms, a, b)[k]).base == ms[k].base
                && write_spec(ms, a, b)[k].data.len() == ms[k].data.len() && write_spec(
                ms,
                a,
                b,
            )[k].name == ms[k].name && write_spec(ms, a, b)[k].perm == ms[k].perm,
        maps_wf(write_spec(ms, a, b)),
{
    reveal(write_spec);
    let ws = write_spec(ms, a, b);
    match region_for(ms, a, b.len() as int) {
        Some(i) => {
            let off = a - ms[i].base;
            assert(0 <= off && off + b.len() <= ms[i].data.len());
            assert(splice(ms[i].data, off, b).len() == ms[i].data.len());
            assert forall|k: int| 0 <= k < ms.len() implies (#[trigger] ws[k]).base == ms[k].base
                && ws[k].data.len() == ms[k].data.len() && ws[k].name == ms[k].name
                && ws[k].perm == ms[k].perm by {
                if k == i {
                } else {
                }
            }
            assert forall|k: int| 0 <= k < ws.len() implies #[trigger] ws[k].data.len() > 0
                && map_end(ws[k]) <= addr_space() by {
                assert(ms[k].data.len() > 0);
            }
            assert forall|k: int, j: int|
                0 <= k < ws.len() && 0 <= j < ws.len() && k != j implies map_end(
                #[trigger] ws[k],
            ) <= #[trigger] ws[j].base || map_end(ws[j]) <= ws[k].base by {
                assert(map_end(ms[k]) <= ms[j].base || map_end(ms[j]) <= ms[k].base);
            }
        },
        None => {},
    }
}

/// A write of `b` at `a` that succeeds can be read back.
pub proof fn lemma_write_read_same(ms: Seq<MapView>, a: int, b: Seq<u8>)
    requires
        maps_wf(ms),
        b.len() >= 1,
        region_for(ms, a, b.len() as int) is Some,
    ensures
        bytes_at(write_spec(ms, a, b), a, b.len()) == Some(b),
{
    reveal(write_spec);
    let i = region_for(ms, a, b.len() as int)->0;
    lemma_write_shape(ms, a, b);
    let ws = write_spec(ms, a, b);
    assert(holds(ws[i], a, b.len() as int));
    lemma_region_unique(ws, a, b.len() as int, i);
    let off = a - ms[i].base;
    assert(ws[i].data.subrange(off, off + b.len()) =~= b);
}

/// A write leaves alone every range that does not meet it.
pub proof fn lemma_write_frame(ms: Seq<MapView>, a: int, b: Seq<u8>, c: int, n: nat)
    requires
        maps_wf(ms),
        b.len() >= 1,
        n >= 1,
        c + n <= a || a + b.len() <= c,
    ensures
        bytes_at(write_spec(ms, a, b), c, n) == bytes_at(ms, c, n),
{
    reveal(write_spec);
    lemma_write_shape(ms, a, b);
    let ws = write_spec(ms, a, b);
    match region_for(ms, c, n as int) {
        Some(j) => {
            assert(holds(ms[j], c, n as int));
            assert(holds(ws[j], c, n as int));
            lemma_region_unique(ms, c, n as int, j);
            lemma_region_unique(ws, c, n as int, j);
            match region_for(ms, a, b.len() as int) {
                Some(i) => {
                    if i == j {
                        let off = a - ms[i].base;
                        let s = ws[j].data.subrange(c - ms[j].base, c - ms[j].base + n);
                        let t = ms[j].data.subrange(c - ms[j].base, c - ms[j].base + n);
                        assert(s =~= t);
                    }
                },
                None => {},
            }
        },
        None => {
            if region_for(ws, c, n as int) is Some {
                let j = region_for(ws, c, n as int)->0;
                assert(holds(ws[j], c, n as int));
                assert(holds(ms[j], c, n as int));
            }
        },
    }
}

/// Appending a region that meets none of the others keeps every successful read.
pub proof fn lemma_push_frame(ms: Seq<MapView>, m: MapView, c: int, n: nat)
    requires
        maps_wf(ms.push(m)),
        n >= 1,
        bytes_at(ms, c, n) is Some,
    ensures
        bytes_at(ms.push(m), c, n) == bytes_at(ms, c, n),
{
    let j = region_for(ms, c, n as int)->0;
    assert(holds(ms[j], c, n as int));
    assert(ms.push(m)[j] == ms[j]);
    lemma_region_unique(ms.push(m), c, n as int, j);
}


/// The non-zero 16-bit units stored from `a` on, up to the first zero unit or the first unreadable word.
pub open spec fn wide_units(ms: Seq<MapView>, a: int) -> Seq<u16>
    decreases addr_space() - a,
{
    if 0 <= a && a + 2 <= addr_space() && word_at(ms, a) is Some && word_at(ms, a)->0 != 0 {
        seq![word_at(ms, a)->0] + wide_units(ms, a + 2)
    } else {
        Seq::empty()
    }
}

/// The non-zero bytes stored from `a` on, up to the first zero byte or the first unreadable byte.
pub open spec fn c_bytes(ms: Seq<MapView>, a: int) -> Seq<u8>
    decreases addr_space() - a,
{
    if 0 <= a && a + 1 <= addr_space() && byte_at(ms, a) is Some && byte_at(ms, a)->0 != 0 {
        seq![byte_at(ms, a)->0] + c_bytes(ms, a + 1)
    } else {
        Seq::empty()
    }
}

/// The bytes that `write_wide_string` stores for `s`: its UTF-16 units, little endian.
pub open spec fn wide_bytes(s: Seq<char>) -> Seq<u8> {
    units_le_bytes(utf16_units(s))
}

/// Memory after `write_wide_string(a, s)`.
pub open spec fn write_wide_spec(ms: Seq<MapView>, a: int, s: Seq<char>) -> Seq<MapView> {
    if wide_bytes(s).len() == 0 {
        ms
    } else {
        write_spec(ms, a, wide_bytes(s))
    }
}

/// `[base, base + size)` meets some region.
pub open spec fn overlaps_any(ms: Seq<MapView>, base: int, size: int) -> bool {
    exists|i: int|
        0 <= i < ms.len() && !(map_end(#[trigger] ms[i]) <= base || base + size <= ms[i].base)
}

/// No region ends above `top_of`.
pub proof fn lemma_top_of(ms: Seq<MapView>)
    ensures
        top_of(ms) >= ALLOC_BASE,
        forall|i: int| 0 <= i < ms.len() ==> map_end(#[trigger] ms[i]) <= top_of(ms),
    decreases ms.len(),
{
    if ms.len() > 0 {
        lemma_top_of(ms.drop_last());
        assert forall|i: int| 0 <= i < ms.len() implies map_end(#[trigger] ms[i]) <= top_of(ms) by {
            if i < ms.len() - 1 {
                assert(ms.drop_last()[i] == ms[i]);
            }
        }
    }
}

/// A region placed by `alloc_spec` keeps the layout well formed.
pub proof fn lemma_alloc_fresh(ms: Seq<MapView>, name: Seq<char>, size: u64, perm: Permission)
    requires
        maps_wf(ms),
        alloc_spec(ms, size) is Some,
    ensures
        maps_wf(ms.push(fresh_map(name, alloc_spec(ms, size)->0, size as nat, perm))),
        !overlaps_any(ms, alloc_spec(ms, size)->0 as int, size as int),
{
    lemma_top_of(ms);
    let a = alloc_spec(ms, size)->0;
    let m = fresh_map(name, a, size as nat, perm);
    let ns = ms.push(m);
    assert forall|i: int| 0 <= i < ns.len() implies #[trigger] ns[i].data.len() > 0 && map_end(ns[i])
        <= addr_space() by {
        if i < ms.len() {
            assert(ns[i] == ms[i]);
        }
    }
    assert forall|i: int, j: int|
        0 <= i < ns.len() && 0 <= j < ns.len() && i != j implies map_end(#[trigger] ns[i])
        <= #[trigger] ns[j].base || map_end(ns[j]) <= ns[i].base by {
        if i < ms.len() && j < ms.len() {
            assert(ns[i] == ms[i] && ns[j] == ms[j]);
        } else if i < ms.len() {
            assert(ns[i] == ms[i]);
        } else {
            assert(ns[j] == ms[j]);
        }
    }
}

/// A region that meets no other keeps the layout well formed.
pub proof fn lemma_push_wf(ms: Seq<MapView>, m: MapView)
    requires
        maps_wf(ms),
        m.data.len() > 0,
        map_end(m) <= addr_space(),
        !overlaps_any(ms, m.base as int, m.data.len() as int),
    ensures
        maps_wf(ms.push(m)),
{
    let ns = ms.push(m);
    assert forall|i: int| 0 <= i < ns.len() implies #[trigger] ns[i].data.len() > 0 && map_end(ns[i])
        <= addr_space() by {
        if i < ms.len() {
            assert(ns[i] == ms[i]);
        }
    }
    assert forall|i: int, j: int|
        0 <= i < ns.len() && 0 <= j < ns.len() && i != j implies map_end(#[trigger] ns[i])
        <= #[trigger] ns[j].base || map_end(ns[j]) <= ns[i].base by {
        if i < ms.len() && j < ms.len() {
            assert(ns[i] == ms[i] && ns[j] == ms[j]);
        } else if i < ms.len() {
            assert(ns[i] == ms[i]);
            assert(!(!(map_end(ms[i]) <= m.base || m.base + m.data.len() <= ms[i].base)));
        } else {
            assert(ns[j] == ms[j]);
            assert(!(!(map_end(ms[j]) <= m.base || m.base + m.data.len() <= ms[j].base)));
        }
    }
}

impl Mem64 {
    /// Lowest address of the region.
    pub fn get_base(&self) -> (r: u64)
        ensures
            r == self@.base,
    {
        self.base
    }

    /// Number of bytes of the region.
    pub fn size(&self) -> (r: usize)
        ensures
            r == self@.data.len(),
    {
        self.mem.len()
    }

    /// Name of the region.
    pub fn get_name(&self) -> (r: &str)
        ensures
            r@ == self@.name,
    {
        self.name.as_str()
    }

    /// The little-endian 64-bit value at `addr`, which the region must hold.
    pub fn read_qword(&self, addr: u64) -> (r: u64)
        requires
            holds(self@, addr as int, 8),
        ensures
            r == le_u64(self@.data.subrange(addr - self@.base, addr - self@.base + 8)),
    {
        let off = (addr - self.base) as usize;
        let mut b: Vec<u8> = Vec::new();
        let mut k: usize = 0;
        let mlen = self.mem.len();
        while k < 8
            invariant
                k <= 8,
                mlen == self.mem@.len(),
                off + 8 <= mlen,
                b@ =~= self.mem@.subrange(off as int, off + k),
            decreases 8 - k,
        {
            b.push(self.mem[off + k]);
            k = k + 1;
        }
        decode_u64(b.as_slice())
    }
}


/// A 64-bit write that lands can be read back.
pub proof fn law_qword_write_read(ms: Seq<MapView>, a: int, v: u64)
    requires
        maps_wf(ms),
        region_for(ms, a, 8) is Some,
    ensures
        qword_at(write_spec(ms, a, le_bytes64(v)), a) == Some(v),
{
    crate::bytes::lemma_le64_roundtrip(v);
    lemma_write_read_same(ms, a, le_bytes64(v));
}

/// A 32-bit write that lands can be read back.
pub proof fn law_dword_write_read(ms: Seq<MapView>, a: int, v: u32)
    requires
        maps_wf(ms),
        region_for(ms, a, 4) is Some,
    ensures
        dword_at(write_spec(ms, a, le_bytes32(v)), a) == Some(v),
{
    crate::bytes::lemma_le32_roundtrip(v);
    lemma_write_read_same(ms, a, le_bytes32(v));
}

/// A 16-bit write that lands can be read back.
pub proof fn law_word_write_read(ms: Seq<MapView>, a: int, v: u16)
    requires
        maps_wf(ms),
        region_for(ms, a, 2) is Some,
    ensures
        word_at(write_spec(ms, a, le_bytes16(v)), a) == Some(v),
{
    crate::bytes::lemma_le16_roundtrip(v);
    lemma_write_read_same(ms, a, le_bytes16(v));
}

/// A byte write that lands can be read back.
pub proof fn law_byte_write_read(ms: Seq<MapView>, a: int, v: u8)
    requires
        maps_wf(ms),
        region_for(ms, a, 1) is Some,
    ensures
        byte_at(write_spec(ms, a, seq![v]), a) == Some(v),
{
    lemma_write_read_same(ms, a, seq![v]);
}

/// A 64-bit write changes no 64-bit value stored at a range it does not meet.
pub proof fn law_qword_write_frame(ms: Seq<MapView>, a: int, v: u64, c: int)
    requires
        maps_wf(ms),
        c + 8 <= a || a + 8 <= c,
    ensures
        qword_at(write_spec(ms, a, le_bytes64(v)), c) == qword_at(ms, c),
{
    crate::bytes::lemma_le64_roundtrip(v);
    lemma_write_frame(ms, a, le_bytes64(v), c, 8);
}

/// A write that no region can hold changes nothing.
pub proof fn law_write_missed(ms: Seq<MapView>, a: int, b: Seq<u8>)
    requires
        region_for(ms, a, b.len() as int) is None,
    ensures
        write_spec(ms, a, b) == ms,
{
    reveal(write_spec);
}

/// Adding a region keeps every value that could be read before.
pub proof fn law_new_region_keeps_reads(ms: Seq<MapView>, m: MapView, c: int, n: nat)
    requires
        maps_wf(ms.push(m)),
        n >= 1,
        bytes_at(ms, c, n) is Some,
    ensures
        bytes_at(ms.push(m), c, n) == bytes_at(ms, c, n),
{
    lemma_push_frame(ms, m, c, n);
}

/// What `alloc_addr` answers is free: a region placed there meets no other.
pub proof fn law_alloc_is_free(ms: Seq<MapView>, name: Seq<char>, size: u64, perm: Permission)
    requires
        maps_wf(ms),
        alloc_spec(ms, size) is Some,
    ensures
        !overlaps_any(ms, alloc_spec(ms, size)->0 as int, size as int),
        maps_wf(ms.push(fresh_map(name, alloc_spec(ms, size)->0, size as nat, perm))),
{
    lemma_alloc_fresh(ms, name, size, perm);
}

/// The exec view of memory.
pub struct Maps {
    maps: Vec<Mem64>,
}

impl View for Maps {
    type V = Seq<MapView>;

    closed spec fn view(&self) -> Seq<MapView> {
        self.maps@.map_values(|m: Mem64| m@)
    }
}

impl Maps {
    /// The regions are well formed.
    pub open spec fn wf(&self) -> bool {
        maps_wf(self@)
    }

    /// Memory with no region.
    pub fn new() -> (r: Maps)
        ensures
            r@ == Seq::<MapView>::empty(),
            r.wf(),
    {
        let r = Maps { maps: Vec::new() };
        assert(r@ =~= Seq::<MapView>::empty());
        r
    }

    /// Number of regions.
    pub fn len(&self) -> (r: usize)
        ensures
            r == self@.len(),
    {
        self.maps.len()
    }

    /// The region at index `i`.
    pub fn get(&self, i: usize) -> (r: &Mem64)
        requires
            i < self@.len(),
        ensures
            r@ == self@[i as int],
    {
        &self.maps[i]
    }

    /// Index of the region holding all of `[addr, addr + n)`.
    pub fn find(&self, addr: u64, n: u64) -> (r: Option<usize>)
        requires
            self.wf(),
            n >= 1,
        ensures
            match r {
                Some(i) => region_for(self@, addr as int, n as int) == Some(i as int),
                None => region_for(self@, addr as int, n as int) is None,
            },
    {
        let mut i: usize = 0;
        while i < self.maps.len()
            invariant
                self.wf(),
                n >= 1,
                i <= self.maps@.len(),
                self.maps@.len() == self@.len(),
                forall|k: int| 0 <= k < self@.len() ==> #[trigger] self@[k] == self.maps@[k]@,
                forall|k: int| 0 <= k < i ==> !holds(#[trigger] self@[k], addr as int, n as int),
            decreases self.maps@.len() - i,
        {
            let m = &self.maps[i];
            let len = m.mem.len() as u64;
            if m.base <= addr && addr - m.base <= len && n <= len - (addr - m.base) {
                proof {
                    assert(self@[i as int] == m@);
                    assert(holds(self@[i as int], addr as int, n as int));
                    lemma_region_unique(self@, addr as int, n as int, i as int);
                }
                return Some(i);
            }
            assert(!holds(self@[i as int], addr as int, n as int));
            i = i + 1;
        }
        None
    }

    /// The `n` bytes at `addr`, when one region holds them all.
    pub fn read_bytes(&self, addr: u64, n: u64) -> (r: Option<Vec<u8>>)
        requires
            self.wf(),
            n >= 1,
        ensures
            match r {
                Some(v) => bytes_at(self@, addr as int, n as nat) == Some(v@),
                None => bytes_at(self@, addr as int, n as nat) is None,
            },
    {
        match self.find(addr, n) {
            None => None,
            Some(i) => {
                proof {
                    lemma_region_for_holds(self@, addr as int, n as int);
                }
                let m = &self.maps[i];
                assert(self@[i as int] == m@);
                assert(holds(m@, addr as int, n as int));
                let mlen = m.mem.len();
                let off = (addr - m.base) as usize;
                assert(off + n <= mlen);
                let mut out: Vec<u8> = Vec::new();
                let mut k: usize = 0;
                while k < n as usize
                    invariant
                        k <= n,
                        m.mem@.len() == mlen,
                        off + n <= m.mem@.len(),
                        out@ =~= m.mem@.subrange(off as int, off + k),
                    decreases n - k,
                {
                    out.push(m.mem[off + k]);
                    k = k + 1;
                }
                Some(out)
            },
        }
    }

    /// The byte at `addr`.
    pub fn read_byte(&self, addr: u64) -> (r: Option<u8>)
        requires
            self.wf(),
        ensures
            r == byte_at(self@, addr as int),
    {
        match self.read_bytes(addr, 1) {
            Some(v) => Some(v[0]),
            None => None,
        }
    }

    /// The little-endian 16-bit value at `addr`.
    pub fn read_word(&self, addr: u64) -> (r: Option<u16>)
        requires
            self.wf(),
        ensures
            r == word_at(self@, addr as int),
    {
        match self.read_bytes(addr, 2) {
            Some(v) => Some(decode_u16(v.as_slice())),
            None => None,
        }
    }

    /// The little-endian 32-bit value at `addr`.
    pub fn read_dword(&self, addr: u64) -> (r: Option<u32>)
        requires
            self.wf(),
        ensures
            r == dword_at(self@, addr as int),
    {
        match self.read_bytes(addr, 4) {
            Some(v) => Some(decode_u32(v.as_slice())),
            None => None,
        }
    }

    /// The little-endian 64-bit value at `addr`.
    pub fn read_qword(&self, addr: u64) -> (r: Option<u64>)
        requires
            self.wf(),
        ensures
            r == qword_at(self@, addr as int),
    {
        match self.read_bytes(addr, 8) {
            Some(v) => Some(decode_u64(v.as_slice())),
            None => None,
        }
    }

    /// Writes `b` at `addr`; does nothing and answers `false` when no region holds the whole range.
    pub fn write_bytes(&mut self, addr: u64, b: &[u8]) -> (r: bool)
        requires
            old(self).wf(),
            b@.len() >= 1,
        ensures
            final(self)@ == write_spec(old(self)@, addr as int, b@),
            r == (region_for(old(self)@, addr as int, b@.len() as int) is Some),
            final(self).wf(),
    {
        proof {
            reveal(write_spec);
            lemma_write_shape(self@, addr as int, b@);
        }
        let n = b.len() as u64;
        match self.find(addr, n) {
            None => false,
            Some(i) => {
                let ghost old_maps = self.maps@;
                let ghost ms = self@;
                proof {
                    lemma_region_for_holds(ms, addr as int, n as int);
                }
                assert(ms[i as int] == old_maps[i as int]@);
                assert(holds(old_maps[i as int]@, addr as int, n as int));
                let mlen = self.maps[i].mem.len();
                let off = (addr - self.maps[i].base) as usize;
                assert(off + n <= mlen);
                let mut region = self.maps.remove(i);
                let ghost d0 = region.mem@;
                let mut k: usize = 0;
                while k < b.len()
                    invariant
                        k <= b@.len(),
                        i < old_maps.len(),
                        d0.len() == mlen,
                        off + b@.len() <= d0.len(),
                        region.mem@.len() == d0.len(),
                        region.name == old_maps[i as int].name,
                        region.base == old_maps[i as int].base,
                        region.permission == old_maps[i as int].permission,
                        region.mem@ =~= d0.take(off as int) + b@.take(k as int) + d0.skip(off + k),
                    decreases b@.len() - k,
                {
                    region.mem.set(off + k, b[k]);
                    k = k + 1;
                }
                assert(b@.take(b@.len() as int) =~= b@);
                self.maps.insert(i, region);
                proof {
                    assert(self.maps@ =~= old_maps.update(i as int, region));
                    let ws = write_spec(ms, addr as int, b@);
                    assert(self@ =~= ws) by {
                        reveal(write_spec);
                        assert forall|k: int| 0 <= k < ws.len() implies self@[k] == ws[k] by {
                            assert(self@[k] == self.maps@[k]@);
                            assert(ms[k] == old_maps[k]@);
                            if k == i {
                                assert(region.mem@ =~= splice(d0, off as int, b@));
                                assert(region.name == old_maps[k].name);
                                assert(ms[k].base == region.base);
                                assert(addr - ms[k].base == off);
                                assert(ws[k].data == region.mem@);
                                assert(ws[k].name == region.name@);
                                assert(ws[k] == region@);
                            } else {
                                assert(self.maps@[k] == old_maps[k]);
                            }
                        }
                    }
                }
                true
            },
        }
    }

    /// Writes one byte at `addr`.
    pub fn write_byte(&mut self, addr: u64, v: u8) -> (r: bool)
        requires
            old(self).wf(),
        ensures
            final(self)@ == write_spec(old(self)@, addr as int, seq![v]),
            r == (region_for(old(self)@, addr as int, 1) is Some),
            final(self).wf(),
    {
        let b = vec![v];
        assert(b@ =~= seq![v]);
        self.write_bytes(addr, b.as_slice())
    }

    /// Writes `v` as two little-endian bytes at `addr`.
    pub fn write_word(&mut self, addr: u64, v: u16) -> (r: bool)
        requires
            old(self).wf(),
        ensures
            final(self)@ == write_spec(old(self)@, addr as int, le_bytes16(v)),
            r == (region_for(old(self)@, addr as int, 2) is Some),
            final(self).wf(),
    {
        let b = encode_u16(v);
        self.write_bytes(addr, b.as_slice())
    }

    /// Writes `v` as four little-endian bytes at `addr`.
    pub fn write_dword(&mut self, addr: u64, v: u32) -> (r: bool)
        requires
            old(self).wf(),
        ensures
            final(self)@ == write_spec(old(self)@, addr as int, le_bytes32(v)),
            r == (region_for(old(self)@, addr as int, 4) is Some),
            final(self).wf(),
    {
        let b = encode_u32(v);
        self.write_bytes(addr, b.as_slice())
    }

    /// Writes `v` as eight little-endian bytes at `addr`.
    pub fn write_qword(&mut self, addr: u64, v: u64) -> (r: bool)
        requires
            old(self).wf(),
        ensures
            final(self)@ == write_spec(old(self)@, addr as int, le_bytes64(v)),
            r == (region_for(old(self)@, addr as int, 8) is Some),
            final(self).wf(),
    {
        let b = encode_u64(v);
        self.write_bytes(addr, b.as_slice())
    }

    /// Creates a zero-filled region `[base, base + size)` named `name`.
    pub fn create_map(&mut self, name: &str, base: u64, size: u64, perm: Permission) -> (r: Result<(), MapError>)
        requires
            old(self).wf(),
        ensures
            final(self).wf(),
            match r {
                Ok(()) => final(self)@ == old(self)@.push(fresh_map(name@, base, size as nat, perm)),
                Err(e) => final(self)@ == old(self)@ && match e {
                    MapError::BadSize => size == 0 || size > usize::MAX,
                    MapError::OutOfRange => 0 < size <= usize::MAX && base + size > addr_space(),
                    MapError::Overlap => 0 < size <= usize::MAX && base + size <= addr_space()
                        && overlaps_any(old(self)@, base as int, size as int),
                },
            },
            r is Ok <==> (0 < size <= usize::MAX && base + size <= addr_space() && !overlaps_any(
                old(self)@,
                base as int,
                size as int,
            )),
    {
        if size == 0 || size > usize::MAX as u64 {
            return Err(MapError::BadSize);
        }
        if size - 1 > u64::MAX - base {
            return Err(MapError::OutOfRange);
        }
        let mut i: usize = 0;
        while i < self.maps.len()
            invariant
                i <= self.maps@.len(),
                self.maps@.len() == self@.len(),
                forall|k: int| 0 <= k < self@.len() ==> #[trigger] self@[k] == self.maps@[k]@,
                forall|k: int|
                    0 <= k < i ==> map_end(#[trigger] self@[k]) <= base || base + size <= self@[k].base,
                0 < size <= usize::MAX,
                base + size <= addr_space(),
                self.wf(),
            decreases self.maps@.len() - i,
        {
            let m = &self.maps[i];
            let len = m.mem.len() as u64;
            let below = m.base <= base && base - m.base >= len;
            let above = base <= m.base && m.base - base >= size;
            if !below && !above {
                assert(self@[i as int] == m@);
                assert(!(map_end(self@[i as int]) <= base || base + size <= self@[i as int].base));
                assert(overlaps_any(self@, base as int, size as int));
                return Err(MapError::Overlap);
            }
            assert(self@[i as int] == m@);
            i = i + 1;
        }
        assert(!overlaps_any(self@, base as int, size as int));
        let m = Mem64 { name: name.to_owned(), base, mem: vec![0u8; size as usize], permission: perm };
        let ghost old_view = self@;
        proof {
            assert(m@ == fresh_map(name@, base, size as nat, perm)) by {
                assert(m.mem@ =~= Seq::new(size as nat, |k: int| 0u8));
            }
            lemma_push_wf(old_view, m@);
        }
        self.maps.push(m);
        assert(self@ =~= old_view.push(m@)) by {
            assert forall|k: int| 0 <= k < self@.len() implies self@[k] == old_view.push(m@)[k] by {
                assert(self@[k] == self.maps@[k]@);
            }
        }
        Ok(())
    }

    /// An address above every region where `size` bytes fit.
    pub fn alloc_addr(&self, size: u64) -> (r: Option<u64>)
        requires
            self.wf(),
        ensures
            r == alloc_spec(self@, size),
    {
        let mut top: u128 = ALLOC_BASE as u128;
        let mut i: usize = 0;
        while i < self.maps.len()
            invariant
                self.wf(),
                i <= self.maps@.len(),
                self.maps@.len() == self@.len(),
                forall|k: int| 0 <= k < self@.len() ==> #[trigger] self@[k] == self.maps@[k]@,
                top == top_of(self@.subrange(0, i as int)),
                top <= addr_space(),
            decreases self.maps@.len() - i,
        {
            let m = &self.maps[i];
            assert(self@[i as int] == m@);
            assert(self@[i as int].data.len() > 0);
            let end = m.base as u128 + m.mem.len() as u128;
            proof {
                let t = self@.subrange(0, i + 1);
                assert(t.drop_last() =~= self@.subrange(0, i as int));
                assert(t.last() == m@);
            }
            if end > top {
                top = end;
            }
            i = i + 1;
        }
        assert(self@.subrange(0, self@.len() as int) =~= self@);
        if size > 0 && top + size as u128 <= 0x1_0000_0000_0000_0000u128 {
            Some(top as u64)
        } else {
            None
        }
    }

    /// Whether some region is named `name`.
    pub fn exists_mapname(&self, name: &str) -> (r: bool)
        ensures
            r == exists|i: int| 0 <= i < self@.len() && #[trigger] self@[i].name == name@,
    {
        match self.find_name(name) {
            Some(i) => {
                proof {
                    lemma_map_named_props(self@, name@);
                }
                assert(self.maps@.len() == self@.len());
                assert(self@[i as int].name == name@);
                true
            },
            None => false,
        }
    }

    /// Index of the first region named `name`.
    pub fn find_name(&self, name: &str) -> (r: Option<usize>)
        ensures
            match r {
                Some(i) => map_named(self@, name@) == Some(i as int),
                None => map_named(self@, name@) is None,
            },
    {
        let mut i: usize = 0;
        while i < self.maps.len()
            invariant
                i <= self.maps@.len(),
                self.maps@.len() == self@.len(),
                forall|k: int| 0 <= k < self@.len() ==> #[trigger] self@[k] == self.maps@[k]@,
                forall|k: int| 0 <= k < i ==> #[trigger] self@[k].name != name@,
            decreases self.maps@.len() - i,
        {
            assert(self@[i as int] == self.maps@[i as int]@);
            if str_eq(self.maps[i].name.as_str(), name) {
                proof {
                    lemma_map_named(self@, name@, i as int);
                }
                return Some(i);
            }
            i = i + 1;
        }
        None
    }

    /// The first region named `name`.
    pub fn get_map_by_name(&self, name: &str) -> (r: Option<&Mem64>)
        ensures
            match r {
                Some(m) => map_named(self@, name@) matches Some(i) && m@ == self@[i],
                None => map_named(self@, name@) is None,
            },
    {
        match self.find_name(name) {
            Some(i) => {
                proof {
                    lemma_map_named_props(self@, name@);
                }
                assert(self.maps@.len() == self@.len());
                assert(self@[i as int] == self.maps@[i as int]@);
                Some(&self.maps[i])
            },
            None => None,
        }
    }

    /// The first region named `name`, which must exist.
    pub fn get_mem(&self, name: &str) -> (r: &Mem64)
        requires
            map_named(self@, name@) is Some,
        ensures
            r@ == self@[map_named(self@, name@)->0],
    {
        match self.find_name(name) {
            Some(i) => {
                proof {
                    lemma_map_named_props(self@, name@);
                }
                assert(self.maps@.len() == self@.len());
                assert(self@[i as int] == self.maps@[i as int]@);
                &self.maps[i]
            },
            None => {
                assert(false);
                &self.maps[0]
            },
        }
    }

    /// The text stored as UTF-16 from `addr` up to the first zero unit (or the first unreadable word).
    pub fn read_wide_string(&self, addr: u64) -> (r: String)
        requires
            self.wf(),
        ensures
            r@ == utf16_lossy(wide_units(self@, addr as int)),
    {
        let mut units: Vec<u16> = Vec::new();
        let mut a = addr;
        loop
            invariant_except_break
                units@ + wide_units(self@, a as int) == wide_units(self@, addr as int),
            invariant
                self.wf(),
            ensures
                units@ == wide_units(self@, addr as int),
            decreases u64::MAX - a,
        {
            match self.read_word(a) {
                Some(w) => {
                    if w == 0 {
                        assert(wide_units(self@, a as int) =~= Seq::<u16>::empty());
                        assert(units@ =~= units@ + Seq::<u16>::empty());
                        break;
                    }
                    proof {
                        lemma_region_for_holds(self@, a as int, 2);
                    }
                    units.push(w);
                    if a > u64::MAX - 2 {
                        assert(wide_units(self@, a + 2) =~= Seq::<u16>::empty());
                        assert(units@ =~= wide_units(self@, addr as int));
                        break;
                    }
                    a = a + 2;
                },
                None => {
                    assert(wide_units(self@, a as int) =~= Seq::<u16>::empty());
                    assert(units@ =~= units@ + Seq::<u16>::empty());
                    break;
                },
            }
        }
        string_from_utf16_lossy(units.as_slice())
    }

    /// The text stored as bytes from `addr` up to the first zero byte (or the first unreadable byte).
    pub fn read_string(&self, addr: u64) -> (r: String)
        requires
            self.wf(),
        ensures
            r@ == utf8_lossy(c_bytes(self@, addr as int)),
    {
        let mut bytes: Vec<u8> = Vec::new();
        let mut a = addr;
        loop
            invariant_except_break
                bytes@ + c_bytes(self@, a as int) == c_bytes(self@, addr as int),
            invariant
                self.wf(),
            ensures
                bytes@ == c_bytes(self@, addr as int),
            decreases u64::MAX - a,
        {
            match self.read_byte(a) {
                Some(b) => {
                    if b == 0 {
                        assert(c_bytes(self@, a as int) =~= Seq::<u8>::empty());
                        assert(bytes@ =~= bytes@ + Seq::<u8>::empty());
                        break;
                    }
                    proof {
                        lemma_region_for_holds(self@, a as int, 1);
                    }
                    bytes.push(b);
                    if a == u64::MAX {
                        assert(c_bytes(self@, a + 1) =~= Seq::<u8>::empty());
                        assert(bytes@ =~= c_bytes(self@, addr as int));
                        break;
                    }
                    a = a + 1;
                },
                None => {
                    assert(c_bytes(self@, a as int) =~= Seq::<u8>::empty());
                    assert(bytes@ =~= bytes@ + Seq::<u8>::empty());
                    break;
                },
            }
        }
        string_from_utf8_lossy(bytes.as_slice())
    }

    /// Stores `s` at `addr` as UTF-16 units, little endian, with no terminator.
    pub fn write_wide_string(&mut self, addr: u64, s: &str) -> (r: bool)
        requires
            old(self).wf(),
        ensures
            final(self).wf(),
            final(self)@ == write_wide_spec(old(self)@, addr as int, s@),
            r == (wide_bytes(s@).len() == 0 || region_for(old(self)@, addr as int, wide_bytes(s@).len() as int) is Some),
    {
        let units = encode_utf16(s);
        let bytes = units_to_le_bytes(units.as_slice());
        if bytes.len() == 0 {
            return true;
        }
        self.write_bytes(addr, bytes.as_slice())
    }

    /// Copies `n` bytes from `src` to `dst`; answers `false`, changing nothing, when either range is not held by one region.
    pub fn memcpy(&mut self, dst: u64, src: u64, n: usize) -> (r: bool)
        requires
            old(self).wf(),
        ensures
            final(self).wf(),
            n == 0 ==> r && final(self)@ == old(self)@,
            n > 0 ==> match bytes_at(old(self)@, src as int, n as nat) {
                Some(b) => final(self)@ == write_spec(old(self)@, dst as int, b) && r == (region_for(
                    old(self)@,
                    dst as int,
                    n as int,
                ) is Some),
                None => final(self)@ == old(self)@ && !r,
            },
    {
        if n == 0 {
            return true;
        }
        match self.read_bytes(src, n as u64) {
            Some(b) => self.write_bytes(dst, b.as_slice()),
            None => false,
        }
    }
}

} // verus!
