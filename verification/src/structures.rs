//! Windows loader records: `LDR_DATA_TABLE_ENTRY` (64-bit layout) and the
//! result of an export-table lookup.
use vstd::prelude::*;
use crate::bytes::{le_bytes16, le_bytes32, le_bytes64, encode_u16, encode_u32, encode_u64};
use crate::maps::{Maps, write_spec, region_for};

verus! {

/// Bytes reserved for one `LDR_DATA_TABLE_ENTRY`.
pub const LDR_ENTRY_SIZE: u64 = 0x100;

/// Offset of `HashLinks` in a loader entry.
pub const LDR_HASH_LINKS_OFFSET64: u64 = 0x7f;

/// A `LIST_ENTRY`.
#[derive(Clone, Copy, Debug, PartialEq, Eq)]
pub struct ListEntry64 {
    pub flink: u64,
    pub blink: u64,
}

/// A `UNICODE_STRING`.
#[derive(Clone, Copy, Debug, PartialEq, Eq)]
pub struct UnicodeString64 {
    pub length: u16,
    pub maximum_length: u16,
    pub buffer: u64,
}

/// A 64-bit `LDR_DATA_TABLE_ENTRY`.
#[derive(Clone, Copy, Debug, PartialEq, Eq)]
pub struct LdrDataTableEntry64 {
    pub in_load_order_links: ListEntry64,
    pub in_memory_order_links: ListEntry64,
    pub in_initialization_order_links: ListEntry64,
    pub dll_base: u64,
    pub entry_point: u64,
    pub size_of_image: u32,
    pub full_dll_name: UnicodeString64,
    pub base_dll_name: UnicodeString64,
    pub flags: u32,
    pub load_count: u16,
    pub tls_index: u16,
    pub hash_links: ListEntry64,
}

/// The stored form of a `LIST_ENTRY`: `Flink` then `Blink`.
pub open spec fn list_entry_bytes(l: ListEntry64) -> Seq<u8> {
    le_bytes64(l.flink) + le_bytes64(l.blink)
}

/// The stored form of a `UNICODE_STRING`: `Length`, `MaximumLength`, 4 bytes of padding, `Buffer`.
pub open spec fn unicode_string_bytes(u: UnicodeString64) -> Seq<u8> {
    le_bytes16(u.length) + le_bytes16(u.maximum_length) + le_bytes32(0) + le_bytes64(u.buffer)
}

/// The stored form of an entry: links at 0x00, 0x10 and 0x20, `DllBase` at 0x30,
/// `EntryPoint` at 0x38, `SizeOfImage` at 0x40, `FullDllName` at 0x48,
/// `BaseDllName` at 0x58, `Flags` at 0x68, `LoadCount` at 0x6c, `TlsIndex` at 0x6e,
/// and `HashLinks` at 0x7f.
pub open spec fn ldr_entry_bytes(e: LdrDataTableEntry64) -> Seq<u8> {
    list_entry_bytes(e.in_load_order_links) + list_entry_bytes(e.in_memory_order_links)
        + list_entry_bytes(e.in_initialization_order_links) + le_bytes64(e.dll_base) + le_bytes64(
        e.entry_point,
    ) + le_bytes32(e.size_of_image) + le_bytes32(0) + unicode_string_bytes(e.full_dll_name)
        + unicode_string_bytes(e.base_dll_name) + le_bytes32(e.flags) + le_bytes16(e.load_count)
        + le_bytes16(e.tls_index) + Seq::new(15, |i: int| 0u8) + list_entry_bytes(e.hash_links)
}

impl LdrDataTableEntry64 {
    /// An entry with every field zero.
    pub fn new() -> (r: LdrDataTableEntry64)
        ensures
            r.in_load_order_links == (ListEntry64 { flink: 0, blink: 0 }),
            r.in_memory_order_links == (ListEntry64 { flink: 0, blink: 0 }),
            r.in_initialization_order_links == (ListEntry64 { flink: 0, blink: 0 }),
            r.dll_base == 0 && r.entry_point == 0 && r.size_of_image == 0,
            r.full_dll_name == (UnicodeString64 { length: 0, maximum_length: 0, buffer: 0 }),
            r.base_dll_name == (UnicodeString64 { length: 0, maximum_length: 0, buffer: 0 }),
            r.flags == 0 && r.load_count == 0 && r.tls_index == 0,
            r.hash_links == (ListEntry64 { flink: 0, blink: 0 }),
    {
        let z = ListEntry64 { flink: 0, blink: 0 };
        let u = UnicodeString64 { length: 0, maximum_length: 0, buffer: 0 };
        LdrDataTableEntry64 {
            in_load_order_links: z,
            in_memory_order_links: z,
            in_initialization_order_links: z,
            dll_base: 0,
            entry_point: 0,
            size_of_image: 0,
            full_dll_name: u,
            base_dll_name: u,
            flags: 0,
            load_count: 0,
            tls_index: 0,
            hash_links: z,
        }
    }

    /// Bytes reserved for one entry.
    pub fn size() -> (r: u64)
        ensures
            r == LDR_ENTRY_SIZE,
    {
        LDR_ENTRY_SIZE
    }

    /// The stored form of the entry.
    pub fn to_bytes(&self) -> (r: Vec<u8>)
        ensures
            r@ == ldr_entry_bytes(*self),
    {
        let mut out: Vec<u8> = Vec::new();
        let mut b = encode_u64(self.in_load_order_links.flink);
        out.append(&mut b);
        assert(out@ =~= le_bytes64(self.in_load_order_links.flink));
        let mut b = encode_u64(self.in_load_order_links.blink);
        out.append(&mut b);
        let mut b = encode_u64(self.in_memory_order_links.flink);
        out.append(&mut b);
        let mut b = encode_u64(self.in_memory_order_links.blink);
        out.append(&mut b);
        let mut b = encode_u64(self.in_initialization_order_links.flink);
        out.append(&mut b);
        let mut b = encode_u64(self.in_initialization_order_links.blink);
        out.append(&mut b);
        let mut b = encode_u64(self.dll_base);
        out.append(&mut b);
        let mut b = encode_u64(self.entry_point);
        out.append(&mut b);
        let mut b = encode_u32(self.size_of_image);
        out.append(&mut b);
        let mut b = encode_u32(0);
        out.append(&mut b);
        let mut b = encode_u16(self.full_dll_name.length);
        out.append(&mut b);
        let mut b = encode_u16(self.full_dll_name.maximum_length);
        out.append(&mut b);
        let mut b = encode_u32(0);
        out.append(&mut b);
        let mut b = encode_u64(self.full_dll_name.buffer);
        out.append(&mut b);
        let mut b = encode_u16(self.base_dll_name.length);
        out.append(&mut b);
        let mut b = encode_u16(self.base_dll_name.maximum_length);
        out.append(&mut b);
        let mut b = encode_u32(0);
        out.append(&mut b);
        let mut b = encode_u64(self.base_dll_name.buffer);
        out.append(&mut b);
        let mut b = encode_u32(self.flags);
        out.append(&mut b);
        let mut b = encode_u16(self.load_count);
        out.append(&mut b);
        let mut b = encode_u16(self.tls_index);
        out.append(&mut b);
        let ghost before_gap = out@;
        let mut k: usize = 0;
        while k < 15
            invariant
                k <= 15,
                out@ =~= before_gap + Seq::new(k as nat, |i: int| 0u8),
            decreases 15 - k,
        {
            out.push(0);
            k = k + 1;
        }
        let mut b = encode_u64(self.hash_links.flink);
        out.append(&mut b);
        let mut b = encode_u64(self.hash_links.blink);
        out.append(&mut b);
        assert(out@ =~= ldr_entry_bytes(*self));
        out
    }

    /// Stores the entry at `addr`.
    pub fn save(&self, addr: u64, maps: &mut Maps) -> (r: bool)
        requires
            old(maps).wf(),
        ensures
            final(maps).wf(),
            final(maps)@ == write_spec(old(maps)@, addr as int, ldr_entry_bytes(*self)),
            r == (region_for(old(maps)@, addr as int, ldr_entry_bytes(*self).len() as int) is Some),
    {
        let b = self.to_bytes();
        assert(b@.len() >= 1);
        maps.write_bytes(addr, b.as_slice())
    }
}

/// What an export-table lookup found for one exported name.
pub struct OrdinalTable {
    pub func_name: String,
    pub ordinal_tbl_rva: u64,
    pub ordinal_tbl: u64,
    pub ordinal: u64,
    pub func_addr_tbl_rva: u64,
    pub func_addr_tbl: u64,
    pub func_rva: u64,
    pub func_va: u64,
    /// For an export that forwards to another module, the forwarder text
    /// (`"module.function"`) that remains to be resolved.
    pub forwarder: Option<String>,
    /// The depth at which that forwarder is to be resolved.
    pub forward_depth: u32,
}

/// What an export-table lookup found, as a mathematical value.
pub struct OrdinalView {
    pub func_name: Seq<char>,
    pub ordinal_tbl_rva: u64,
    pub ordinal_tbl: u64,
    pub ordinal: u64,
    pub func_addr_tbl_rva: u64,
    pub func_addr_tbl: u64,
    pub func_rva: u64,
    pub func_va: u64,
    pub forwarder: Option<Seq<char>>,
    pub forward_depth: u32,
}

impl View for OrdinalTable {
    type V = OrdinalView;

    open spec fn view(&self) -> OrdinalView {
        OrdinalView {
            func_name: self.func_name@,
            ordinal_tbl_rva: self.ordinal_tbl_rva,
            ordinal_tbl: self.ordinal_tbl,
            ordinal: self.ordinal,
            func_addr_tbl_rva: self.func_addr_tbl_rva,
            func_addr_tbl: self.func_addr_tbl,
            func_rva: self.func_rva,
            func_va: self.func_va,
            forwarder: match self.forwarder {
                Some(f) => Some(f@),
                None => None,
            },
            forward_depth: self.forward_depth,
        }
    }
}

} // verus!
