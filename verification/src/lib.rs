//! A verified model of the Windows loader structures that an x86/x64
//! emulator keeps in guest memory: little-endian memory maps, the PEB
//! loader list (`LDR_DATA_TABLE_ENTRY` chains), export-table lookups,
//! the ntdll loader entry points, ELF entry selection and the minidump
//! thread context encoder.

pub mod bytes;
pub mod maps;
pub mod text;
pub mod regs;
pub mod context;
pub mod emu;
pub mod structures;
pub mod ldr;
pub mod ldr_lists;
pub mod ntdll;
pub mod elf;
pub mod ldr_laws;
pub mod ring_laws;
pub mod link_laws;
pub mod name_laws;
pub mod hash_laws;
pub mod lookup_laws;
pub mod unlink_laws;
pub mod update_laws;
pub mod bucket_laws;
pub mod module_laws;
pub mod query_laws;
