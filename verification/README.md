# mwemu_ldr

A verified library for the Windows loader structures that an x86/x64 emulator
keeps in guest memory, written in Verus.

- `src/maps.rs` — guest memory as named, disjoint regions with little-endian
  reads and writes, region creation and a bump allocator.
- `src/bytes.rs`, `src/text.rs` — little-endian encodings, UTF-16 and the
  string helpers the loader needs.
- `src/structures.rs` — `LDR_DATA_TABLE_ENTRY` and its stored form.
- `src/ldr.rs` — the PEB load-order list: walking it, reading module headers
  and export tables, creating, linking, unlinking and updating entries.
- `src/ldr_lists.rs` — rebuilding the lists, ntdll's hash table and loader
  globals from the mapped images.
- `src/ntdll.rs` — the `LdrLoadDll` and `LdrGetDllHandleEx` entry points.
- `src/context.rs`, `src/regs.rs` — the minidump thread-context records.
- `src/elf.rs`, `src/emu.rs` — ELF64 entry-point selection (the section
  mapping and Linux start-up set-up are done by the caller) and the emulator state.
- `src/*_laws.rs` — properties that span several operations: read-after-write
  of memory, the ring that a rebuild produces and the walk over it, what
  linking a module appends, the hash buckets, what an entry records, and
  what a lookup by name answers after a rebuild, an append, an unlink or
  a base update, the names an entry gives back, the modules a second
  rebuild lists, and the hash bucket as an alternating sum.

`app/` holds the unverified side: logging, loading image files into regions,
`std::io` errors, and the checks made before calling the library.
