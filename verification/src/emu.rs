//! The emulator state that the loader code works on: guest memory,
//! registers, configuration and a little bookkeeping.
use vstd::prelude::*;
use crate::maps::Maps;
use crate::regs::{Arch, Regs64, Flags, regs_zero, eflags_of};

verus! {

/// The entry point value that means "none configured".
pub const CFG_DEFAULT_BASE: u64 = 0x3c0000;

/// Status code of a successful Windows API call.
pub const STATUS_SUCCESS: u64 = 0;

/// Emulator configuration.
pub struct Config {
    pub arch: Arch,
    pub code_base_addr: u64,
    pub entry_point: u64,
    pub verbose: u32,
    pub exe_name: String,
    pub filename: String,
}

/// A handle handed out to the guest, with the text it names.
pub struct Handle {
    pub id: u64,
    pub uri: String,
}

/// A section header of a parsed ELF64 image.
pub struct Elf64Section {
    pub name: String,
    pub addr: u64,
    pub size: u64,
}

/// What the loader reads of a parsed ELF64 image.
pub struct Elf64 {
    pub e_entry: u64,
    pub base: u64,
    pub sections: Vec<Elf64Section>,
    pub dynamic: Vec<String>,
}

impl Elf64 {
    /// The shared libraries the image asks for.
    pub fn get_dynamic(&self) -> (r: &Vec<String>)
        ensures
            r == &self.dynamic,
    {
        &self.dynamic
    }
}

/// The id the next handle gets: one more than the last handle's id, or 1.
pub open spec fn next_handle_id(handles: Seq<Handle>) -> u64 {
    if handles.len() == 0 {
        1
    } else {
        vstd::wrapping::u64_specs::wrapping_add(handles.last().id, 1)
    }
}

/// The emulator.
pub struct Emu {
    pub maps: Maps,
    pub regs: Regs64,
    pub flags: Flags,
    pub cfg: Config,
    /// Load address of the main executable.
    pub base: u64,
    /// Counter that makes the names of extra loader-entry regions unique.
    pub ldr_seq: u32,
    pub handles: Vec<Handle>,
    pub elf64: Option<Elf64>,
    pub dyn_link: bool,
}

impl Emu {
    /// Guest memory is well formed.
    pub open spec fn wf(&self) -> bool {
        self.maps.wf()
    }

    /// An emulator with no memory, zero registers and the given configuration.
    pub fn new(cfg: Config) -> (r: Emu)
        ensures
            r.wf(),
            r.maps@ == Seq::<crate::maps::MapView>::empty(),
            regs_zero(r.regs),
            eflags_of(r.flags) == 0,
            r.cfg == cfg,
            r.base == 0,
            r.ldr_seq == 0,
            r.handles@.len() == 0,
            r.elf64 is None,
            !r.dyn_link,
    {
        Emu {
            maps: Maps::new(),
            regs: Regs64::new(),
            flags: Flags::new(),
            cfg,
            base: 0,
            ldr_seq: 0,
            handles: Vec::new(),
            elf64: None,
            dyn_link: false,
        }
    }

    /// The program counter.
    pub fn pc(&self) -> (r: u64)
        ensures
            r == self.regs.rip,
    {
        self.regs.rip
    }

    /// Records a handle for `uri` and answers its id.
    pub fn handler_create(&mut self, uri: &str) -> (r: u64)
        ensures
            r == next_handle_id(old(self).handles@),
            final(self).handles@.len() == old(self).handles@.len() + 1,
            forall|i: int| 0 <= i < old(self).handles@.len() ==> final(self).handles@[i] == old(self).handles@[i],
            final(self).handles@.last().id == r,
            final(self).handles@.last().uri@ == uri@,
            final(self).maps == old(self).maps && final(self).regs == old(self).regs && final(self).cfg == old(self).cfg
                && final(self).base == old(self).base && final(self).ldr_seq == old(self).ldr_seq
                && final(self).elf64 == old(self).elf64 && final(self).dyn_link == old(self).dyn_link
                && final(self).flags == old(self).flags,
    {
        let n = self.handles.len();
        let id = if n == 0 {
            1
        } else {
            self.handles[n - 1].id.wrapping_add(1)
        };
        self.handles.push(Handle { id, uri: uri.to_owned() });
        id
    }

    /// Sets the program counter.
    pub fn set_pc(&mut self, addr: u64)
        ensures
            final(self).regs == (Regs64 { rip: addr, ..old(self).regs }),
            final(self).maps == old(self).maps,
            final(self).cfg == old(self).cfg,
            final(self).base == old(self).base,
            final(self).ldr_seq == old(self).ldr_seq,
            final(self).handles == old(self).handles,
            final(self).elf64 == old(self).elf64,
            final(self).dyn_link == old(self).dyn_link,
            final(self).flags == old(self).flags,
    {
        self.regs.rip = addr;
    }
}

} // verus!
