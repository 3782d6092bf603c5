//! CPU state that the thread-context encoder reads: the general, debug,
//! segment, MMX and SSE registers and the arithmetic flags.
use vstd::prelude::*;

verus! {

/// Guest instruction set.
#[derive(Clone, Copy, Debug, PartialEq, Eq, Structural)]
pub enum Arch {
    X86,
    X86_64,
    Aarch64,
}

/// The guest registers.
#[derive(Clone, Copy, Debug, PartialEq, Eq)]
pub struct Regs64 {
    pub rax: u64,
    pub rbx: u64,
    pub rcx: u64,
    pub rdx: u64,
    pub rsi: u64,
    pub rdi: u64,
    pub rbp: u64,
    pub rsp: u64,
    pub rip: u64,
    pub r8: u64,
    pub r9: u64,
    pub r10: u64,
    pub r11: u64,
    pub r12: u64,
    pub r13: u64,
    pub r14: u64,
    pub r15: u64,
    pub dr0: u64,
    pub dr1: u64,
    pub dr2: u64,
    pub dr3: u64,
    pub dr6: u64,
    pub dr7: u64,
    pub fs: u64,
    pub gs: u64,
    pub mm0: u128,
    pub mm1: u128,
    pub mm2: u128,
    pub mm3: u128,
    pub mm4: u128,
    pub mm5: u128,
    pub mm6: u128,
    pub mm7: u128,
    pub xmm0: u128,
    pub xmm1: u128,
    pub xmm2: u128,
    pub xmm3: u128,
    pub xmm4: u128,
    pub xmm5: u128,
    pub xmm6: u128,
    pub xmm7: u128,
    pub xmm8: u128,
    pub xmm9: u128,
    pub xmm10: u128,
    pub xmm11: u128,
    pub xmm12: u128,
    pub xmm13: u128,
    pub xmm14: u128,
    pub xmm15: u128,
}

/// The low 32 bits of a 64-bit register.
pub open spec fn low32(v: u64) -> u64 {
    v & 0xffff_ffff
}

/// Every register of `r` is zero.
pub open spec fn regs_zero(r: Regs64) -> bool {
    &&& r.rax == 0 && r.rbx == 0 && r.rcx == 0 && r.rdx == 0 && r.rsi == 0 && r.rdi == 0
    &&& r.rbp == 0 && r.rsp == 0 && r.rip == 0 && r.r8 == 0 && r.r9 == 0 && r.r10 == 0
    &&& r.r11 == 0 && r.r12 == 0 && r.r13 == 0 && r.r14 == 0 && r.r15 == 0
    &&& r.dr0 == 0 && r.dr1 == 0 && r.dr2 == 0 && r.dr3 == 0 && r.dr6 == 0 && r.dr7 == 0
    &&& r.fs == 0 && r.gs == 0
    &&& r.mm0 == 0 && r.mm1 == 0 && r.mm2 == 0 && r.mm3 == 0 && r.mm4 == 0 && r.mm5 == 0
    &&& r.mm6 == 0 && r.mm7 == 0
    &&& r.xmm0 == 0 && r.xmm1 == 0 && r.xmm2 == 0 && r.xmm3 == 0 && r.xmm4 == 0 && r.xmm5 == 0
    &&& r.xmm6 == 0 && r.xmm7 == 0 && r.xmm8 == 0 && r.xmm9 == 0 && r.xmm10 == 0
    &&& r.xmm11 == 0 && r.xmm12 == 0 && r.xmm13 == 0 && r.xmm14 == 0 && r.xmm15 == 0
}

impl Regs64 {
    /// All registers zero.
    pub fn new() -> (r: Regs64)
        ensures
            regs_zero(r),
    {
        Regs64 {
            rax: 0,
            rbx: 0,
            rcx: 0,
            rdx: 0,
            rsi: 0,
            rdi: 0,
            rbp: 0,
            rsp: 0,
            rip: 0,
            r8: 0,
            r9: 0,
            r10: 0,
            r11: 0,
            r12: 0,
            r13: 0,
            r14: 0,
            r15: 0,
            dr0: 0,
            dr1: 0,
            dr2: 0,
            dr3: 0,
            dr6: 0,
            dr7: 0,
            fs: 0,
            gs: 0,
            mm0: 0,
            mm1: 0,
            mm2: 0,
            mm3: 0,
            mm4: 0,
            mm5: 0,
            mm6: 0,
            mm7: 0,
            xmm0: 0,
            xmm1: 0,
            xmm2: 0,
            xmm3: 0,
            xmm4: 0,
            xmm5: 0,
            xmm6: 0,
            xmm7: 0,
            xmm8: 0,
            xmm9: 0,
            xmm10: 0,
            xmm11: 0,
            xmm12: 0,
            xmm13: 0,
            xmm14: 0,
            xmm15: 0,
        }
    }

    /// The low 32 bits of `rax`.
    pub fn get_eax(&self) -> (r: u64)
        ensures
            r == low32(self.rax),
    {
        self.rax & 0xffff_ffff
    }

    /// The low 32 bits of `rbx`.
    pub fn get_ebx(&self) -> (r: u64)
        ensures
            r == low32(self.rbx),
    {
        self.rbx & 0xffff_ffff
    }

    /// The low 32 bits of `rcx`.
    pub fn get_ecx(&self) -> (r: u64)
        ensures
            r == low32(self.rcx),
    {
        self.rcx & 0xffff_ffff
    }

    /// The low 32 bits of `rdx`.
    pub fn get_edx(&self) -> (r: u64)
        ensures
            r == low32(self.rdx),
    {
        self.rdx & 0xffff_ffff
    }

    /// The low 32 bits of `rsi`.
    pub fn get_esi(&self) -> (r: u64)
        ensures
            r == low32(self.rsi),
    {
        self.rsi & 0xffff_ffff
    }

    /// The low 32 bits of `rdi`.
    pub fn get_edi(&self) -> (r: u64)
        ensures
            r == low32(self.rdi),
    {
        self.rdi & 0xffff_ffff
    }

    /// The low 32 bits of `rbp`.
    pub fn get_ebp(&self) -> (r: u64)
        ensures
            r == low32(self.rbp),
    {
        self.rbp & 0xffff_ffff
    }

    /// The low 32 bits of `rsp`.
    pub fn get_esp(&self) -> (r: u64)
        ensures
            r == low32(self.rsp),
    {
        self.rsp & 0xffff_ffff
    }

    /// The low 32 bits of `rip`.
    pub fn get_eip(&self) -> (r: u64)
        ensures
            r == low32(self.rip),
    {
        self.rip & 0xffff_ffff
    }
}

/// The arithmetic and control flags.
#[derive(Clone, Copy, Debug, PartialEq, Eq)]
pub struct Flags {
    pub f_cf: bool,
    pub f_pf: bool,
    pub f_af: bool,
    pub f_zf: bool,
    pub f_sf: bool,
    pub f_tf: bool,
    pub f_if: bool,
    pub f_df: bool,
    pub f_of: bool,
}

/// The EFLAGS word for `f`: CF bit 0, PF bit 2, AF bit 4, ZF bit 6, SF bit 7,
/// TF bit 8, IF bit 9, DF bit 10, OF bit 11.
pub open spec fn eflags_of(f: Flags) -> u32 {
    ((if f.f_cf { 0x1int } else { 0 }) + (if f.f_pf { 0x4int } else { 0 }) + (if f.f_af { 0x10int } else { 0 })
        + (if f.f_zf { 0x40int } else { 0 }) + (if f.f_sf { 0x80int } else { 0 }) + (if f.f_tf { 0x100int } else { 0 })
        + (if f.f_if { 0x200int } else { 0 }) + (if f.f_df { 0x400int } else { 0 }) + (if f.f_of { 0x800int } else { 0 })) as u32
}

impl Flags {
    /// All flags clear.
    pub fn new() -> (r: Flags)
        ensures
            !r.f_cf && !r.f_pf && !r.f_af && !r.f_zf && !r.f_sf && !r.f_tf && !r.f_if && !r.f_df && !r.f_of,
            eflags_of(r) == 0,
    {
        Flags {
            f_cf: false,
            f_pf: false,
            f_af: false,
            f_zf: false,
            f_sf: false,
            f_tf: false,
            f_if: false,
            f_df: false,
            f_of: false,
        }
    }

    /// The flags packed into an EFLAGS word.
    pub fn dump(&self) -> (r: u32)
        ensures
            r == eflags_of(*self),
    {
        let cf: u32 = if self.f_cf { 0x1 } else { 0 };
        let pf: u32 = if self.f_pf { 0x4 } else { 0 };
        let af: u32 = if self.f_af { 0x10 } else { 0 };
        let zf: u32 = if self.f_zf { 0x40 } else { 0 };
        let sf: u32 = if self.f_sf { 0x80 } else { 0 };
        let tf: u32 = if self.f_tf { 0x100 } else { 0 };
        let inf: u32 = if self.f_if { 0x200 } else { 0 };
        let df: u32 = if self.f_df { 0x400 } else { 0 };
        let of: u32 = if self.f_of { 0x800 } else { 0 };
        cf + pf + af + zf + sf + tf + inf + df + of
    }
}

} // verus!
