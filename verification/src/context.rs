//! Encoding of a thread's registers as a minidump `CONTEXT_X86` or
//! `CONTEXT_AMD64` record.
use vstd::prelude::*;
use byteorder::{ByteOrder, LittleEndian};
use minidump::format as md;
use crate::bytes::{le_bytes16, le_bytes32, le_bytes64, le_bytes128, lemma_le_bytes16_len, lemma_le_bytes32_len, lemma_le_bytes64_len, lemma_le_bytes128_len};
use crate::regs::{Arch, Regs64, Flags, low32, eflags_of};

verus! {

/// Size in bytes of a `CONTEXT_X86` record.
pub const CONTEXT_X86_SIZE: usize = 716;

/// Size in bytes of a `CONTEXT_AMD64` record.
pub const CONTEXT_AMD64_SIZE: usize = 1232;

/// Why no context record was produced.
#[derive(Clone, Copy, Debug, PartialEq, Eq, Structural)]
pub enum ContextError {
    /// The guest architecture has no context encoder.
    UnsupportedArch,
}

/// `n` zero bytes.
pub open spec fn zeros(n: nat) -> Seq<u8> {
    Seq::new(n, |i: int| 0u8)
}

/// The `CONTEXT_X86` record of `regs` with flags word `eflags`.
pub open spec fn x86_context(regs: Regs64, eflags: u32) -> Seq<u8> {
    le_bytes32(0x1003f) + le_bytes32(regs.dr0 as u32) + le_bytes32(regs.dr1 as u32) + le_bytes32(
        regs.dr2 as u32,
    ) + le_bytes32(regs.dr3 as u32) + le_bytes32(regs.dr6 as u32) + le_bytes32(regs.dr7 as u32)
        + le_bytes32(0x027f) + le_bytes32(0) + le_bytes32(0) + le_bytes32(0) + le_bytes32(0)
        + le_bytes32(0) + le_bytes32(0) + zeros(80) + le_bytes32(0) + le_bytes32(regs.gs as u32)
        + le_bytes32(if regs.fs == 0 { 0x3b } else { regs.fs as u32 }) + le_bytes32(0x23)
        + le_bytes32(0x23) + le_bytes32(low32(regs.rdi) as u32) + le_bytes32(low32(regs.rsi) as u32)
        + le_bytes32(low32(regs.rbx) as u32) + le_bytes32(low32(regs.rdx) as u32) + le_bytes32(
        low32(regs.rcx) as u32,
    ) + le_bytes32(low32(regs.rax) as u32) + le_bytes32(low32(regs.rbp) as u32) + le_bytes32(
        low32(regs.rip) as u32,
    ) + le_bytes32(0x1b) + le_bytes32(eflags) + le_bytes32(low32(regs.rsp) as u32) + le_bytes32(
        0x23,
    ) + zeros(512)
}

/// The control words that open an `XMM_SAVE_AREA32`: control word 0x027f,
/// status and tag words, error offsets and selectors, `MxCsr` 0x1f80 and its mask.
pub open spec fn xmm_area_control() -> Seq<u8> {
    le_bytes16(0x027f) + le_bytes16(0) + seq![0u8] + seq![0u8] + le_bytes16(0) + le_bytes32(0)
        + le_bytes16(0) + le_bytes16(0) + le_bytes32(0) + le_bytes16(0) + le_bytes16(0) + le_bytes32(0x1f80)
        + le_bytes32(0xffff)
}

/// `Mm0` to `Mm7`, 16 bytes each.
pub open spec fn mm_bytes(regs: Regs64) -> Seq<u8> {
    le_bytes128(regs.mm0) + le_bytes128(regs.mm1) + le_bytes128(regs.mm2) + le_bytes128(regs.mm3) + le_bytes128(regs.mm4) + le_bytes128(regs.mm5) + le_bytes128(regs.mm6) + le_bytes128(regs.mm7)
}

/// `Xmm0` to `Xmm15`, 16 bytes each.
pub open spec fn xmm_bytes(regs: Regs64) -> Seq<u8> {
    le_bytes128(regs.xmm0) + le_bytes128(regs.xmm1) + le_bytes128(regs.xmm2) + le_bytes128(regs.xmm3) + le_bytes128(regs.xmm4) + le_bytes128(regs.xmm5) + le_bytes128(regs.xmm6) + le_bytes128(regs.xmm7) + le_bytes128(regs.xmm8) + le_bytes128(regs.xmm9) + le_bytes128(regs.xmm10) + le_bytes128(regs.xmm11) + le_bytes128(regs.xmm12) + le_bytes128(regs.xmm13) + le_bytes128(regs.xmm14) + le_bytes128(regs.xmm15)
}

/// The 512-byte `XMM_SAVE_AREA32` of `regs`.
pub open spec fn xmm_save_area(regs: Regs64) -> Seq<u8> {
    xmm_area_control() + mm_bytes(regs) + xmm_bytes(regs) + zeros(96)
}

/// The control part of a `CONTEXT_AMD64` record: home slots, context flags, MXCSR,
/// segment selectors, flags word and debug registers.
pub open spec fn amd64_head(regs: Regs64, eflags: u32) -> Seq<u8> {
    zeros(48) + le_bytes32(0x10001f) + le_bytes32(0x1f80) + le_bytes16(0x33) + le_bytes16(0)
        + le_bytes16(0) + le_bytes16(regs.fs as u16) + le_bytes16(regs.gs as u16) + le_bytes16(0x2b)
        + le_bytes32(eflags) + le_bytes64(regs.dr0) + le_bytes64(regs.dr1) + le_bytes64(regs.dr2)
        + le_bytes64(regs.dr3) + le_bytes64(regs.dr6) + le_bytes64(regs.dr7)
}

/// The integer registers of a `CONTEXT_AMD64` record, in record order.
pub open spec fn amd64_gprs(regs: Regs64) -> Seq<u8> {
    le_bytes64(regs.rax) + le_bytes64(regs.rcx) + le_bytes64(regs.rdx) + le_bytes64(regs.rbx)
        + le_bytes64(regs.rsp) + le_bytes64(regs.rbp) + le_bytes64(regs.rsi) + le_bytes64(regs.rdi)
        + le_bytes64(regs.r8) + le_bytes64(regs.r9) + le_bytes64(regs.r10) + le_bytes64(regs.r11)
        + le_bytes64(regs.r12) + le_bytes64(regs.r13) + le_bytes64(regs.r14) + le_bytes64(regs.r15)
        + le_bytes64(regs.rip)
}

/// The `CONTEXT_AMD64` record of `regs` with flags word `eflags`.
pub open spec fn amd64_context(regs: Regs64, eflags: u32) -> Seq<u8> {
    amd64_head(regs, eflags) + amd64_gprs(regs) + xmm_save_area(regs) + zeros(416) + zeros(48)
}


/// The `CONTEXT_X86` record is 716 bytes long and carries its context flags at
/// 0x00 and each integer register's low 32 bits at its `CONTEXT` offset: `Edi`
/// 0x9c, `Esi` 0xa0, `Ebx` 0xa4, `Edx` 0xa8, `Ecx` 0xac, `Eax` 0xb0, `Ebp` 0xb4,
/// `Eip` 0xb8, `SegCs` 0xbc (0x1b), `EFlags` 0xc0, `Esp` 0xc4, `SegSs` 0xc8 (0x23).
pub proof fn law_x86_context_fields(regs: Regs64, eflags: u32)
    ensures
        x86_context(regs, eflags).len() == 716,
        x86_context(regs, eflags).subrange(0, 4) == le_bytes32(0x1003f),
        x86_context(regs, eflags).subrange(0x9c, 0xa0) == le_bytes32(low32(regs.rdi) as u32),
        x86_context(regs, eflags).subrange(0xa0, 0xa4) == le_bytes32(low32(regs.rsi) as u32),
        x86_context(regs, eflags).subrange(0xa4, 0xa8) == le_bytes32(low32(regs.rbx) as u32),
        x86_context(regs, eflags).subrange(0xa8, 0xac) == le_bytes32(low32(regs.rdx) as u32),
        x86_context(regs, eflags).subrange(0xac, 0xb0) == le_bytes32(low32(regs.rcx) as u32),
        x86_context(regs, eflags).subrange(0xb0, 0xb4) == le_bytes32(low32(regs.rax) as u32),
        x86_context(regs, eflags).subrange(0xb4, 0xb8) == le_bytes32(low32(regs.rbp) as u32),
        x86_context(regs, eflags).subrange(0xb8, 0xbc) == le_bytes32(low32(regs.rip) as u32),
        x86_context(regs, eflags).subrange(0xc4, 0xc8) == le_bytes32(low32(regs.rsp) as u32),
        x86_context(regs, eflags).subrange(0xc0, 0xc4) == le_bytes32(eflags),
        x86_context(regs, eflags).subrange(0xbc, 0xc0) == le_bytes32(0x1b),
        x86_context(regs, eflags).subrange(0xc8, 0xcc) == le_bytes32(0x23),
{
    broadcast use lemma_le_bytes16_len, lemma_le_bytes32_len, lemma_le_bytes64_len;
    let c = x86_context(regs, eflags);
    assert(c.len() == 716);
    assert(x86_context(regs, eflags).subrange(0, 4) =~= le_bytes32(0x1003f));
    assert(x86_context(regs, eflags).subrange(0x9c, 0xa0) =~= le_bytes32(low32(regs.rdi) as u32));
    assert(x86_context(regs, eflags).subrange(0xa0, 0xa4) =~= le_bytes32(low32(regs.rsi) as u32));
    assert(x86_context(regs, eflags).subrange(0xa4, 0xa8) =~= le_bytes32(low32(regs.rbx) as u32));
    assert(x86_context(regs, eflags).subrange(0xa8, 0xac) =~= le_bytes32(low32(regs.rdx) as u32));
    assert(x86_context(regs, eflags).subrange(0xac, 0xb0) =~= le_bytes32(low32(regs.rcx) as u32));
    assert(x86_context(regs, eflags).subrange(0xb0, 0xb4) =~= le_bytes32(low32(regs.rax) as u32));
    assert(x86_context(regs, eflags).subrange(0xb4, 0xb8) =~= le_bytes32(low32(regs.rbp) as u32));
    assert(x86_context(regs, eflags).subrange(0xb8, 0xbc) =~= le_bytes32(low32(regs.rip) as u32));
    assert(x86_context(regs, eflags).subrange(0xc4, 0xc8) =~= le_bytes32(low32(regs.rsp) as u32));
    assert(x86_context(regs, eflags).subrange(0xc0, 0xc4) =~= le_bytes32(eflags));
    assert(x86_context(regs, eflags).subrange(0xbc, 0xc0) =~= le_bytes32(0x1b));
    assert(x86_context(regs, eflags).subrange(0xc8, 0xcc) =~= le_bytes32(0x23));
}

/// The `CONTEXT_AMD64` record is 1232 bytes long and carries its context flags
/// at 0x30, `EFlags` at 0x44, each integer register at its `CONTEXT` offset
/// (`Rax` 0x78, `Rcx` 0x80, `Rdx` 0x88, `Rbx` 0x90, `Rsp` 0x98, `Rbp` 0xa0, `Rsi`
/// 0xa8, `Rdi` 0xb0, `R8` to `R15` from 0xb8 on, `Rip` 0xf8), and `Xmm0` to
/// `Xmm15` from 0x1a0 on, 16 bytes each.
pub proof fn law_amd64_context_fields(regs: Regs64, eflags: u32)
    ensures
        amd64_context(regs, eflags).len() == 1232,
        amd64_context(regs, eflags).subrange(0x30, 0x34) == le_bytes32(0x10001f),
        amd64_context(regs, eflags).subrange(0x44, 0x48) == le_bytes32(eflags),
        amd64_context(regs, eflags).subrange(0x78, 0x80) == le_bytes64(regs.rax),
        amd64_context(regs, eflags).subrange(0x80, 0x88) == le_bytes64(regs.rcx),
        amd64_context(regs, eflags).subrange(0x88, 0x90) == le_bytes64(regs.rdx),
        amd64_context(regs, eflags).subrange(0x90, 0x98) == le_bytes64(regs.rbx),
        amd64_context(regs, eflags).subrange(0x98, 0xa0) == le_bytes64(regs.rsp),
        amd64_context(regs, eflags).subrange(0xa0, 0xa8) == le_bytes64(regs.rbp),
        amd64_context(regs, eflags).subrange(0xa8, 0xb0) == le_bytes64(regs.rsi),
        amd64_context(regs, eflags).subrange(0xb0, 0xb8) == le_bytes64(regs.rdi),
        amd64_context(regs, eflags).subrange(0xb8, 0xc0) == le_bytes64(regs.r8),
        amd64_context(regs, eflags).subrange(0xc0, 0xc8) == le_bytes64(regs.r9),
        amd64_context(regs, eflags).subrange(0xc8, 0xd0) == le_bytes64(regs.r10),
        amd64_context(regs, eflags).subrange(0xd0, 0xd8) == le_bytes64(regs.r11),
        amd64_context(regs, eflags).subrange(0xd8, 0xe0) == le_bytes64(regs.r12),
        amd64_context(regs, eflags).subrange(0xe0, 0xe8) == le_bytes64(regs.r13),
        amd64_context(regs, eflags).subrange(0xe8, 0xf0) == le_bytes64(regs.r14),
        amd64_context(regs, eflags).subrange(0xf0, 0xf8) == le_bytes64(regs.r15),
        amd64_context(regs, eflags).subrange(0xf8, 0x100) == le_bytes64(regs.rip),
        amd64_context(regs, eflags).subrange(0x1a0, 0x1b0) == le_bytes128(regs.xmm0),
        amd64_context(regs, eflags).subrange(0x1b0, 0x1c0) == le_bytes128(regs.xmm1),
        amd64_context(regs, eflags).subrange(0x1c0, 0x1d0) == le_bytes128(regs.xmm2),
        amd64_context(regs, eflags).subrange(0x1d0, 0x1e0) == le_bytes128(regs.xmm3),
        amd64_context(regs, eflags).subrange(0x1e0, 0x1f0) == le_bytes128(regs.xmm4),
        amd64_context(regs, eflags).subrange(0x1f0, 0x200) == le_bytes128(regs.xmm5),
        amd64_context(regs, eflags).subrange(0x200, 0x210) == le_bytes128(regs.xmm6),
        amd64_context(regs, eflags).subrange(0x210, 0x220) == le_bytes128(regs.xmm7),
        amd64_context(regs, eflags).subrange(0x220, 0x230) == le_bytes128(regs.xmm8),
        amd64_context(regs, eflags).subrange(0x230, 0x240) == le_bytes128(regs.xmm9),
        amd64_context(regs, eflags).subrange(0x240, 0x250) == le_bytes128(regs.xmm10),
        amd64_context(regs, eflags).subrange(0x250, 0x260) == le_bytes128(regs.xmm11),
        amd64_context(regs, eflags).subrange(0x260, 0x270) == le_bytes128(regs.xmm12),
        amd64_context(regs, eflags).subrange(0x270, 0x280) == le_bytes128(regs.xmm13),
        amd64_context(regs, eflags).subrange(0x280, 0x290) == le_bytes128(regs.xmm14),
        amd64_context(regs, eflags).subrange(0x290, 0x2a0) == le_bytes128(regs.xmm15),
{
    broadcast use lemma_le_bytes16_len, lemma_le_bytes32_len, lemma_le_bytes64_len, lemma_le_bytes128_len;
    let h = amd64_head(regs, eflags);
    let c = amd64_context(regs, eflags);
    assert(h.len() == 120);
    assert(amd64_gprs(regs).len() == 136);
    assert(xmm_save_area(regs).len() == 512);
    assert(c.len() == 1232);
    assert(h.subrange(0x30, 0x34) =~= le_bytes32(0x10001f));
    assert(h.subrange(0x44, 0x48) =~= le_bytes32(eflags));
    assert(c.subrange(0x30, 0x34) =~= h.subrange(0x30, 0x34));
    assert(c.subrange(0x44, 0x48) =~= h.subrange(0x44, 0x48));
    lemma_amd64_gprs_layout(regs);
    lemma_xmm_layout(regs);
    lemma_amd64_gpr_at(regs, eflags, 0, regs.rax);
    lemma_amd64_gpr_at(regs, eflags, 1, regs.rcx);
    lemma_amd64_gpr_at(regs, eflags, 2, regs.rdx);
    lemma_amd64_gpr_at(regs, eflags, 3, regs.rbx);
    lemma_amd64_gpr_at(regs, eflags, 4, regs.rsp);
    lemma_amd64_gpr_at(regs, eflags, 5, regs.rbp);
    lemma_amd64_gpr_at(regs, eflags, 6, regs.rsi);
    lemma_amd64_gpr_at(regs, eflags, 7, regs.rdi);
    lemma_amd64_gpr_at(regs, eflags, 8, regs.r8);
    lemma_amd64_gpr_at(regs, eflags, 9, regs.r9);
    lemma_amd64_gpr_at(regs, eflags, 10, regs.r10);
    lemma_amd64_gpr_at(regs, eflags, 11, regs.r11);
    lemma_amd64_gpr_at(regs, eflags, 12, regs.r12);
    lemma_amd64_gpr_at(regs, eflags, 13, regs.r13);
    lemma_amd64_gpr_at(regs, eflags, 14, regs.r14);
    lemma_amd64_gpr_at(regs, eflags, 15, regs.r15);
    lemma_amd64_gpr_at(regs, eflags, 16, regs.rip);
    lemma_amd64_xmm_at(regs, eflags, 0, regs.xmm0);
    lemma_amd64_xmm_at(regs, eflags, 1, regs.xmm1);
    lemma_amd64_xmm_at(regs, eflags, 2, regs.xmm2);
    lemma_amd64_xmm_at(regs, eflags, 3, regs.xmm3);
    lemma_amd64_xmm_at(regs, eflags, 4, regs.xmm4);
    lemma_amd64_xmm_at(regs, eflags, 5, regs.xmm5);
    lemma_amd64_xmm_at(regs, eflags, 6, regs.xmm6);
    lemma_amd64_xmm_at(regs, eflags, 7, regs.xmm7);
    lemma_amd64_xmm_at(regs, eflags, 8, regs.xmm8);
    lemma_amd64_xmm_at(regs, eflags, 9, regs.xmm9);
    lemma_amd64_xmm_at(regs, eflags, 10, regs.xmm10);
    lemma_amd64_xmm_at(regs, eflags, 11, regs.xmm11);
    lemma_amd64_xmm_at(regs, eflags, 12, regs.xmm12);
    lemma_amd64_xmm_at(regs, eflags, 13, regs.xmm13);
    lemma_amd64_xmm_at(regs, eflags, 14, regs.xmm14);
    lemma_amd64_xmm_at(regs, eflags, 15, regs.xmm15);
}

/// The integer registers lie one after another, 8 bytes each, in record order.
proof fn lemma_amd64_gprs_layout(regs: Regs64)
    ensures
        amd64_gprs(regs).subrange(0x0, 0x8) == le_bytes64(regs.rax),
        amd64_gprs(regs).subrange(0x8, 0x10) == le_bytes64(regs.rcx),
        amd64_gprs(regs).subrange(0x10, 0x18) == le_bytes64(regs.rdx),
        amd64_gprs(regs).subrange(0x18, 0x20) == le_bytes64(regs.rbx),
        amd64_gprs(regs).subrange(0x20, 0x28) == le_bytes64(regs.rsp),
        amd64_gprs(regs).subrange(0x28, 0x30) == le_bytes64(regs.rbp),
        amd64_gprs(regs).subrange(0x30, 0x38) == le_bytes64(regs.rsi),
        amd64_gprs(regs).subrange(0x38, 0x40) == le_bytes64(regs.rdi),
        amd64_gprs(regs).subrange(0x40, 0x48) == le_bytes64(regs.r8),
        amd64_gprs(regs).subrange(0x48, 0x50) == le_bytes64(regs.r9),
        amd64_gprs(regs).subrange(0x50, 0x58) == le_bytes64(regs.r10),
        amd64_gprs(regs).subrange(0x58, 0x60) == le_bytes64(regs.r11),
        amd64_gprs(regs).subrange(0x60, 0x68) == le_bytes64(regs.r12),
        amd64_gprs(regs).subrange(0x68, 0x70) == le_bytes64(regs.r13),
        amd64_gprs(regs).subrange(0x70, 0x78) == le_bytes64(regs.r14),
        amd64_gprs(regs).subrange(0x78, 0x80) == le_bytes64(regs.r15),
        amd64_gprs(regs).subrange(0x80, 0x88) == le_bytes64(regs.rip),
{
    broadcast use lemma_le_bytes64_len;
    let g = amd64_gprs(regs);
    assert(g.subrange(0x0, 0x8) =~= le_bytes64(regs.rax));
    assert(g.subrange(0x8, 0x10) =~= le_bytes64(regs.rcx));
    assert(g.subrange(0x10, 0x18) =~= le_bytes64(regs.rdx));
    assert(g.subrange(0x18, 0x20) =~= le_bytes64(regs.rbx));
    assert(g.subrange(0x20, 0x28) =~= le_bytes64(regs.rsp));
    assert(g.subrange(0x28, 0x30) =~= le_bytes64(regs.rbp));
    assert(g.subrange(0x30, 0x38) =~= le_bytes64(regs.rsi));
    assert(g.subrange(0x38, 0x40) =~= le_bytes64(regs.rdi));
    assert(g.subrange(0x40, 0x48) =~= le_bytes64(regs.r8));
    assert(g.subrange(0x48, 0x50) =~= le_bytes64(regs.r9));
    assert(g.subrange(0x50, 0x58) =~= le_bytes64(regs.r10));
    assert(g.subrange(0x58, 0x60) =~= le_bytes64(regs.r11));
    assert(g.subrange(0x60, 0x68) =~= le_bytes64(regs.r12));
    assert(g.subrange(0x68, 0x70) =~= le_bytes64(regs.r13));
    assert(g.subrange(0x70, 0x78) =~= le_bytes64(regs.r14));
    assert(g.subrange(0x78, 0x80) =~= le_bytes64(regs.r15));
    assert(g.subrange(0x80, 0x88) =~= le_bytes64(regs.rip));
}

/// `Xmm0` to `Xmm15` lie from 0xa0 on in the save area, 16 bytes each.
proof fn lemma_xmm_layout(regs: Regs64)
    ensures
        xmm_save_area(regs).subrange(0xa0, 0xb0) == le_bytes128(regs.xmm0),
        xmm_save_area(regs).subrange(0xb0, 0xc0) == le_bytes128(regs.xmm1),
        xmm_save_area(regs).subrange(0xc0, 0xd0) == le_bytes128(regs.xmm2),
        xmm_save_area(regs).subrange(0xd0, 0xe0) == le_bytes128(regs.xmm3),
        xmm_save_area(regs).subrange(0xe0, 0xf0) == le_bytes128(regs.xmm4),
        xmm_save_area(regs).subrange(0xf0, 0x100) == le_bytes128(regs.xmm5),
        xmm_save_area(regs).subrange(0x100, 0x110) == le_bytes128(regs.xmm6),
        xmm_save_area(regs).subrange(0x110, 0x120) == le_bytes128(regs.xmm7),
        xmm_save_area(regs).subrange(0x120, 0x130) == le_bytes128(regs.xmm8),
        xmm_save_area(regs).subrange(0x130, 0x140) == le_bytes128(regs.xmm9),
        xmm_save_area(regs).subrange(0x140, 0x150) == le_bytes128(regs.xmm10),
        xmm_save_area(regs).subrange(0x150, 0x160) == le_bytes128(regs.xmm11),
        xmm_save_area(regs).subrange(0x160, 0x170) == le_bytes128(regs.xmm12),
        xmm_save_area(regs).subrange(0x170, 0x180) == le_bytes128(regs.xmm13),
        xmm_save_area(regs).subrange(0x180, 0x190) == le_bytes128(regs.xmm14),
        xmm_save_area(regs).subrange(0x190, 0x1a0) == le_bytes128(regs.xmm15),
{
    broadcast use lemma_le_bytes16_len, lemma_le_bytes32_len, lemma_le_bytes128_len;
    let c = xmm_area_control();
    let m = mm_bytes(regs);
    let x = xmm_bytes(regs);
    assert(c.len() == 32);
    assert(m.len() == 128);
    assert(x.len() == 256);
    let a = xmm_save_area(regs);
    assert(x.subrange(0x0, 0x10) =~= le_bytes128(regs.xmm0));
    assert(a.subrange(0xa0, 0xb0) =~= x.subrange(0x0, 0x10));
    assert(x.subrange(0x10, 0x20) =~= le_bytes128(regs.xmm1));
    assert(a.subrange(0xb0, 0xc0) =~= x.subrange(0x10, 0x20));
    assert(x.subrange(0x20, 0x30) =~= le_bytes128(regs.xmm2));
    assert(a.subrange(0xc0, 0xd0) =~= x.subrange(0x20, 0x30));
    assert(x.subrange(0x30, 0x40) =~= le_bytes128(regs.xmm3));
    assert(a.subrange(0xd0, 0xe0) =~= x.subrange(0x30, 0x40));
    assert(x.subrange(0x40, 0x50) =~= le_bytes128(regs.xmm4));
    assert(a.subrange(0xe0, 0xf0) =~= x.subrange(0x40, 0x50));
    assert(x.subrange(0x50, 0x60) =~= le_bytes128(regs.xmm5));
    assert(a.subrange(0xf0, 0x100) =~= x.subrange(0x50, 0x60));
    assert(x.subrange(0x60, 0x70) =~= le_bytes128(regs.xmm6));
    assert(a.subrange(0x100, 0x110) =~= x.subrange(0x60, 0x70));
    assert(x.subrange(0x70, 0x80) =~= le_bytes128(regs.xmm7));
    assert(a.subrange(0x110, 0x120) =~= x.subrange(0x70, 0x80));
    assert(x.subrange(0x80, 0x90) =~= le_bytes128(regs.xmm8));
    assert(a.subrange(0x120, 0x130) =~= x.subrange(0x80, 0x90));
    assert(x.subrange(0x90, 0xa0) =~= le_bytes128(regs.xmm9));
    assert(a.subrange(0x130, 0x140) =~= x.subrange(0x90, 0xa0));
    assert(x.subrange(0xa0, 0xb0) =~= le_bytes128(regs.xmm10));
    assert(a.subrange(0x140, 0x150) =~= x.subrange(0xa0, 0xb0));
    assert(x.subrange(0xb0, 0xc0) =~= le_bytes128(regs.xmm11));
    assert(a.subrange(0x150, 0x160) =~= x.subrange(0xb0, 0xc0));
    assert(x.subrange(0xc0, 0xd0) =~= le_bytes128(regs.xmm12));
    assert(a.subrange(0x160, 0x170) =~= x.subrange(0xc0, 0xd0));
    assert(x.subrange(0xd0, 0xe0) =~= le_bytes128(regs.xmm13));
    assert(a.subrange(0x170, 0x180) =~= x.subrange(0xd0, 0xe0));
    assert(x.subrange(0xe0, 0xf0) =~= le_bytes128(regs.xmm14));
    assert(a.subrange(0x180, 0x190) =~= x.subrange(0xe0, 0xf0));
    assert(x.subrange(0xf0, 0x100) =~= le_bytes128(regs.xmm15));
    assert(a.subrange(0x190, 0x1a0) =~= x.subrange(0xf0, 0x100));
}

/// The integer register at position `i` of the record's register block lies at 0x78 + 8 * `i`.
proof fn lemma_amd64_gpr_at(regs: Regs64, eflags: u32, i: int, v: u64)
    requires
        0 <= i < 17,
        amd64_gprs(regs).subrange(8 * i, 8 * i + 8) == le_bytes64(v),
    ensures
        amd64_context(regs, eflags).subrange(0x78 + 8 * i, 0x80 + 8 * i) == le_bytes64(v),
{
    broadcast use lemma_le_bytes16_len, lemma_le_bytes32_len, lemma_le_bytes64_len, lemma_le_bytes128_len;
    let h = amd64_head(regs, eflags);
    let g = amd64_gprs(regs);
    assert(h.len() == 120);
    assert(g.len() == 136);
    assert(amd64_context(regs, eflags).subrange(0x78 + 8 * i, 0x80 + 8 * i) =~= g.subrange(8 * i, 8 * i + 8));
}

/// `Xmm` register `i` of the save area lies at 0x1a0 + 16 * `i` in the record.
proof fn lemma_amd64_xmm_at(regs: Regs64, eflags: u32, i: int, v: u128)
    requires
        0 <= i < 16,
        xmm_save_area(regs).subrange(0xa0 + 16 * i, 0xb0 + 16 * i) == le_bytes128(v),
    ensures
        amd64_context(regs, eflags).subrange(0x1a0 + 16 * i, 0x1b0 + 16 * i) == le_bytes128(v),
{
    broadcast use lemma_le_bytes16_len, lemma_le_bytes32_len, lemma_le_bytes64_len, lemma_le_bytes128_len;
    let h = amd64_head(regs, eflags);
    let g = amd64_gprs(regs);
    let x = xmm_save_area(regs);
    assert(h.len() == 120);
    assert(g.len() == 136);
    assert(x.len() == 512);
    assert(amd64_context(regs, eflags).subrange(0x1a0 + 16 * i, 0x1b0 + 16 * i) =~= x.subrange(
        0xa0 + 16 * i,
        0xb0 + 16 * i,
    ));
}

/// `LittleEndian::write_u16` of byteorder into a two-byte buffer: the bytes of `n`, least significant first.
#[verifier::external_body]
fn le16(n: u16) -> (r: Vec<u8>)
    ensures
        r@ == le_bytes16(n),
{
    let mut buf = [0u8; 2];
    LittleEndian::write_u16(&mut buf, n);
    buf.to_vec()
}

/// `LittleEndian::write_u32` of byteorder into a four-byte buffer: the bytes of `n`, least significant first.
#[verifier::external_body]
fn le32(n: u32) -> (r: Vec<u8>)
    ensures
        r@ == le_bytes32(n),
{
    let mut buf = [0u8; 4];
    LittleEndian::write_u32(&mut buf, n);
    buf.to_vec()
}

/// `LittleEndian::write_u64` of byteorder into an eight-byte buffer: the bytes of `n`, least significant first.
#[verifier::external_body]
fn le64(n: u64) -> (r: Vec<u8>)
    ensures
        r@ == le_bytes64(n),
{
    let mut buf = [0u8; 8];
    LittleEndian::write_u64(&mut buf, n);
    buf.to_vec()
}

/// `ContextFlagsX86::CONTEXT_X86_ALL` of minidump, whose bits are
/// `CONTEXT_X86 (0x10000) | 0x1 | 0x2 | 0x4 | 0x8 | 0x10 | 0x20`.
#[verifier::external_body]
fn context_x86_all() -> (r: u32)
    ensures
        r == 0x1003f,
{
    md::ContextFlagsX86::CONTEXT_X86_ALL.bits()
}

/// `ContextFlagsAmd64::CONTEXT_AMD64_ALL` of minidump, whose bits are
/// `CONTEXT_AMD64 (0x100000) | 0x1 | 0x2 | 0x8 | 0x4 | 0x10`.
#[verifier::external_body]
fn context_amd64_all() -> (r: u32)
    ensures
        r == 0x10001f,
{
    md::ContextFlagsAmd64::CONTEXT_AMD64_ALL.bits()
}

fn put_u8(out: &mut Vec<u8>, v: u8)
    ensures
        final(out)@ == old(out)@ + seq![v],
{
    out.push(v);
    assert(out@ =~= old(out)@ + seq![v]);
}

fn put_u16(out: &mut Vec<u8>, v: u16)
    ensures
        final(out)@ == old(out)@ + le_bytes16(v),
{
    let mut b = le16(v);
    out.append(&mut b);
}

fn put_u32(out: &mut Vec<u8>, v: u32)
    ensures
        final(out)@ == old(out)@ + le_bytes32(v),
{
    let mut b = le32(v);
    out.append(&mut b);
}

fn put_u64(out: &mut Vec<u8>, v: u64)
    ensures
        final(out)@ == old(out)@ + le_bytes64(v),
{
    let mut b = le64(v);
    out.append(&mut b);
}

/// Appends the sixteen little-endian bytes of `value` (its `to_le_bytes`).
pub fn write_u128(output: &mut Vec<u8>, value: u128)
    ensures
        final(output)@ == old(output)@ + le_bytes128(value),
{
    let mut lo = crate::bytes::encode_u64(value as u64);
    let mut hi = crate::bytes::encode_u64((value >> 64u32) as u64);
    let ghost before = output@;
    output.append(&mut lo);
    output.append(&mut hi);
    assert(output@ =~= before + le_bytes128(value));
}

fn put_zeros(out: &mut Vec<u8>, n: usize)
    ensures
        final(out)@ == old(out)@ + zeros(n as nat),
{
    let mut k: usize = 0;
    while k < n
        invariant
            k <= n,
            out@ =~= old(out)@ + zeros(k as nat),
        decreases n - k,
    {
        out.push(0);
        k = k + 1;
    }
}

proof fn lemma_zero_words()
    ensures
        le_bytes64(0) =~= zeros(8),
        le_bytes128(0) =~= zeros(16),
{
    assert((0u64 as u8) == 0 && ((0u64 >> 8u64) as u8) == 0 && ((0u64 >> 16u64) as u8) == 0 && ((0u64
        >> 24u64) as u8) == 0 && ((0u64 >> 32u64) as u8) == 0 && ((0u64 >> 40u64) as u8) == 0 && ((0u64
        >> 48u64) as u8) == 0 && ((0u64 >> 56u64) as u8) == 0) by (bit_vector);
    assert((0u128 as u64) == 0 && ((0u128 >> 64u128) as u64) == 0) by (bit_vector);
}

/// Appends the `XMM_SAVE_AREA32` of `regs`.
pub fn write_xmm_save_area32(output: &mut Vec<u8>, regs: &Regs64)
    ensures
        final(output)@ == old(output)@ + xmm_save_area(*regs),
{
    let mut area: Vec<u8> = Vec::new();
    xmm_area_head(&mut area);
    assert(area@ =~= xmm_area_control());
    xmm_area_regs(&mut area, regs);
    put_zeros(&mut area, 96);
    assert(area@ =~= xmm_save_area(*regs));
    output.append(&mut area);
}

fn xmm_area_head(output: &mut Vec<u8>)
    requires
        old(output)@.len() == 0,
    ensures
        final(output)@ == le_bytes16(0x027f) + le_bytes16(0) + seq![0u8] + seq![0u8] + le_bytes16(0) + le_bytes32(0)
        + le_bytes16(0) + le_bytes16(0) + le_bytes32(0) + le_bytes16(0) + le_bytes16(0) + le_bytes32(
        0x1f80,
    ) + le_bytes32(0xffff),
{
    put_u16(output, 0x027f);
    assert(output@ =~= le_bytes16(0x027f));
    put_u16(output, 0);
    put_u8(output, 0);
    put_u8(output, 0);
    put_u16(output, 0);
    put_u32(output, 0);
    put_u16(output, 0);
    put_u16(output, 0);
    put_u32(output, 0);
    put_u16(output, 0);
    put_u16(output, 0);
    put_u32(output, 0x1f80);
    put_u32(output, 0xffff);
}

fn xmm_area_regs(output: &mut Vec<u8>, regs: &Regs64)
    ensures
        final(output)@ == old(output)@ + mm_bytes(*regs) + xmm_bytes(*regs),
{
    put_mm(output, regs);
    put_xmm(output, regs);
}

#[verifier::spinoff_prover]
fn put_mm(output: &mut Vec<u8>, regs: &Regs64)
    ensures
        final(output)@ == old(output)@ + mm_bytes(*regs),
{
    broadcast use lemma_le_bytes128_len;
    let ghost o = output@;
    write_u128(output, regs.mm0);
    write_u128(output, regs.mm1);
    write_u128(output, regs.mm2);
    write_u128(output, regs.mm3);
    write_u128(output, regs.mm4);
    write_u128(output, regs.mm5);
    write_u128(output, regs.mm6);
    write_u128(output, regs.mm7);
    assert(output@ =~= o + mm_bytes(*regs));
}

#[verifier::spinoff_prover]
fn put_xmm(output: &mut Vec<u8>, regs: &Regs64)
    ensures
        final(output)@ == old(output)@ + xmm_bytes(*regs),
{
    broadcast use lemma_le_bytes128_len;
    let ghost o = output@;
    write_u128(output, regs.xmm0);
    write_u128(output, regs.xmm1);
    write_u128(output, regs.xmm2);
    write_u128(output, regs.xmm3);
    write_u128(output, regs.xmm4);
    write_u128(output, regs.xmm5);
    write_u128(output, regs.xmm6);
    write_u128(output, regs.xmm7);
    let ghost h = output@;
    assert(h =~= o + (le_bytes128(regs.xmm0) + le_bytes128(regs.xmm1) + le_bytes128(regs.xmm2) + le_bytes128(regs.xmm3)
        + le_bytes128(regs.xmm4) + le_bytes128(regs.xmm5) + le_bytes128(regs.xmm6) + le_bytes128(regs.xmm7)));
    write_u128(output, regs.xmm8);
    write_u128(output, regs.xmm9);
    write_u128(output, regs.xmm10);
    write_u128(output, regs.xmm11);
    write_u128(output, regs.xmm12);
    write_u128(output, regs.xmm13);
    write_u128(output, regs.xmm14);
    write_u128(output, regs.xmm15);
    assert(output@ =~= o + xmm_bytes(*regs));
}

/// The `CONTEXT_X86` record of `regs` and `flags`.
pub fn build_x86_context(regs: &Regs64, flags: &Flags) -> (r: Vec<u8>)
    ensures
        r@ == x86_context(*regs, eflags_of(*flags)),
        r@.len() == CONTEXT_X86_SIZE,
{
    let mut output: Vec<u8> = Vec::with_capacity(CONTEXT_X86_SIZE);
    put_u32(&mut output, context_x86_all());
    assert(output@ =~= le_bytes32(0x1003f));
    put_u32(&mut output, regs.dr0 as u32);
    put_u32(&mut output, regs.dr1 as u32);
    put_u32(&mut output, regs.dr2 as u32);
    put_u32(&mut output, regs.dr3 as u32);
    put_u32(&mut output, regs.dr6 as u32);
    put_u32(&mut output, regs.dr7 as u32);

    put_u32(&mut output, 0x027f);
    put_u32(&mut output, 0);
    put_u32(&mut output, 0);
    put_u32(&mut output, 0);
    put_u32(&mut output, 0);
    put_u32(&mut output, 0);
    put_u32(&mut output, 0);
    put_zeros(&mut output, 80);
    put_u32(&mut output, 0);

    put_u32(&mut output, regs.gs as u32);
    put_u32(&mut output, if regs.fs == 0 { 0x3b } else { regs.fs as u32 });
    put_u32(&mut output, 0x23);
    put_u32(&mut output, 0x23);
    put_u32(&mut output, regs.get_edi() as u32);
    put_u32(&mut output, regs.get_esi() as u32);
    put_u32(&mut output, regs.get_ebx() as u32);
    put_u32(&mut output, regs.get_edx() as u32);
    put_u32(&mut output, regs.get_ecx() as u32);
    put_u32(&mut output, regs.get_eax() as u32);
    put_u32(&mut output, regs.get_ebp() as u32);
    put_u32(&mut output, regs.get_eip() as u32);
    put_u32(&mut output, 0x1b);
    put_u32(&mut output, flags.dump());
    put_u32(&mut output, regs.get_esp() as u32);
    put_u32(&mut output, 0x23);
    put_zeros(&mut output, 512);
    assert(output@ =~= x86_context(*regs, eflags_of(*flags)));
    output
}

fn amd64_put_head(output: &mut Vec<u8>, regs: &Regs64, flags: &Flags)
    requires
        old(output)@.len() == 0,
    ensures
        final(output)@ == amd64_head(*regs, eflags_of(*flags)),
{
    let mut i: usize = 0;
    while i < 6
        invariant
            i <= 6,
            output@ =~= zeros(8 * i as nat),
        decreases 6 - i,
    {
        proof {
            lemma_zero_words();
        }
        put_u64(output, 0);
        i = i + 1;
    }
    put_u32(output, context_amd64_all());
    put_u32(output, 0x1f80);
    put_u16(output, 0x33);
    put_u16(output, 0);
    put_u16(output, 0);
    put_u16(output, regs.fs as u16);
    put_u16(output, regs.gs as u16);
    put_u16(output, 0x2b);
    put_u32(output, flags.dump());
    put_u64(output, regs.dr0);
    put_u64(output, regs.dr1);
    put_u64(output, regs.dr2);
    put_u64(output, regs.dr3);
    put_u64(output, regs.dr6);
    put_u64(output, regs.dr7);
}

fn amd64_put_gprs(output: &mut Vec<u8>, regs: &Regs64)
    ensures
        final(output)@ == old(output)@ + amd64_gprs(*regs),
{
    let mut g: Vec<u8> = Vec::new();
    put_u64(&mut g, regs.rax);
    assert(g@ =~= le_bytes64(regs.rax));
    put_u64(&mut g, regs.rcx);
    put_u64(&mut g, regs.rdx);
    put_u64(&mut g, regs.rbx);
    put_u64(&mut g, regs.rsp);
    put_u64(&mut g, regs.rbp);
    put_u64(&mut g, regs.rsi);
    put_u64(&mut g, regs.rdi);
    put_u64(&mut g, regs.r8);
    put_u64(&mut g, regs.r9);
    put_u64(&mut g, regs.r10);
    put_u64(&mut g, regs.r11);
    put_u64(&mut g, regs.r12);
    put_u64(&mut g, regs.r13);
    put_u64(&mut g, regs.r14);
    put_u64(&mut g, regs.r15);
    put_u64(&mut g, regs.rip);
    output.append(&mut g);
}

proof fn lemma_xmm_len(regs: Regs64)
    ensures
        xmm_save_area(regs).len() == 512,
{
    broadcast use lemma_le_bytes16_len, lemma_le_bytes32_len, lemma_le_bytes128_len;
}

proof fn lemma_amd64_len(regs: Regs64, eflags: u32)
    ensures
        amd64_context(regs, eflags).len() == CONTEXT_AMD64_SIZE,
{
    broadcast use lemma_le_bytes16_len, lemma_le_bytes32_len, lemma_le_bytes64_len;
    lemma_xmm_len(regs);
    assert(amd64_head(regs, eflags).len() == 120);
    assert(amd64_gprs(regs).len() == 136);
}

/// The `CONTEXT_AMD64` record of `regs` and `flags`.
pub fn build_amd64_context(regs: &Regs64, flags: &Flags) -> (r: Vec<u8>)
    ensures
        r@ == amd64_context(*regs, eflags_of(*flags)),
        r@.len() == CONTEXT_AMD64_SIZE,
{
    let mut output: Vec<u8> = Vec::with_capacity(CONTEXT_AMD64_SIZE);
    amd64_put_head(&mut output, regs, flags);
    amd64_put_gprs(&mut output, regs);
    write_xmm_save_area32(&mut output, regs);

    let ghost before_tail = output@;
    let mut j: usize = 0;
    while j < 26
        invariant
            j <= 26,
            output@ =~= before_tail + zeros(16 * j as nat),
        decreases 26 - j,
    {
        proof {
            lemma_zero_words();
        }
        write_u128(&mut output, 0);
        j = j + 1;
    }

    let ghost before_last = output@;
    let mut k: usize = 0;
    while k < 6
        invariant
            k <= 6,
            output@ =~= before_last + zeros(8 * k as nat),
        decreases 6 - k,
    {
        proof {
            lemma_zero_words();
        }
        put_u64(&mut output, 0);
        k = k + 1;
    }
    proof {
        lemma_amd64_len(*regs, eflags_of(*flags));
    }
    assert(output@ == amd64_context(*regs, eflags_of(*flags)));
    output
}

/// The minidump thread context of `regs` and `flags` for `arch`.
pub fn build_thread_context(arch: Arch, regs: &Regs64, flags: &Flags) -> (r: Result<Vec<u8>, ContextError>)
    ensures
        match arch {
            Arch::X86 => r matches Ok(v) && v@ == x86_context(*regs, eflags_of(*flags)),
            Arch::X86_64 => r matches Ok(v) && v@ == amd64_context(*regs, eflags_of(*flags)),
            Arch::Aarch64 => r == Err::<Vec<u8>, ContextError>(ContextError::UnsupportedArch),
        },
{
    match arch {
        Arch::X86 => Ok(build_x86_context(regs, flags)),
        Arch::X86_64 => Ok(build_amd64_context(regs, flags)),
        Arch::Aarch64 => Err(ContextError::UnsupportedArch),
    }
}

} // verus!
