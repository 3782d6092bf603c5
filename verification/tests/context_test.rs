use mwemu_ldr::context::{
    build_amd64_context, build_thread_context, build_x86_context, write_u128, write_xmm_save_area32,
    ContextError, CONTEXT_AMD64_SIZE, CONTEXT_X86_SIZE,
};
use mwemu_ldr::regs::{Arch, Flags, Regs64};

fn u32_at(b: &[u8], off: usize) -> u32 {
    u32::from_le_bytes([b[off], b[off + 1], b[off + 2], b[off + 3]])
}

fn u16_at(b: &[u8], off: usize) -> u16 {
    u16::from_le_bytes([b[off], b[off + 1]])
}

fn u64_at(b: &[u8], off: usize) -> u64 {
    let mut a = [0u8; 8];
    a.copy_from_slice(&b[off..off + 8]);
    u64::from_le_bytes(a)
}

fn sample_regs() -> Regs64 {
    let mut r = Regs64::new();
    r.rax = 0x1111_2222_3333_4444;
    r.rbx = 0xb;
    r.rcx = 0xc;
    r.rdx = 0xd;
    r.rsi = 0x51;
    r.rdi = 0xd1;
    r.rbp = 0xbb;
    r.rsp = 0x0000_7fff_0012_ff00;
    r.rip = 0x0000_0001_4000_1000;
    r.r8 = 8;
    r.r15 = 15;
    r.dr0 = 0xd0;
    r.dr7 = 0xd7;
    r.fs = 0;
    r.gs = 0x2b;
    r.mm0 = 0x0102_0304_0506_0708_090a_0b0c_0d0e_0f10;
    r.xmm15 = u128::MAX;
    r
}

fn sample_flags() -> Flags {
    let mut f = Flags::new();
    f.f_cf = true;
    f.f_zf = true;
    f.f_if = true;
    f
}

#[test]
fn eflags_word_packs_flags() {
    assert_eq!(Flags::new().dump(), 0);
    assert_eq!(sample_flags().dump(), 0x1 | 0x40 | 0x200);
    let mut f = Flags::new();
    f.f_of = true;
    f.f_df = true;
    f.f_pf = true;
    assert_eq!(f.dump(), 0x800 | 0x400 | 0x4);
}

#[test]
fn x86_context_layout() {
    let regs = sample_regs();
    let c = build_x86_context(&regs, &sample_flags());
    assert_eq!(c.len(), CONTEXT_X86_SIZE);
    assert_eq!(c.len(), 716);
    assert_eq!(u32_at(&c, 0), 0x1003f);
    assert_eq!(u32_at(&c, 4), 0xd0);
    assert_eq!(u32_at(&c, 0x18), 0xd7);
    assert_eq!(u32_at(&c, 0x1c), 0x027f);
    assert_eq!(u32_at(&c, 0x8c), 0x2b);
    assert_eq!(u32_at(&c, 0x90), 0x3b);
    assert_eq!(u32_at(&c, 0x94), 0x23);
    assert_eq!(u32_at(&c, 0x98), 0x23);
    assert_eq!(u32_at(&c, 0x9c), 0xd1);
    assert_eq!(u32_at(&c, 0xa0), 0x51);
    assert_eq!(u32_at(&c, 0xa4), 0xb);
    assert_eq!(u32_at(&c, 0xa8), 0xd);
    assert_eq!(u32_at(&c, 0xac), 0xc);
    assert_eq!(u32_at(&c, 0xb0), 0x3333_4444);
    assert_eq!(u32_at(&c, 0xb4), 0xbb);
    assert_eq!(u32_at(&c, 0xb8), 0x4000_1000);
    assert_eq!(u32_at(&c, 0xbc), 0x1b);
    assert_eq!(u32_at(&c, 0xc0), 0x241);
    assert_eq!(u32_at(&c, 0xc4), 0x0012_ff00);
    assert_eq!(u32_at(&c, 0xc8), 0x23);
    assert!(c[0xcc..].iter().all(|b| *b == 0));
}

#[test]
fn x86_context_keeps_nonzero_fs() {
    let mut regs = sample_regs();
    regs.fs = 0x53;
    let c = build_x86_context(&regs, &Flags::new());
    assert_eq!(u32_at(&c, 0x90), 0x53);
}

#[test]
fn amd64_context_layout() {
    let regs = sample_regs();
    let c = build_amd64_context(&regs, &sample_flags());
    assert_eq!(c.len(), CONTEXT_AMD64_SIZE);
    assert_eq!(c.len(), 1232);
    assert!(c[0..0x30].iter().all(|b| *b == 0));
    assert_eq!(u32_at(&c, 0x30), 0x10001f);
    assert_eq!(u32_at(&c, 0x34), 0x1f80);
    assert_eq!(u16_at(&c, 0x38), 0x33);
    assert_eq!(u16_at(&c, 0x3e), 0);
    assert_eq!(u16_at(&c, 0x40), 0x2b);
    assert_eq!(u16_at(&c, 0x42), 0x2b);
    assert_eq!(u32_at(&c, 0x44), 0x241);
    assert_eq!(u64_at(&c, 0x48), 0xd0);
    assert_eq!(u64_at(&c, 0x70), 0xd7);
    assert_eq!(u64_at(&c, 0x78), 0x1111_2222_3333_4444);
    assert_eq!(u64_at(&c, 0x80), 0xc);
    assert_eq!(u64_at(&c, 0x88), 0xd);
    assert_eq!(u64_at(&c, 0x90), 0xb);
    assert_eq!(u64_at(&c, 0x98), 0x0000_7fff_0012_ff00);
    assert_eq!(u64_at(&c, 0xa0), 0xbb);
    assert_eq!(u64_at(&c, 0xa8), 0x51);
    assert_eq!(u64_at(&c, 0xb0), 0xd1);
    assert_eq!(u64_at(&c, 0xb8), 8);
    assert_eq!(u64_at(&c, 0xf0), 15);
    assert_eq!(u64_at(&c, 0xf8), 0x0000_0001_4000_1000);
    assert_eq!(u16_at(&c, 0x100), 0x027f);
    assert_eq!(u32_at(&c, 0x118), 0x1f80);
    assert_eq!(u32_at(&c, 0x11c), 0xffff);
    assert_eq!(u64_at(&c, 0x120), 0x090a_0b0c_0d0e_0f10);
    assert_eq!(u64_at(&c, 0x128), 0x0102_0304_0506_0708);
    assert!(c[0x290..0x2a0].iter().all(|b| *b == 0xff));
    assert!(c[0x2a0..].iter().all(|b| *b == 0));
}

#[test]
fn xmm_save_area_is_512_bytes() {
    let mut out = vec![0xaau8];
    write_xmm_save_area32(&mut out, &sample_regs());
    assert_eq!(out.len(), 1 + 512);
    assert_eq!(out[0], 0xaa);
    assert_eq!(u16_at(&out, 1), 0x027f);
}

#[test]
fn u128_is_written_little_endian() {
    let mut out = vec![1u8];
    write_u128(&mut out, 0x0f0e_0d0c_0b0a_0908_0706_0504_0302_0100);
    assert_eq!(out.len(), 17);
    assert_eq!(out[1], 0x00);
    assert_eq!(out[2], 0x01);
    assert_eq!(out[16], 0x0f);
}

#[test]
fn thread_context_by_architecture() {
    let regs = sample_regs();
    let flags = sample_flags();
    assert_eq!(build_thread_context(Arch::X86, &regs, &flags), Ok(build_x86_context(&regs, &flags)));
    assert_eq!(build_thread_context(Arch::X86_64, &regs, &flags), Ok(build_amd64_context(&regs, &flags)));
}

#[test]
fn aarch64_thread_context_is_refused() {
    assert_eq!(
        build_thread_context(Arch::Aarch64, &sample_regs(), &sample_flags()),
        Err(ContextError::UnsupportedArch)
    );
}

#[test]
fn low_halves_of_registers() {
    let regs = sample_regs();
    assert_eq!(regs.get_eax(), 0x3333_4444);
    assert_eq!(regs.get_esp(), 0x0012_ff00);
    assert_eq!(regs.get_eip(), 0x4000_1000);
    assert_eq!(regs.get_ebx(), 0xb);
    assert_eq!(regs.get_ecx(), 0xc);
    assert_eq!(regs.get_edx(), 0xd);
    assert_eq!(regs.get_esi(), 0x51);
    assert_eq!(regs.get_edi(), 0xd1);
    assert_eq!(regs.get_ebp(), 0xbb);
}
