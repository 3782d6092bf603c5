//! The hash bucket of a module name as an alternating sum of its units.
use vstd::prelude::*;
use crate::ldr_lists::{bucket_of, ldr_hash, fold_upper};
use crate::text::utf16_units;

verus! {

/// The alternating sum of the case-folded units: the last counted plus, the
/// one before it minus, and so on.
pub open spec fn alt_sum(units: Seq<u16>) -> int
    decreases units.len(),
{
    if units.len() == 0 {
        0
    } else {
        fold_upper(units.last()) as int - alt_sum(units.drop_last())
    }
}

/// One hash step, `h * 0x1003f + c` taken modulo 2^32, is `c - h` modulo 32,
/// for 0x1003f is one less than a multiple of 32 and 2^32 is a multiple of 32.
proof fn lemma_hash_step_mod32(h: u32, c: u32)
    ensures
        vstd::wrapping::u32_specs::wrapping_add(vstd::wrapping::u32_specs::wrapping_mul(h, 0x1003f), c) as int % 32
            == (c - h) % 32,
{
    let p: int = h as int * 0x1003f;
    let m = vstd::wrapping::u32_specs::wrapping_mul(h, 0x1003f);
    assert(m as int == p % 0x1_0000_0000);
    vstd::arithmetic::div_mod::lemma_fundamental_div_mod(p, 0x1_0000_0000);
    let t = p / 0x1_0000_0000;
    assert(m as int == 32 * (-0x800_0000 * t) + p);
    vstd::arithmetic::div_mod::lemma_mod_multiples_vanish(-0x800_0000 * t, p, 32);
    assert(p == 32 * (h as int * 2050) + (-(h as int)));
    vstd::arithmetic::div_mod::lemma_mod_multiples_vanish(h as int * 2050, -(h as int), 32);
    let r = vstd::wrapping::u32_specs::wrapping_add(m, c);
    if m as int + c as int > u32::MAX {
        assert(r as int == 32 * (-0x800_0000) + (m + c));
        vstd::arithmetic::div_mod::lemma_mod_multiples_vanish(-0x800_0000, m + c, 32);
    }
    assert(r as int % 32 == (m + c) % 32);
    vstd::arithmetic::div_mod::lemma_add_mod_noop(m as int, c as int, 32);
    vstd::arithmetic::div_mod::lemma_add_mod_noop(-(h as int), c as int, 32);
}

/// The hash is the alternating sum of the case-folded units, modulo 32.
proof fn lemma_hash_alternates(units: Seq<u16>)
    ensures
        ldr_hash(units) as int % 32 == alt_sum(units) % 32,
    decreases units.len(),
{
    if units.len() > 0 {
        let prev = units.drop_last();
        lemma_hash_alternates(prev);
        let h = ldr_hash(prev);
        let c = fold_upper(units.last()) as u32;
        lemma_hash_step_mod32(h, c);
        vstd::arithmetic::div_mod::lemma_sub_mod_noop_right(c as int, h as int, 32);
        vstd::arithmetic::div_mod::lemma_sub_mod_noop_right(c as int, alt_sum(prev), 32);
    }
}

/// The hash bucket of a module name is the alternating sum of its case-folded
/// UTF-16 units modulo 32: the last unit counted plus, the one before it minus,
/// and so on, ASCII lower case folded to upper case.
pub proof fn law_bucket_alternating(s: Seq<char>)
    ensures
        bucket_of(s) as int == alt_sum(utf16_units(s)) % 32,
{
    let h = ldr_hash(utf16_units(s));
    lemma_hash_alternates(utf16_units(s));
    assert(h & 0x1f == h % 32) by (bit_vector);
}

} // verus!
