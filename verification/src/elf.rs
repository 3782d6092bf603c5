//! Choosing where execution starts in a loaded ELF64 image.
use vstd::prelude::*;
use crate::emu::{Emu, Elf64, Elf64Section, CFG_DEFAULT_BASE};
use crate::regs::Regs64;
use crate::maps::Maps;
use crate::text::str_eq;

verus! {

/// How the entry point was chosen.
#[derive(Clone, Copy, Debug, PartialEq, Eq, Structural)]
pub enum EntrySelection {
    /// The configuration names an entry point.
    Configured(u64),
    /// The header's entry point lies inside `.text`.
    InText(u64),
    /// The header's entry point lies before `.text` and is relative to the load base.
    Relative(u64),
    /// The header's entry point lies past the end of `.text`.
    BeyondText,
    /// There is no `.text` section, or it is at address 0.
    NoText,
}

/// Address and size of the first section named ".text", or (0, 0).
pub open spec fn text_section(secs: Seq<(Seq<char>, u64, u64)>) -> (u64, u64)
    decreases secs.len(),
{
    if secs.len() == 0 {
        (0, 0)
    } else if secs[0].0 == ".text"@ {
        (secs[0].1, secs[0].2)
    } else {
        text_section(secs.drop_first())
    }
}

/// The sections of an image as plain values.
pub open spec fn sections_of(e: &Elf64) -> Seq<(Seq<char>, u64, u64)> {
    e.sections@.map_values(|s: Elf64Section| (s.name@, s.addr, s.size))
}

/// The entry rule: a configured entry point wins; otherwise the header's
/// entry point when it lies in `.text`, or that entry point plus the load
/// base when it lies before `.text`.
pub open spec fn entry_rule(cfg_entry: u64, e_entry: u64, base: u64, text: (u64, u64)) -> EntrySelection {
    if text.0 == 0 {
        EntrySelection::NoText
    } else if cfg_entry != CFG_DEFAULT_BASE {
        EntrySelection::Configured(cfg_entry)
    } else if e_entry >= text.0 && e_entry < text.0 + text.1 {
        EntrySelection::InText(e_entry)
    } else if e_entry < text.0 {
        EntrySelection::Relative(vstd::wrapping::u64_specs::wrapping_add(e_entry, base))
    } else {
        EntrySelection::BeyondText
    }
}

/// The entry point chosen for `elf64` under configured entry point `cfg_entry`.
pub open spec fn entry_of(elf64: &Elf64, cfg_entry: u64) -> EntrySelection {
    entry_rule(cfg_entry, elf64.e_entry, elf64.base, text_section(sections_of(elf64)))
}

/// The program counter an entry selection sets, if any.
pub open spec fn selected_pc(s: EntrySelection) -> Option<u64> {
    match s {
        EntrySelection::Configured(a) => Some(a),
        EntrySelection::InText(a) => Some(a),
        EntrySelection::Relative(a) => Some(a),
        _ => None,
    }
}

/// Address and size of the first section named ".text", or (0, 0).
pub fn find_text_section(elf64: &Elf64) -> (r: (u64, u64))
    ensures
        r == text_section(sections_of(elf64)),
{
    let ghost secs = sections_of(elf64);
    let mut i: usize = 0;
    assert(secs.subrange(0, secs.len() as int) =~= secs);
    while i < elf64.sections.len()
        invariant
            i <= elf64.sections@.len(),
            secs == sections_of(elf64),
            text_section(secs.subrange(i as int, secs.len() as int)) == text_section(secs),
        decreases elf64.sections@.len() - i,
    {
        let s = &elf64.sections[i];
        let ghost rest = secs.subrange(i as int, secs.len() as int);
        assert(rest[0] == (s.name@, s.addr, s.size));
        assert(rest.drop_first() =~= secs.subrange(i + 1, secs.len() as int));
        if str_eq(s.name.as_str(), ".text") {
            return (s.addr, s.size);
        }
        i = i + 1;
    }
    assert(secs.subrange(i as int, secs.len() as int) =~= Seq::<(Seq<char>, u64, u64)>::empty());
    (0, 0)
}

/// Chooses the entry point of `elf64` under configured entry point `cfg_entry`.
pub fn select_entry_point(elf64: &Elf64, cfg_entry: u64) -> (r: EntrySelection)
    ensures
        r == entry_of(elf64, cfg_entry),
{
    let (text_addr, text_sz) = find_text_section(elf64);
    if text_addr == 0 {
        return EntrySelection::NoText;
    }
    let e_entry = elf64.e_entry;
    if cfg_entry != CFG_DEFAULT_BASE {
        EntrySelection::Configured(cfg_entry)
    } else if e_entry >= text_addr && (e_entry as u128) < (text_addr as u128) + (text_sz as u128) {
        EntrySelection::InText(e_entry)
    } else if e_entry < text_addr {
        EntrySelection::Relative(e_entry.wrapping_add(elf64.base))
    } else {
        EntrySelection::BeyondText
    }
}

/// The first section named ".text" gives its address and size.
proof fn lemma_text_section_at(secs: Seq<(Seq<char>, u64, u64)>, i: int)
    requires
        0 <= i < secs.len(),
        secs[i].0 == ".text"@,
        forall|j: int| 0 <= j < i ==> secs[j].0 != ".text"@,
    ensures
        text_section(secs) == (secs[i].1, secs[i].2),
    decreases i,
{
    if i > 0 {
        let t = secs.drop_first();
        assert forall|j: int| 0 <= j < i - 1 implies t[j].0 != ".text"@ by {
            assert(t[j] == secs[j + 1]);
        }
        lemma_text_section_at(t, i - 1);
        assert(t[i - 1] == secs[i]);
    }
}

/// Without a section named ".text" there is no text section.
proof fn lemma_text_section_none(secs: Seq<(Seq<char>, u64, u64)>)
    requires
        forall|j: int| 0 <= j < secs.len() ==> secs[j].0 != ".text"@,
    ensures
        text_section(secs) == (0u64, 0u64),
    decreases secs.len(),
{
    if secs.len() > 0 {
        let t = secs.drop_first();
        assert forall|j: int| 0 <= j < t.len() implies t[j].0 != ".text"@ by {
            assert(t[j] == secs[j + 1]);
        }
        lemma_text_section_none(t);
    }
}

/// How the entry point of an image is chosen, given the first section named
/// ".text" of `elf64` (its `i`-th section, at address `t` with size `s`): a
/// configured entry point (anything but `CFG_DEFAULT_BASE`) wins when `t` is
/// not 0; otherwise the header's entry point `e` when `t <= e < t + s`, `e`
/// plus the load base when `e < t`, and none when `e` lies at or past
/// `t + s`. With `t` = 0 no entry point is chosen.
pub proof fn law_entry_choice(elf64: &Elf64, cfg_entry: u64, i: int)
    requires
        0 <= i < elf64.sections@.len(),
        elf64.sections@[i].name@ == ".text"@,
        forall|j: int| 0 <= j < i ==> elf64.sections@[j].name@ != ".text"@,
    ensures
        ({
            let t = elf64.sections@[i].addr;
            let s = elf64.sections@[i].size;
            let e = elf64.e_entry;
            &&& t == 0 ==> entry_of(elf64, cfg_entry) == EntrySelection::NoText
            &&& t != 0 && cfg_entry != CFG_DEFAULT_BASE ==> entry_of(elf64, cfg_entry) == EntrySelection::Configured(
                cfg_entry,
            )
            &&& t != 0 && cfg_entry == CFG_DEFAULT_BASE && t <= e && e < t + s ==> entry_of(elf64, cfg_entry)
                == EntrySelection::InText(e)
            &&& t != 0 && cfg_entry == CFG_DEFAULT_BASE && e < t ==> entry_of(elf64, cfg_entry)
                == EntrySelection::Relative(((e + elf64.base) % 0x1_0000_0000_0000_0000) as u64)
            &&& t != 0 && cfg_entry == CFG_DEFAULT_BASE && t + s <= e ==> entry_of(elf64, cfg_entry)
                == EntrySelection::BeyondText
        }),
{
    let secs = sections_of(elf64);
    assert(secs[i] == (elf64.sections@[i].name@, elf64.sections@[i].addr, elf64.sections@[i].size));
    assert forall|j: int| 0 <= j < i implies secs[j].0 != ".text"@ by {
        assert(secs[j].0 == elf64.sections@[j].name@);
    }
    lemma_text_section_at(secs, i);
}

/// An image without a section named ".text" gets no entry point.
pub proof fn law_entry_needs_text(elf64: &Elf64, cfg_entry: u64)
    requires
        forall|j: int| 0 <= j < elf64.sections@.len() ==> elf64.sections@[j].name@ != ".text"@,
    ensures
        entry_of(elf64, cfg_entry) == EntrySelection::NoText,
{
    let secs = sections_of(elf64);
    assert forall|j: int| 0 <= j < secs.len() implies secs[j].0 != ".text"@ by {
        assert(secs[j].0 == elf64.sections@[j].name@);
    }
    lemma_text_section_none(secs);
}

impl Emu {
    /// Takes over a parsed ELF64 image once its sections are in guest memory:
    /// `mapped` is the memory that mapping the image's sections (at the
    /// configured code base, linking dynamically when the image asks for shared
    /// libraries) and the Linux start-up setup left, and `started` the
    /// registers that setup left. The emulator takes both, records whether the
    /// image links dynamically, sets the program counter to the chosen entry
    /// point and keeps the image.
    pub fn load_elf64(&mut self, elf64: Elf64, mapped: Maps, started: Regs64)
        requires
            mapped.wf(),
            selected_pc(entry_of(&elf64, old(self).cfg.entry_point)) is Some,
        ensures
            final(self).wf(),
            final(self).maps == mapped,
            final(self).regs == (Regs64 { rip: selected_pc(entry_of(&elf64, old(self).cfg.entry_point))->0, ..started }),
            final(self).dyn_link == (elf64.dynamic@.len() > 0),
            final(self).elf64 == Some(elf64),
            final(self).cfg == old(self).cfg && final(self).base == old(self).base
                && final(self).ldr_seq == old(self).ldr_seq && final(self).handles == old(self).handles
                && final(self).flags == old(self).flags,
    {
        let dyn_link = elf64.get_dynamic().len() > 0;
        self.dyn_link = dyn_link;
        self.maps = mapped;
        self.regs = started;
        match select_entry_point(&elf64, self.cfg.entry_point) {
            EntrySelection::Configured(a) => self.set_pc(a),
            EntrySelection::InText(a) => self.set_pc(a),
            EntrySelection::Relative(a) => self.set_pc(a),
            _ => {
                assert(false);
            },
        }
        self.elf64 = Some(elf64);
    }
}

} // verus!
