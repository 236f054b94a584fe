//! Merging symbols and relocations: the symbols of all inputs, in link order,
//! each moved to the merged section that holds what its own section held;
//! and the relocations of all inputs, as they are.

use vstd::prelude::*;
use crate::image::{Image, Vsbf};
use crate::link::sections::{
    group, lemma_group_grows, lemma_own_group_grows, own_group, whole_group, Group,
};
use crate::link::strings::images;
use crate::reloc::Rel;
use crate::section::SectionType;
use crate::symbol::Sym;

verus! {

/// A number taken modulo `2^64`.
pub open spec fn wrap64(x: int) -> u64 {
    (x % 0x1_0000_0000_0000_0000) as u64
}

/// The index of the merged section of type `t` among the merged sections of
/// `objs`: the number of section types with a smaller type byte that occur.
pub open spec fn merged_index(objs: Seq<Image>, t: SectionType) -> nat {
    let text: nat = if whole_group(objs, SectionType::Text).present { 1 } else { 0 };
    let data: nat = if whole_group(objs, SectionType::Data).present { 1 } else { 0 };
    match t {
        SectionType::Text => 0,
        SectionType::Data => text,
        SectionType::Rodata => text + data,
    }
}

/// How far into its merged section the bytes of section `k` of image `i`
/// start: the sizes of all sections of the same type that come before it in
/// link order, added up.
pub open spec fn lead(objs: Seq<Image>, i: int, k: int) -> nat {
    let t = objs[i].sections[k].typ;
    own_group(group(objs, t, i as nat), objs[i], t, k as nat).size
}

/// A symbol of image `i` as it stands in the merged image: where the section
/// that defines it is one of its image's sections, the symbol is defined by
/// the merged section of that type, and its value grows by the lead of its
/// section, modulo `2^64`. A symbol with any other section index stays as it
/// is.
pub open spec fn placed(objs: Seq<Image>, i: int, sym: Sym) -> Sym {
    if sym.section < objs[i].sections.len() {
        Sym {
            section: merged_index(objs, objs[i].sections[sym.section as int].typ) as u16,
            value: wrap64(sym.value + lead(objs, i, sym.section as int)),
            ..sym
        }
    } else {
        sym
    }
}

/// The placed symbols of the first `m` images, in link order.
pub open spec fn merged_syms(objs: Seq<Image>, m: nat) -> Seq<Sym>
    decreases m,
{
    if m == 0 {
        Seq::empty()
    } else {
        merged_syms(objs, (m - 1) as nat) + objs[m - 1].syms.map_values(
            |s: Sym| placed(objs, m - 1, s),
        )
    }
}

/// The relocations of the first `m` images, in link order.
pub open spec fn merged_rels(objs: Seq<Image>, m: nat) -> Seq<Rel>
    decreases m,
{
    if m == 0 {
        Seq::empty()
    } else {
        merged_rels(objs, (m - 1) as nat) + objs[m - 1].rels
    }
}

/// `out` with the symbols and relocations of `objs` appended.
pub open spec fn with_symbols(out: Image, objs: Seq<Image>) -> Image {
    Image {
        syms: out.syms + merged_syms(objs, objs.len()),
        rels: out.rels + merged_rels(objs, objs.len()),
        ..out
    }
}

/// The size of every merged section fits its 16 bits.
pub open spec fn sizes_fit(objs: Seq<Image>) -> bool {
    &&& whole_group(objs, SectionType::Text).size <= u16::MAX
    &&& whole_group(objs, SectionType::Data).size <= u16::MAX
    &&& whole_group(objs, SectionType::Rodata).size <= u16::MAX
}

/// The size and presence of a group, as far as the placing of symbols needs
/// them.
#[derive(Clone, Copy)]
struct Measure {
    size: u64,
    present: bool,
}

impl Measure {
    spec fn of(self, g: Group) -> bool {
        self.size == g.size && self.present == g.present
    }
}

/// The measure of `g` with the sections of type `t` among the first `k`
/// sections of `obj`.
fn measure_own(m: Measure, obj: &Vsbf, t: SectionType, k: usize, Ghost(g): Ghost<Group>) -> (r:
    Measure)
    requires
        m.of(g),
        k <= obj@.sections.len(),
        own_group(g, obj@, t, k as nat).size <= u16::MAX,
    ensures
        r.of(own_group(g, obj@, t, k as nat)),
{
    let sections = obj.sections();
    let mut acc = m;
    let mut j: usize = 0;
    while j < k
        invariant
            sections@ == obj@.sections,
            j <= k <= sections@.len(),
            own_group(g, obj@, t, k as nat).size <= u16::MAX,
            acc.of(own_group(g, obj@, t, j as nat)),
        decreases k - j,
    {
        proof {
            lemma_own_group_grows(g, obj@, t, (j + 1) as nat, k as nat);
        }
        if sections[j].typ == t {
            acc = Measure { size: acc.size + sections[j].file_size as u64, present: true };
        }
        j += 1;
    }
    acc
}

/// The measure of all sections of type `t`.
fn measure_all(objs: &[Vsbf], t: SectionType) -> (r: Measure)
    requires
        whole_group(images(objs@), t).size <= u16::MAX,
    ensures
        r.of(whole_group(images(objs@), t)),
{
    let mut acc = Measure { size: 0, present: false };
    let n = objs.len();
    let mut i: usize = 0;
    while i < n
        invariant
            n == objs@.len(),
            i <= n,
            whole_group(images(objs@), t).size <= u16::MAX,
            acc.of(group(images(objs@), t, i as nat)),
        decreases n - i,
    {
        proof {
            lemma_group_grows(images(objs@), t, (i + 1) as nat, n as nat);
        }
        let ghost g = group(images(objs@), t, i as nat);
        acc = measure_own(acc, &objs[i], t, objs[i].sections().len(), Ghost(g));
        i += 1;
    }
    acc
}

/// Appends to `out` the symbols of `objs`, each placed in its merged section,
/// and the relocations of `objs`, all in link order.
pub fn merge_symbols(out: &mut Vsbf, objs: &[Vsbf])
    requires
        sizes_fit(images(objs@)),
    ensures
        final(out)@ == with_symbols(old(out)@, images(objs@)),
{
    let ghost imgs = images(objs@);
    let has_text = measure_all(objs, SectionType::Text).present;
    let has_data = measure_all(objs, SectionType::Data).present;
    let mut text = Measure { size: 0, present: false };
    let mut data = Measure { size: 0, present: false };
    let mut rodata = Measure { size: 0, present: false };
    let n = objs.len();
    let mut i: usize = 0;
    while i < n
        invariant
            n == objs@.len(),
            i <= n,
            imgs == images(objs@),
            sizes_fit(imgs),
            has_text == whole_group(imgs, SectionType::Text).present,
            has_data == whole_group(imgs, SectionType::Data).present,
            text.of(group(imgs, SectionType::Text, i as nat)),
            data.of(group(imgs, SectionType::Data, i as nat)),
            rodata.of(group(imgs, SectionType::Rodata, i as nat)),
            out@ == (Image {
                syms: old(out)@.syms + merged_syms(imgs, i as nat),
                rels: old(out)@.rels + merged_rels(imgs, i as nat),
                ..old(out)@
            }),
        decreases n - i,
    {
        let obj = &objs[i];
        let sections = obj.sections();
        let syms = obj.syms();
        let ghost start = out@;
        proof {
            lemma_group_grows(imgs, SectionType::Text, (i + 1) as nat, n as nat);
            lemma_group_grows(imgs, SectionType::Data, (i + 1) as nat, n as nat);
            lemma_group_grows(imgs, SectionType::Rodata, (i + 1) as nat, n as nat);
            assert(imgs[i as int] == obj@);
        }
        let mut j: usize = 0;
        while j < syms.len()
            invariant
                i < n,
                n == objs@.len(),
                imgs == images(objs@),
                imgs[i as int] == obj@,
                sections@ == obj@.sections,
                syms@ == obj@.syms,
                j <= syms@.len(),
                group(imgs, SectionType::Text, (i + 1) as nat).size <= u16::MAX,
                group(imgs, SectionType::Data, (i + 1) as nat).size <= u16::MAX,
                group(imgs, SectionType::Rodata, (i + 1) as nat).size <= u16::MAX,
                has_text == whole_group(imgs, SectionType::Text).present,
                has_data == whole_group(imgs, SectionType::Data).present,
                text.of(group(imgs, SectionType::Text, i as nat)),
                data.of(group(imgs, SectionType::Data, i as nat)),
                rodata.of(group(imgs, SectionType::Rodata, i as nat)),
                out@ == (Image {
                    syms: start.syms + syms@.subrange(0, j as int).map_values(
                        |s: Sym| placed(imgs, i as int, s),
                    ),
                    ..start
                }),
            decreases syms@.len() - j,
        {
            let sym = syms[j];
            let k = sym.section as usize;
            let moved = if k < sections.len() {
                let t = sections[k].typ;
                let ghost g = group(imgs, t, i as nat);
                proof {
                    lemma_own_group_grows(g, obj@, t, k as nat, obj@.sections.len());
                }
                let before = match t {
                    SectionType::Text => measure_own(text, obj, t, k, Ghost(g)),
                    SectionType::Data => measure_own(data, obj, t, k, Ghost(g)),
                    SectionType::Rodata => measure_own(rodata, obj, t, k, Ghost(g)),
                };
                let index: u16 = match t {
                    SectionType::Text => 0,
                    SectionType::Data => if has_text { 1 } else { 0 },
                    SectionType::Rodata => if has_text {
                        if has_data { 2 } else { 1 }
                    } else {
                        if has_data { 1 } else { 0 }
                    },
                };
                Sym { section: index, value: sym.value.wrapping_add(before.size), ..sym }
            } else {
                sym
            };
            assert(moved == placed(imgs, i as int, sym));
            out.push_sym(moved);
            assert(out@.syms =~= start.syms + syms@.subrange(0, j + 1).map_values(
                |s: Sym| placed(imgs, i as int, s),
            ));
            j += 1;
        }
        assert(syms@.subrange(0, syms@.len() as int) =~= syms@);
        let rels = obj.rels();
        let ghost mid = out@;
        let mut j: usize = 0;
        while j < rels.len()
            invariant
                rels@ == obj@.rels,
                j <= rels@.len(),
                out@ == (Image { rels: mid.rels + rels@.subrange(0, j as int), ..mid }),
            decreases rels@.len() - j,
        {
            out.push_rel(rels[j]);
            assert(out@.rels =~= mid.rels + rels@.subrange(0, j + 1));
            j += 1;
        }
        assert(rels@.subrange(0, rels@.len() as int) =~= rels@);
        let count = sections.len();
        text = measure_own(
            text,
            obj,
            SectionType::Text,
            count,
            Ghost(group(imgs, SectionType::Text, i as nat)),
        );
        data = measure_own(
            data,
            obj,
            SectionType::Data,
            count,
            Ghost(group(imgs, SectionType::Data, i as nat)),
        );
        rodata = measure_own(
            rodata,
            obj,
            SectionType::Rodata,
            count,
            Ghost(group(imgs, SectionType::Rodata, i as nat)),
        );
        assert(out@.syms =~= old(out)@.syms + merged_syms(imgs, (i + 1) as nat));
        assert(out@.rels =~= old(out)@.rels + merged_rels(imgs, (i + 1) as nat));
        i += 1;
    }
}

/// Whether the size of every merged section fits its 16 bits.
pub fn can_merge_symbols(objs: &[Vsbf]) -> (r: bool)
    ensures
        r == sizes_fit(images(objs@)),
{
    crate::link::sections::merged_size(objs, SectionType::Text).is_some()
        && crate::link::sections::merged_size(objs, SectionType::Data).is_some()
        && crate::link::sections::merged_size(objs, SectionType::Rodata).is_some()
}

} // verus!
