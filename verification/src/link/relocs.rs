//! Resolving relocations: each relocation names a symbol; once every input
//! is merged the symbol's address is known and is written, with the addend,
//! into the data at the relocation's target.

use vstd::prelude::*;
use vstd::slice::slice_to_vec;
use crate::error::{Error, Failure};
use crate::image::{Image, Vsbf};
use crate::link::symbols::wrap64;
use crate::reloc::Rel;
use crate::section::SectionHeader;
use crate::strtab::{entry_text, is_entry, lemma_entry_within, text_at};
use crate::symbol::Sym;
use crate::wire::le_bytes;

verus! {

/// The relocation type that writes the symbol's address plus the addend as a
/// 64-bit number.
pub const REL_ABS64: u16 = 0;

/// The relocation type that writes the low 32 bits of the symbol's address
/// plus the addend.
pub const REL_ABS32: u16 = 1;

/// The relocation type that writes the low 32 bits of the distance from the
/// patched place to the symbol's address plus the addend.
pub const REL_PC32: u16 = 2;

/// The number of bytes that a relocation of type `typ` patches; nothing for
/// a type that is not known.
pub open spec fn width(typ: u16) -> Option<nat> {
    if typ == REL_ABS64 {
        Some(8)
    } else if typ == REL_ABS32 || typ == REL_PC32 {
        Some(4)
    } else {
        None
    }
}

/// The name of symbol `i`.
pub open spec fn sym_name(img: Image, i: int) -> Seq<u8> {
    entry_text(img.strtab, img.syms[i].name as int)
}

/// The name that a relocation needs.
pub open spec fn needed_name(img: Image, r: Rel) -> Seq<u8> {
    entry_text(img.strtab, r.needed as int)
}

/// The relocations of the image can be resolved as far as their form goes:
/// the bytes of every section lie within the data, every symbol name and
/// every needed name is a valid offset into the string table, and every
/// relocation is of a known type.
pub open spec fn resolvable(img: Image) -> bool {
    &&& img.sections_in_bounds()
    &&& forall|i: int|
        0 <= i < img.syms.len() ==> is_entry(img.strtab, (#[trigger] img.syms[i]).name as int)
    &&& forall|i: int|
        0 <= i < img.rels.len() ==> is_entry(img.strtab, (#[trigger] img.rels[i]).needed as int)
    &&& forall|i: int| 0 <= i < img.rels.len() ==> width((#[trigger] img.rels[i]).typ) is Some
}

/// How many of the first `n` symbols are named `name`.
pub open spec fn defs(img: Image, name: Seq<u8>, n: nat) -> nat
    decreases n,
{
    if n == 0 {
        0
    } else {
        defs(img, name, (n - 1) as nat) + if sym_name(img, n - 1) == name {
            1nat
        } else {
            0nat
        }
    }
}

/// The index of the last of the first `n` symbols that is named `name`; the
/// one definition, where there is exactly one.
pub open spec fn def_index(img: Image, name: Seq<u8>, n: nat) -> int
    decreases n,
{
    if n == 0 {
        -1
    } else if sym_name(img, n - 1) == name {
        n - 1
    } else {
        def_index(img, name, (n - 1) as nat)
    }
}

/// How many symbols define the name that `r` needs.
pub open spec fn definitions(img: Image, r: Rel) -> nat {
    defs(img, needed_name(img, r), img.syms.len())
}

/// The names, in the order of the relocations, that the first `n`
/// relocations need and no symbol defines.
pub open spec fn undefined(img: Image, n: nat) -> Seq<Seq<u8>>
    decreases n,
{
    if n == 0 {
        Seq::empty()
    } else if definitions(img, img.rels[n - 1]) == 0 {
        undefined(img, (n - 1) as nat).push(needed_name(img, img.rels[n - 1]))
    } else {
        undefined(img, (n - 1) as nat)
    }
}

/// The name needed by the first relocation, from `i` on, whose symbol has
/// more than one definition.
pub open spec fn duplicate_from(img: Image, i: int) -> Option<Seq<u8>>
    decreases img.rels.len() - i,
{
    if i >= img.rels.len() {
        None
    } else if definitions(img, img.rels[i]) >= 2 {
        Some(needed_name(img, img.rels[i]))
    } else {
        duplicate_from(img, i + 1)
    }
}

/// The `w` bytes at `off` lie within the section.
pub open spec fn holds(s: SectionHeader, off: int, w: int) -> bool {
    s.offset <= off && off + w <= s.offset + s.file_size
}

/// How many of the first `n` sections hold the `w` bytes at `off`.
pub open spec fn homes(img: Image, off: int, w: int, n: nat) -> nat
    decreases n,
{
    if n == 0 {
        0
    } else {
        homes(img, off, w, (n - 1) as nat) + if holds(img.sections[n - 1], off, w) {
            1nat
        } else {
            0nat
        }
    }
}

/// The index of the last of the first `n` sections that holds the `w` bytes
/// at `off`; the one such section, where there is exactly one.
pub open spec fn home(img: Image, off: int, w: int, n: nat) -> int
    decreases n,
{
    if n == 0 {
        -1
    } else if holds(img.sections[n - 1], off, w) {
        n - 1
    } else {
        home(img, off, w, (n - 1) as nat)
    }
}

/// The bytes that `r` patches lie within exactly one section.
pub open spec fn in_bounds(img: Image, r: Rel) -> bool {
    homes(img, r.offset as int, width(r.typ).unwrap() as int, img.sections.len()) == 1
}

/// The target offset of the first relocation, from `i` on, that is out of
/// bounds.
pub open spec fn stray_from(img: Image, i: int) -> Option<u64>
    decreases img.rels.len() - i,
{
    if i >= img.rels.len() {
        None
    } else if !in_bounds(img, img.rels[i]) {
        Some(img.rels[i].offset)
    } else {
        stray_from(img, i + 1)
    }
}

/// The address of a symbol: its value within the section that defines it,
/// added to the memory address of that section, modulo `2^64`. A symbol
/// whose section index names no section has its value as its address.
pub open spec fn sym_address(img: Image, s: Sym) -> u64 {
    if s.section < img.sections.len() {
        wrap64(img.sections[s.section as int].memory + s.value)
    } else {
        s.value
    }
}

/// The memory address of the place that `r` patches, modulo `2^64`.
pub open spec fn place_address(img: Image, r: Rel) -> u64 {
    let j = home(img, r.offset as int, width(r.typ).unwrap() as int, img.sections.len());
    wrap64(img.sections[j].memory + (r.offset - img.sections[j].offset))
}

/// The address of the one symbol that defines what `r` needs.
pub open spec fn target_address(img: Image, r: Rel) -> u64 {
    sym_address(img, img.syms[def_index(img, needed_name(img, r), img.syms.len())])
}

/// The number that a relocation of type `typ` writes, given the address
/// `s` of its symbol, its addend `a` and the address `p` of the patched
/// place: the symbol's address plus the addend, as 64 bits or as the low 32
/// bits; or, for the relative type, less the address of the patched place,
/// as the low 32 bits.
pub open spec fn fixup_value(typ: u16, s: u64, a: i16, p: u64) -> nat {
    if typ == REL_ABS64 {
        ((s + a) % 0x1_0000_0000_0000_0000) as nat
    } else if typ == REL_ABS32 {
        ((s + a) % 0x1_0000_0000) as nat
    } else {
        ((s + a - p) % 0x1_0000_0000) as nat
    }
}

/// The number that `r` writes.
pub open spec fn fixup(img: Image, r: Rel) -> nat {
    fixup_value(r.typ, target_address(img, r), r.addend, place_address(img, r))
}

/// `data` with `bytes` written over what stood at `off`.
pub open spec fn patch(data: Seq<u8>, off: int, bytes: Seq<u8>) -> Seq<u8> {
    data.subrange(0, off) + bytes + data.subrange(off + bytes.len(), data.len() as int)
}

/// The bytes that `r` writes.
pub open spec fn fixup_bytes(img: Image, r: Rel) -> Seq<u8> {
    le_bytes(fixup(img, r), width(r.typ).unwrap())
}

/// The data after the first `n` relocations have been applied, in order.
pub open spec fn patched(img: Image, n: nat) -> Seq<u8>
    decreases n,
{
    if n == 0 {
        img.data
    } else {
        patch(
            patched(img, (n - 1) as nat),
            img.rels[n - 1].offset as int,
            fixup_bytes(img, img.rels[n - 1]),
        )
    }
}

/// What resolving the relocations of an image gives. Names that no symbol
/// defines are collected and reported together, before anything else; then
/// the first name with more than one definition; then the first relocation
/// that is out of bounds. Only where every relocation resolves is the data
/// patched, and then by all of them.
pub open spec fn resolved(img: Image) -> Result<Image, Failure> {
    if undefined(img, img.rels.len()).len() > 0 {
        Err(Failure::UndefinedSymbol(undefined(img, img.rels.len())))
    } else if duplicate_from(img, 0) is Some {
        Err(Failure::DuplicateSymbol(duplicate_from(img, 0).unwrap()))
    } else if stray_from(img, 0) is Some {
        Err(Failure::RelocationOutOfBounds(stray_from(img, 0).unwrap()))
    } else {
        Ok(Image { data: patched(img, img.rels.len()), ..img })
    }
}

/// The last definition of a name is a symbol of that name, where there is
/// any.
pub proof fn lemma_def_index(img: Image, name: Seq<u8>, n: nat)
    requires
        defs(img, name, n) > 0,
    ensures
        0 <= def_index(img, name, n) < n,
        sym_name(img, def_index(img, name, n)) == name,
    decreases n,
{
    if n > 0 && sym_name(img, n - 1) != name {
        lemma_def_index(img, name, (n - 1) as nat);
    }
}

/// The last section that holds a range is a section that holds it, where
/// there is any.
pub proof fn lemma_home(img: Image, off: int, w: int, n: nat)
    requires
        homes(img, off, w, n) > 0,
    ensures
        0 <= home(img, off, w, n) < n,
        holds(img.sections[home(img, off, w, n)], off, w),
    decreases n,
{
    if n > 0 && !holds(img.sections[n - 1], off, w) {
        lemma_home(img, off, w, (n - 1) as nat);
    }
}

/// Whether two runs of bytes are the same.
pub fn same_bytes(a: &[u8], b: &[u8]) -> (r: bool)
    ensures
        r == (a@ == b@),
{
    if a.len() != b.len() {
        return false;
    }
    let n = a.len();
    let mut k: usize = 0;
    while k < n
        invariant
            n == a@.len(),
            n == b@.len(),
            k <= n,
            a@.subrange(0, k as int) == b@.subrange(0, k as int),
        decreases n - k,
    {
        if a[k] != b[k] {
            return false;
        }
        assert(a@.subrange(0, k + 1) =~= a@.subrange(0, k as int).push(a@[k as int]));
        assert(b@.subrange(0, k + 1) =~= b@.subrange(0, k as int).push(b@[k as int]));
        k += 1;
    }
    assert(a@.subrange(0, n as int) =~= a@);
    assert(b@.subrange(0, n as int) =~= b@);
    true
}

/// The number of bytes that a relocation of type `typ` patches.
pub fn patch_width(typ: u16) -> (r: Option<usize>)
    ensures
        match width(typ) {
            Some(w) => r == Some(w as usize),
            None => r is None,
        },
{
    if typ == REL_ABS64 {
        Some(8)
    } else if typ == REL_ABS32 || typ == REL_PC32 {
        Some(4)
    } else {
        None
    }
}

/// Whether the relocations of the image can be resolved as far as their
/// form goes.
pub fn is_resolvable(img: &Vsbf) -> (r: bool)
    ensures
        r == resolvable(img@),
{
    if !img.sections_in_bounds() {
        return false;
    }
    let syms = img.syms();
    let mut k: usize = 0;
    while k < syms.len()
        invariant
            syms@ == img@.syms,
            k <= syms@.len(),
            forall|j: int|
                0 <= j < k ==> is_entry(img@.strtab, (#[trigger] img@.syms[j]).name as int),
        decreases syms@.len() - k,
    {
        if !img.has_string_at(syms[k].name) {
            assert(!is_entry(img@.strtab, img@.syms[k as int].name as int));
            return false;
        }
        k += 1;
    }
    let rels = img.rels();
    let mut k: usize = 0;
    while k < rels.len()
        invariant
            rels@ == img@.rels,
            k <= rels@.len(),
            forall|j: int|
                0 <= j < img@.syms.len() ==> is_entry(img@.strtab, (#[trigger] img@.syms[j]).name as int),
            forall|j: int|
                0 <= j < k ==> is_entry(img@.strtab, (#[trigger] img@.rels[j]).needed as int),
            forall|j: int| 0 <= j < k ==> width((#[trigger] img@.rels[j]).typ) is Some,
        decreases rels@.len() - k,
    {
        if !img.has_string_at(rels[k].needed) {
            assert(!is_entry(img@.strtab, img@.rels[k as int].needed as int));
            return false;
        }
        if patch_width(rels[k].typ).is_none() {
            assert(width(img@.rels[k as int].typ) is None);
            return false;
        }
        k += 1;
    }
    true
}

/// How many symbols are named `name`, and the index of the last of them.
fn find_def(img: &Vsbf, name: &[u8]) -> (r: (usize, usize))
    requires
        forall|i: int|
            0 <= i < img@.syms.len() ==> is_entry(img@.strtab, (#[trigger] img@.syms[i]).name as int),
    ensures
        r.0 == defs(img@, name@, img@.syms.len()),
        r.0 > 0 ==> r.1 == def_index(img@, name@, img@.syms.len()),
{
    let syms = img.syms();
    let table = img.strtab();
    let mut count: usize = 0;
    let mut last: usize = 0;
    let mut k: usize = 0;
    while k < syms.len()
        invariant
            syms@ == img@.syms,
            table@ == img@.strtab,
            forall|i: int|
                0 <= i < img@.syms.len() ==> is_entry(img@.strtab, (#[trigger] img@.syms[i]).name as int),
            k <= syms@.len(),
            count <= k,
            count == defs(img@, name@, k as nat),
            count > 0 ==> last == def_index(img@, name@, k as nat),
        decreases syms@.len() - k,
    {
        proof {
            assert(is_entry(img@.strtab, img@.syms[k as int].name as int));
            lemma_entry_within(table@, 0, syms@[k as int].name as int);
        }
        if same_bytes(text_at(table, syms[k].name as usize), name) {
            count += 1;
            last = k;
        }
        k += 1;
    }
    (count, last)
}

/// How many sections hold the `w` bytes at `off`, and the index of the last
/// of them.
fn find_home(img: &Vsbf, off: u64, w: u64) -> (r: (usize, usize))
    ensures
        r.0 == homes(img@, off as int, w as int, img@.sections.len()),
        r.0 > 0 ==> r.1 == home(img@, off as int, w as int, img@.sections.len()),
{
    let sections = img.sections();
    let mut count: usize = 0;
    let mut last: usize = 0;
    let mut k: usize = 0;
    while k < sections.len()
        invariant
            sections@ == img@.sections,
            k <= sections@.len(),
            count <= k,
            count == homes(img@, off as int, w as int, k as nat),
            count > 0 ==> last == home(img@, off as int, w as int, k as nat),
        decreases sections@.len() - k,
    {
        let start = sections[k].offset as u64;
        let end = start + sections[k].file_size as u64;
        if start <= off && off <= end && w <= end - off {
            count += 1;
            last = k;
        }
        k += 1;
    }
    (count, last)
}

/// The names that relocations need and no symbol defines, in the order of
/// the relocations.
fn collect_undefined(img: &Vsbf) -> (names: Vec<Vec<u8>>)
    requires
        resolvable(img@),
    ensures
        names@.map_values(|n: Vec<u8>| n@) == undefined(img@, img@.rels.len()),
{
    let rels = img.rels();
    let table = img.strtab();
    let mut names: Vec<Vec<u8>> = Vec::new();
    let mut k: usize = 0;
    while k < rels.len()
        invariant
            rels@ == img@.rels,
            table@ == img@.strtab,
            resolvable(img@),
            k <= rels@.len(),
            names@.map_values(|n: Vec<u8>| n@) == undefined(img@, k as nat),
        decreases rels@.len() - k,
    {
        proof {
            assert(is_entry(img@.strtab, img@.rels[k as int].needed as int));
            lemma_entry_within(table@, 0, rels@[k as int].needed as int);
        }
        let name = text_at(table, rels[k].needed as usize);
        let found = find_def(img, name);
        if found.0 == 0 {
            let ghost before = names@;
            names.push(slice_to_vec(name));
            assert(names@.map_values(|n: Vec<u8>| n@) =~= before.map_values(|n: Vec<u8>| n@).push(
                name@,
            ));
        }
        k += 1;
    }
    names
}

/// The name needed by the first relocation whose symbol has more than one
/// definition.
fn first_duplicate(img: &Vsbf) -> (r: Option<Vec<u8>>)
    requires
        resolvable(img@),
    ensures
        match duplicate_from(img@, 0) {
            Some(name) => r matches Some(n) && n@ == name,
            None => r is None,
        },
{
    let rels = img.rels();
    let table = img.strtab();
    let mut k: usize = 0;
    while k < rels.len()
        invariant
            rels@ == img@.rels,
            table@ == img@.strtab,
            resolvable(img@),
            k <= rels@.len(),
            duplicate_from(img@, 0) == duplicate_from(img@, k as int),
        decreases rels@.len() - k,
    {
        proof {
            assert(is_entry(img@.strtab, img@.rels[k as int].needed as int));
            lemma_entry_within(table@, 0, rels@[k as int].needed as int);
        }
        let name = text_at(table, rels[k].needed as usize);
        let found = find_def(img, name);
        if found.0 >= 2 {
            return Some(slice_to_vec(name));
        }
        k += 1;
    }
    None
}

/// The target offset of the first relocation that is out of bounds.
fn first_stray(img: &Vsbf) -> (r: Option<u64>)
    requires
        resolvable(img@),
    ensures
        r == stray_from(img@, 0),
{
    let rels = img.rels();
    let mut k: usize = 0;
    while k < rels.len()
        invariant
            rels@ == img@.rels,
            resolvable(img@),
            k <= rels@.len(),
            stray_from(img@, 0) == stray_from(img@, k as int),
        decreases rels@.len() - k,
    {
        assert(width(img@.rels[k as int].typ) is Some);
        let w = match patch_width(rels[k].typ) {
            Some(w) => w,
            None => vstd::pervasive::unreached(),
        };
        let found = find_home(img, rels[k].offset, w as u64);
        if found.0 != 1 {
            return Some(rels[k].offset);
        }
        k += 1;
    }
    None
}

/// Where no name is undefined, every relocation has a definition.
pub proof fn lemma_all_defined(img: Image, n: nat, j: int)
    requires
        undefined(img, n).len() == 0,
        0 <= j < n,
    ensures
        definitions(img, img.rels[j]) > 0,
    decreases n,
{
    if j < n - 1 {
        lemma_all_defined(img, (n - 1) as nat, j);
    }
}

/// Where a relocation needs a name that no symbol defines, the list of
/// undefined names is not empty.
pub proof fn lemma_some_undefined(img: Image, n: nat, j: int)
    requires
        0 <= j < n,
        definitions(img, img.rels[j]) == 0,
    ensures
        undefined(img, n).len() > 0,
    decreases n,
{
    if j < n - 1 {
        lemma_some_undefined(img, (n - 1) as nat, j);
    }
}

/// Where no relocation from `i` on has more than one definition, no
/// duplicate is found from `i` on.
pub proof fn lemma_unique(img: Image, i: int)
    requires
        0 <= i,
        forall|j: int| i <= j < img.rels.len() ==> definitions(img, #[trigger] img.rels[j]) < 2,
    ensures
        duplicate_from(img, i) is None,
    decreases img.rels.len() - i,
{
    if i < img.rels.len() {
        assert(definitions(img, img.rels[i]) < 2);
        lemma_unique(img, i + 1);
    }
}

/// Where no stray relocation is found from `i` on, every relocation from `i`
/// on is in bounds.
pub proof fn lemma_no_strays(img: Image, i: int, j: int)
    requires
        stray_from(img, i) is None,
        0 <= i <= j < img.rels.len(),
    ensures
        in_bounds(img, img.rels[j]),
    decreases j - i,
{
    if i < j {
        lemma_no_strays(img, i + 1, j);
    }
}

/// Where a relocation from `i` on is out of bounds, a stray relocation is
/// found from `i` on.
pub proof fn lemma_some_stray(img: Image, i: int, j: int)
    requires
        0 <= i <= j < img.rels.len(),
        !in_bounds(img, img.rels[j]),
    ensures
        stray_from(img, i) is Some,
    decreases j - i,
{
    if i < j && in_bounds(img, img.rels[i]) {
        lemma_some_stray(img, i + 1, j);
    }
}

/// Where every one of the first `n` relocations has a definition, no name
/// is undefined.
pub proof fn lemma_none_undefined(img: Image, n: nat)
    requires
        n <= img.rels.len(),
        forall|j: int| 0 <= j < n ==> definitions(img, #[trigger] img.rels[j]) > 0,
    ensures
        undefined(img, n).len() == 0,
    decreases n,
{
    if n > 0 {
        lemma_none_undefined(img, (n - 1) as nat);
        assert(definitions(img, img.rels[n - 1]) > 0);
    }
}

/// The name that an undefined relocation needs is among the undefined
/// names.
pub proof fn lemma_undefined_listed(img: Image, n: nat, j: int)
    requires
        0 <= j < n,
        definitions(img, img.rels[j]) == 0,
    ensures
        undefined(img, n).contains(needed_name(img, img.rels[j])),
    decreases n,
{
    let name = needed_name(img, img.rels[j]);
    if j < n - 1 {
        lemma_undefined_listed(img, (n - 1) as nat, j);
        let before = undefined(img, (n - 1) as nat);
        let k = choose|k: int| 0 <= k < before.len() && before[k] == name;
        assert(undefined(img, n)[k] == name);
    } else {
        let all = undefined(img, n);
        assert(all[all.len() - 1] == name);
    }
}

/// A range that starts outside every section lies within none.
pub proof fn lemma_homeless(img: Image, off: int, w: int, n: nat)
    requires
        w > 0,
        forall|k: int|
            0 <= k < n ==> !((#[trigger] img.sections[k]).offset <= off < img.sections[k].offset
                + img.sections[k].file_size),
    ensures
        homes(img, off, w, n) == 0,
    decreases n,
{
    if n > 0 {
        lemma_homeless(img, off, w, (n - 1) as nat);
        let s = img.sections[n - 1];
        assert(!(s.offset <= off < s.offset + s.file_size));
    }
}

/// Undefined symbol: where a relocation needs a name that no symbol of the
/// image has, resolving fails with the undefined names, that name among
/// them, whatever else is wrong with the image.
pub proof fn lemma_undefined_symbol(img: Image, j: int)
    requires
        0 <= j < img.rels.len(),
        definitions(img, img.rels[j]) == 0,
    ensures
        resolved(img) == Err::<Image, Failure>(
            Failure::UndefinedSymbol(undefined(img, img.rels.len())),
        ),
        undefined(img, img.rels.len()).contains(needed_name(img, img.rels[j])),
{
    lemma_some_undefined(img, img.rels.len(), j);
    lemma_undefined_listed(img, img.rels.len(), j);
}

/// Out-of-bounds relocation: where the target offset of a relocation lies
/// outside the bytes of every section, resolving fails with an
/// out-of-bounds error, provided every relocation names a symbol that is
/// defined exactly once.
pub proof fn lemma_out_of_bounds(img: Image, j: int)
    requires
        0 <= j < img.rels.len(),
        width(img.rels[j].typ) is Some,
        forall|k: int|
            0 <= k < img.sections.len() ==> !((#[trigger] img.sections[k]).offset
                <= img.rels[j].offset < img.sections[k].offset + img.sections[k].file_size),
        forall|i: int| 0 <= i < img.rels.len() ==> definitions(img, #[trigger] img.rels[i]) == 1,
    ensures
        resolved(img) matches Err(Failure::RelocationOutOfBounds(_)),
{
    lemma_none_undefined(img, img.rels.len());
    lemma_unique(img, 0);
    let r = img.rels[j];
    lemma_homeless(img, r.offset as int, width(r.typ).unwrap() as int, img.sections.len());
    lemma_some_stray(img, 0, j);
}

/// One planned write: `width` bytes of `value` at `at`.
struct Fix {
    at: usize,
    value: u64,
    width: usize,
}

impl Fix {
    /// The write is the one that `r` asks for, and lies within the data.
    spec fn carries_out(self, img: Image, r: Rel) -> bool {
        &&& self.at == r.offset
        &&& width(r.typ) == Some(self.width as nat)
        &&& self.value == fixup(img, r)
        &&& self.at + self.width <= img.data.len()
    }
}

/// The low 32 bits of a number are those of its low 64 bits.
proof fn lemma_low_bits(v: int)
    ensures
        (v % 0x1_0000_0000_0000_0000) % 0x1_0000_0000 == v % 0x1_0000_0000,
{
    let q = v / 0x1_0000_0000_0000_0000;
    let r = v % 0x1_0000_0000_0000_0000;
    assert(v == 0x1_0000_0000_0000_0000 * q + r);
    let q2 = r / 0x1_0000_0000;
    let r2 = r % 0x1_0000_0000;
    assert(r == 0x1_0000_0000 * q2 + r2);
    assert(v == 0x1_0000_0000 * (0x1_0000_0000 * q + q2) + r2);
    vstd::arithmetic::div_mod::lemma_fundamental_div_mod_converse(
        v,
        0x1_0000_0000,
        0x1_0000_0000 * q + q2,
        r2,
    );
}

/// Computes the number that a relocation writes.
fn fixup_of(typ: u16, address: u64, addend: i16, here: u64) -> (v: u64)
    ensures
        v == fixup_value(typ, address, addend, here),
        typ != REL_ABS64 ==> v < 0x1_0000_0000,
{
    let sum = address.wrapping_add_signed(addend as i64);
    assert(sum == (address + addend) % 0x1_0000_0000_0000_0000);
    if typ == REL_ABS64 {
        sum
    } else if typ == REL_ABS32 {
        proof {
            lemma_low_bits(address + addend);
        }
        sum % 0x1_0000_0000
    } else {
        let distance = sum.wrapping_sub(here);
        assert(distance == (sum - here) % 0x1_0000_0000_0000_0000);
        proof {
            let v = address + addend - here;
            assert((sum - here) % 0x1_0000_0000_0000_0000 == v % 0x1_0000_0000_0000_0000) by {
                let k = (address + addend) / 0x1_0000_0000_0000_0000;
                assert(address + addend == 0x1_0000_0000_0000_0000 * k + sum);
                let q = (sum - here) / 0x1_0000_0000_0000_0000;
                let r = (sum - here) % 0x1_0000_0000_0000_0000;
                assert(sum - here == 0x1_0000_0000_0000_0000 * q + r);
                assert(v == 0x1_0000_0000_0000_0000 * (k + q) + r);
                vstd::arithmetic::div_mod::lemma_fundamental_div_mod_converse(
                    v,
                    0x1_0000_0000_0000_0000,
                    k + q,
                    r,
                );
            }
            lemma_low_bits(v);
        }
        distance % 0x1_0000_0000
    }
}

/// Plans the write of a relocation that resolves.
fn fix_for(img: &Vsbf, r: Rel) -> (f: Fix)
    requires
        resolvable(img@),
        is_entry(img@.strtab, r.needed as int),
        width(r.typ) is Some,
        definitions(img@, r) > 0,
        in_bounds(img@, r),
    ensures
        f.carries_out(img@, r),
{
    let table = img.strtab();
    let sections = img.sections();
    let syms = img.syms();
    proof {
        lemma_entry_within(table@, 0, r.needed as int);
    }
    let name = text_at(table, r.needed as usize);
    let def = find_def(img, name);
    proof {
        lemma_def_index(img@, name@, img@.syms.len());
    }
    let sym = syms[def.1];
    let address = if (sym.section as usize) < sections.len() {
        sections[sym.section as usize].memory.wrapping_add(sym.value)
    } else {
        sym.value
    };
    assert(address == target_address(img@, r));
    let w = match patch_width(r.typ) {
        Some(w) => w,
        None => vstd::pervasive::unreached(),
    };
    let place = find_home(img, r.offset, w as u64);
    let len = img.data().len();
    proof {
        lemma_home(img@, r.offset as int, w as int, img@.sections.len());
        assert(img@.sections[place.1 as int].offset + img@.sections[place.1 as int].file_size
            <= img@.data.len());
        assert(r.offset + w <= len);
    }
    let section = sections[place.1];
    let here = section.memory.wrapping_add(r.offset - section.offset as u64);
    assert(here == place_address(img@, r));
    let value = fixup_of(r.typ, address, r.addend, here);
    Fix { at: r.offset as usize, value, width: w }
}

/// Writes the `n` low bytes of `x` over what stands at `at`.
fn put_le(data: &mut Vec<u8>, at: usize, x: u64, n: usize)
    requires
        n <= 8,
        at + n <= old(data)@.len(),
    ensures
        final(data)@ == patch(old(data)@, at as int, le_bytes(x as nat, n as nat)),
        final(data)@.len() == old(data)@.len(),
    decreases n,
{
    if n > 0 {
        assert(at < data.len());
        data[at] = (x % 256) as u8;
        put_le(data, at + 1, x / 256, n - 1);
        assert(data@ =~= patch(old(data)@, at as int, le_bytes(x as nat, n as nat)));
    } else {
        assert(data@ =~= patch(old(data)@, at as int, le_bytes(x as nat, n as nat)));
    }
}

/// Resolves the relocations of `img` against its symbols and writes every
/// fix-up into its data. Nothing is written unless every relocation
/// resolves: on an error the image is as it was.
pub fn resolve(img: &mut Vsbf) -> (r: Result<(), Error>)
    requires
        resolvable(old(img)@),
    ensures
        match resolved(old(img)@) {
            Ok(done) => r is Ok && final(img)@ == done,
            Err(e) => r matches Err(err) && err@ == e && final(img)@ == old(img)@,
        },
{
    let undefined_names = collect_undefined(img);
    if undefined_names.len() > 0 {
        return Err(Error::UndefinedSymbol(undefined_names));
    }
    if let Some(name) = first_duplicate(img) {
        return Err(Error::DuplicateSymbol(name));
    }
    if let Some(offset) = first_stray(img) {
        return Err(Error::RelocationOutOfBounds(offset));
    }
    let ghost before = img@;
    let mut fixes: Vec<Fix> = Vec::new();
    let rels = img.rels();
    let mut k: usize = 0;
    while k < rels.len()
        invariant
            img@ == before,
            rels@ == before.rels,
            resolvable(before),
            undefined(before, before.rels.len()).len() == 0,
            duplicate_from(before, 0) is None,
            stray_from(before, 0) is None,
            k <= rels@.len(),
            fixes@.len() == k,
            forall|j: int|
                0 <= j < k ==> (#[trigger] fixes@[j]).carries_out(before, before.rels[j]),
        decreases rels@.len() - k,
    {
        proof {
            lemma_all_defined(before, before.rels.len(), k as int);
            lemma_no_strays(before, 0, k as int);
            assert(is_entry(before.strtab, before.rels[k as int].needed as int));
            assert(width(before.rels[k as int].typ) is Some);
        }
        fixes.push(fix_for(img, rels[k]));
        k += 1;
    }
    let data = img.data_mut();
    let mut k: usize = 0;
    while k < fixes.len()
        invariant
            k <= fixes@.len(),
            fixes@.len() == before.rels.len(),
            forall|j: int|
                0 <= j < fixes@.len() ==> (#[trigger] fixes@[j]).carries_out(before, before.rels[j]),
            data@.len() == before.data.len(),
            data@ == patched(before, k as nat),
        decreases fixes@.len() - k,
    {
        assert(fixes@[k as int].carries_out(before, before.rels[k as int]));
        put_le(data, fixes[k].at, fixes[k].value, fixes[k].width);
        k += 1;
    }
    Ok(())
}

} // verus!
