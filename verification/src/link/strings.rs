//! Merging string tables: the tables of the inputs, one after another in link
//! order, and every name moved to where its string now stands. Equal strings
//! of different inputs are kept apart; nothing is deduplicated.

use vstd::prelude::*;
use vstd::string::StringSliceAdditionalSpecFns;
use crate::image::{Image, Vsbf};
use crate::strtab::{entry_end, entry_of, entry_text, lemma_entry_bytes, well_formed};
use crate::wire::{push_bytes, push_le};

verus! {

/// What the objects hold, in link order.
pub open spec fn images(objs: Seq<Vsbf>) -> Seq<Image> {
    objs.map_values(|o: Vsbf| o@)
}

/// The string tables of the first `n` images, one after another.
pub open spec fn merged_strtab(objs: Seq<Image>, n: nat) -> Seq<u8>
    decreases n,
{
    if n == 0 {
        Seq::empty()
    } else {
        merged_strtab(objs, (n - 1) as nat) + objs[n - 1].strtab
    }
}

/// Where the string table of image `i` starts in the merged table.
pub open spec fn strtab_base(objs: Seq<Image>, i: nat) -> int {
    merged_strtab(objs, i).len() as int
}

/// Every string table is nothing but whole entries, and all of them together
/// fit the 32-bit size of a table.
pub open spec fn tables_mergeable(objs: Seq<Image>) -> bool {
    &&& forall|i: int| 0 <= i < objs.len() ==> well_formed((#[trigger] objs[i]).strtab)
    &&& merged_strtab(objs, objs.len()).len() <= u32::MAX
}

/// The merged table grows with every image.
pub proof fn lemma_merged_strtab_grows(objs: Seq<Image>, m: nat, n: nat)
    requires
        m <= n,
    ensures
        merged_strtab(objs, m).len() <= merged_strtab(objs, n).len(),
        m < n ==> merged_strtab(objs, m).len() + objs[m as int].strtab.len() <= merged_strtab(
            objs,
            n,
        ).len(),
    decreases n - m,
{
    if m < n {
        lemma_merged_strtab_grows(objs, m + 1, n);
    }
}

/// Well-formed tables merge into a well-formed table.
pub proof fn lemma_merged_well_formed(objs: Seq<Image>, n: nat)
    requires
        n <= objs.len(),
        forall|i: int| 0 <= i < objs.len() ==> well_formed((#[trigger] objs[i]).strtab),
    ensures
        well_formed(merged_strtab(objs, n)),
    decreases n,
{
    if n > 0 {
        lemma_merged_well_formed(objs, (n - 1) as nat);
        assert(well_formed(objs[n - 1].strtab));
        crate::strtab::lemma_packed_concat(merged_strtab(objs, (n - 1) as nat), objs[n - 1].strtab, 0);
    }
}

/// A valid offset into the table of image `i` is, moved by the base of that
/// table, a valid offset into the merged table, and names the same string.
pub proof fn lemma_merged_entry(objs: Seq<Image>, n: nat, i: int, off: int)
    requires
        n <= objs.len(),
        0 <= i < n,
        forall|j: int| 0 <= j < objs.len() ==> well_formed((#[trigger] objs[j]).strtab),
        crate::strtab::is_entry(objs[i].strtab, off),
    ensures
        crate::strtab::is_entry(merged_strtab(objs, n), strtab_base(objs, i as nat) + off),
        entry_text(merged_strtab(objs, n), strtab_base(objs, i as nat) + off) == entry_text(
            objs[i].strtab,
            off,
        ),
    decreases n,
{
    let front = merged_strtab(objs, (n - 1) as nat);
    let last = objs[n - 1].strtab;
    if i == n - 1 {
        lemma_merged_well_formed(objs, (n - 1) as nat);
        crate::strtab::lemma_entry_moved(front, last, 0, off);
    } else {
        lemma_merged_entry(objs, (n - 1) as nat, i, off);
        crate::strtab::lemma_entry_kept(front, last, 0, strtab_base(objs, i as nat) + off);
    }
}

/// Appends the entries of one well-formed table to `merged`, one by one in
/// storage order.
fn append_entries(merged: &mut Vec<u8>, obj: &Vsbf)
    requires
        well_formed(obj@.strtab),
        obj@.strtab.len() <= u32::MAX,
    ensures
        final(merged)@ == old(merged)@ + obj@.strtab,
{
    let ghost table = obj@.strtab;
    let mut entries = obj.strings();
    loop
        invariant
            entries.table() == table,
            0 <= entries.position() <= table.len(),
            merged@ == old(merged)@ + table.subrange(0, entries.position()),
        ensures
            merged@ == old(merged)@ + table,
        decreases table.len() - entries.position(),
    {
        let ghost at = entries.position();
        match entries.next() {
            None => {
                assert(table.subrange(0, at) =~= table);
                break ;
            },
            Some((_, text)) => {
                let bytes = text.as_bytes();
                proof {
                    lemma_entry_bytes(table, at);
                    crate::wire::lemma_le_at_bound(table, at, 2);
                    crate::wire::lemma_limits();
                }
                let ghost so_far = merged@;
                push_le(merged, bytes.len() as u64, 2);
                push_bytes(merged, bytes);
                proof {
                    let end = entry_end(table, at);
                    assert(bytes@ == entry_text(table, at));
                    assert(merged@ =~= so_far + entry_of(bytes@));
                    assert(table.subrange(0, end) =~= table.subrange(0, at) + table.subrange(
                        at,
                        end,
                    ));
                    assert(merged@ =~= old(merged)@ + table.subrange(0, end));
                }
            },
        }
    }
}

/// Whether the string tables of `objs` can be merged.
pub fn can_merge_strtabs(objs: &[Vsbf]) -> (r: bool)
    ensures
        r == tables_mergeable(images(objs@)),
{
    let ghost imgs = images(objs@);
    let n = objs.len();
    let mut size: u64 = 0;
    let mut i: usize = 0;
    while i < n
        invariant
            n == objs@.len(),
            imgs == images(objs@),
            i <= n,
            forall|j: int| 0 <= j < i ==> well_formed((#[trigger] imgs[j]).strtab),
            size == merged_strtab(imgs, i as nat).len(),
            size <= u32::MAX,
        decreases n - i,
    {
        proof {
            assert(imgs[i as int] == objs@[i as int]@);
            lemma_merged_strtab_grows(imgs, (i + 1) as nat, n as nat);
        }
        if !objs[i].has_valid_strtab() {
            assert(!well_formed(imgs[i as int].strtab));
            return false;
        }
        if objs[i].strtab().len() as u64 > 0xffff_ffff - size {
            return false;
        }
        size = size + objs[i].strtab().len() as u64;
        i += 1;
    }
    true
}

/// Merges the string tables of `objs` in link order and rewrites, in every
/// object, each symbol name and each name a relocation needs that is a valid
/// offset into that object's table to the offset of the same string in the
/// merged table. The merged table is returned; the objects keep their own.
pub fn merge_strtabs(objs: &mut [Vsbf]) -> (merged: Vec<u8>)
    requires
        tables_mergeable(images(old(objs)@)),
    ensures
        merged@ == merged_strtab(images(old(objs)@), old(objs)@.len()),
        final(objs)@.len() == old(objs)@.len(),
        forall|i: int|
            0 <= i < old(objs)@.len() ==> (#[trigger] final(objs)@[i])@ == old(objs)@[i]@.renamed(
                strtab_base(images(old(objs)@), i as nat),
            ),
{
    let ghost before = images(objs@);
    let mut merged: Vec<u8> = Vec::new();
    let n = objs.len();
    let mut i: usize = 0;
    while i < n
        invariant
            n == objs@.len(),
            n == old(objs)@.len(),
            i <= n,
            before == images(old(objs)@),
            tables_mergeable(before),
            merged@ == merged_strtab(before, i as nat),
            forall|j: int|
                0 <= j < i ==> (#[trigger] objs@[j])@ == before[j].renamed(strtab_base(before, j as nat)),
            forall|j: int| i <= j < n ==> (#[trigger] objs@[j])@ == before[j],
        decreases n - i,
    {
        proof {
            lemma_merged_strtab_grows(before, i as nat, n as nat);
            assert(well_formed(before[i as int].strtab));
            assert(objs@[i as int]@ == before[i as int]);
        }
        let base = merged.len() as u32;
        append_entries(&mut merged, &objs[i]);
        objs[i].rebase_names(base);
        i += 1;
    }
    merged
}

} // verus!
