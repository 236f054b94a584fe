//! The string table: a run of entries, each a 16-bit little-endian length
//! followed by that many ASCII bytes. An offset names a string only where it
//! is the start of an entry.

use vstd::prelude::*;
use vstd::pervasive::unreached;
use vstd::slice::slice_subrange;
use vstd::string::StringSliceAdditionalSpecFns;
use vstd::utf8::{
    decode_utf8, encode_utf8, encode_utf8_decode_utf8, encode_utf8_valid_utf8,
    is_ascii_chars, is_ascii_chars_encode_utf8, valid_utf8,
};
use crate::wire::{le_at, lemma_le_at_bound, lemma_limits, read_u16};

verus! {

/// The length that the prefix at `at` announces.
pub open spec fn entry_len(t: Seq<u8>, at: int) -> int {
    le_at(t, at, 2) as int
}

/// Where the entry at `at` ends and the next one starts.
pub open spec fn entry_end(t: Seq<u8>, at: int) -> int {
    at + 2 + entry_len(t, at)
}

/// The bytes of the string in the entry at `at`.
pub open spec fn entry_text(t: Seq<u8>, at: int) -> Seq<u8> {
    t.subrange(at + 2, entry_end(t, at))
}

/// Every byte is an ASCII character.
pub open spec fn ascii(text: Seq<u8>) -> bool {
    forall|i: int| 0 <= i < text.len() ==> text[i] < 128
}

/// The characters that ASCII bytes stand for.
pub open spec fn chars_of(text: Seq<u8>) -> Seq<char> {
    Seq::new(text.len(), |i: int| text[i] as char)
}

/// A whole entry stands at `at`: its prefix and its string lie within the
/// table, and the string is ASCII.
pub open spec fn entry_fits(t: Seq<u8>, at: int) -> bool {
    &&& 0 <= at
    &&& at + 2 <= t.len()
    &&& entry_end(t, at) <= t.len()
    &&& ascii(entry_text(t, at))
}

/// From `at` on the table is a run of whole entries that ends where the table
/// ends.
pub open spec fn packed_from(t: Seq<u8>, at: int) -> bool
    decreases t.len() - at,
{
    if at >= t.len() {
        at == t.len()
    } else {
        entry_fits(t, at) && packed_from(t, entry_end(t, at))
    }
}

/// The table is nothing but whole entries.
pub open spec fn well_formed(t: Seq<u8>) -> bool {
    packed_from(t, 0)
}

/// Walking the entries from `at`, one of them starts at `off`.
pub open spec fn starts_entry_from(t: Seq<u8>, at: int, off: int) -> bool
    decreases t.len() - at,
{
    &&& at < t.len()
    &&& entry_fits(t, at)
    &&& (off == at || starts_entry_from(t, entry_end(t, at), off))
}

/// `off` is a valid offset: an entry of the table starts exactly there.
pub open spec fn is_entry(t: Seq<u8>, off: int) -> bool {
    starts_entry_from(t, 0, off)
}

/// The entry that `text` becomes when it is stored: its length, then its
/// bytes.
pub open spec fn entry_of(text: Seq<u8>) -> Seq<u8> {
    crate::wire::le_bytes(text.len(), 2) + text
}

/// Where a name that meant `name` in the table `t` stands once `t` has been
/// copied to `base` in a larger table: a valid offset moves with its entry,
/// any other value stays as it is.
pub open spec fn remap(t: Seq<u8>, base: int, name: u32) -> u32 {
    if is_entry(t, name as int) {
        (base + name) as u32
    } else {
        name
    }
}

/// A stored entry is the entry of its own string.
pub proof fn lemma_entry_bytes(t: Seq<u8>, at: int)
    requires
        entry_fits(t, at),
    ensures
        t.subrange(at, entry_end(t, at)) == entry_of(entry_text(t, at)),
{
    crate::wire::lemma_le_bytes_at(t, at, 2);
    assert(t.subrange(at, entry_end(t, at)) =~= t.subrange(at, at + 2) + entry_text(t, at));
}

/// An entry that starts at `off` lies wholly within the table, and the walk
/// that finds it starts no later than `off`.
pub proof fn lemma_entry_within(t: Seq<u8>, at: int, off: int)
    requires
        starts_entry_from(t, at, off),
    ensures
        at <= off,
        entry_fits(t, off),
        off < t.len(),
    decreases t.len() - at,
{
    if off != at {
        lemma_entry_within(t, entry_end(t, at), off);
    }
}

/// An entry that lies within a table reads the same once more bytes follow
/// the table.
pub proof fn lemma_entry_same(a: Seq<u8>, b: Seq<u8>, at: int)
    requires
        0 <= at,
        at + 2 <= a.len(),
        entry_end(a, at) <= a.len(),
    ensures
        entry_len(a + b, at) == entry_len(a, at),
        entry_text(a + b, at) == entry_text(a, at),
        entry_fits(a + b, at) == entry_fits(a, at),
{
    assert((a + b).subrange(at, at + 2) =~= a.subrange(at, at + 2));
    crate::wire::lemma_le_at_same(a + b, at, a, at, 2);
    assert(entry_text(a + b, at) =~= entry_text(a, at));
}

/// An entry of a table reads the same, moved by the length of what was put
/// in front of the table.
pub proof fn lemma_entry_shifted(a: Seq<u8>, b: Seq<u8>, at: int)
    requires
        0 <= at,
        at + 2 <= b.len(),
        entry_end(b, at) <= b.len(),
    ensures
        entry_len(a + b, a.len() + at) == entry_len(b, at),
        entry_text(a + b, a.len() + at) == entry_text(b, at),
        entry_fits(a + b, a.len() + at) == entry_fits(b, at),
{
    assert((a + b).subrange(a.len() + at, a.len() + at + 2) =~= b.subrange(at, at + 2));
    crate::wire::lemma_le_at_same(a + b, a.len() + at, b, at, 2);
    assert(entry_text(a + b, a.len() + at) =~= entry_text(b, at));
}

/// A run of whole entries stays one when bytes are put in front of it.
pub proof fn lemma_packed_shift(a: Seq<u8>, b: Seq<u8>, k: int)
    requires
        0 <= k,
        packed_from(b, k),
    ensures
        packed_from(a + b, a.len() + k),
    decreases b.len() - k,
{
    if k < b.len() {
        lemma_le_at_bound(b, k, 2);
        lemma_entry_shifted(a, b, k);
        lemma_packed_shift(a, b, entry_end(b, k));
    }
}

/// Two tables of whole entries, one after the other, are a table of whole
/// entries.
pub proof fn lemma_packed_concat(a: Seq<u8>, b: Seq<u8>, at: int)
    requires
        0 <= at,
        packed_from(a, at),
        well_formed(b),
    ensures
        packed_from(a + b, at),
    decreases a.len() - at,
{
    if at < a.len() {
        lemma_entry_same(a, b, at);
        lemma_packed_concat(a, b, entry_end(a, at));
    } else {
        lemma_packed_shift(a, b, 0);
    }
}

/// An entry of a table is still one, with the same string, once more bytes
/// follow the table.
pub proof fn lemma_entry_kept(a: Seq<u8>, b: Seq<u8>, at: int, off: int)
    requires
        0 <= at,
        starts_entry_from(a, at, off),
    ensures
        starts_entry_from(a + b, at, off),
        entry_text(a + b, off) == entry_text(a, off),
    decreases a.len() - at,
{
    lemma_entry_same(a, b, at);
    if off != at {
        lemma_entry_kept(a, b, entry_end(a, at), off);
    }
}

/// An entry found by a walk of a table is found, moved, by the same walk
/// once bytes are put in front of the table.
pub proof fn lemma_entry_moved_from(a: Seq<u8>, b: Seq<u8>, k: int, off: int)
    requires
        0 <= k,
        starts_entry_from(b, k, off),
    ensures
        starts_entry_from(a + b, a.len() + k, a.len() + off),
        entry_text(a + b, a.len() + off) == entry_text(b, off),
    decreases b.len() - k,
{
    lemma_entry_shifted(a, b, k);
    if off != k {
        lemma_entry_moved_from(a, b, entry_end(b, k), off);
    }
}

/// An entry of the second of two tables is an entry of both together, moved
/// by the length of the first, where the first is nothing but whole entries.
pub proof fn lemma_entry_moved(a: Seq<u8>, b: Seq<u8>, at: int, off: int)
    requires
        0 <= at,
        packed_from(a, at),
        is_entry(b, off),
    ensures
        starts_entry_from(a + b, at, a.len() + off),
        entry_text(a + b, a.len() + off) == entry_text(b, off),
    decreases a.len() - at,
{
    if at < a.len() {
        lemma_entry_same(a, b, at);
        lemma_entry_moved(a, b, entry_end(a, at), off);
    } else {
        lemma_entry_moved_from(a, b, 0, off);
    }
}

/// One stored string is a table of its own, with its entry at the start.
pub proof fn lemma_single_entry(text: Seq<u8>)
    requires
        ascii(text),
        text.len() <= u16::MAX,
    ensures
        entry_of(text).len() == 2 + text.len(),
        well_formed(entry_of(text)),
        is_entry(entry_of(text), 0),
        entry_text(entry_of(text), 0) == text,
{
    let e = entry_of(text);
    lemma_limits();
    crate::wire::lemma_le_round_trip(text.len(), 2);
    assert(e.subrange(0, e.len() as int) =~= Seq::<u8>::empty() + crate::wire::le_bytes(
        text.len(),
        2,
    ) + text);
    crate::wire::lemma_le_field(e, 0, e.len() as int, Seq::<u8>::empty(), text.len(), 2, text);
    assert(entry_text(e, 0) =~= text);
    assert(packed_from(e, entry_end(e, 0)));
}

/// ASCII bytes are well-formed UTF-8 and stand for one character each.
pub proof fn lemma_ascii_utf8(text: Seq<u8>)
    requires
        ascii(text),
    ensures
        is_ascii_chars(chars_of(text)),
        encode_utf8(chars_of(text)) == text,
        valid_utf8(text),
        decode_utf8(text) == chars_of(text),
{
    let chars = chars_of(text);
    assert forall|i: int| 0 <= i < chars.len() implies '\0' <= #[trigger] chars[i] <= '\u{7f}' by {
        assert(text[i] < 128);
    }
    is_ascii_chars_encode_utf8(chars);
    assert forall|i: int| 0 <= i < text.len() implies encode_utf8(chars)[i] == text[i] by {
        assert(chars[i] as u8 == encode_utf8(chars)[i]);
        assert(text[i] < 128);
    }
    assert(encode_utf8(chars) =~= text);
    encode_utf8_valid_utf8(chars);
    encode_utf8_decode_utf8(chars);
}

/// `core::str::from_utf8`: the string slice over `bytes` where they are
/// well-formed UTF-8, and nothing where they are not.
#[verifier::external_body]
fn utf8_text(bytes: &[u8]) -> (r: Option<&str>)
    ensures
        r is Some <==> valid_utf8(bytes@),
        r matches Some(s) ==> s.spec_bytes() == bytes@,
{
    match core::str::from_utf8(bytes) {
        Ok(s) => Some(s),
        Err(_) => None,
    }
}

/// The string that ASCII bytes spell.
pub fn ascii_text(bytes: &[u8]) -> (r: &str)
    requires
        ascii(bytes@),
    ensures
        r@ == chars_of(bytes@),
        r.spec_bytes() == bytes@,
        r.is_ascii(),
{
    proof {
        lemma_ascii_utf8(bytes@);
    }
    match utf8_text(bytes) {
        Some(s) => {
            proof {
                encode_utf8_decode_utf8(s@);
            }
            s
        },
        None => unreached(),
    }
}

/// Whether the bytes of `buf` from `from` up to `to` are all ASCII.
pub fn is_ascii_range(buf: &[u8], from: usize, to: usize) -> (r: bool)
    requires
        from <= to <= buf@.len(),
    ensures
        r == ascii(buf@.subrange(from as int, to as int)),
{
    let mut k = from;
    while k < to
        invariant
            from <= k <= to <= buf@.len(),
            ascii(buf@.subrange(from as int, k as int)),
        decreases to - k,
    {
        if buf[k] >= 128 {
            proof {
                let part = buf@.subrange(from as int, to as int);
                assert(part[k - from] == buf@[k as int]);
            }
            return false;
        }
        proof {
            let before = buf@.subrange(from as int, k as int);
            let after = buf@.subrange(from as int, k + 1);
            assert forall|i: int| 0 <= i < after.len() implies after[i] < 128 by {
                if i < k - from {
                    assert(after[i] == before[i]);
                }
            }
        }
        k += 1;
    }
    true
}

/// Whether a whole entry stands at `at`.
pub fn fits_at(table: &[u8], at: usize) -> (r: bool)
    ensures
        r == entry_fits(table@, at as int),
{
    let len = table.len();
    if len < 2 || at > len - 2 {
        return false;
    }
    let n = read_u16(table, at) as usize;
    if n > len - 2 - at {
        return false;
    }
    is_ascii_range(table, at + 2, at + 2 + n)
}

/// Whether the table is nothing but whole entries.
pub fn is_well_formed(table: &[u8]) -> (r: bool)
    ensures
        r == well_formed(table@),
{
    let len = table.len();
    let mut pos: usize = 0;
    while pos < len
        invariant
            len == table@.len(),
            pos <= len,
            well_formed(table@) == packed_from(table@, pos as int),
        decreases len - pos,
    {
        if !fits_at(table, pos) {
            return false;
        }
        pos = pos + 2 + read_u16(table, pos) as usize;
    }
    true
}

/// Whether `off` is a valid offset into the table: the start of an entry.
pub fn holds_entry(table: &[u8], off: u32) -> (r: bool)
    ensures
        r == is_entry(table@, off as int),
{
    let len = table.len();
    let mut pos: usize = 0;
    while pos < len
        invariant
            len == table@.len(),
            pos <= len,
            is_entry(table@, off as int) == starts_entry_from(table@, pos as int, off as int),
        decreases len - pos,
    {
        if !fits_at(table, pos) {
            return false;
        }
        if pos == off as usize {
            return true;
        }
        pos = pos + 2 + read_u16(table, pos) as usize;
    }
    false
}

/// The bytes of the string in the entry at `off`.
pub fn text_at(table: &[u8], off: usize) -> (r: &[u8])
    requires
        entry_fits(table@, off as int),
    ensures
        r@ == entry_text(table@, off as int),
{
    assert(off + 2 <= table.len());
    let n = read_u16(table, off) as usize;
    slice_subrange(table, off + 2, off + 2 + n)
}

/// A walk over the entries of a well-formed table, from first to last. It
/// never changes the table and can be started afresh at any time.
pub struct StrTabIter<'a> {
    table: &'a [u8],
    pos: usize,
}

impl<'a> StrTabIter<'a> {
    #[verifier::type_invariant]
    spec fn inv(self) -> bool {
        &&& self.pos <= self.table@.len() <= u32::MAX
        &&& packed_from(self.table@, self.pos as int)
    }

    /// The table that is walked.
    pub closed spec fn table(self) -> Seq<u8> {
        self.table@
    }

    /// Where the next entry starts, or the table's length at the end.
    pub closed spec fn position(self) -> int {
        self.pos as int
    }

    /// A walk from the first entry of `table`.
    pub fn new(table: &'a [u8]) -> (r: StrTabIter<'a>)
        requires
            well_formed(table@),
            table@.len() <= u32::MAX,
        ensures
            r.table() == table@,
            r.position() == 0,
    {
        StrTabIter { table, pos: 0 }
    }

    /// The offset and string of the next entry; nothing once the table's end
    /// is reached.
    pub fn next(&mut self) -> (r: Option<(u32, &'a str)>)
        ensures
            final(self).table() == old(self).table(),
            old(self).position() <= old(self).table().len(),
            old(self).position() == old(self).table().len() ==> r is None && final(self).position()
                == old(self).position(),
            old(self).position() < old(self).table().len() ==> (r matches Some((off, text))
                && off == old(self).position() && text@ == chars_of(
                entry_text(old(self).table(), old(self).position()),
            ) && text.spec_bytes() == entry_text(old(self).table(), old(self).position())
                && entry_fits(old(self).table(), old(self).position())
                && final(self).position() == entry_end(
                old(self).table(),
                old(self).position(),
            )),
    {
        proof {
            use_type_invariant(&*self);
        }
        let at = self.pos;
        if at >= self.table.len() {
            return None;
        }
        let bytes = text_at(self.table, at);
        let text = ascii_text(bytes);
        self.pos = at + 2 + bytes.len();
        Some((at as u32, text))
    }
}

} // verus!
