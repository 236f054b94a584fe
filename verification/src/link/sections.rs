//! Merging sections: the sections of one type, from all inputs, become one
//! section. Within a type the bytes follow link order, then the order of the
//! sections within their object; the merged sections are laid out one after
//! another in ascending order of their type byte.

use vstd::prelude::*;
use vstd::slice::slice_subrange;
use crate::flags::PermissionFlags;
use crate::image::{Image, Vsbf};
use crate::link::strings::images;
use crate::section::{SectionHeader, SectionType};
use crate::wire::push_bytes;

verus! {

/// What has been gathered of the sections of one type.
pub struct Group {
    /// The bytes of the sections, one after another.
    pub bytes: Seq<u8>,
    /// The union of their rights.
    pub flags: PermissionFlags,
    /// The sum of their sizes.
    pub size: nat,
    /// The memory address of the first of them.
    pub memory: u64,
    /// Whether there was any.
    pub present: bool,
}

impl Group {
    /// Nothing gathered yet.
    pub open spec fn none() -> Group {
        Group {
            bytes: Seq::empty(),
            flags: PermissionFlags::of_bits(0),
            size: 0,
            memory: 0,
            present: false,
        }
    }

    /// The group with one more section: its bytes are appended, its size is
    /// added, its rights are joined in; the address stays that of the first.
    pub open spec fn add(self, section: SectionHeader, bytes: Seq<u8>) -> Group {
        Group {
            bytes: self.bytes + bytes,
            flags: self.flags.join(section.flags),
            size: self.size + section.file_size as nat,
            memory: if self.present {
                self.memory
            } else {
                section.memory
            },
            present: true,
        }
    }

    /// The merged section that stands for the group, placed at `offset`.
    pub open spec fn header(self, typ: SectionType, offset: int) -> SectionHeader {
        SectionHeader {
            typ,
            flags: self.flags,
            file_size: self.size as u16,
            offset: offset as u32,
            memory: self.memory,
        }
    }
}

/// `g` with the sections of type `t` among the first `n` sections of `img`.
pub open spec fn own_group(g: Group, img: Image, t: SectionType, n: nat) -> Group
    decreases n,
{
    if n == 0 {
        g
    } else {
        let before = own_group(g, img, t, (n - 1) as nat);
        if img.sections[n - 1].typ == t {
            before.add(img.sections[n - 1], img.chunk(n - 1))
        } else {
            before
        }
    }
}

/// The sections of type `t` of the first `m` images, in link order.
pub open spec fn group(objs: Seq<Image>, t: SectionType, m: nat) -> Group
    decreases m,
{
    if m == 0 {
        Group::none()
    } else {
        own_group(group(objs, t, (m - 1) as nat), objs[m - 1], t, objs[m - 1].sections.len())
    }
}

/// All sections of type `t`.
pub open spec fn whole_group(objs: Seq<Image>, t: SectionType) -> Group {
    group(objs, t, objs.len())
}

/// `out` with the merged section of a group, if the group has any section:
/// the section starts where the data ended, and the group's bytes follow the
/// data.
pub open spec fn with_group(out: Image, g: Group, t: SectionType) -> Image {
    if g.present {
        Image {
            sections: out.sections.push(g.header(t, out.data.len() as int)),
            data: out.data + g.bytes,
            ..out
        }
    } else {
        out
    }
}

/// `out` with the merged sections of `objs`, in ascending order of type byte.
pub open spec fn merged_sections(out: Image, objs: Seq<Image>) -> Image {
    with_group(
        with_group(
            with_group(out, whole_group(objs, SectionType::Text), SectionType::Text),
            whole_group(objs, SectionType::Data),
            SectionType::Data,
        ),
        whole_group(objs, SectionType::Rodata),
        SectionType::Rodata,
    )
}

/// The sections can be merged into `out`: the bytes of every section lie
/// within the data of its object, the size of each merged section fits its
/// 16 bits, and every offset into the grown data fits its 32 bits.
pub open spec fn sections_mergeable(out: Image, objs: Seq<Image>) -> bool {
    &&& forall|i: int| 0 <= i < objs.len() ==> (#[trigger] objs[i]).sections_in_bounds()
    &&& whole_group(objs, SectionType::Text).size <= u16::MAX
    &&& whole_group(objs, SectionType::Data).size <= u16::MAX
    &&& whole_group(objs, SectionType::Rodata).size <= u16::MAX
    &&& out.data.len() + whole_group(objs, SectionType::Text).size + whole_group(
        objs,
        SectionType::Data,
    ).size + whole_group(objs, SectionType::Rodata).size <= u32::MAX
}

/// A group holds as many bytes as the sizes of its sections add up to, where
/// the bytes of every section lie within the data.
pub proof fn lemma_own_group_size(g: Group, img: Image, t: SectionType, n: nat)
    requires
        img.sections_in_bounds(),
        n <= img.sections.len(),
        g.bytes.len() == g.size,
    ensures
        own_group(g, img, t, n).bytes.len() == own_group(g, img, t, n).size,
        g.size <= own_group(g, img, t, n).size,
    decreases n,
{
    if n > 0 {
        lemma_own_group_size(g, img, t, (n - 1) as nat);
        let s = img.sections[n - 1];
        assert(s.offset + s.file_size <= img.data.len());
    }
}

/// The same for the sections of several images; and a group never shrinks.
pub proof fn lemma_group_size(objs: Seq<Image>, t: SectionType, m: nat, n: nat)
    requires
        forall|i: int| 0 <= i < objs.len() ==> (#[trigger] objs[i]).sections_in_bounds(),
        m <= n <= objs.len(),
    ensures
        group(objs, t, m).bytes.len() == group(objs, t, m).size,
        group(objs, t, m).size <= group(objs, t, n).size,
    decreases n,
{
    if m > 0 {
        lemma_group_size(objs, t, (m - 1) as nat, (m - 1) as nat);
        assert(objs[m - 1].sections_in_bounds());
        lemma_own_group_size(
            group(objs, t, (m - 1) as nat),
            objs[m - 1],
            t,
            objs[m - 1].sections.len(),
        );
    }
    if m < n {
        lemma_group_size(objs, t, m, (n - 1) as nat);
        lemma_group_size(objs, t, (n - 1) as nat, (n - 1) as nat);
        assert(objs[n - 1].sections_in_bounds());
        lemma_own_group_size(
            group(objs, t, (n - 1) as nat),
            objs[n - 1],
            t,
            objs[n - 1].sections.len(),
        );
    }
}

/// The rights of a group are known rights, where those of its sections are.
pub proof fn lemma_own_group_flags(g: Group, img: Image, t: SectionType, n: nat)
    requires
        img.flags_valid(),
        n <= img.sections.len(),
        g.flags.valid(),
    ensures
        own_group(g, img, t, n).flags.valid(),
    decreases n,
{
    if n > 0 {
        lemma_own_group_flags(g, img, t, (n - 1) as nat);
        let before = own_group(g, img, t, (n - 1) as nat);
        let s = img.sections[n - 1];
        assert(s.flags.valid());
        PermissionFlags::lemma_join(before.flags, s.flags);
    }
}

/// The same for the sections of several images.
pub proof fn lemma_group_flags(objs: Seq<Image>, t: SectionType, m: nat)
    requires
        forall|i: int| 0 <= i < objs.len() ==> (#[trigger] objs[i]).flags_valid(),
        m <= objs.len(),
    ensures
        group(objs, t, m).flags.valid(),
    decreases m,
{
    if m > 0 {
        lemma_group_flags(objs, t, (m - 1) as nat);
        assert(objs[m - 1].flags_valid());
        lemma_own_group_flags(
            group(objs, t, (m - 1) as nat),
            objs[m - 1],
            t,
            objs[m - 1].sections.len(),
        );
    } else {
        PermissionFlags::lemma_of_bits(0);
    }
}

/// A group depends on the sections and the data of an image alone.
pub proof fn lemma_own_group_same(g: Group, a: Image, b: Image, t: SectionType, n: nat)
    requires
        a.sections == b.sections,
        a.data == b.data,
    ensures
        own_group(g, a, t, n) == own_group(g, b, t, n),
    decreases n,
{
    if n > 0 {
        lemma_own_group_same(g, a, b, t, (n - 1) as nat);
    }
}

/// The same for the sections of several images.
pub proof fn lemma_group_same(a: Seq<Image>, b: Seq<Image>, t: SectionType, m: nat)
    requires
        a.len() == b.len(),
        m <= a.len(),
        forall|i: int| 0 <= i < a.len() ==> (#[trigger] a[i]).sections == b[i].sections,
        forall|i: int| 0 <= i < a.len() ==> (#[trigger] a[i]).data == b[i].data,
    ensures
        group(a, t, m) == group(b, t, m),
    decreases m,
{
    if m > 0 {
        lemma_group_same(a, b, t, (m - 1) as nat);
        assert(a[m - 1].sections == b[m - 1].sections);
        assert(a[m - 1].data == b[m - 1].data);
        lemma_own_group_same(
            group(a, t, (m - 1) as nat),
            a[m - 1],
            b[m - 1],
            t,
            a[m - 1].sections.len(),
        );
    }
}

/// A merged section lies within the data that it was appended to, and the
/// sections that were there before still do.
pub proof fn lemma_with_group_in_bounds(out: Image, g: Group, t: SectionType)
    requires
        out.sections_in_bounds(),
        g.bytes.len() == g.size,
        g.size <= u16::MAX,
        out.data.len() <= u32::MAX,
    ensures
        with_group(out, g, t).sections_in_bounds(),
        with_group(out, g, t).data.len() == out.data.len() + if g.present {
            g.size
        } else {
            0
        },
{
    let after = with_group(out, g, t);
    assert forall|k: int| 0 <= k < after.sections.len() implies (#[trigger] after.sections[k]).offset
        + after.sections[k].file_size <= after.data.len() by {
        if k < out.sections.len() {
            assert(after.sections[k] == out.sections[k]);
        }
    }
}

/// The merged sections lie within the merged data.
pub proof fn lemma_merged_in_bounds(out: Image, objs: Seq<Image>)
    requires
        out.sections_in_bounds(),
        sections_mergeable(out, objs),
    ensures
        merged_sections(out, objs).sections_in_bounds(),
{
    let text = whole_group(objs, SectionType::Text);
    let data = whole_group(objs, SectionType::Data);
    let rodata = whole_group(objs, SectionType::Rodata);
    lemma_group_size(objs, SectionType::Text, objs.len(), objs.len());
    lemma_group_size(objs, SectionType::Data, objs.len(), objs.len());
    lemma_group_size(objs, SectionType::Rodata, objs.len(), objs.len());
    lemma_with_group_in_bounds(out, text, SectionType::Text);
    let one = with_group(out, text, SectionType::Text);
    lemma_with_group_in_bounds(one, data, SectionType::Data);
    let two = with_group(one, data, SectionType::Data);
    lemma_with_group_in_bounds(two, rodata, SectionType::Rodata);
}

/// The bytes of the first `n` sections of an image, in the order of the
/// sections.
pub open spec fn chunks(img: Image, n: nat) -> Seq<u8>
    decreases n,
{
    if n == 0 {
        Seq::empty()
    } else {
        chunks(img, (n - 1) as nat) + img.chunk(n - 1)
    }
}

/// The sections of the image stand in ascending order of their type byte.
pub open spec fn ascending(img: Image) -> bool {
    forall|i: int, j: int|
        0 <= i <= j < img.sections.len() ==> (#[trigger] img.sections[i]).typ.id() <= (
        #[trigger] img.sections[j]).typ.id()
}

/// Where none of the first `n` sections is of type `t`, nothing is gathered.
pub proof fn lemma_none_of_type(img: Image, t: SectionType, n: nat)
    requires
        forall|k: int| 0 <= k < n ==> (#[trigger] img.sections[k]).typ != t,
    ensures
        own_group(Group::none(), img, t, n) == Group::none(),
    decreases n,
{
    if n > 0 {
        lemma_none_of_type(img, t, (n - 1) as nat);
        assert(img.sections[n - 1].typ != t);
    }
}

/// A group that holds no section holds no bytes.
pub proof fn lemma_absent_empty(img: Image, t: SectionType, n: nat)
    requires
        !own_group(Group::none(), img, t, n).present,
    ensures
        own_group(Group::none(), img, t, n).bytes == Seq::<u8>::empty(),
    decreases n,
{
    if n > 0 {
        if img.sections[n - 1].typ != t {
            lemma_absent_empty(img, t, (n - 1) as nat);
        }
    }
}

/// The bytes of sections in ascending order of type are the bytes of the
/// text sections, then those of the data sections, then those of the
/// read-only data sections.
pub proof fn lemma_ascending_chunks(img: Image, n: nat)
    requires
        ascending(img),
        n <= img.sections.len(),
    ensures
        chunks(img, n) == own_group(Group::none(), img, SectionType::Text, n).bytes + own_group(
            Group::none(),
            img,
            SectionType::Data,
            n,
        ).bytes + own_group(Group::none(), img, SectionType::Rodata, n).bytes,
    decreases n,
{
    let none = Group::none();
    if n > 0 {
        let m = (n - 1) as nat;
        lemma_ascending_chunks(img, m);
        let t = img.sections[n - 1].typ;
        let text = own_group(none, img, SectionType::Text, m).bytes;
        let data = own_group(none, img, SectionType::Data, m).bytes;
        let rodata = own_group(none, img, SectionType::Rodata, m).bytes;
        let c = img.chunk(n - 1);
        match t {
            SectionType::Text => {
                assert forall|k: int| 0 <= k < m implies (#[trigger] img.sections[k]).typ
                    != SectionType::Data by {
                    assert(img.sections[k].typ.id() <= img.sections[n - 1].typ.id());
                }
                assert forall|k: int| 0 <= k < m implies (#[trigger] img.sections[k]).typ
                    != SectionType::Rodata by {
                    assert(img.sections[k].typ.id() <= img.sections[n - 1].typ.id());
                }
                lemma_none_of_type(img, SectionType::Data, m);
                lemma_none_of_type(img, SectionType::Rodata, m);
                assert(text + data + rodata + c =~= (text + c) + data + rodata);
            },
            SectionType::Data => {
                assert forall|k: int| 0 <= k < m implies (#[trigger] img.sections[k]).typ
                    != SectionType::Rodata by {
                    assert(img.sections[k].typ.id() <= img.sections[n - 1].typ.id());
                }
                lemma_none_of_type(img, SectionType::Rodata, m);
                assert(text + data + rodata + c =~= text + (data + c) + rodata);
            },
            SectionType::Rodata => {
                assert(text + data + rodata + c =~= text + data + (rodata + c));
            },
        }
    } else {
        assert(chunks(img, n) =~= none.bytes + none.bytes + none.bytes);
    }
}

/// The bytes of the sections depend on the sections and the data alone.
pub proof fn lemma_chunks_same(a: Image, b: Image, n: nat)
    requires
        a.sections == b.sections,
        a.data == b.data,
    ensures
        chunks(a, n) == chunks(b, n),
    decreases n,
{
    if n > 0 {
        lemma_chunks_same(a, b, (n - 1) as nat);
    }
}

/// Single-input identity: merging the sections of one image whose sections
/// stand in ascending order of type appends to the data exactly the bytes of
/// its sections, in their own order: nothing is moved and nothing is
/// doubled.
pub proof fn lemma_single_input_identity(out: Image, x: Image)
    requires
        ascending(x),
    ensures
        merged_sections(out, seq![x]).data == out.data + chunks(x, x.sections.len()),
{
    let objs = seq![x];
    let n = x.sections.len();
    let none = Group::none();
    lemma_ascending_chunks(x, n);
    assert(group(objs, SectionType::Text, 0) == none);
    assert(group(objs, SectionType::Data, 0) == none);
    assert(group(objs, SectionType::Rodata, 0) == none);
    let text = whole_group(objs, SectionType::Text);
    let data = whole_group(objs, SectionType::Data);
    let rodata = whole_group(objs, SectionType::Rodata);
    assert(text == own_group(none, x, SectionType::Text, n));
    assert(data == own_group(none, x, SectionType::Data, n));
    assert(rodata == own_group(none, x, SectionType::Rodata, n));
    if !text.present {
        lemma_absent_empty(x, SectionType::Text, n);
    }
    if !data.present {
        lemma_absent_empty(x, SectionType::Data, n);
    }
    if !rodata.present {
        lemma_absent_empty(x, SectionType::Rodata, n);
    }
    assert(merged_sections(out, objs).data =~= out.data + (text.bytes + data.bytes
        + rodata.bytes));
}

/// A group only grows as more sections of an image are looked at.
pub proof fn lemma_own_group_grows(g: Group, img: Image, t: SectionType, k: nat, n: nat)
    requires
        k <= n,
    ensures
        own_group(g, img, t, k).size <= own_group(g, img, t, n).size,
        own_group(g, img, t, k).present ==> own_group(g, img, t, n).present,
    decreases n,
{
    if k < n {
        lemma_own_group_grows(g, img, t, k, (n - 1) as nat);
    }
}

/// A group only grows as more images are looked at.
pub proof fn lemma_group_grows(objs: Seq<Image>, t: SectionType, m: nat, n: nat)
    requires
        m <= n,
    ensures
        group(objs, t, m).size <= group(objs, t, n).size,
        group(objs, t, m).present ==> group(objs, t, n).present,
    decreases n,
{
    if m < n {
        lemma_group_grows(objs, t, m, (n - 1) as nat);
        lemma_own_group_grows(
            group(objs, t, (n - 1) as nat),
            objs[n - 1],
            t,
            0,
            objs[n - 1].sections.len(),
        );
    }
}

/// The size of a group with the sections of type `t` of `obj`, given the
/// size `start` of the group `g` before them; nothing where that size does
/// not fit 16 bits.
fn size_with(obj: &Vsbf, t: SectionType, start: u64, Ghost(g): Ghost<Group>) -> (r: Option<u64>)
    requires
        start == g.size,
        start <= u16::MAX,
    ensures
        match r {
            Some(size) => size == own_group(g, obj@, t, obj@.sections.len()).size && size
                <= u16::MAX,
            None => own_group(g, obj@, t, obj@.sections.len()).size > u16::MAX,
        },
{
    let list = obj.sections();
    let mut size = start;
    let mut k: usize = 0;
    while k < list.len()
        invariant
            list@ == obj@.sections,
            k <= list@.len(),
            size <= u16::MAX,
            size == own_group(g, obj@, t, k as nat).size,
        decreases list@.len() - k,
    {
        if list[k].typ == t {
            size = size + list[k].file_size as u64;
            if size > 0xffff {
                proof {
                    lemma_own_group_grows(g, obj@, t, (k + 1) as nat, obj@.sections.len());
                }
                return None;
            }
        }
        k += 1;
    }
    Some(size)
}

/// The size of the merged section of type `t`: the sizes of all sections of
/// that type added up; nothing where the sum does not fit 16 bits.
pub fn merged_size(objs: &[Vsbf], t: SectionType) -> (r: Option<u16>)
    ensures
        match r {
            Some(size) => size == whole_group(images(objs@), t).size,
            None => whole_group(images(objs@), t).size > u16::MAX,
        },
{
    let ghost imgs = images(objs@);
    let n = objs.len();
    let mut size: u64 = 0;
    let mut i: usize = 0;
    while i < n
        invariant
            n == objs@.len(),
            imgs == images(objs@),
            i <= n,
            size <= u16::MAX,
            size == group(imgs, t, i as nat).size,
        decreases n - i,
    {
        proof {
            assert(imgs[i as int] == objs@[i as int]@);
            lemma_group_grows(imgs, t, (i + 1) as nat, n as nat);
        }
        match size_with(&objs[i], t, size, Ghost(group(imgs, t, i as nat))) {
            None => {
                return None;
            },
            Some(more) => {
                size = more;
            },
        }
        i += 1;
    }
    Some(size as u16)
}

/// Whether the sections of `objs` can be merged into `out`.
pub fn can_merge_sections(out: &Vsbf, objs: &[Vsbf]) -> (r: bool)
    ensures
        r == sections_mergeable(out@, images(objs@)),
{
    let ghost imgs = images(objs@);
    let n = objs.len();
    let mut i: usize = 0;
    while i < n
        invariant
            n == objs@.len(),
            imgs == images(objs@),
            i <= n,
            forall|j: int| 0 <= j < i ==> (#[trigger] imgs[j]).sections_in_bounds(),
        decreases n - i,
    {
        if !objs[i].sections_in_bounds() {
            assert(!imgs[i as int].sections_in_bounds());
            return false;
        }
        i += 1;
    }
    let text = match merged_size(objs, SectionType::Text) {
        None => {
            return false;
        },
        Some(size) => size,
    };
    let data = match merged_size(objs, SectionType::Data) {
        None => {
            return false;
        },
        Some(size) => size,
    };
    let rodata = match merged_size(objs, SectionType::Rodata) {
        None => {
            return false;
        },
        Some(size) => size,
    };
    let used = out.data().len();
    used <= 0xffff_ffff && used as u64 + text as u64 + data as u64 + rodata as u64 <= 0xffff_ffff
}

/// A group while it is gathered.
struct Gathered {
    bytes: Vec<u8>,
    flags: PermissionFlags,
    memory: u64,
    present: bool,
}

impl View for Gathered {
    type V = Group;

    closed spec fn view(&self) -> Group {
        Group {
            bytes: self.bytes@,
            flags: self.flags,
            size: self.bytes@.len(),
            memory: self.memory,
            present: self.present,
        }
    }
}

/// Adds the sections of type `t` of one object to what has been gathered.
fn gather_own(acc: &mut Gathered, obj: &Vsbf, t: SectionType)
    requires
        obj@.sections_in_bounds(),
    ensures
        final(acc)@ == own_group(old(acc)@, obj@, t, obj@.sections.len()),
{
    let sections = obj.sections();
    let data = obj.data();
    let n = sections.len();
    let mut k: usize = 0;
    while k < n
        invariant
            n == sections@.len(),
            sections@ == obj@.sections,
            data@ == obj@.data,
            obj@.sections_in_bounds(),
            k <= n,
            acc@ == own_group(old(acc)@, obj@, t, k as nat),
        decreases n - k,
    {
        let section = sections[k];
        if section.typ == t {
            assert(obj@.sections[k as int].offset + obj@.sections[k as int].file_size
                <= obj@.data.len());
            assert(section.offset + section.file_size <= data.len());
            let start = section.offset as usize;
            let end = start + section.file_size as usize;
            push_bytes(&mut acc.bytes, slice_subrange(data, start, end));
            acc.flags = acc.flags.union(section.flags);
            if !acc.present {
                acc.memory = section.memory;
            }
            acc.present = true;
        }
        k += 1;
    }
}

/// Gathers the sections of type `t` of all objects, in link order.
fn gather(objs: &[Vsbf], t: SectionType) -> (r: Gathered)
    requires
        forall|i: int| 0 <= i < objs@.len() ==> (#[trigger] images(objs@)[i]).sections_in_bounds(),
    ensures
        r@ == whole_group(images(objs@), t),
{
    let mut acc = Gathered {
        bytes: Vec::new(),
        flags: PermissionFlags::empty(),
        memory: 0,
        present: false,
    };
    let n = objs.len();
    let mut i: usize = 0;
    while i < n
        invariant
            n == objs@.len(),
            i <= n,
            forall|j: int|
                0 <= j < objs@.len() ==> (#[trigger] images(objs@)[j]).sections_in_bounds(),
            acc@ == group(images(objs@), t, i as nat),
        decreases n - i,
    {
        assert(images(objs@)[i as int].sections_in_bounds());
        gather_own(&mut acc, &objs[i], t);
        i += 1;
    }
    acc
}

/// Appends the merged section of a group to `out`, if the group has any
/// section, and the group's bytes to the data.
fn place(out: &mut Vsbf, g: Gathered, t: SectionType)
    requires
        g@.size <= u16::MAX,
        old(out)@.data.len() <= u32::MAX,
    ensures
        final(out)@ == with_group(old(out)@, g@, t),
{
    if g.present {
        let section = SectionHeader {
            typ: t,
            flags: g.flags,
            file_size: g.bytes.len() as u16,
            offset: out.data().len() as u32,
            memory: g.memory,
        };
        out.push_section(section);
        push_bytes(out.data_mut(), g.bytes.as_slice());
    }
}

/// Merges the sections of `objs` into `out`: for each section type that
/// occurs, one section is appended to `out`, and the bytes of all sections of
/// that type, in link order, to its data. The merged sections follow each
/// other in ascending order of their type byte, each starting where the data
/// ended when it was appended.
pub fn merge_sections(out: &mut Vsbf, objs: &[Vsbf])
    requires
        sections_mergeable(old(out)@, images(objs@)),
    ensures
        final(out)@ == merged_sections(old(out)@, images(objs@)),
{
    let text = gather(objs, SectionType::Text);
    let data = gather(objs, SectionType::Data);
    let rodata = gather(objs, SectionType::Rodata);
    place(out, text, SectionType::Text);
    place(out, data, SectionType::Data);
    place(out, rodata, SectionType::Rodata);
}

} // verus!
